//! A track: its identifier, its names, and what is made of them.

use vstd::prelude::*;
use vstd::string::*;
use vstd::utf8::*;

use crate::source::{following, segments, split_path, BadLink, Fault};
use crate::tags::{comma_separated, joined, Meta, MetaView, Number};
use crate::text::{
    all_digits, char_width, chars_of, control, copy_text, copy_texts, decimal, decimal_digits,
    is_control, is_digit, law_trimming_takes_white_space_off, lemma_encoded_joined,
    lemma_encoded_push, lemma_texts_push, lemma_trimmed_end, lemma_trimmed_end_rest,
    lemma_trimmed_ends, text_between, text_of, texts, trim, trim_end, trimmed, trimmed_end, white,
};

verus! {

/// The identifier of a track.
#[derive(Debug, PartialEq, Eq)]
pub struct TrackId(pub String);

impl Clone for TrackId {
    fn clone(&self) -> (r: Self)
        ensures
            r == *self,
    {
        TrackId(self.0.clone())
    }
}

impl View for TrackId {
    type V = Seq<char>;

    open spec fn view(&self) -> Seq<char> {
        self.0@
    }
}

/// Whether a text looks like an identifier.
pub open spec fn id_text(s: Seq<char>) -> bool {
    s.len() > 0 && all_digits(s)
}

/// Whether a text looks like an identifier.
pub fn is_id(value: &str) -> (r: bool)
    ensures
        r == id_text(value@),
{
    let chars = chars_of(value);
    if chars.len() == 0 {
        return false;
    }
    let mut i: usize = 0;
    while i < chars.len()
        invariant
            i <= chars@.len(),
            chars@ == value@,
            forall|j: int| 0 <= j < i ==> crate::text::digit(#[trigger] value@[j]),
        decreases chars@.len() - i,
    {
        if !is_digit(chars[i]) {
            return false;
        }
        i += 1;
    }
    true
}

/// The identifier in a link to a track: the link itself, or the segment behind
/// `track`.
pub open spec fn track_in(input: Seq<char>) -> Option<Seq<char>> {
    let link = trimmed(input);
    if id_text(link) {
        Some(link)
    } else {
        match following(segments(link), "track"@) {
            Some(id) => if id_text(id) {
                Some(id)
            } else {
                None
            },
            None => None,
        }
    }
}

impl TrackId {
    pub fn as_str(&self) -> (r: &str)
        ensures
            r@ == self@,
    {
        self.0.as_str()
    }

    /// Takes the identifier out of a link to a track.
    ///
    /// Understood are `music.yandex.ru/album/<id>/track/<id>`,
    /// `music.yandex.ru/track/<id>` and the bare identifier.
    pub fn parse(input: &str) -> (r: Result<Self, BadLink>)
        ensures
            match r {
                Ok(id) => track_in(input@) == Some(id@),
                Err(bad) => track_in(input@) is None && bad.fault == Fault::NoTrack && bad.link@
                    == trimmed(input@),
            },
    {
        let link = trim(input);
        if is_id(link.as_str()) {
            return Ok(TrackId(link));
        }
        let parts = split_path(link.as_str());
        match crate::source::after(parts.as_slice(), "track") {
            Some(id) if is_id(id) => Ok(TrackId(id.to_owned())),
            _other => Err(BadLink { fault: Fault::NoTrack, link }),
        }
    }
}

/// The name of the artists of a track without any.
pub const UNKNOWN_ARTIST: &'static str = "<неизвестный исполнитель>";

/// The title of a track without one.
pub const UNTITLED: &'static str = "<без названия>";

/// The longest name of a file without its extension, in bytes.
///
/// Most file systems bound a name by 255 bytes; the rest is for the extension
/// and the suffix of an unfinished download.
pub const MAX_NAME_BYTES: usize = 150;

/// An artist, as the service describes one.
#[derive(Debug)]
pub struct Artist {
    pub name: Option<String>,
}

/// The place of a track in an album, as the service describes it.
#[derive(Debug, Clone, Copy)]
pub struct TrackPosition {
    pub volume: u8,
    pub index: u32,
}

/// An album, as the service describes one.
#[derive(Debug)]
pub struct Album {
    pub title: Option<String>,
    pub artists: Vec<Artist>,
    pub year: Option<u16>,
    pub genre: Option<String>,
    pub track_position: Option<TrackPosition>,
    pub track_count: Option<u32>,
}

/// A track, as the service describes one.
#[derive(Debug)]
pub struct Track {
    pub id: String,
    pub artists: Vec<Artist>,
    pub title: Option<String>,
    pub albums: Vec<Album>,
}

/// The place of a track in an album: the number of the disc and the number on it.
#[derive(Debug, Clone, Copy, PartialEq, Eq, Structural)]
pub struct Position {
    pub volume: u16,
    pub index: u16,
}

/// The album of a track: all that goes into tags.
#[derive(Debug, PartialEq, Eq)]
pub struct AlbumInfo {
    pub title: Option<String>,
    pub artists: Vec<String>,
    pub year: Option<u16>,
    pub genre: Option<String>,
    pub position: Option<Position>,
    pub tracks: Option<u16>,
}

/// A track: all that is printed, written into tags and made into a file name.
#[derive(Debug, PartialEq, Eq)]
pub struct TrackInfo {
    pub id: TrackId,
    pub artists: Vec<String>,
    pub title: Option<String>,
    pub album: Option<AlbumInfo>,
}

/// The texts and numbers of an [`AlbumInfo`].
#[verifier::ext_equal]
pub struct AlbumView {
    pub title: Option<Seq<char>>,
    pub artists: Seq<Seq<char>>,
    pub year: Option<u16>,
    pub genre: Option<Seq<char>>,
    pub position: Option<Position>,
    pub tracks: Option<u16>,
}

/// The texts and numbers of a [`TrackInfo`].
#[verifier::ext_equal]
pub struct TrackView {
    pub id: Seq<char>,
    pub artists: Seq<Seq<char>>,
    pub title: Option<Seq<char>>,
    pub album: Option<AlbumView>,
}

impl View for AlbumInfo {
    type V = AlbumView;

    open spec fn view(&self) -> AlbumView {
        AlbumView {
            title: text_of(self.title),
            artists: texts(self.artists@),
            year: self.year,
            genre: text_of(self.genre),
            position: self.position,
            tracks: self.tracks,
        }
    }
}

impl View for TrackInfo {
    type V = TrackView;

    open spec fn view(&self) -> TrackView {
        TrackView {
            id: self.id@,
            artists: texts(self.artists@),
            title: text_of(self.title),
            album: match self.album {
                Some(album) => Some(album@),
                None => None,
            },
        }
    }
}

impl Clone for AlbumInfo {
    fn clone(&self) -> (r: Self)
        ensures
            r@ == self@,
    {
        AlbumInfo {
            title: copy_text(&self.title),
            artists: copy_texts(self.artists.as_slice()),
            year: self.year,
            genre: copy_text(&self.genre),
            position: self.position,
            tracks: self.tracks,
        }
    }
}

impl Clone for TrackInfo {
    fn clone(&self) -> (r: Self)
        ensures
            r@ == self@,
    {
        TrackInfo {
            id: self.id.clone(),
            artists: copy_texts(self.artists.as_slice()),
            title: copy_text(&self.title),
            album: match &self.album {
                Some(album) => Some(album.clone()),
                None => None,
            },
        }
    }
}

/// A text without white space around it, or nothing if nothing is left.
pub open spec fn clean(value: Option<Seq<char>>) -> Option<Seq<char>> {
    match value {
        Some(value) => if trimmed(value).len() > 0 {
            Some(trimmed(value))
        } else {
            None
        },
        None => None,
    }
}

/// The names that are left of a list, without white space around them.
pub open spec fn clean_all(names: Seq<Seq<char>>) -> Seq<Seq<char>>
    decreases names.len(),
{
    if names.len() == 0 {
        Seq::empty()
    } else {
        let before = clean_all(names.drop_last());
        match clean(Some(names.last())) {
            Some(name) => before.push(name),
            None => before,
        }
    }
}

/// A text without white space around it, or nothing if nothing is left.
pub fn cleaned(value: Option<&str>) -> (r: Option<String>)
    ensures
        text_of(r) == clean(
            match value {
                Some(value) => Some(value@),
                None => None,
            },
        ),
{
    match value {
        Some(value) => {
            let text = trim(value);
            if text.as_str().is_empty() {
                proof {
                    assert(text@.len() == 0);
                }
                None
            } else {
                Some(text)
            }
        },
        None => None,
    }
}

fn cleaned_own(value: &Option<String>) -> (r: Option<String>)
    ensures
        text_of(r) == clean(text_of(*value)),
{
    match value {
        Some(value) => cleaned(Some(value.as_str())),
        None => None,
    }
}

/// Names without the blank ones and without white space around them.
pub fn owned(names: &[String]) -> (r: Vec<String>)
    ensures
        texts(r@) == clean_all(texts(names@)),
{
    let ghost all = texts(names@);
    let mut list: Vec<String> = Vec::new();
    let mut i: usize = 0;
    proof {
        assert(texts(list@) =~= clean_all(all.take(0)));
    }
    while i < names.len()
        invariant
            i <= names@.len(),
            all == texts(names@),
            texts(list@) == clean_all(all.take(i as int)),
        decreases names@.len() - i,
    {
        proof {
            assert(all.take(i + 1).drop_last() =~= all.take(i as int));
        }
        if let Some(name) = cleaned(Some(names[i].as_str())) {
            proof {
                lemma_texts_push(list@, name);
            }
            list.push(name);
        }
        i += 1;
    }
    proof {
        assert(all.take(i as int) =~= all);
    }
    list
}

/// The names that artists have.
pub open spec fn names_of(artists: Seq<Artist>) -> Seq<Seq<char>>
    decreases artists.len(),
{
    if artists.len() == 0 {
        Seq::empty()
    } else {
        let before = names_of(artists.drop_last());
        match artists.last().name {
            Some(name) => before.push(name@),
            None => before,
        }
    }
}

/// The names that artists have.
pub fn names(artists: &[Artist]) -> (r: Vec<String>)
    ensures
        texts(r@) == names_of(artists@),
{
    let mut list: Vec<String> = Vec::new();
    let mut i: usize = 0;
    proof {
        assert(texts(list@) =~= names_of(artists@.take(0)));
    }
    while i < artists.len()
        invariant
            i <= artists@.len(),
            texts(list@) == names_of(artists@.take(i as int)),
        decreases artists@.len() - i,
    {
        proof {
            assert(artists@.take(i + 1).drop_last() =~= artists@.take(i as int));
        }
        if let Some(name) = &artists[i].name {
            let copy = name.clone();
            proof {
                lemma_texts_push(list@, copy);
            }
            list.push(copy);
        }
        i += 1;
    }
    proof {
        assert(artists@.take(i as int) =~= artists@);
    }
    list
}

/// A description that makes no sense.
///
/// A number that fits into no tag is garbage, and writing a part of it would be
/// a plausible lie.
#[derive(Debug, Clone, Copy, PartialEq, Eq, Structural)]
pub enum Malformed {
    /// The number of the track.
    Position(u32),
    /// The number of tracks.
    Count(u32),
}

impl Malformed {
    pub open spec fn words(self) -> Seq<char> {
        match self {
            Malformed::Position(index) => "номер трека в альбоме не похож на номер: "@
                + decimal_digits(index as nat),
            Malformed::Count(count) => "число треков в альбоме не похоже на число: "@
                + decimal_digits(count as nat),
        }
    }

    /// The refusal in words.
    pub fn message(&self) -> (r: String)
        ensures
            r@ == self.words(),
    {
        match self {
            Malformed::Position(index) => {
                let mut r = "номер трека в альбоме не похож на номер: ".to_owned();
                r.append(decimal(*index as u64).as_str());
                r
            },
            Malformed::Count(count) => {
                let mut r = "число треков в альбоме не похоже на число: ".to_owned();
                r.append(decimal(*count as u64).as_str());
                r
            },
        }
    }
}

/// The place that a description gives.
pub open spec fn position_of(position: TrackPosition) -> Result<Position, Malformed> {
    if position.index <= u16::MAX {
        Ok(Position { volume: position.volume as u16, index: position.index as u16 })
    } else {
        Err(Malformed::Position(position.index))
    }
}

impl Position {
    pub fn try_from(position: &TrackPosition) -> (r: Result<Self, Malformed>)
        ensures
            r == position_of(*position),
    {
        if position.index > u16::MAX as u32 {
            return Err(Malformed::Position(position.index));
        }
        Ok(Position { volume: position.volume as u16, index: position.index as u16 })
    }
}

/// The album that a description gives; a place that makes no sense is reported
/// before a number of tracks that makes none.
pub open spec fn album_of(album: Album) -> Result<AlbumView, Malformed> {
    let position = match album.track_position {
        None => Ok(None),
        Some(position) => match position_of(position) {
            Ok(position) => Ok(Some(position)),
            Err(malformed) => Err(malformed),
        },
    };
    match position {
        Err(malformed) => Err(malformed),
        Ok(position) => match album.track_count {
            Some(count) if count > u16::MAX => Err(Malformed::Count(count)),
            _ => Ok(
                AlbumView {
                    title: text_of(album.title),
                    artists: names_of(album.artists@),
                    year: album.year,
                    genre: text_of(album.genre),
                    position,
                    tracks: match album.track_count {
                        Some(count) => Some(count as u16),
                        None => None,
                    },
                },
            ),
        },
    }
}

impl AlbumInfo {
    pub fn try_from(album: &Album) -> (r: Result<Self, Malformed>)
        ensures
            match r {
                Ok(info) => album_of(*album) == Ok::<AlbumView, Malformed>(info@),
                Err(malformed) => album_of(*album) == Err::<AlbumView, Malformed>(malformed),
            },
    {
        let position = match &album.track_position {
            Some(position) => Some(Position::try_from(position)?),
            None => None,
        };
        let tracks = match album.track_count {
            Some(count) => {
                if count > u16::MAX as u32 {
                    return Err(Malformed::Count(count));
                }
                Some(count as u16)
            },
            None => None,
        };
        Ok(
            AlbumInfo {
                title: copy_text(&album.title),
                artists: names(album.artists.as_slice()),
                year: album.year,
                genre: copy_text(&album.genre),
                position,
                tracks,
            },
        )
    }
}

/// The track that a description gives, with the first of its albums: the one in
/// whose context the service gave the track.
pub open spec fn track_of(track: Track) -> Result<TrackView, Malformed> {
    let album = if track.albums@.len() == 0 {
        Ok(None)
    } else {
        match album_of(track.albums@[0]) {
            Ok(album) => Ok(Some(album)),
            Err(malformed) => Err(malformed),
        }
    };
    match album {
        Err(malformed) => Err(malformed),
        Ok(album) => Ok(
            TrackView {
                id: track.id@,
                artists: names_of(track.artists@),
                title: text_of(track.title),
                album,
            },
        ),
    }
}

/// What goes into the tags of a track. Stand-ins for missing names do not.
pub open spec fn track_meta(track: TrackView) -> MetaView {
    match track.album {
        None => MetaView {
            title: clean(track.title),
            artists: clean_all(track.artists),
            album: None,
            album_artists: Seq::empty(),
            year: None,
            genre: None,
            number: None,
            volume: None,
        },
        Some(album) => MetaView {
            title: clean(track.title),
            artists: clean_all(track.artists),
            album: clean(album.title),
            album_artists: clean_all(album.artists),
            year: album.year,
            genre: clean(album.genre),
            number: match album.position {
                Some(position) => Some(Number { index: position.index, total: album.tracks }),
                None => None,
            },
            volume: match album.position {
                Some(position) => Some(position.volume),
                None => None,
            },
        },
    }
}

/// The artists of a track in one line.
pub open spec fn artists_line(artists: Seq<Seq<char>>) -> Seq<char> {
    let named = clean_all(artists);
    if named.len() == 0 {
        UNKNOWN_ARTIST@
    } else {
        comma_separated(named)
    }
}

/// The title of a track.
pub open spec fn title_line(title: Option<Seq<char>>) -> Seq<char> {
    match clean(title) {
        Some(title) => title,
        None => UNTITLED@,
    }
}

/// A track in one line.
pub open spec fn shown_line(artists: Seq<Seq<char>>, title: Option<Seq<char>>) -> Seq<char> {
    artists_line(artists) + " — "@ + title_line(title)
}

/// Characters that some file system forbids in a name.
pub open spec fn forbidden(c: char) -> bool {
    ||| c == '/'
    ||| c == '\\'
    ||| c == ':'
    ||| c == '*'
    ||| c == '?'
    ||| c == '"'
    ||| c == '<'
    ||| c == '>'
    ||| c == '|'
    ||| control(c)
}

/// A text with every forbidden character replaced.
pub open spec fn replaced(s: Seq<char>) -> Seq<char> {
    Seq::new(
        s.len(),
        |i: int|
            if forbidden(s[i]) {
                '_'
            } else {
                s[i]
            },
    )
}

/// The longest beginning of a text that takes at most `limit` bytes.
pub open spec fn cut(s: Seq<char>, limit: int) -> Seq<char>
    decreases s.len(),
{
    if s.len() == 0 || encode_utf8(s).len() <= limit {
        s
    } else {
        cut(s.drop_last(), limit)
    }
}

/// The name of a file without its extension.
///
/// It depends on names alone, not on the identifier: it is meant to be read, and
/// tracks of the same name share it.
pub open spec fn stem(artists: Seq<Seq<char>>, title: Option<Seq<char>>) -> Seq<char> {
    trimmed_end(
        cut(
            replaced(artists_line(artists) + " - "@ + title_line(title)),
            MAX_NAME_BYTES as int,
        ),
    )
}

/// Cuts a text at a limit in bytes, never inside a character.
pub fn truncate_bytes(text: &str, limit: usize) -> (r: String)
    ensures
        r@ == cut(text@, limit as int),
{
    let chars = chars_of(text);
    let mut to: usize = 0;
    let mut taken: usize = 0;
    proof {
        assert(encode_utf8(text@.take(0)).len() == 0);
    }
    while to < chars.len() && char_width(chars[to]) <= limit - taken
        invariant
            to <= chars@.len(),
            chars@ == text@,
            taken <= limit,
            taken == encode_utf8(text@.take(to as int)).len(),
        decreases chars@.len() - to,
    {
        proof {
            lemma_encoded_push(text@.take(to as int), chars@[to as int]);
            assert(text@.take(to as int).push(chars@[to as int]) =~= text@.take(to + 1));
        }
        taken += char_width(chars[to]);
        to += 1;
    }
    proof {
        if to < chars@.len() {
            lemma_encoded_push(text@.take(to as int), chars@[to as int]);
            assert(text@.take(to as int).push(chars@[to as int]) =~= text@.take(to + 1));
        }
        lemma_cut(text@, limit as int, to as int);
        assert(chars@.subrange(0, to as int) =~= text@.take(to as int));
    }
    text_between(chars.as_slice(), 0, to)
}

/// A beginning that fits while one character more does not is the longest one.
proof fn lemma_cut(s: Seq<char>, limit: int, n: int)
    requires
        0 <= n <= s.len(),
        encode_utf8(s.take(n)).len() <= limit,
        n < s.len() ==> encode_utf8(s.take(n + 1)).len() > limit,
    ensures
        cut(s, limit) == s.take(n),
    decreases s.len(),
{
    if n == s.len() {
        assert(s.take(n) =~= s);
    } else {
        assert(s.take(n + 1) + s.skip(n + 1) =~= s);
        lemma_encoded_joined(s.take(n + 1), s.skip(n + 1));
        let shorter = s.drop_last();
        assert(shorter.take(n) =~= s.take(n));
        if n + 1 <= shorter.len() {
            assert(shorter.take(n + 1) =~= s.take(n + 1));
        }
        lemma_cut(shorter, limit, n);
    }
}

fn is_forbidden(c: char) -> (r: bool)
    ensures
        r == forbidden(c),
{
    c == '/' || c == '\\' || c == ':' || c == '*' || c == '?' || c == '"' || c == '<' || c == '>'
        || c == '|' || is_control(c)
}

fn replace(text: &str) -> (r: String)
    ensures
        r@ == replaced(text@),
{
    let chars = chars_of(text);
    let mut r = String::new();
    let mut i: usize = 0;
    proof {
        assert(r@ =~= replaced(text@).take(0));
    }
    while i < chars.len()
        invariant
            i <= chars@.len(),
            chars@ == text@,
            r@ == replaced(text@).take(i as int),
        decreases chars@.len() - i,
    {
        let c = chars[i];
        r.push(
            if is_forbidden(c) {
                '_'
            } else {
                c
            },
        );
        proof {
            assert(r@ =~= replaced(text@).take(i + 1));
        }
        i += 1;
    }
    proof {
        assert(replaced(text@).take(i as int) =~= replaced(text@));
    }
    r
}

impl TrackInfo {
    pub fn try_from(track: &Track) -> (r: Result<Self, Malformed>)
        ensures
            match r {
                Ok(info) => track_of(*track) == Ok::<TrackView, Malformed>(info@),
                Err(malformed) => track_of(*track) == Err::<TrackView, Malformed>(malformed),
            },
    {
        let album = if track.albums.len() == 0 {
            None
        } else {
            Some(AlbumInfo::try_from(&track.albums[0])?)
        };
        Ok(
            TrackInfo {
                id: TrackId(track.id.clone()),
                artists: names(track.artists.as_slice()),
                title: copy_text(&track.title),
                album,
            },
        )
    }

    pub fn id(&self) -> (r: &TrackId)
        ensures
            *r == self.id,
    {
        &self.id
    }

    /// What goes into the tags of the file.
    pub fn tags(&self) -> (r: Meta)
        ensures
            r@ == track_meta(self@),
    {
        let title = cleaned_own(&self.title);
        let artists = owned(self.artists.as_slice());
        let meta = match &self.album {
            None => Meta {
                title,
                artists,
                album: None,
                album_artists: Vec::new(),
                year: None,
                genre: None,
                number: None,
                volume: None,
            },
            Some(album) => Meta {
                title,
                artists,
                album: cleaned_own(&album.title),
                album_artists: owned(album.artists.as_slice()),
                year: album.year,
                genre: cleaned_own(&album.genre),
                number: match album.position {
                    Some(position) => Some(Number { index: position.index, total: album.tracks }),
                    None => None,
                },
                volume: match album.position {
                    Some(position) => Some(position.volume),
                    None => None,
                },
            },
        };
        proof {
            assert(meta@ =~= track_meta(self@));
        }
        meta
    }

    /// The name of the file without its extension: `artists - title`.
    pub fn file_stem(&self) -> (r: String)
        ensures
            r@ == stem(self@.artists, self@.title),
    {
        let mut name = self.artists();
        name.append(" - ");
        name.append(self.title().as_str());
        let name = replace(name.as_str());
        trim_end(truncate_bytes(name.as_str(), MAX_NAME_BYTES).as_str())
    }

    /// The artists in one line.
    pub fn artists(&self) -> (r: String)
        ensures
            r@ == artists_line(self@.artists),
    {
        match joined(owned(self.artists.as_slice()).as_slice()) {
            Some(line) => line,
            None => UNKNOWN_ARTIST.to_owned(),
        }
    }

    /// The title.
    pub fn title(&self) -> (r: String)
        ensures
            r@ == title_line(self@.title),
    {
        match cleaned_own(&self.title) {
            Some(title) => title,
            None => UNTITLED.to_owned(),
        }
    }

    /// The track in one line: `artists — title`.
    pub fn text(&self) -> (r: String)
        ensures
            r@ == artists_line(self@.artists) + " — "@ + title_line(self@.title),
            r@ == shown_line(self@.artists, self@.title),
    {
        let mut line = self.artists();
        line.append(" — ");
        line.append(self.title().as_str());
        line
    }
}

/// A cut text is a beginning of the text within the limit, and as much as fits.
proof fn lemma_cut_fits(s: Seq<char>, limit: int)
    requires
        0 <= limit,
    ensures
        encode_utf8(cut(s, limit)).len() <= limit,
        cut(s, limit).len() <= s.len(),
        cut(s, limit) == s.take(cut(s, limit).len() as int),
        s.len() > 0 && limit >= 4 ==> cut(s, limit).len() > 0,
    decreases s.len(),
{
    if s.len() == 0 {
        assert(encode_utf8(s).len() == 0);
        assert(s.take(0) =~= s);
    } else if encode_utf8(s).len() <= limit {
        assert(s.take(s.len() as int) =~= s);
    } else {
        let shorter = s.drop_last();
        lemma_cut_fits(shorter, limit);
        let n = cut(s, limit).len() as int;
        assert(shorter.take(n) =~= s.take(n));
        if shorter.len() == 0 {
            lemma_encoded_push(shorter, s.last());
            assert(shorter.push(s.last()) =~= s);
            assert(encode_utf8(shorter).len() == 0);
        }
    }
}

/// Every name of a cleaned list has something visible at its beginning.
proof fn lemma_clean_all(names: Seq<Seq<char>>)
    ensures
        forall|i: int|
            0 <= i < clean_all(names).len() ==> (#[trigger] clean_all(names)[i]).len() > 0
                && !white(clean_all(names)[i][0]),
    decreases names.len(),
{
    if names.len() > 0 {
        lemma_clean_all(names.drop_last());
        lemma_trimmed_ends(names.last());
        let before = clean_all(names.drop_last());
        assert forall|i: int| 0 <= i < clean_all(names).len() implies (
        #[trigger] clean_all(names)[i]).len() > 0 && !white(clean_all(names)[i][0]) by {
            if i < before.len() {
                assert(clean_all(names)[i] == before[i]);
            }
        }
    }
}

/// A line of names begins as the first of them does.
proof fn lemma_line_begins(values: Seq<Seq<char>>)
    requires
        values.len() > 0,
        values[0].len() > 0,
    ensures
        comma_separated(values).len() > 0,
        comma_separated(values)[0] == values[0][0],
    decreases values.len(),
{
    if values.len() > 1 {
        lemma_line_begins(values.drop_last());
        assert(values.drop_last()[0] == values[0]);
    }
}

/// The name of a file fits every file system: it takes at most
/// [`MAX_NAME_BYTES`] bytes, holds no forbidden character, is not empty, and has
/// no white space at its end.
pub proof fn law_stem_fits(artists: Seq<Seq<char>>, title: Option<Seq<char>>)
    ensures
        encode_utf8(stem(artists, title)).len() <= MAX_NAME_BYTES,
        stem(artists, title).len() > 0,
        !white(stem(artists, title).last()),
        !white(stem(artists, title)[0]),
        forall|i: int|
            0 <= i < stem(artists, title).len() ==> !forbidden(#[trigger] stem(artists, title)[i]),
{
    let line = artists_line(artists) + " - "@ + title_line(title);
    let safe = replaced(line);
    let short = cut(safe, MAX_NAME_BYTES as int);
    let named = clean_all(artists);
    reveal_strlit("<неизвестный исполнитель>");
    lemma_clean_all(artists);
    if named.len() > 0 {
        assert(named[0].len() > 0);
        lemma_line_begins(named);
    }
    assert(artists_line(artists).len() > 0 && !white(artists_line(artists)[0]));
    assert(line[0] == artists_line(artists)[0]);
    assert(safe[0] == '_' || safe[0] == line[0]);
    assert(!white('_'));
    lemma_cut_fits(safe, MAX_NAME_BYTES as int);
    assert(short[0] == safe[0]);
    lemma_trimmed_end(short);
    let name = stem(artists, title);
    let n = name.len() as int;
    assert(short.take(n) + short.skip(n) =~= short);
    lemma_encoded_joined(short.take(n), short.skip(n));
    assert forall|i: int| 0 <= i < name.len() implies !forbidden(#[trigger] name[i]) by {
        assert(name[i] == short[i]);
        assert(short[i] == safe[i]);
        assert(!forbidden('_'));
    }
}

/// No names lead a file out of its directory: with an extension that holds no
/// slash, the name of the file is a single component of a path, and neither `.`
/// nor `..`.
pub proof fn law_file_stays_in_its_directory(
    artists: Seq<Seq<char>>,
    title: Option<Seq<char>>,
    extension: Seq<char>,
)
    requires
        extension.len() > 0,
        !extension.contains('/'),
        !extension.contains('\\'),
    ensures
        ({
            let name = stem(artists, title) + "."@ + extension;
            &&& !name.contains('/')
            &&& !name.contains('\\')
            &&& name != "."@
            &&& name != ".."@
        }),
{
    let own = stem(artists, title);
    let name = own + "."@ + extension;
    law_stem_fits(artists, title);
    reveal_strlit(".");
    reveal_strlit("..");
    assert forall|i: int| 0 <= i < name.len() implies name[i] != '/' && name[i] != '\\' by {
        if i < own.len() {
            assert(!forbidden(own[i]));
        } else if i > own.len() {
            assert(extension.contains(extension[i - own.len() - 1]));
        }
    }
}

/// Tracks of the same names share the name of their file, whatever their
/// identifiers and albums.
pub proof fn law_same_names_same_file(one: TrackView, other: TrackView)
    requires
        one.artists == other.artists,
        one.title == other.title,
    ensures
        stem(one.artists, one.title) == stem(other.artists, other.title),
{
}

/// Stand-ins for missing names do not reach the tags: what has no name is absent
/// there.
pub proof fn law_no_stand_ins_in_tags(track: TrackView)
    ensures
        clean(track.title) is None <==> track_meta(track).title is None,
        forall|i: int|
            0 <= i < track_meta(track).artists.len() ==> (
            #[trigger] track_meta(track).artists[i]).len() > 0,
        clean_all(track.artists).len() == 0 ==> track_meta(track).artists.len() == 0,
        track.album is None ==> track_meta(track).number is None,
        track.album is None ==> track_meta(track).volume is None,
{
    lemma_clean_all(track.artists);
}

/// A track is what its description says: whenever a description is taken, the track has
/// its identifier, its title, present or missing, and its artists, and the album has the
/// title, the year, the genre, the artists, the place and the number of tracks of the
/// first album of the description.
pub proof fn law_track_is_its_description(track: Track, info: TrackInfo)
    requires
        track_of(track) == Ok::<TrackView, Malformed>(info@),
    ensures
        info.id.0@ == track.id@,
        info.title is Some <==> track.title is Some,
        info.title is Some ==> info.title->Some_0@ == track.title->Some_0@,
        texts(info.artists@) == names_of(track.artists@),
        info.album is Some <==> track.albums@.len() > 0,
        info.album is Some ==> {
            let album = info.album->Some_0;
            let said = track.albums@[0];
            &&& album.title is Some <==> said.title is Some
            &&& album.title is Some ==> album.title->Some_0@ == said.title->Some_0@
            &&& texts(album.artists@) == names_of(said.artists@)
            &&& album.year == said.year
            &&& album.genre is Some <==> said.genre is Some
            &&& album.genre is Some ==> album.genre->Some_0@ == said.genre->Some_0@
            &&& album.position is Some <==> said.track_position is Some
            &&& album.position is Some ==> album.position->Some_0.volume
                == said.track_position->Some_0.volume
            &&& album.position is Some ==> album.position->Some_0.index
                == said.track_position->Some_0.index
            &&& album.tracks is Some <==> said.track_count is Some
            &&& album.tracks is Some ==> album.tracks->Some_0 == said.track_count->Some_0
        },
{
    let taken = track_of(track)->Ok_0;
    assert(taken.title == text_of(info.title));
    assert(taken.album is Some <==> info.album is Some);
    if let Some(album) = info.album {
        assert(taken.album == Some(album@));
        let said = track.albums@[0];
        assert(album_of(said) == Ok::<AlbumView, Malformed>(album@));
        assert(text_of(album.title) == text_of(said.title));
        assert(text_of(album.genre) == text_of(said.genre));
    }
}

/// The names of a list of artists are the names that they have, one by one: those of two
/// lists are those of the one and then those of the other, an artist with a name has
/// that name, and one without adds none.
pub proof fn law_names_of_artists(a: Seq<Artist>, b: Seq<Artist>)
    ensures
        names_of(a + b) == names_of(a) + names_of(b),
        names_of(Seq::<Artist>::empty()) == Seq::<Seq<char>>::empty(),
        a.len() == 1 && a[0].name is Some ==> names_of(a) == seq![a[0].name->Some_0@],
        a.len() == 1 && a[0].name is None ==> names_of(a) == Seq::<Seq<char>>::empty(),
    decreases b.len(),
{
    if b.len() == 0 {
        assert(a + b =~= a);
        assert(names_of(a) + names_of(b) =~= names_of(a));
    } else {
        assert((a + b).drop_last() =~= a + b.drop_last());
        law_names_of_artists(a, b.drop_last());
        assert(names_of(a + b) =~= names_of(a) + names_of(b));
    }
    if a.len() == 1 {
        assert(a.drop_last() =~= Seq::empty());
        assert(names_of(a.drop_last()) =~= Seq::empty());
        assert(a.last() == a[0]);
        if a[0].name is Some {
            assert(names_of(a) =~= seq![a[0].name->Some_0@]);
        }
    }
}

/// A description is refused exactly if a number of its first album fits into no tag: one
/// beyond 65535, and the refusal names it, the place before the number of tracks.
pub proof fn law_only_numbers_are_refused(track: Track)
    ensures
        ({
            let said = track.albums@[0];
            let far = track.albums@.len() > 0 && said.track_position is Some
                && said.track_position->Some_0.index > 65535;
            let many = track.albums@.len() > 0 && said.track_count is Some
                && said.track_count->Some_0 > 65535;
            &&& far ==> track_of(track) == Err::<TrackView, Malformed>(
                Malformed::Position(said.track_position->Some_0.index),
            )
            &&& !far && many ==> track_of(track) == Err::<TrackView, Malformed>(
                Malformed::Count(said.track_count->Some_0),
            )
            &&& !far && !many ==> track_of(track) is Ok
        }),
{
}

/// What cleaning leaves of a text is the text without white space around it, and nothing
/// is left exactly if there was nothing else.
pub proof fn law_cleaning(value: Seq<char>)
    ensures
        clean(None) is None,
        clean(Some(value)) is None <==> forall|i: int|
            0 <= i < value.len() ==> white(#[trigger] value[i]),
        clean(Some(value)) is Some ==> clean(Some(value)) == Some(trimmed(value)),
        value.len() > 0 && !white(value[0]) && !white(value.last()) ==> clean(Some(value)) == Some(
            value,
        ),
{
    law_trimming_takes_white_space_off(value);
    if trimmed(value).len() == 0 {
        let at = choose|at: int|
            {
                &&& 0 <= at <= at + trimmed(value).len() <= value.len()
                &&& #[trigger] value.subrange(at, at + trimmed(value).len()) == trimmed(value)
                &&& forall|i: int|
                    0 <= i < value.len() && !(at <= i < at + trimmed(value).len()) ==> white(
                        #[trigger] value[i],
                    )
            };
        assert(forall|i: int| 0 <= i < value.len() ==> white(#[trigger] value[i]));
    }
}

/// Cleaning a list is cleaning its names one by one: blank ones go, all others stay, in
/// their order.
pub proof fn law_cleaning_a_list(a: Seq<Seq<char>>, b: Seq<Seq<char>>)
    ensures
        clean_all(a + b) == clean_all(a) + clean_all(b),
        a.len() == 0 ==> clean_all(a).len() == 0,
        a.len() == 1 && clean(Some(a[0])) is Some ==> clean_all(a) == seq![
            clean(Some(a[0]))->Some_0,
        ],
        a.len() == 1 && clean(Some(a[0])) is None ==> clean_all(a).len() == 0,
    decreases b.len(),
{
    if b.len() == 0 {
        assert(a + b =~= a);
        assert(clean_all(a) + clean_all(b) =~= clean_all(a));
    } else {
        assert((a + b).drop_last() =~= a + b.drop_last());
        law_cleaning_a_list(a, b.drop_last());
        assert(clean_all(a + b) =~= clean_all(a) + clean_all(b));
    }
    if a.len() == 1 {
        assert(a.drop_last() =~= Seq::empty());
        assert(clean_all(a.drop_last()) =~= Seq::empty());
        assert(a.last() == a[0]);
        if clean(Some(a[0])) is Some {
            assert(clean_all(a) =~= seq![clean(Some(a[0]))->Some_0]);
        }
    }
}

/// A text without white space at its ends, and not empty.
pub open spec fn neat(text: Seq<char>) -> bool {
    text.len() > 0 && !white(text[0]) && !white(text.last())
}

/// Neat names are not touched by cleaning.
proof fn lemma_neat_names(names: Seq<Seq<char>>)
    requires
        forall|i: int| 0 <= i < names.len() ==> neat(#[trigger] names[i]),
    ensures
        clean_all(names) == names,
    decreases names.len(),
{
    if names.len() > 0 {
        let before = names.drop_last();
        assert(names[names.len() - 1] == names.last());
        assert forall|i: int| 0 <= i < before.len() implies neat(#[trigger] before[i]) by {
            assert(before[i] == names[i]);
        }
        lemma_neat_names(before);
        law_cleaning(names.last());
        assert(before.push(names.last()) =~= names);
    } else {
        assert(clean_all(names) =~= names);
    }
}

/// The line of a track: its artists and its title, each with a stand-in where there is
/// nothing but white space, and as it is where it is neat.
pub proof fn law_line_of_a_track(artists: Seq<Seq<char>>, title: Option<Seq<char>>)
    ensures
        clean_all(artists).len() == 0 ==> artists_line(artists) == "<неизвестный исполнитель>"@,
        clean_all(artists).len() > 0 ==> artists_line(artists) == comma_separated(
            clean_all(artists),
        ),
        artists.len() > 0 && (forall|i: int| 0 <= i < artists.len() ==> neat(#[trigger] artists[i]))
            ==> artists_line(artists) == comma_separated(artists),
        clean(title) is None ==> title_line(title) == "<без названия>"@,
        clean(title) is Some ==> title_line(title) == clean(title)->Some_0,
        title is Some && neat(title->Some_0) ==> title_line(title) == title->Some_0,
{
    if forall|i: int| 0 <= i < artists.len() ==> neat(#[trigger] artists[i]) {
        lemma_neat_names(artists);
    }
    if let Some(text) = title {
        law_cleaning(text);
    }
}

/// Characters that become `_` in the name of a file: those that some file system forbids,
/// and control characters.
pub open spec fn out_of_place(c: char) -> bool {
    ||| c == '/' || c == '\\' || c == ':' || c == '*' || c == '?' || c == '"' || c == '<'
    ||| c == '>' || c == '|'
    ||| (c as int) < 0x20
    ||| 0x7F <= c as int <= 0x9F
}

/// A character is replaced exactly if it is out of place in a name, and every other one
/// stays.
pub proof fn law_only_what_is_out_of_place_is_replaced(s: Seq<char>, i: int)
    requires
        0 <= i < s.len(),
    ensures
        replaced(s).len() == s.len(),
        out_of_place(s[i]) ==> replaced(s)[i] == '_',
        !out_of_place(s[i]) ==> replaced(s)[i] == s[i],
{
}

/// The name of a file is the line `artists - title`: each character of the name is the
/// one at its place in the line, or `_` where that one is out of place in a name; and if
/// the line takes no more than 150 bytes, the name is the whole of it.
pub proof fn law_name_is_the_line(artists: Seq<Seq<char>>, title: Option<Seq<char>>)
    ensures
        ({
            let line = artists_line(artists) + seq![' ', '-', ' '] + title_line(title);
            let name = stem(artists, title);
            &&& name.len() <= line.len()
            &&& forall|i: int|
                0 <= i < name.len() ==> #[trigger] name[i] == if out_of_place(line[i]) {
                    '_'
                } else {
                    line[i]
                }
            &&& encode_utf8(line).len() <= 150 ==> name.len() == line.len()
        }),
{
    let line = artists_line(artists) + seq![' ', '-', ' '] + title_line(title);
    reveal_strlit(" - ");
    assert(" - "@ =~= seq![' ', '-', ' ']);
    assert(line =~= artists_line(artists) + " - "@ + title_line(title));
    let safe = replaced(line);
    let short = cut(safe, MAX_NAME_BYTES as int);
    lemma_cut_fits(safe, MAX_NAME_BYTES as int);
    lemma_trimmed_end(short);
    let name = stem(artists, title);
    assert forall|i: int| 0 <= i < name.len() implies #[trigger] name[i] == if out_of_place(
        line[i],
    ) {
        '_'
    } else {
        line[i]
    } by {
        assert(name[i] == short[i]);
        assert(short[i] == safe[i]);
    }
    if encode_utf8(line).len() <= 150 {
        lemma_replaced_is_no_longer(line);
        assert(short == safe);
        lemma_title_ends(title);
        assert(line.last() == title_line(title).last());
        assert(!white('_'));
        assert(!white(safe.last()));
    }
}

/// A title that is printed does not end with white space.
proof fn lemma_title_ends(title: Option<Seq<char>>)
    ensures
        title_line(title).len() > 0,
        !white(title_line(title).last()),
{
    reveal_strlit("<без названия>");
    if let Some(text) = title {
        law_trimming_takes_white_space_off(text);
    }
}

/// Replacing makes no text longer.
proof fn lemma_replaced_is_no_longer(s: Seq<char>)
    ensures
        encode_utf8(replaced(s)).len() <= encode_utf8(s).len(),
    decreases s.len(),
{
    if s.len() == 0 {
        assert(replaced(s) =~= s);
    } else {
        let before = s.drop_last();
        let last = replaced(s).last();
        lemma_replaced_is_no_longer(before);
        assert(replaced(s) =~= replaced(before).push(last));
        assert(s =~= before.push(s.last()));
        lemma_encoded_push(replaced(before), last);
        lemma_encoded_push(before, s.last());
    }
}

/// Names that are neat, hold nothing that is out of place and fit together make the name
/// of the file as they are.
pub proof fn law_plain_names_stay(artists: Seq<Seq<char>>, title: Seq<char>)
    requires
        artists.len() > 0,
        forall|i: int| 0 <= i < artists.len() ==> neat(#[trigger] artists[i]),
        neat(title),
        ({
            let line = comma_separated(artists) + seq![' ', '-', ' '] + title;
            encode_utf8(line).len() <= 150 && forall|i: int|
                0 <= i < line.len() ==> !out_of_place(#[trigger] line[i])
        }),
    ensures
        stem(artists, Some(title)) == comma_separated(artists) + seq![' ', '-', ' '] + title,
{
    let line = comma_separated(artists) + seq![' ', '-', ' '] + title;
    law_line_of_a_track(artists, Some(title));
    law_name_is_the_line(artists, Some(title));
    assert(stem(artists, Some(title)) =~= line);
}

/// A name that is too long is cut as late as possible: at the first character that no
/// longer fits into 150 bytes, but for white space before it.
pub proof fn law_names_are_cut_late(artists: Seq<Seq<char>>, title: Option<Seq<char>>)
    ensures
        ({
            let safe = replaced(artists_line(artists) + " - "@ + title_line(title));
            let name = stem(artists, title);
            exists|at: int|
                {
                    &&& name.len() <= at <= safe.len()
                    &&& encode_utf8(#[trigger] safe.take(at)).len() <= 150
                    &&& at < safe.len() ==> encode_utf8(safe.take(at + 1)).len() > 150
                    &&& forall|i: int| name.len() <= i < at ==> white(#[trigger] safe[i])
                }
        }),
{
    let safe = replaced(artists_line(artists) + " - "@ + title_line(title));
    let short = cut(safe, MAX_NAME_BYTES as int);
    let name = stem(artists, title);
    lemma_cut_fits(safe, MAX_NAME_BYTES as int);
    lemma_cut_is_late(safe, MAX_NAME_BYTES as int);
    lemma_trimmed_end(short);
    lemma_trimmed_end_rest(short);
    let at = short.len() as int;
    assert(safe.take(at) == short);
    assert forall|i: int| name.len() <= i < at implies white(#[trigger] safe[i]) by {
        assert(short[i] == safe[i]);
    }
}

proof fn lemma_cut_is_late(s: Seq<char>, limit: int)
    requires
        0 <= limit,
    ensures
        cut(s, limit).len() < s.len() ==> encode_utf8(
            s.take(cut(s, limit).len() as int + 1),
        ).len() > limit,
    decreases s.len(),
{
    if s.len() > 0 && encode_utf8(s).len() > limit {
        let shorter = s.drop_last();
        lemma_cut_is_late(shorter, limit);
        lemma_cut_fits(shorter, limit);
        let n = cut(s, limit).len() as int;
        if n < shorter.len() {
            assert(shorter.take(n + 1) =~= s.take(n + 1));
        } else {
            assert(s.take(n + 1) =~= s);
        }
    }
}

/// The tags of a track are those of the track: the title and the artists without white
/// space around them, and of its album, if there is one, the title, the artists and the
/// genre in the same way, the year, and the place with the number of tracks.
pub proof fn law_tags_are_those_of_the_track(track: TrackInfo, meta: Meta)
    requires
        meta@ == track_meta(track@),
    ensures
        text_of(meta.title) == clean(text_of(track.title)),
        texts(meta.artists@) == clean_all(texts(track.artists@)),
        track.album is None ==> meta.album is None && meta.album_artists@.len() == 0 && meta.year
            is None && meta.genre is None && meta.number is None && meta.volume is None,
        track.album is Some ==> {
            let album = track.album->Some_0;
            &&& text_of(meta.album) == clean(text_of(album.title))
            &&& texts(meta.album_artists@) == clean_all(texts(album.artists@))
            &&& meta.year == album.year
            &&& text_of(meta.genre) == clean(text_of(album.genre))
            &&& meta.number is Some <==> album.position is Some
            &&& meta.number is Some ==> meta.number->Some_0.index == album.position->Some_0.index
            &&& meta.number is Some ==> meta.number->Some_0.total == album.tracks
            &&& meta.volume is Some <==> album.position is Some
            &&& meta.volume is Some ==> meta.volume->Some_0 == album.position->Some_0.volume
        },
{
    let said = track_meta(track@);
    assert(meta@.title == said.title);
    assert(meta@.artists == said.artists);
    assert(meta@.album_artists == said.album_artists);
    assert(texts(meta.album_artists@).len() == meta.album_artists@.len());
}

/// An optional text is the text, and a list of texts the texts, one by one.
pub proof fn law_texts(value: Option<String>, list: Seq<String>)
    ensures
        value is None <==> text_of(value) is None,
        value is Some ==> text_of(value) == Some(value->Some_0@),
        texts(list).len() == list.len(),
        forall|i: int| 0 <= i < list.len() ==> #[trigger] texts(list)[i] == list[i]@,
{
}

/// Refusals of a description say which number it is that makes no sense.
pub proof fn law_refusals_name_the_number(number: u32)
    ensures
        Malformed::Position(number).words() == "номер трека в альбоме не похож на номер: "@
            + decimal_digits(number as nat),
        Malformed::Count(number).words() == "число треков в альбоме не похоже на число: "@
            + decimal_digits(number as nat),
{
}

/// A text is cut to its longest beginning within the limit.
pub proof fn law_cutting(s: Seq<char>, limit: int)
    requires
        0 <= limit,
    ensures
        cut(s, limit).is_prefix_of(s),
        encode_utf8(cut(s, limit)).len() <= limit,
        cut(s, limit).len() < s.len() ==> encode_utf8(
            s.take(cut(s, limit).len() as int + 1),
        ).len() > limit,
{
    lemma_cut_fits(s, limit);
    lemma_cut_is_late(s, limit);
}

/// A track is shown as its artists and its title, whole, with a dash between them.
pub proof fn law_tracks_are_shown_whole(artists: Seq<Seq<char>>, title: Option<Seq<char>>)
    ensures
        shown_line(artists, title) == artists_line(artists) + seq![' ', '—', ' '] + title_line(
            title,
        ),
{
    reveal_strlit(" — ");
    assert(" — "@ =~= seq![' ', '—', ' ']);
}

} // verus!
