//! A link to a track, an album or a playlist.
//!
//! Which request to make is seen in the link alone, and a link that is not
//! understood costs none.

use vstd::prelude::*;
use vstd::string::*;

use crate::text::{
    chars_of, decimal, decimal_digits, law_decimal_round_trip, lemma_decimal_digits, lemma_pieces,
    lemma_pieces_joined, lemma_single_piece, lemma_trimmed_behind, lemma_trimmed_end,
    lemma_trimmed_twice, number_in, parse_number, pieces, same, split, text_between, texts, trim,
    trimmed, trimmed_end, white,
};
use crate::track::{id_text, is_id, track_in, TrackId};

verus! {

/// Why a link was not understood.
#[derive(Debug, Clone, Copy, PartialEq, Eq, Structural)]
pub enum Fault {
    /// There is no identifier of a track in it.
    NoTrack,
    /// There is no number of an album in it.
    NoAlbum,
    /// There is no number of a playlist in it.
    NoPlaylist,
    /// A playlist without its owner.
    NoOwner,
    /// It leads to none of the three.
    Unknown,
}

impl Fault {
    pub open spec fn words(self) -> Seq<char> {
        match self {
            Fault::NoTrack => "в ссылке нет идентификатора трека: "@,
            Fault::NoAlbum => "в ссылке нет номера альбома: "@,
            Fault::NoPlaylist => "в ссылке нет номера плейлиста: "@,
            Fault::NoOwner => "плейлист адресуется владельцем и номером: music.yandex.ru/users/<владелец>/playlists/<номер>. Такую ссылку даёт кнопка «Поделиться» в плейлисте: "@,
            Fault::Unknown => "ссылка не похожа ни на трек, ни на альбом, ни на плейлист: "@,
        }
    }
}

/// A link that was not understood, and why.
#[derive(Debug)]
pub struct BadLink {
    pub fault: Fault,
    pub link: String,
}

impl BadLink {
    /// The refusal in words, with the link.
    pub fn message(&self) -> (r: String)
        ensures
            r@ == self.fault.words() + self.link@,
    {
        let mut r = (match self.fault {
            Fault::NoTrack => "в ссылке нет идентификатора трека: ",
            Fault::NoAlbum => "в ссылке нет номера альбома: ",
            Fault::NoPlaylist => "в ссылке нет номера плейлиста: ",
            Fault::NoOwner => "плейлист адресуется владельцем и номером: music.yandex.ru/users/<владелец>/playlists/<номер>. Такую ссылку даёт кнопка «Поделиться» в плейлисте: ",
            Fault::Unknown => "ссылка не похожа ни на трек, ни на альбом, ни на плейлист: ",
        }).to_owned();
        r.append(self.link.as_str());
        r
    }
}

/// The number of an album.
#[derive(Debug, Clone, Copy, PartialEq, Eq, Structural)]
pub struct AlbumId(pub u32);

impl AlbumId {
    pub fn value(&self) -> (r: u32)
        ensures
            r == self.0,
    {
        self.0
    }
}

/// A playlist: its owner and its number.
///
/// The owner is a login or a numeric identifier; it goes into the path of a
/// request.
#[derive(Debug, PartialEq, Eq)]
pub struct PlaylistId {
    owner: String,
    kind: u32,
}

impl Clone for PlaylistId {
    fn clone(&self) -> (r: Self)
        ensures
            r == *self,
    {
        proof {
            use_type_invariant(self);
        }
        PlaylistId { owner: self.owner.clone(), kind: self.kind }
    }
}

impl PlaylistId {
    pub closed spec fn owner_text(self) -> Seq<char> {
        self.owner@
    }

    pub closed spec fn number(self) -> u32 {
        self.kind
    }

    /// The owner fits into the path of a request.
    #[verifier::type_invariant]
    spec fn safe(self) -> bool {
        owner_safe(self.owner@)
    }

    /// The owner, which fits into the path of a request.
    pub fn owner(&self) -> (r: &str)
        ensures
            r@ == self.owner_text(),
            owner_safe(r@),
    {
        proof {
            use_type_invariant(self);
        }
        self.owner.as_str()
    }

    pub fn kind(&self) -> (r: u32)
        ensures
            r == self.number(),
    {
        self.kind
    }
}

/// What a link leads to.
#[derive(Debug, PartialEq, Eq)]
pub enum Source {
    Track(TrackId),
    Album(AlbumId),
    Playlist(PlaylistId),
}

impl Clone for Source {
    fn clone(&self) -> (r: Self)
        ensures
            r == *self,
    {
        match self {
            Source::Track(id) => Source::Track(id.clone()),
            Source::Album(id) => Source::Album(*id),
            Source::Playlist(id) => Source::Playlist(id.clone()),
        }
    }
}

/// What a link leads to, over plain values.
pub enum Link {
    Track(Seq<char>),
    Album(int),
    Playlist(Seq<char>, int),
}

impl Link {
    pub open spec fn words(self) -> Seq<char> {
        match self {
            Link::Track(id) => "трек "@ + id,
            Link::Album(id) => "альбом "@ + decimal_digits(id as nat),
            Link::Playlist(owner, kind) => "плейлист "@ + owner + "/"@ + decimal_digits(
                kind as nat,
            ),
        }
    }
}

impl View for Source {
    type V = Link;

    open spec fn view(&self) -> Link {
        match self {
            Source::Track(id) => Link::Track(id@),
            Source::Album(id) => Link::Album(id.0 as int),
            Source::Playlist(id) => Link::Playlist(id.owner_text(), id.number() as int),
        }
    }
}

/// Characters that a login consists of.
pub open spec fn owner_symbol(c: char) -> bool {
    ||| 'a' <= c <= 'z'
    ||| 'A' <= c <= 'Z'
    ||| '0' <= c <= '9'
    ||| c == '-'
    ||| c == '.'
    ||| c == '_'
}

/// Whether a text can be the owner of a playlist.
pub open spec fn owner_safe(s: Seq<char>) -> bool {
    s.len() > 0 && forall|i: int| 0 <= i < s.len() ==> owner_symbol(#[trigger] s[i])
}

/// Whether a text can be the owner of a playlist.
///
/// The owner comes from a link and goes into the path of a request, where
/// punctuation would lead it astray.
pub fn is_owner(value: &str) -> (r: bool)
    ensures
        r == owner_safe(value@),
{
    let chars = chars_of(value);
    if chars.len() == 0 {
        return false;
    }
    let mut i: usize = 0;
    while i < chars.len()
        invariant
            i <= chars@.len(),
            chars@ == value@,
            forall|j: int| 0 <= j < i ==> owner_symbol(#[trigger] value@[j]),
        decreases chars@.len() - i,
    {
        let c = chars[i];
        let fits = ('a' <= c && c <= 'z') || ('A' <= c && c <= 'Z') || ('0' <= c && c <= '9') || c
            == '-' || c == '.' || c == '_';
        if !fits {
            proof {
                assert(!owner_symbol(value@[i as int]));
            }
            return false;
        }
        i += 1;
    }
    true
}

/// What begins the parameters or the anchor of a link.
pub open spec fn mark(c: char) -> bool {
    c == '?' || c == '#'
}

/// A link without parameters and anchor.
pub open spec fn path_part(s: Seq<char>) -> Seq<char>
    decreases s.len(),
{
    if s.len() == 0 || mark(s[0]) {
        Seq::empty()
    } else {
        seq![s[0]] + path_part(s.drop_first())
    }
}

/// The segments of the path of a link.
pub open spec fn segments(s: Seq<char>) -> Seq<Seq<char>> {
    pieces(path_part(s), '/')
}

/// A link without parameters and anchor.
fn without_query(s: &str) -> (r: String)
    ensures
        r@ == path_part(s@),
{
    let chars = chars_of(s);
    let mut to: usize = 0;
    proof {
        assert(s@.skip(0) =~= s@);
        assert(s@.take(0) + path_part(s@) =~= path_part(s@));
    }
    while to < chars.len() && chars[to] != '?' && chars[to] != '#'
        invariant
            to <= chars@.len(),
            chars@ == s@,
            path_part(s@) == s@.take(to as int) + path_part(s@.skip(to as int)),
        decreases chars@.len() - to,
    {
        proof {
            let rest = s@.skip(to as int);
            assert(rest.drop_first() =~= s@.skip(to + 1));
            assert(s@.take(to as int) + (seq![rest[0]] + path_part(s@.skip(to + 1)))
                =~= s@.take(to + 1) + path_part(s@.skip(to + 1)));
        }
        to += 1;
    }
    proof {
        assert(s@.take(to as int) + Seq::<char>::empty() =~= s@.take(to as int));
        assert(chars@.subrange(0, to as int) =~= s@.take(to as int));
    }
    text_between(chars.as_slice(), 0, to)
}

/// The segments of the path of a link.
pub fn split_path(s: &str) -> (r: Vec<String>)
    ensures
        texts(r@) == segments(s@),
{
    split(without_query(s).as_str(), '/')
}

/// The segment right behind the first one of a name.
pub open spec fn following(segments: Seq<Seq<char>>, name: Seq<char>) -> Option<Seq<char>>
    decreases segments.len(),
{
    if segments.len() == 0 {
        None
    } else if segments[0] == name {
        if segments.len() > 1 {
            Some(segments[1])
        } else {
            None
        }
    } else {
        following(segments.drop_first(), name)
    }
}

/// The segment right behind the first one of a name.
pub fn after<'a>(segments: &'a [String], name: &str) -> (r: Option<&'a str>)
    ensures
        match r {
            Some(segment) => following(texts(segments@), name@) == Some(segment@),
            None => following(texts(segments@), name@) is None,
        },
{
    let ghost all = texts(segments@);
    let mut i: usize = 0;
    proof {
        assert(all.skip(0) =~= all);
    }
    while i < segments.len()
        invariant
            i <= segments@.len(),
            all == texts(segments@),
            following(all, name@) == following(all.skip(i as int), name@),
        decreases segments@.len() - i,
    {
        proof {
            assert(all.skip(i as int).drop_first() =~= all.skip(i + 1));
        }
        if same(segments[i].as_str(), name) {
            if i + 1 < segments.len() {
                return Some(segments[i + 1].as_str());
            } else {
                return None;
            }
        }
        i += 1;
    }
    None
}

/// Whether a segment of a name is there.
fn has(segments: &[String], name: &str) -> (r: bool)
    ensures
        r == texts(segments@).contains(name@),
{
    let ghost all = texts(segments@);
    let mut i: usize = 0;
    while i < segments.len()
        invariant
            i <= segments@.len(),
            all == texts(segments@),
            forall|j: int| 0 <= j < i ==> all[j] != name@,
        decreases segments@.len() - i,
    {
        if same(segments[i].as_str(), name) {
            proof {
                assert(all[i as int] == name@);
            }
            return true;
        }
        i += 1;
    }
    false
}

/// What a link leads to, or why it is not understood.
///
/// A link that speaks of a track is one to a track or none at all: a damaged
/// identifier must not turn into the album around it. A bare number is a track.
pub open spec fn link_in(input: Seq<char>) -> Result<Link, Fault> {
    let link = trimmed(input);
    let segments = segments(link);
    if segments.contains("track"@) || (segments.len() == 1 && id_text(segments[0])) {
        match track_in(link) {
            Some(id) => Ok(Link::Track(id)),
            None => Err(Fault::NoTrack),
        }
    } else if let Some(id) = following(segments, "album"@) {
        match number_in(id, u32::MAX as int) {
            Some(id) => Ok(Link::Album(id)),
            None => Err(Fault::NoAlbum),
        }
    } else {
        match (following(segments, "users"@), following(segments, "playlists"@)) {
            (_, None) => Err(Fault::Unknown),
            (Some(owner), Some(kind)) => if owner_safe(owner) {
                match number_in(kind, u32::MAX as int) {
                    Some(kind) => Ok(Link::Playlist(owner, kind)),
                    None => Err(Fault::NoPlaylist),
                }
            } else {
                Err(Fault::NoOwner)
            },
            (None, Some(_)) => Err(Fault::NoOwner),
        }
    }
}

fn refused(fault: Fault, link: String) -> (r: Result<Source, BadLink>)
    ensures
        r matches Err(bad) && bad.fault == fault && bad.link == link,
{
    Err(BadLink { fault, link })
}

impl Source {
    /// Reads a link to a track, an album or a playlist.
    ///
    /// Understood are `music.yandex.ru/track/<id>`, `music.yandex.ru/album/<id>`,
    /// `music.yandex.ru/album/<id>/track/<id>` and
    /// `music.yandex.ru/users/<owner>/playlists/<number>`, with a scheme or
    /// without, with parameters and an anchor, and the bare identifier of a track.
    pub fn parse(input: &str) -> (r: Result<Self, BadLink>)
        ensures
            match r {
                Ok(source) => link_in(input@) == Ok::<Link, Fault>(source@),
                Err(bad) => link_in(input@) == Err::<Link, Fault>(bad.fault) && bad.link@
                    == trimmed(input@),
            },
    {
        let link = trim(input);
        let parts = split_path(link.as_str());
        proof {
            lemma_trimmed_twice(input@);
        }
        if has(parts.as_slice(), "track") || (parts.len() == 1 && is_id(parts[0].as_str())) {
            return match TrackId::parse(link.as_str()) {
                Ok(id) => Ok(Source::Track(id)),
                Err(bad) => Err(bad),
            };
        }
        if let Some(id) = after(parts.as_slice(), "album") {
            return match parse_number(id, u32::MAX as u64) {
                Some(id) => Ok(Source::Album(AlbumId(id as u32))),
                None => refused(Fault::NoAlbum, link),
            };
        }
        match (after(parts.as_slice(), "users"), after(parts.as_slice(), "playlists")) {
            (_, None) => refused(Fault::Unknown, link),
            (None, Some(_)) => refused(Fault::NoOwner, link),
            (Some(owner), Some(kind)) => {
                if !is_owner(owner) {
                    return refused(Fault::NoOwner, link);
                }
                match parse_number(kind, u32::MAX as u64) {
                    Some(kind) => Ok(
                        Source::Playlist(PlaylistId { owner: owner.to_owned(), kind: kind as u32 }),
                    ),
                    None => refused(Fault::NoPlaylist, link),
                }
            },
        }
    }

    /// What the link leads to, in words.
    pub fn text(&self) -> (r: String)
        ensures
            r@ == self@.words(),
            r@ == match self@ {
                Link::Track(id) => "трек "@ + id,
                Link::Album(id) => "альбом "@ + decimal_digits(id as nat),
                Link::Playlist(owner, kind) => "плейлист "@ + owner + "/"@ + decimal_digits(
                    kind as nat,
                ),
            },
    {
        match self {
            Source::Track(id) => {
                let mut r = "трек ".to_owned();
                r.append(id.as_str());
                r
            },
            Source::Album(id) => {
                let mut r = "альбом ".to_owned();
                r.append(decimal(id.value() as u64).as_str());
                r
            },
            Source::Playlist(id) => {
                let mut r = "плейлист ".to_owned();
                r.append(id.owner());
                r.append("/");
                r.append(decimal(id.kind() as u64).as_str());
                r
            },
        }
    }
}

/// What may stand before the path of a link: a host with a scheme or without, up
/// to a slash, and none of the words that the path is read by.
pub open spec fn address(s: Seq<char>) -> bool {
    let before = pieces(s.drop_last(), '/');
    &&& s.len() > 0
    &&& s.last() == '/'
    &&& !white(s[0])
    &&& forall|i: int| 0 <= i < s.len() ==> !mark(#[trigger] s[i])
    &&& !before.contains("track"@)
    &&& !before.contains("album"@)
    &&& !before.contains("users"@)
    &&& !before.contains("playlists"@)
}

/// What may stand behind the path of a link: nothing, parameters or an anchor.
pub open spec fn trailer(s: Seq<char>) -> bool {
    s.len() == 0 || mark(s[0])
}

/// The service's own address is such, with a scheme and without.
pub proof fn lemma_service_address()
    ensures
        address("music.yandex.ru/"@),
        address("https://music.yandex.ru/"@),
{
    let host = "music.yandex.ru"@;
    let scheme = "https:"@;
    let nothing = Seq::<char>::empty();
    lemma_word_lengths();
    reveal_strlit("music.yandex.ru");
    reveal_strlit("music.yandex.ru/");
    reveal_strlit("https:");
    reveal_strlit("https://music.yandex.ru/");
    assert("music.yandex.ru/"@.drop_last() =~= host);
    lemma_single_piece(host, '/');
    let full = "https://music.yandex.ru/"@.drop_last();
    assert(full =~= scheme.push('/') + (nothing.push('/') + host));
    lemma_pieces_joined(scheme, nothing.push('/') + host, '/');
    lemma_pieces_joined(nothing, host, '/');
    lemma_single_piece(scheme, '/');
    lemma_single_piece(nothing, '/');
    let parts = pieces(full, '/');
    assert(parts =~= seq![scheme, nothing, host]);
    assert forall|i: int| 0 <= i < parts.len() implies (#[trigger] parts[i]).len() != 5
        && parts[i].len() != 9 by {}
}

/// A path part ends at the first mark.
proof fn lemma_path_part(a: Seq<char>, b: Seq<char>)
    requires
        forall|i: int| 0 <= i < a.len() ==> !mark(#[trigger] a[i]),
        trailer(b),
    ensures
        path_part(a + b) == a,
    decreases a.len(),
{
    if a.len() == 0 {
        assert(a + b =~= b);
        assert(a =~= Seq::empty());
    } else {
        let rest = a.drop_first();
        assert forall|i: int| 0 <= i < rest.len() implies !mark(#[trigger] rest[i]) by {
            assert(rest[i] == a[i + 1]);
        }
        assert((a + b).drop_first() =~= rest + b);
        lemma_path_part(rest, b);
        assert(seq![a[0]] + rest =~= a);
    }
}

/// The segments of a link, and the link without white space around it.
proof fn lemma_segments(host: Seq<char>, path: Seq<char>, tail: Seq<char>)
    requires
        address(host),
        trailer(tail),
        path.len() > 0,
        !white(path.last()),
        forall|i: int| 0 <= i < path.len() ==> !mark(#[trigger] path[i]),
    ensures
        segments(trimmed(host + path + tail)) == pieces(host.drop_last(), '/') + pieces(path, '/'),
        trimmed(host + path + tail).len() > host.len(),
        trimmed(host + path + tail)[host.len() - 1] == '/',
{
    let a = host + path;
    lemma_trimmed_behind(a, tail);
    lemma_trimmed_end(tail);
    let rest = trimmed_end(tail);
    assert(trailer(rest));
    assert forall|i: int| 0 <= i < a.len() implies !mark(#[trigger] a[i]) by {
        if i < host.len() {
            assert(a[i] == host[i]);
        } else {
            assert(a[i] == path[i - host.len()]);
        }
    }
    lemma_path_part(a, rest);
    assert(host.drop_last().push('/') + path =~= a);
    lemma_pieces_joined(host.drop_last(), path, '/');
}

/// Segments without a name are passed over.
proof fn lemma_following_behind(a: Seq<Seq<char>>, b: Seq<Seq<char>>, name: Seq<char>)
    requires
        !a.contains(name),
    ensures
        following(a + b, name) == following(b, name),
    decreases a.len(),
{
    if a.len() == 0 {
        assert(a + b =~= b);
    } else {
        assert(a.contains(a[0]));
        assert((a + b).drop_first() =~= a.drop_first() + b);
        assert forall|i: int| 0 <= i < a.drop_first().len() implies a.drop_first()[i] != name by {
            assert(a.contains(a[i + 1]));
        }
        lemma_following_behind(a.drop_first(), b, name);
    }
}

proof fn lemma_contains_behind(a: Seq<Seq<char>>, b: Seq<Seq<char>>, name: Seq<char>)
    requires
        !a.contains(name),
    ensures
        (a + b).contains(name) == b.contains(name),
{
    if (a + b).contains(name) {
        let i = choose|i: int| 0 <= i < (a + b).len() && (a + b)[i] == name;
        if i < a.len() {
            assert(a[i] == name);
        } else {
            assert(b[i - a.len()] == name);
        }
    }
    if b.contains(name) {
        let i = choose|i: int| 0 <= i < b.len() && b[i] == name;
        assert((a + b)[a.len() + i] == name);
    }
}

/// The words of a path, told apart from each other and from numbers.
proof fn lemma_words()
    ensures
        "track"@ != "album"@,
        "track"@ != "users"@,
        "track"@ != "playlists"@,
        "album"@ != "users"@,
        "album"@ != "playlists"@,
        "users"@ != "playlists"@,
        forall|id: Seq<char>| #[trigger]
            id_text(id) ==> id != "track"@ && id != "album"@ && id != "users"@ && id
                != "playlists"@,
        "track/"@ == "track"@.push('/'),
        "album/"@ == "album"@.push('/'),
        "users/"@ == "users"@.push('/'),
        "/track/"@ == seq!['/'] + "track"@.push('/'),
        "/playlists/"@ == seq!['/'] + "playlists"@.push('/'),
        forall|i: int| 0 <= i < "track"@.len() ==> #[trigger] "track"@[i] != '/' && !mark(
            "track"@[i],
        ),
        forall|i: int| 0 <= i < "album"@.len() ==> #[trigger] "album"@[i] != '/' && !mark(
            "album"@[i],
        ),
        forall|i: int| 0 <= i < "users"@.len() ==> #[trigger] "users"@[i] != '/' && !mark(
            "users"@[i],
        ),
        forall|i: int| 0 <= i < "playlists"@.len() ==> #[trigger] "playlists"@[i] != '/' && !mark(
            "playlists"@[i],
        ),
{
    reveal_strlit("track");
    reveal_strlit("album");
    reveal_strlit("users");
    reveal_strlit("playlists");
    reveal_strlit("track/");
    reveal_strlit("album/");
    reveal_strlit("users/");
    reveal_strlit("/track/");
    reveal_strlit("/playlists/");
    assert("track"@[0] == 't' && "album"@[0] == 'a' && "users"@[0] == 'u' && "playlists"@[0]
        == 'p');
    assert forall|id: Seq<char>| #[trigger] id_text(id) implies id != "track"@ && id != "album"@
        && id != "users"@ && id != "playlists"@ by {
        assert(crate::text::digit(id[0]));
    }
    assert("track/"@ =~= "track"@.push('/'));
    assert("album/"@ =~= "album"@.push('/'));
    assert("users/"@ =~= "users"@.push('/'));
    assert("/track/"@ =~= seq!['/'] + "track"@.push('/'));
    assert("/playlists/"@ =~= seq!['/'] + "playlists"@.push('/'));
}

/// Two segments of a path.
proof fn lemma_two(a: Seq<char>, b: Seq<char>)
    requires
        !a.contains('/'),
        !b.contains('/'),
    ensures
        pieces(a.push('/') + b, '/') == seq![a, b],
{
    lemma_pieces_joined(a, b, '/');
    lemma_single_piece(a, '/');
    lemma_single_piece(b, '/');
    assert(seq![a] + seq![b] =~= seq![a, b]);
}

/// Four segments of a path.
proof fn lemma_four(a: Seq<char>, b: Seq<char>, c: Seq<char>, d: Seq<char>)
    requires
        !a.contains('/'),
        !b.contains('/'),
        !c.contains('/'),
        !d.contains('/'),
    ensures
        pieces(a.push('/') + b + (seq!['/'] + c.push('/')) + d, '/') == seq![a, b, c, d],
{
    lemma_two(c, d);
    lemma_two(a, b);
    let first = a.push('/') + b;
    let second = c.push('/') + d;
    lemma_pieces_joined(first, second, '/');
    assert(first.push('/') + second =~= a.push('/') + b + (seq!['/'] + c.push('/')) + d);
    assert(seq![a, b] + seq![c, d] =~= seq![a, b, c, d]);
}

/// An identifier has neither slash nor mark in it, nor white space around it.
proof fn lemma_id(id: Seq<char>)
    requires
        id_text(id),
    ensures
        !id.contains('/'),
        forall|i: int| 0 <= i < id.len() ==> !mark(#[trigger] id[i]),
        !white(id[0]),
        !white(id.last()),
{
    assert forall|i: int| 0 <= i < id.len() implies id[i] != '/' && !mark(#[trigger] id[i]) by {
        assert(crate::text::digit(id[i]));
    }
    assert(crate::text::digit(id[0]));
    assert(crate::text::digit(id[id.len() - 1]));
}

/// `<host>/track/<id>` leads to the track, with parameters and an anchor or without.
pub proof fn law_track_link(host: Seq<char>, id: Seq<char>, tail: Seq<char>)
    requires
        address(host),
        trailer(tail),
        id_text(id),
    ensures
        link_in(host + ("track/"@ + id) + tail) == Ok::<Link, Fault>(Link::Track(id)),
{
    let path = "track/"@ + id;
    let before = pieces(host.drop_last(), '/');
    let own = seq!["track"@, id];
    lemma_words();
    lemma_word_lengths();
    lemma_id(id);
    assert forall|i: int| 0 <= i < path.len() implies !mark(#[trigger] path[i]) by {
        if i < 5 {
            assert(path[i] == "track"@[i]);
        } else if i > 5 {
            assert(path[i] == id[i - 6]);
        }
    }
    lemma_segments(host, path, tail);
    lemma_two("track"@, id);
    lemma_following_behind(before, own, "track"@);
    lemma_contains_behind(before, own, "track"@);
    assert(own[0] == "track"@);
    lemma_not_bare(host, path, tail);
    lemma_trimmed_twice(host + path + tail);
}

proof fn lemma_word_lengths()
    ensures
        "track"@.len() == 5,
        "album"@.len() == 5,
        "users"@.len() == 5,
        "playlists"@.len() == 9,
{
    reveal_strlit("track");
    reveal_strlit("album");
    reveal_strlit("users");
    reveal_strlit("playlists");
}

/// A link with a host is no bare identifier.
proof fn lemma_not_bare(host: Seq<char>, path: Seq<char>, tail: Seq<char>)
    requires
        trimmed(host + path + tail).len() > host.len() > 0,
        trimmed(host + path + tail)[host.len() - 1] == '/',
    ensures
        !id_text(trimmed(host + path + tail)),
{
    assert(!crate::text::digit(trimmed(host + path + tail)[host.len() - 1]));
}

/// `<host>/album/<number>` leads to the album.
pub proof fn law_album_link(host: Seq<char>, number: nat, tail: Seq<char>)
    requires
        address(host),
        trailer(tail),
        number <= u32::MAX,
    ensures
        link_in(host + ("album/"@ + decimal_digits(number)) + tail) == Ok::<Link, Fault>(
            Link::Album(number as int),
        ),
{
    let id = decimal_digits(number);
    let path = "album/"@ + id;
    let before = pieces(host.drop_last(), '/');
    let own = seq!["album"@, id];
    lemma_words();
    lemma_word_lengths();
    lemma_decimal_digits(number);
    lemma_id(id);
    assert forall|i: int| 0 <= i < path.len() implies !mark(#[trigger] path[i]) by {
        if i < 5 {
            assert(path[i] == "album"@[i]);
        } else if i > 5 {
            assert(path[i] == id[i - 6]);
        }
    }
    lemma_segments(host, path, tail);
    lemma_two("album"@, id);
    lemma_following_behind(before, own, "album"@);
    lemma_contains_behind(before, own, "track"@);
    assert(id_text(id));
    assert forall|i: int| 0 <= i < own.len() implies own[i] != "track"@ by {}
    lemma_pieces(host.drop_last(), '/');
    law_decimal_round_trip(number, u32::MAX as int);
}

/// `<host>/album/<album>/track/<id>` leads to the track, not to the album.
pub proof fn law_track_in_album_link(
    host: Seq<char>,
    album: Seq<char>,
    id: Seq<char>,
    tail: Seq<char>,
)
    requires
        address(host),
        trailer(tail),
        id_text(album),
        id_text(id),
    ensures
        link_in(host + ("album/"@ + album + "/track/"@ + id) + tail) == Ok::<Link, Fault>(
            Link::Track(id),
        ),
{
    let path = "album/"@ + album + "/track/"@ + id;
    let before = pieces(host.drop_last(), '/');
    let own = seq!["album"@, album, "track"@, id];
    lemma_words();
    lemma_word_lengths();
    lemma_id(id);
    lemma_id(album);
    assert forall|i: int| 0 <= i < path.len() implies !mark(#[trigger] path[i]) by {
        let n = album.len();
        if i < 5 {
            assert(path[i] == "album"@[i]);
        } else if 6 <= i < 6 + n {
            assert(path[i] == album[i - 6]);
        } else if 7 + n <= i < 12 + n {
            assert(path[i] == "track"@[i - 7 - n]);
        } else if 13 + n <= i {
            assert(path[i] == id[i - 13 - n]);
        }
    }
    lemma_segments(host, path, tail);
    lemma_four("album"@, album, "track"@, id);
    lemma_following_behind(before, own, "track"@);
    lemma_contains_behind(before, own, "track"@);
    assert(own[2] == "track"@);
    assert(own.drop_first() =~= seq![album, "track"@, id]);
    assert(own.drop_first().drop_first() =~= seq!["track"@, id]);
    assert(following(own.drop_first().drop_first(), "track"@) == Some(id));
    assert(following(own.drop_first(), "track"@) == Some(id));
    lemma_not_bare(host, path, tail);
    lemma_trimmed_twice(host + path + tail);
}

/// `<host>/users/<owner>/playlists/<number>` leads to the playlist, unless the
/// owner is called by a word that the path is read by.
pub proof fn law_playlist_link(
    host: Seq<char>,
    owner: Seq<char>,
    number: nat,
    tail: Seq<char>,
)
    requires
        address(host),
        trailer(tail),
        owner_safe(owner),
        owner != "track"@,
        owner != "album"@,
        owner != "playlists"@,
        number <= u32::MAX,
    ensures
        link_in(host + ("users/"@ + owner + "/playlists/"@ + decimal_digits(number)) + tail)
            == Ok::<Link, Fault>(Link::Playlist(owner, number as int)),
{
    let id = decimal_digits(number);
    let path = "users/"@ + owner + "/playlists/"@ + id;
    let before = pieces(host.drop_last(), '/');
    let own = seq!["users"@, owner, "playlists"@, id];
    lemma_words();
    lemma_word_lengths();
    lemma_decimal_digits(number);
    lemma_id(id);
    assert forall|i: int| 0 <= i < owner.len() implies owner[i] != '/' && !mark(
        #[trigger] owner[i],
    ) by {
        assert(owner_symbol(owner[i]));
    }
    assert forall|i: int| 0 <= i < path.len() implies !mark(#[trigger] path[i]) by {
        let n = owner.len();
        if i < 5 {
            assert(path[i] == "users"@[i]);
        } else if 6 <= i < 6 + n {
            assert(path[i] == owner[i - 6]);
        } else if 7 + n <= i < 16 + n {
            assert(path[i] == "playlists"@[i - 7 - n]);
        } else if 17 + n <= i {
            assert(path[i] == id[i - 17 - n]);
        }
    }
    lemma_segments(host, path, tail);
    lemma_four("users"@, owner, "playlists"@, id);
    lemma_following_behind(before, own, "album"@);
    lemma_following_behind(before, own, "users"@);
    lemma_following_behind(before, own, "playlists"@);
    lemma_contains_behind(before, own, "track"@);
    assert(id_text(id));
    assert forall|i: int| 0 <= i < own.len() implies own[i] != "track"@ by {}
    let second = own.drop_first();
    let third = second.drop_first();
    let fourth = third.drop_first();
    assert(second =~= seq![owner, "playlists"@, id]);
    assert(third =~= seq!["playlists"@, id]);
    assert(fourth =~= seq![id]);
    assert(fourth.drop_first() =~= Seq::empty());
    assert(following(fourth.drop_first(), "album"@) is None);
    assert(following(fourth, "album"@) is None);
    assert(following(third, "album"@) is None);
    assert(following(second, "album"@) is None);
    assert(following(third, "playlists"@) == Some(id));
    assert(following(second, "playlists"@) == Some(id));
    lemma_pieces(host.drop_last(), '/');
    law_decimal_round_trip(number, u32::MAX as int);
}

/// A bare identifier leads to a track, with white space around it or without.
pub proof fn law_bare_id(input: Seq<char>)
    requires
        id_text(trimmed(input)),
    ensures
        link_in(input) == Ok::<Link, Fault>(Link::Track(trimmed(input))),
{
    let id = trimmed(input);
    lemma_id(id);
    lemma_path_part(id, Seq::empty());
    assert(id + Seq::<char>::empty() =~= id);
    lemma_single_piece(id, '/');
    lemma_trimmed_twice(input);
}

/// A link that speaks of a track leads to a track or to nothing, whatever else
/// stands in it: never to the album around the track.
pub proof fn law_track_means_track(input: Seq<char>)
    requires
        segments(trimmed(input)).contains("track"@),
    ensures
        match link_in(input) {
            Ok(link) => link is Track,
            Err(fault) => fault == Fault::NoTrack,
        },
{
}

/// What a link brings into the path of a request stays in one segment of it:
/// identifiers are digits, and an owner has no slash, no percent sign and no mark in
/// it.
pub proof fn law_links_keep_to_their_segment(input: Seq<char>)
    ensures
        match link_in(input) {
            Ok(Link::Track(id)) => id_text(id),
            Ok(Link::Album(id)) => 0 <= id <= u32::MAX,
            Ok(Link::Playlist(owner, kind)) => {
                &&& owner_safe(owner)
                &&& !owner.contains('/')
                &&& !owner.contains('%')
                &&& !owner.contains('?')
                &&& !owner.contains('#')
                &&& 0 <= kind <= u32::MAX
            },
            Err(_) => true,
        },
{
    match link_in(input) {
        Ok(Link::Album(_)) => {
            let id = following(segments(trimmed(input)), "album"@)->Some_0;
            crate::text::lemma_digits_value(crate::text::unsigned_part(id));
        },
        Ok(Link::Playlist(owner, _)) => {
            let kind = following(segments(trimmed(input)), "playlists"@)->Some_0;
            crate::text::lemma_digits_value(crate::text::unsigned_part(kind));
            assert forall|i: int| 0 <= i < owner.len() implies owner[i] != '/' && owner[i] != '%'
                && owner[i] != '?' && owner[i] != '#' by {
                assert(owner_symbol(owner[i]));
            }
        },
        _ => {},
    }
}

/// Characters of links: an owner consists of Latin letters, digits, hyphens, dots and
/// underscores, an identifier of digits, and a question mark or a number sign ends the
/// path.
pub proof fn law_characters_of_links(c: char)
    ensures
        owner_symbol(c) <==> 97 <= c as int <= 122 || 65 <= c as int <= 90 || 48 <= c as int <= 57
            || c == '-' || c == '.' || c == '_',
        mark(c) <==> c == '?' || c == '#',
        owner_safe(seq![c]) <==> owner_symbol(c),
        id_text(seq![c]) <==> 48 <= c as int <= 57,
        !owner_safe(Seq::<char>::empty()),
        !id_text(Seq::<char>::empty()),
{
    if owner_safe(seq![c]) {
        assert(owner_symbol(seq![c][0]));
    }
    if id_text(seq![c]) {
        assert(crate::text::digit(seq![c][0]));
    }
}

/// A text is an owner, or an identifier, exactly if it is not empty and each of its
/// characters fits.
pub proof fn law_owners_and_identifiers(a: Seq<char>, b: Seq<char>)
    requires
        a.len() > 0,
        b.len() > 0,
    ensures
        owner_safe(a + b) <==> owner_safe(a) && owner_safe(b),
        id_text(a + b) <==> id_text(a) && id_text(b),
{
    let whole = a + b;
    if owner_safe(whole) {
        assert forall|i: int| 0 <= i < a.len() implies owner_symbol(#[trigger] a[i]) by {
            assert(whole[i] == a[i]);
        }
        assert forall|i: int| 0 <= i < b.len() implies owner_symbol(#[trigger] b[i]) by {
            assert(whole[a.len() + i] == b[i]);
        }
    }
    if id_text(whole) {
        assert forall|i: int| 0 <= i < a.len() implies crate::text::digit(#[trigger] a[i]) by {
            assert(whole[i] == a[i]);
        }
        assert forall|i: int| 0 <= i < b.len() implies crate::text::digit(#[trigger] b[i]) by {
            assert(whole[a.len() + i] == b[i]);
        }
    }
}

/// The segment behind a name is the one right behind the first of that name, and there
/// is none if the name is not there or nothing follows it.
pub proof fn law_segment_behind_a_name(segments: Seq<Seq<char>>, name: Seq<char>, at: int)
    requires
        0 <= at <= segments.len(),
        forall|i: int| 0 <= i < at ==> #[trigger] segments[i] != name,
    ensures
        at + 1 < segments.len() && segments[at] == name ==> following(segments, name) == Some(
            segments[at + 1],
        ),
        at + 1 == segments.len() && segments[at] == name ==> following(segments, name) is None,
        at == segments.len() ==> following(segments, name) is None,
    decreases at,
{
    if at > 0 {
        let rest = segments.drop_first();
        assert(segments[0] != name);
        assert forall|i: int| 0 <= i < at - 1 implies #[trigger] rest[i] != name by {
            assert(rest[i] == segments[i + 1]);
        }
        law_segment_behind_a_name(rest, name, at - 1);
        if at < segments.len() {
            assert(rest[at - 1] == segments[at]);
        }
        if at + 1 < segments.len() {
            assert(rest[at] == segments[at + 1]);
        }
    }
}

/// The segments of a link are the pieces of what stands before its first mark.
pub proof fn law_path_ends_at_a_mark(path: Seq<char>, tail: Seq<char>)
    requires
        forall|i: int| 0 <= i < path.len() ==> !mark(#[trigger] path[i]),
        trailer(tail),
    ensures
        segments(path + tail) == pieces(path, '/'),
{
    lemma_path_part(path, tail);
}

/// A link leads to an album by the number behind `album`, to a playlist by the owner
/// behind `users` and the number behind `playlists`, and to a track by the identifier
/// behind `track` or by being one, and in no other way.
pub proof fn law_what_leads_where(input: Seq<char>)
    ensures
        ({
            let link = trimmed(input);
            let parts = segments(link);
            &&& link_in(input) matches Ok(Link::Album(id)) ==> {
                &&& !parts.contains("track"@)
                &&& following(parts, "album"@) is Some
                &&& number_in(following(parts, "album"@)->Some_0, u32::MAX as int) == Some(id)
            }
            &&& link_in(input) matches Ok(Link::Playlist(owner, kind)) ==> {
                &&& !parts.contains("track"@)
                &&& following(parts, "album"@) is None
                &&& following(parts, "users"@) == Some(owner)
                &&& following(parts, "playlists"@) is Some
                &&& number_in(following(parts, "playlists"@)->Some_0, u32::MAX as int) == Some(
                    kind,
                )
            }
            &&& link_in(input) matches Ok(Link::Track(id)) ==> id_text(id) && (id == link
                || following(parts, "track"@) == Some(id))
        }),
{
    lemma_trimmed_twice(input);
}

/// A link that leads nowhere is told apart: one that speaks of a track has no identifier
/// of one, one that speaks of an album no number behind it, one that speaks of a playlist
/// no owner or no number, and any other leads to none of the three.
pub proof fn law_what_leads_nowhere(input: Seq<char>)
    ensures
        ({
            let parts = segments(trimmed(input));
            let number = |name: Seq<char>|
                following(parts, name) is Some && number_in(
                    following(parts, name)->Some_0,
                    u32::MAX as int,
                ) is Some;
            let bare = parts.len() == 1 && id_text(parts[0]);
            let named = !parts.contains("track"@) && !bare;
            let listed = named && following(parts, "album"@) is None && following(
                parts,
                "playlists"@,
            ) is Some;
            let owned = following(parts, "users"@) is Some && owner_safe(
                following(parts, "users"@)->Some_0,
            );
            &&& parts.contains("track"@) && !(track_in(input) is Some) ==> link_in(input) == Err::<
                Link,
                Fault,
            >(Fault::NoTrack)
            &&& named && following(parts, "album"@) is Some && !number("album"@) ==> link_in(input)
                == Err::<Link, Fault>(Fault::NoAlbum)
            &&& listed && !owned ==> link_in(input) == Err::<Link, Fault>(Fault::NoOwner)
            &&& listed && owned && !number("playlists"@) ==> link_in(input) == Err::<Link, Fault>(
                Fault::NoPlaylist,
            )
            &&& named && following(parts, "album"@) is None && following(
                parts,
                "playlists"@,
            ) is None ==> link_in(input) == Err::<Link, Fault>(Fault::Unknown)
        }),
{
    lemma_trimmed_twice(input);
}

/// The identifier of a track is read out of a link by itself as it is by the way to what
/// the link leads to.
pub proof fn law_identifier_of_a_track(input: Seq<char>)
    ensures
        link_in(input) matches Ok(Link::Track(id)) ==> track_in(input) == Some(id),
        track_in(input) matches Some(id) ==> link_in(input) == Ok::<Link, Fault>(Link::Track(id)),
{
    lemma_trimmed_twice(input);
    let link = trimmed(input);
    if id_text(link) {
        law_bare_id(input);
    } else if track_in(input) is Some {
        lemma_following_is_there(segments(link), "track"@);
    }
}

proof fn lemma_following_is_there(segments: Seq<Seq<char>>, name: Seq<char>)
    requires
        following(segments, name) is Some,
    ensures
        segments.contains(name),
    decreases segments.len(),
{
    if segments[0] == name {
        assert(segments.contains(segments[0]));
    } else {
        let rest = segments.drop_first();
        lemma_following_is_there(rest, name);
        let i = choose|i: int| 0 <= i < rest.len() && rest[i] == name;
        assert(segments[i + 1] == name);
    }
}

/// What a source leads to is what it holds.
pub proof fn law_view_of_a_source(source: Source)
    ensures
        source is Track ==> source@ == Link::Track(source->Track_0.0@),
        source is Album ==> source@ == Link::Album(source->Album_0.0 as int),
        source is Playlist ==> source@ == Link::Playlist(
            source->Playlist_0.owner_text(),
            source->Playlist_0.number() as int,
        ),
{
}

/// Every fault has words of its own.
pub proof fn law_faults_have_their_words()
    ensures
        Fault::NoTrack.words() == "в ссылке нет идентификатора трека: "@,
        Fault::NoAlbum.words() == "в ссылке нет номера альбома: "@,
        Fault::NoPlaylist.words() == "в ссылке нет номера плейлиста: "@,
        "плейлист адресуется владельцем и номером: "@.is_prefix_of(Fault::NoOwner.words()),
        Fault::Unknown.words() == "ссылка не похожа ни на трек, ни на альбом, ни на плейлист: "@,
{
    reveal_strlit("плейлист адресуется владельцем и номером: ");
    reveal_strlit("плейлист адресуется владельцем и номером: music.yandex.ru/users/<владелец>/playlists/<номер>. Такую ссылку даёт кнопка «Поделиться» в плейлисте: ");
    assert("плейлист адресуется владельцем и номером: "@ =~= Fault::NoOwner.words().take(
        "плейлист адресуется владельцем и номером: "@.len() as int,
    ));
}

/// What a link leads to is told by its kind and all that names it.
pub proof fn law_links_are_told(id: Seq<char>, number: nat)
    ensures
        Link::Track(id).words() == "трек "@ + id,
        Link::Album(number as int).words() == "альбом "@ + decimal_digits(number),
        Link::Playlist(id, number as int).words() == "плейлист "@ + id + "/"@ + decimal_digits(
            number,
        ),
{
}

} // verus!
