//! Tags written into the head of a downloaded file.
//!
//! The service hands out files without any metadata, so the head of a file is
//! rewritten while its body is still on the way. Everything here is a function
//! of bytes: no network, no files, no clock.

pub mod flac;
pub mod id3;
pub mod mp4;
pub mod reading;
pub mod relocation;
pub mod sound;

use vstd::prelude::*;
use vstd::string::*;

use crate::text::{copy_text, copy_texts, decimal_digits, same, text_of, texts};

verus! {

/// A container that tags can be written into.
#[derive(Debug, Clone, Copy, PartialEq, Eq, Structural)]
pub enum Format {
    /// `MP4`: everything that is stored as `.m4a`.
    Mp4,
    /// Bare `FLAC` with metadata blocks at its head.
    Flac,
    /// `MP3` with an `ID3v2` tag before the first frame.
    Mp3,
}

/// The format that a file extension stands for.
pub open spec fn format_of(extension: Seq<char>) -> Option<Format> {
    if extension == "m4a"@ {
        Some(Format::Mp4)
    } else if extension == "flac"@ {
        Some(Format::Flac)
    } else if extension == "mp3"@ {
        Some(Format::Mp3)
    } else {
        None
    }
}

impl Format {
    /// The format of a file by its extension; `None` for an unknown one, whose
    /// file is stored as it came.
    pub fn of(extension: &str) -> (r: Option<Self>)
        ensures
            r == format_of(extension@),
    {
        if same(extension, "m4a") {
            Some(Format::Mp4)
        } else if same(extension, "flac") {
            Some(Format::Flac)
        } else if same(extension, "mp3") {
            Some(Format::Mp3)
        } else {
            None
        }
    }
}

/// The number of a track in its album.
#[derive(Debug, Clone, Copy, PartialEq, Eq, Structural)]
pub struct Number {
    pub index: u16,
    pub total: Option<u16>,
}

/// What to write into the tags.
///
/// Every field is optional on purpose: a missing one is not written at all.
#[derive(Debug, PartialEq, Eq)]
pub struct Meta {
    pub title: Option<String>,
    pub artists: Vec<String>,
    pub album: Option<String>,
    pub album_artists: Vec<String>,
    pub year: Option<u16>,
    pub genre: Option<String>,
    pub number: Option<Number>,
    pub volume: Option<u16>,
}

/// The texts and numbers of a [`Meta`].
#[verifier::ext_equal]
pub struct MetaView {
    pub title: Option<Seq<char>>,
    pub artists: Seq<Seq<char>>,
    pub album: Option<Seq<char>>,
    pub album_artists: Seq<Seq<char>>,
    pub year: Option<u16>,
    pub genre: Option<Seq<char>>,
    pub number: Option<Number>,
    pub volume: Option<u16>,
}

impl MetaView {
    /// No field is present.
    pub open spec fn blank(self) -> bool {
        &&& self.title is None
        &&& self.artists.len() == 0
        &&& self.album is None
        &&& self.album_artists.len() == 0
        &&& self.year is None
        &&& self.genre is None
        &&& self.number is None
        &&& self.volume is None
    }
}

impl View for Meta {
    type V = MetaView;

    open spec fn view(&self) -> MetaView {
        MetaView {
            title: text_of(self.title),
            artists: texts(self.artists@),
            album: text_of(self.album),
            album_artists: texts(self.album_artists@),
            year: self.year,
            genre: text_of(self.genre),
            number: self.number,
            volume: self.volume,
        }
    }
}

impl Clone for Meta {
    fn clone(&self) -> (r: Self)
        ensures
            r@ == self@,
    {
        let r = Meta {
            title: copy_text(&self.title),
            artists: copy_texts(self.artists.as_slice()),
            album: copy_text(&self.album),
            album_artists: copy_texts(self.album_artists.as_slice()),
            year: self.year,
            genre: copy_text(&self.genre),
            number: self.number,
            volume: self.volume,
        };
        proof {
            assert(r@ =~= self@);
        }
        r
    }
}

impl Default for Meta {
    fn default() -> (r: Self)
        ensures
            r@.blank(),
    {
        Meta {
            title: None,
            artists: Vec::new(),
            album: None,
            album_artists: Vec::new(),
            year: None,
            genre: None,
            number: None,
            volume: None,
        }
    }
}

impl Meta {
    /// There is nothing to write.
    pub fn is_empty(&self) -> (r: bool)
        ensures
            r == self@.blank(),
    {
        self.title.is_none() && self.artists.len() == 0 && self.album.is_none()
            && self.album_artists.len() == 0 && self.year.is_none() && self.genre.is_none()
            && self.number.is_none() && self.volume.is_none()
    }

    /// The artists in one line, or nothing if there are none.
    pub fn artists(&self) -> (r: Option<String>)
        ensures
            text_of(r) == joined_text(self@.artists),
    {
        joined(self.artists.as_slice())
    }

    /// The artists of the album in one line.
    pub fn album_artists(&self) -> (r: Option<String>)
        ensures
            text_of(r) == joined_text(self@.album_artists),
    {
        joined(self.album_artists.as_slice())
    }
}

/// Values with a comma and a space between each two.
pub open spec fn comma_separated(values: Seq<Seq<char>>) -> Seq<char>
    decreases values.len(),
{
    if values.len() == 0 {
        Seq::empty()
    } else if values.len() == 1 {
        values[0]
    } else {
        comma_separated(values.drop_last()) + ", "@ + values.last()
    }
}

/// Values in one line, or nothing if there are none.
pub open spec fn joined_text(values: Seq<Seq<char>>) -> Option<Seq<char>> {
    if values.len() == 0 {
        None
    } else {
        Some(comma_separated(values))
    }
}

/// Values in one line, or nothing if there are none.
pub fn joined(values: &[String]) -> (r: Option<String>)
    ensures
        text_of(r) == joined_text(texts(values@)),
{
    if values.len() == 0 {
        return None;
    }
    let mut line = values[0].clone();
    let mut i: usize = 1;
    let ghost all = texts(values@);
    proof {
        assert(line@ =~= comma_separated(all.take(1)));
    }
    while i < values.len()
        invariant
            1 <= i <= values@.len(),
            all == texts(values@),
            line@ == comma_separated(all.take(i as int)),
        decreases values@.len() - i,
    {
        line.append(", ");
        line.append(values[i].as_str());
        proof {
            assert(all.take(i + 1).drop_last() =~= all.take(i as int));
        }
        i += 1;
    }
    proof {
        assert(all.take(all.len() as int) =~= all);
    }
    Some(line)
}

/// A number in decimal, if it is present.
pub open spec fn number_text(value: Option<u16>) -> Option<Seq<char>> {
    match value {
        Some(value) => Some(decimal_digits(value as nat)),
        None => None,
    }
}

/// Why tags were not written.
#[derive(Debug, Clone, Copy, PartialEq, Eq, Structural)]
pub enum Reason {
    /// There is nothing to write.
    Empty,
    /// The structure of the file was not understood.
    Malformed,
    /// A fragmented `MP4`: its fragments are located by indices outside the head.
    Fragmented,
    /// Sound lies inside `moov`.
    Inline,
    /// The head did not fit into its buffer.
    Oversized,
    /// A length does not fit into its field.
    Overflow,
}

impl Reason {
    pub open spec fn message(self) -> Seq<char> {
        match self {
            Reason::Empty => "нет данных для тегов"@,
            Reason::Malformed => "структура файла не разобрана"@,
            Reason::Fragmented => "фрагментированный MP4"@,
            Reason::Inline => "звук лежит внутри заголовка"@,
            Reason::Oversized => "заголовок не уместился в буфер"@,
            Reason::Overflow => "длина не помещается в поле формата"@,
        }
    }

    /// The reason in words.
    pub fn text(&self) -> (r: &'static str)
        ensures
            r@ == self.message(),
    {
        match self {
            Reason::Empty => "нет данных для тегов",
            Reason::Malformed => "структура файла не разобрана",
            Reason::Fragmented => "фрагментированный MP4",
            Reason::Inline => "звук лежит внутри заголовка",
            Reason::Oversized => "заголовок не уместился в буфер",
            Reason::Overflow => "длина не помещается в поле формата",
        }
    }
}

/// What a parser makes of the head gathered so far; a refusal is an error.
#[derive(Debug)]
pub enum Outcome {
    /// The head is not complete yet.
    More,
    /// A new head, in place of the first `used` bytes of the stream.
    Ready { head: Vec<u8>, used: usize },
}

/// What a parser answers, over plain sequences.
#[verifier::ext_equal]
pub enum Built {
    More,
    Ready { head: Seq<u8>, used: int },
    Refused(Reason),
}

/// What a parser's answer says.
pub open spec fn built(answer: Result<Outcome, Reason>) -> Built {
    match answer {
        Ok(Outcome::More) => Built::More,
        Ok(Outcome::Ready { head, used }) => Built::Ready { head: head@, used: used as int },
        Err(reason) => Built::Refused(reason),
    }
}

/// What to do with the head gathered so far.
#[derive(Debug)]
pub enum Patch {
    /// The head is not complete yet.
    More,
    /// A new head, in place of the first `used` bytes of the stream.
    Ready { head: Vec<u8>, used: usize },
    /// No tags: the file is stored as it came.
    Refused(Reason),
}

impl Patch {
    pub open spec fn said(self) -> Built {
        match self {
            Patch::More => Built::More,
            Patch::Ready { head, used } => Built::Ready { head: head@, used: used as int },
            Patch::Refused(reason) => Built::Refused(reason),
        }
    }
}

/// What the parser of a format answers.
pub open spec fn parsed(format: Format, head: Seq<u8>, meta: MetaView) -> Built {
    match format {
        Format::Mp4 => mp4::patched(head, meta),
        Format::Flac => flac::patched(head, meta),
        Format::Mp3 => id3::patched(head, meta),
    }
}

/// Whether a head passes the check of its format.
pub open spec fn verified(format: Format, head: Seq<u8>) -> Result<(), Reason> {
    match format {
        Format::Mp4 => mp4::verified(head),
        Format::Flac => flac::verified(head),
        Format::Mp3 => id3::verified(head),
    }
}

/// What [`patch`] answers: a refusal if there is nothing to write, the parser's
/// answer otherwise, and no head that fails its check.
#[verifier::opaque]
pub open spec fn patched(format: Format, head: Seq<u8>, meta: MetaView) -> Built {
    if meta.blank() {
        Built::Refused(Reason::Empty)
    } else {
        match parsed(format, head, meta) {
            Built::Ready { head: new, used } => match verified(format, new) {
                Ok(()) => Built::Ready { head: new, used },
                Err(reason) => Built::Refused(reason),
            },
            answer => answer,
        }
    }
}

/// Rewrites the head of a file with tags in it.
///
/// It is called as bytes arrive: while the parser lacks some, the answer is
/// [`Patch::More`]. The new head is parsed back, so that a broken one never
/// reaches the disk.
pub fn patch(format: Format, head: &[u8], meta: &Meta) -> (r: Patch)
    ensures
        r.said() == patched(format, head@, meta@),
{
    proof {
        reveal(patched);
    }
    if meta.is_empty() {
        return Patch::Refused(Reason::Empty);
    }
    let answer = match format {
        Format::Mp4 => mp4::patch(head, meta),
        Format::Flac => flac::patch(head, meta),
        Format::Mp3 => id3::patch(head, meta),
    };
    match answer {
        Err(reason) => Patch::Refused(reason),
        Ok(Outcome::More) => Patch::More,
        Ok(Outcome::Ready { head, used }) => match verify(format, head.as_slice()) {
            Ok(()) => Patch::Ready { head, used },
            Err(reason) => Patch::Refused(reason),
        },
    }
}

/// Parses a new head back.
pub fn verify(format: Format, head: &[u8]) -> (r: Result<(), Reason>)
    ensures
        r == verified(format, head@),
{
    match format {
        Format::Mp4 => mp4::verify(head),
        Format::Flac => flac::verify(head),
        Format::Mp3 => id3::verify(head),
    }
}

/// No broken head reaches the disk: one that is ready passes the check of its
/// format, and takes the place of bytes that are here.
pub proof fn law_ready_head_is_sound(format: Format, head: Seq<u8>, meta: MetaView)
    requires
        head.len() <= usize::MAX,
        patched(format, head, meta) is Ready,
    ensures
        !meta.blank(),
        verified(format, patched(format, head, meta)->head) == Ok::<(), Reason>(()),
        0 <= patched(format, head, meta)->used <= head.len(),
{
    reveal(patched);
    assert(head + Seq::<u8>::empty() =~= head);
    match format {
        Format::Mp4 => relocation::law_decision_stands(head, Seq::empty(), meta),
        Format::Flac => flac::law_decision_stands(head, Seq::empty(), meta),
        Format::Mp3 => id3::law_decision_stands(head, Seq::empty(), meta),
    }
}

/// Whether more of a stream cannot make a parser change its mind: any stream of
/// `FLAC` or `MP3`, and one of `MP4` that consists of boxes.
pub open spec fn orderly(format: Format, stream: Seq<u8>) -> bool {
    format == Format::Mp4 ==> mp4::boxes(stream, 0) is Ok
}

/// A decision stands: once it is made on the head of an orderly stream, what follows
/// does not change it.
pub proof fn law_decision_stands(format: Format, head: Seq<u8>, more: Seq<u8>, meta: MetaView)
    requires
        head.len() + more.len() <= usize::MAX,
        orderly(format, head + more),
        !(patched(format, head, meta) is More),
    ensures
        patched(format, head + more, meta) == patched(format, head, meta),
{
    reveal(patched);
    if !meta.blank() {
        match format {
            Format::Mp4 => relocation::law_decision_stands(head, more, meta),
            Format::Flac => flac::law_decision_stands(head, more, meta),
            Format::Mp3 => id3::law_decision_stands(head, more, meta),
        }
    }
}

/// A beginning of an orderly stream is orderly.
pub proof fn lemma_orderly_beginning(format: Format, head: Seq<u8>, more: Seq<u8>)
    requires
        orderly(format, head + more),
    ensures
        orderly(format, head),
{
    if format == Format::Mp4 {
        relocation::lemma_boxes_grow(head, more, 0, Seq::empty());
    }
}

/// The check refuses nothing that a parser builds of a file in order: with
/// something to write, the answer is the parser's.
pub proof fn law_check_passes_what_is_built(format: Format, file: Seq<u8>, meta: MetaView)
    requires
        file.len() <= usize::MAX,
        !meta.blank(),
        parsed(format, file, meta) matches Built::Ready { head, .. } ==> head.len() <= usize::MAX,
        format == Format::Mp4 && parsed(format, file, meta) is Ready
            ==> relocation::sound_tables(file),
    ensures
        patched(format, file, meta) == parsed(format, file, meta),
{
    reveal(patched);
    if parsed(format, file, meta) is Ready {
        match format {
            Format::Mp4 => relocation::law_new_head_verifies(file, meta),
            Format::Flac => flac::law_new_head_verifies(file, meta),
            Format::Mp3 => id3::law_tag_parses_back(meta, Seq::empty()),
        }
    }
}

/// The view of a meta is the meta: each text and number of the one is that of the other.
pub proof fn law_view_of_meta(meta: Meta)
    ensures
        meta@.title is Some <==> meta.title is Some,
        meta.title matches Some(title) ==> meta@.title == Some(title@),
        meta@.artists.len() == meta.artists@.len(),
        forall|i: int|
            0 <= i < meta.artists@.len() ==> #[trigger] meta@.artists[i] == meta.artists@[i]@,
        meta@.album is Some <==> meta.album is Some,
        meta.album matches Some(album) ==> meta@.album == Some(album@),
        meta@.album_artists.len() == meta.album_artists@.len(),
        forall|i: int|
            0 <= i < meta.album_artists@.len() ==> #[trigger] meta@.album_artists[i]
                == meta.album_artists@[i]@,
        meta@.year == meta.year,
        meta@.genre is Some <==> meta.genre is Some,
        meta.genre matches Some(genre) ==> meta@.genre == Some(genre@),
        meta@.number == meta.number,
        meta@.volume == meta.volume,
{
}

/// There is something to write as soon as one field is there.
pub proof fn law_something_to_write(meta: MetaView)
    ensures
        meta.title is Some || meta.artists.len() > 0 || meta.album is Some
            || meta.album_artists.len() > 0 || meta.year is Some || meta.genre is Some
            || meta.number is Some || meta.volume is Some <==> !meta.blank(),
{
}

/// Only a meta without anything in it is refused as empty, whatever the file; with
/// something in it, and a new head that passes its check, that head is what the format
/// makes of the file.
pub proof fn law_only_nothing_is_empty(format: Format, head: Seq<u8>, meta: MetaView)
    ensures
        meta.blank() ==> patched(format, head, meta) == Built::Refused(Reason::Empty),
        !meta.blank() && format == Format::Mp4 ==> (patched(format, head, meta) == mp4::patched(
            head,
            meta,
        ) || mp4::patched(head, meta) is Ready && mp4::verified(
            mp4::patched(head, meta)->head,
        ) is Err && patched(format, head, meta) is Refused),
        !meta.blank() && format == Format::Flac ==> (patched(format, head, meta)
            == flac::patched(head, meta) || flac::patched(head, meta) is Ready && flac::verified(
            flac::patched(head, meta)->head,
        ) is Err && patched(format, head, meta) is Refused),
        !meta.blank() && format == Format::Mp3 ==> (patched(format, head, meta) == id3::patched(
            head,
            meta,
        ) || id3::patched(head, meta) is Ready && id3::verified(
            id3::patched(head, meta)->head,
        ) is Err && patched(format, head, meta) is Refused),
{
    reveal(patched);
}

/// Lists in one line: a single value is the line, and two lists one after another have a
/// comma and a space between their lines.
pub proof fn law_lists_in_one_line(a: Seq<Seq<char>>, b: Seq<Seq<char>>)
    ensures
        a.len() == 1 ==> comma_separated(a) == a[0],
        a.len() > 0 && b.len() > 0 ==> comma_separated(a + b) == comma_separated(a) + seq![',', ' ']
            + comma_separated(b),
        joined_text(a) is Some <==> a.len() > 0,
        a.len() > 0 ==> joined_text(a) == Some(comma_separated(a)),
    decreases b.len(),
{
    reveal_strlit(", ");
    assert(", "@ =~= seq![',', ' ']);
    if a.len() > 0 && b.len() > 0 {
        let whole = a + b;
        assert(whole.last() == b.last());
        if b.len() == 1 {
            assert(whole.drop_last() =~= a);
        } else {
            let shorter = b.drop_last();
            assert(whole.drop_last() =~= a + shorter);
            law_lists_in_one_line(a, shorter);
            assert(comma_separated(whole) =~= comma_separated(a) + seq![',', ' ']
                + comma_separated(b));
        }
    }
}

/// Tags are written into files of three extensions, each in its own format.
pub proof fn law_formats_of_extensions(extension: Seq<char>)
    ensures
        format_of(extension) == Some(Format::Mp4) <==> extension == seq!['m', '4', 'a'],
        format_of(extension) == Some(Format::Flac) <==> extension == seq!['f', 'l', 'a', 'c'],
        format_of(extension) == Some(Format::Mp3) <==> extension == seq!['m', 'p', '3'],
{
    reveal_strlit("m4a");
    reveal_strlit("flac");
    reveal_strlit("mp3");
    let flac = seq!['f', 'l', 'a', 'c'];
    let mp3 = seq!['m', 'p', '3'];
    assert("m4a"@ =~= seq!['m', '4', 'a']);
    assert("flac"@ =~= flac);
    assert("mp3"@ =~= mp3);
    assert(flac.len() == 4);
    assert(mp3[1] == 'p');
}

/// Every reason has words of its own.
pub proof fn law_reasons_have_their_words(reason: Reason)
    ensures
        reason == Reason::Empty <==> reason.message() == "нет данных для тегов"@,
        reason == Reason::Malformed <==> reason.message() == "структура файла не разобрана"@,
        reason == Reason::Fragmented <==> reason.message() == "фрагментированный MP4"@,
        reason == Reason::Inline <==> reason.message() == "звук лежит внутри заголовка"@,
        reason == Reason::Oversized <==> reason.message() == "заголовок не уместился в буфер"@,
        reason == Reason::Overflow <==> reason.message() == "длина не помещается в поле формата"@,
{
    reveal_strlit("нет данных для тегов");
    reveal_strlit("структура файла не разобрана");
    reveal_strlit("фрагментированный MP4");
    reveal_strlit("звук лежит внутри заголовка");
    reveal_strlit("заголовок не уместился в буфер");
    reveal_strlit("длина не помещается в поле формата");
    assert("нет данных для тегов"@[0] == 'н');
    assert("структура файла не разобрана"@[0] == 'с');
    assert("фрагментированный MP4"@[0] == 'ф');
    assert("звук лежит внутри заголовка"@[1] == 'в');
    assert("заголовок не уместился в буфер"@[1] == 'а');
    assert("длина не помещается в поле формата"@[0] == 'д');
}

} // verus!
