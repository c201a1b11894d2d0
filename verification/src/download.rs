//! Decisions about the download of a track: which file to ask for, what to do
//! with the answer, which bytes to store, and when to stop.

use vstd::hash_set::StringHashSet;
use vstd::prelude::*;
use vstd::string::*;

use crate::bytes::extend;
use crate::net::{
    asked_wait, header_fields, retry_after, retry_field, status_line, status_text,
    success, verdict, Attempts, Retry, MAX_WAIT,
};
use crate::tags::{
    format_of, law_decision_stands, law_ready_head_is_sound, lemma_orderly_beginning, orderly,
    patch, patched, Built, Format, Meta, MetaView, Patch, Reason,
};
use crate::text::{decimal, decimal_digits, flat, same, texts};
use crate::track::{stem, track_meta, TrackInfo};
use crate::updater::Existing;

verus! {

/// The most bytes that a file may have.
pub const MAX_TRACK_BYTES: u64 = 536_870_912;

/// The extension of an unfinished download.
pub const PART_EXTENSION: &'static str = "part";

/// How many times to ask for one file while the server wants a slower pace.
pub const FILE_ATTEMPTS: u32 = 3;

/// The most bytes of a file that are held back for the tags.
pub const MAX_HEAD_BYTES: usize = 8_388_608;

/// The status of `HTTP` that asks for a slower pace.
pub const TOO_MANY_REQUESTS: u16 = 429;

/// The quality of the file to ask for.
#[derive(Debug, Clone, Copy, PartialEq, Eq, Structural)]
pub enum Quality {
    /// Lossless: the largest files.
    Lossless,
    /// High: `MP3` of 320 kbps.
    High,
    /// Normal.
    Normal,
    /// Low, for a slow connection.
    Low,
}

/// A quality that the crate `yandex-music` can ask for.
#[derive(Debug, Clone, Copy, PartialEq, Eq, Structural)]
pub enum Level {
    Lossless,
    Normal,
    Low,
}

impl Level {
    /// The word that stands for the level in a request.
    pub open spec fn word(self) -> Seq<char> {
        match self {
            Level::Lossless => "lossless"@,
            Level::Normal => "nq"@,
            Level::Low => "lq"@,
        }
    }
}

/// `Display` of `yandex_music`'s `Quality`: the word that its request carries for
/// each of its three levels.
#[verifier::external_body]
fn level_word(level: Level) -> (r: String)
    ensures
        r@ == level.word(),
{
    match level {
        Level::Lossless => yandex_music::model::info::file_info::Quality::Lossless.to_string(),
        Level::Normal => yandex_music::model::info::file_info::Quality::Normal.to_string(),
        Level::Low => yandex_music::model::info::file_info::Quality::Low.to_string(),
    }
}

impl Quality {
    pub open spec fn as_level(self) -> Option<Level> {
        match self {
            Quality::Lossless => Some(Level::Lossless),
            Quality::High => None,
            Quality::Normal => Some(Level::Normal),
            Quality::Low => Some(Level::Low),
        }
    }

    /// The level to ask for, if the service's client has it.
    pub fn level(&self) -> (r: Option<Level>)
        ensures
            r == self.as_level(),
    {
        match self {
            Quality::Lossless => Some(Level::Lossless),
            Quality::High => None,
            Quality::Normal => Some(Level::Normal),
            Quality::Low => Some(Level::Low),
        }
    }

    /// The word that stands for the quality in a request.
    pub fn wire(&self) -> (r: Option<String>)
        ensures
            match (r, self.as_level()) {
                (Some(word), Some(level)) => word@ == level.word(),
                (None, None) => true,
                _ => false,
            },
    {
        match self.level() {
            Some(level) => Some(level_word(level)),
            None => None,
        }
    }
}

/// What happened to a track.
#[derive(Debug)]
pub enum Outcome {
    /// A file has appeared.
    Downloaded { path: String, bytes: u64 },
    /// A file was there.
    Skipped { stem: String },
}

impl Outcome {
    /// Whether the outcome cost a request.
    ///
    /// Only a success that cost one says anything about the state of the network.
    pub fn cost_request(&self) -> (r: bool)
        ensures
            r == (self is Downloaded),
    {
        match self {
            Outcome::Downloaded { .. } => true,
            Outcome::Skipped { .. } => false,
        }
    }

    pub open spec fn words(self) -> Seq<char> {
        match self {
            Outcome::Downloaded { path, bytes } => "скачан "@ + path@ + " ("@ + decimal_digits(
                (bytes / 1024) as nat,
            ) + " КБ)"@,
            Outcome::Skipped { stem } => "уже есть "@ + stem@,
        }
    }

    /// The outcome in words.
    pub fn text(&self) -> (r: String)
        ensures
            r@ == self.words(),
    {
        match self {
            Outcome::Downloaded { path, bytes } => {
                let mut r = "скачан ".to_owned();
                r.append(path.as_str());
                r.append(" (");
                r.append(decimal(*bytes / 1024).as_str());
                r.append(" КБ)");
                r
            },
            Outcome::Skipped { stem } => {
                let mut r = "уже есть ".to_owned();
                r.append(stem.as_str());
                r
            },
        }
    }
}

/// Why a track was not downloaded. What to do next depends on the kind.
#[derive(Debug)]
pub enum Failure {
    /// This track failed; the next one may not.
    Track(String),
    /// The environment failed: the next track will meet the same.
    Fatal(String),
    /// The server wants a slower pace and did not change its mind.
    Throttled(String),
}

/// A failure over plain values.
pub enum Refusal {
    Track(Seq<char>),
    Fatal(Seq<char>),
    Throttled(Seq<char>),
}

impl View for Failure {
    type V = Refusal;

    open spec fn view(&self) -> Refusal {
        match self {
            Failure::Track(reason) => Refusal::Track(reason@),
            Failure::Fatal(reason) => Refusal::Fatal(reason@),
            Failure::Throttled(reason) => Refusal::Throttled(reason@),
        }
    }
}

impl Failure {
    pub open spec fn words(self) -> Seq<char> {
        match self {
            Failure::Track(_) => "трек не скачан"@,
            Failure::Fatal(_) => "выгрузка невозможна"@,
            Failure::Throttled(_) => "сервер ограничивает темп запросов"@,
        }
    }

    /// The kind of the failure in words, without its reason.
    pub fn message(&self) -> (r: &'static str)
        ensures
            r@ == self.words(),
    {
        match self {
            Failure::Track(_) => "трек не скачан",
            Failure::Fatal(_) => "выгрузка невозможна",
            Failure::Throttled(_) => "сервер ограничивает темп запросов",
        }
    }
}

/// What kind of failure the file system reports.
#[derive(Debug, Clone, Copy, PartialEq, Eq, Structural)]
pub enum ErrorKind {
    StorageFull,
    QuotaExceeded,
    PermissionDenied,
    ReadOnlyFilesystem,
    NotFound,
    NotADirectory,
    InvalidFilename,
    Interrupted,
    Other,
}

/// Whether the environment is broken, not the one track.
pub open spec fn environmental(kind: ErrorKind) -> bool {
    ||| kind == ErrorKind::StorageFull
    ||| kind == ErrorKind::QuotaExceeded
    ||| kind == ErrorKind::PermissionDenied
    ||| kind == ErrorKind::ReadOnlyFilesystem
    ||| kind == ErrorKind::NotFound
    ||| kind == ErrorKind::NotADirectory
}

/// Whether the environment is broken, not the one track.
pub fn is_environment_failure(kind: ErrorKind) -> (r: bool)
    ensures
        r == environmental(kind),
{
    match kind {
        ErrorKind::StorageFull
        | ErrorKind::QuotaExceeded
        | ErrorKind::PermissionDenied
        | ErrorKind::ReadOnlyFilesystem
        | ErrorKind::NotFound
        | ErrorKind::NotADirectory => true,
        _other => false,
    }
}

/// The failure that the file system reports.
pub open spec fn reported(kind: ErrorKind, error: Seq<char>, what: Seq<char>) -> Refusal {
    if environmental(kind) {
        Refusal::Fatal(what + ": "@ + error)
    } else {
        Refusal::Track(what + ": "@ + error)
    }
}

/// Makes a failure of what the file system reports: `error` in its words, `what`
/// in ours.
pub fn from_io(kind: ErrorKind, error: &str, what: &str) -> (r: Failure)
    ensures
        r@ == reported(kind, error@, what@),
        r@ == if environmental(kind) {
            Refusal::Fatal(what@ + ": "@ + error@)
        } else {
            Refusal::Track(what@ + ": "@ + error@)
        },
{
    let mut reason = what.to_owned();
    reason.append(": ");
    reason.append(error);
    if is_environment_failure(kind) {
        Failure::Fatal(reason)
    } else {
        Failure::Track(reason)
    }
}

/// The extension of a file with this codec. Sound in `MP4` is `m4a`: `mp4` would
/// be taken for a video.
pub open spec fn extension_of(codec: Seq<char>) -> Seq<char> {
    if codec == "aac"@ || codec == "he-aac"@ || codec == "flac-mp4"@ || codec == "aac-mp4"@ || codec
        == "he-aac-mp4"@ {
        "m4a"@
    } else {
        codec
    }
}

/// The extension of a file with this codec.
pub fn extension(codec: &str) -> (r: &str)
    ensures
        r@ == extension_of(codec@),
{
    if same(codec, "aac") || same(codec, "he-aac") || same(codec, "flac-mp4") || same(
        codec,
        "aac-mp4",
    ) || same(codec, "he-aac-mp4") {
        "m4a"
    } else {
        codec
    }
}

/// The values of a list without repeats, each where it came first.
pub open spec fn first_seen(values: Seq<Seq<char>>) -> Seq<Seq<char>>
    decreases values.len(),
{
    if values.len() == 0 {
        Seq::empty()
    } else {
        let before = first_seen(values.drop_last());
        if before.contains(values.last()) {
            before
        } else {
            before.push(values.last())
        }
    }
}

/// Where to go for a file: the primary link, then the others, each once.
pub fn mirrors(primary: &str, alternatives: &[String]) -> (r: Vec<String>)
    ensures
        texts(r@) == first_seen(seq![primary@] + texts(alternatives@)),
{
    let ghost all = seq![primary@] + texts(alternatives@);
    let mut seen = StringHashSet::new();
    let mut list: Vec<String> = Vec::new();
    seen.insert(primary.to_owned());
    list.push(primary.to_owned());
    let mut i: usize = 0;
    proof {
        assert(all.take(1).drop_last() =~= Seq::empty());
        assert(first_seen(all.take(1).drop_last()) =~= Seq::empty());
        assert(texts(list@) =~= first_seen(all.take(1)));
        assert(texts(list@)[0] == primary@);
    }
    while i < alternatives.len()
        invariant
            i <= alternatives@.len(),
            all == seq![primary@] + texts(alternatives@),
            texts(list@) == first_seen(all.take(i + 1)),
            forall|s: Seq<char>| #[trigger] seen@.contains(s) <==> texts(list@).contains(s),
        decreases alternatives@.len() - i,
    {
        let url = alternatives[i].clone();
        let ghost before = texts(list@);
        proof {
            assert(all.take(i + 2).drop_last() =~= all.take(i + 1));
            assert(all[i + 1] == url@);
        }
        if seen.insert(alternatives[i].clone()) {
            proof {
                crate::text::lemma_texts_push(list@, url);
            }
            list.push(url);
            proof {
                assert forall|s: Seq<char>| #[trigger]
                    seen@.contains(s) <==> texts(list@).contains(s) by {
                    lemma_contains_push(before, url@, s);
                }
            }
        }
        i += 1;
    }
    proof {
        assert(all.take(i + 1) =~= all);
    }
    list
}

proof fn lemma_contains_push(list: Seq<Seq<char>>, last: Seq<char>, value: Seq<char>)
    ensures
        list.push(last).contains(value) <==> list.contains(value) || value == last,
{
    if list.push(last).contains(value) {
        let i = choose|i: int| 0 <= i < list.push(last).len() && list.push(last)[i] == value;
        if i < list.len() {
            assert(list[i] == value);
        }
    }
    if list.contains(value) {
        let i = choose|i: int| 0 <= i < list.len() && list[i] == value;
        assert(list.push(last)[i] == value);
    }
    assert(list.push(last)[list.len() as int] == last);
}

/// The primary link comes first, no link comes twice, none is lost, and links keep their
/// order: where one stands behind another, it came behind it.
pub proof fn law_mirrors(values: Seq<Seq<char>>)
    requires
        values.len() > 0,
    ensures
        first_seen(values).len() > 0,
        first_seen(values)[0] == values[0],
        first_seen(values).no_duplicates(),
        forall|s: Seq<char>| #[trigger] first_seen(values).contains(s) <==> values.contains(s),
        forall|i: int, j: int, q: int|
            0 <= i < j < first_seen(values).len() && 0 <= q < values.len()
                && #[trigger] first_seen(values)[j] == #[trigger] values[q]
                ==> came_before(#[trigger] first_seen(values)[i], values, q),
    decreases values.len(), 1nat,
{
    let before = first_seen(values.drop_last());
    assert(values =~= values.drop_last().push(values.last()));
    lemma_order(values);
    if values.len() == 1 {
        assert(values.drop_last() =~= Seq::empty());
        assert(before =~= Seq::empty());
        assert(first_seen(values) =~= seq![values[0]]);
        assert forall|s: Seq<char>| #[trigger] first_seen(values).contains(s) <==> values.contains(
            s,
        ) by {
            lemma_contains_push(before, values[0], s);
            lemma_contains_push(values.drop_last(), values[0], s);
        }
    } else {
        law_mirrors(values.drop_last());
        assert forall|s: Seq<char>| #[trigger] first_seen(values).contains(s) <==> values.contains(
            s,
        ) by {
            lemma_contains_push(before, values.last(), s);
            lemma_contains_push(values.drop_last(), values.last(), s);
            assert(before.contains(s) <==> values.drop_last().contains(s));
        }
    }
}

/// Whether a value stands somewhere before a position of a list.
pub open spec fn came_before(value: Seq<char>, values: Seq<Seq<char>>, at: int) -> bool {
    exists|p: int| 0 <= p < at && #[trigger] values[p] == value
}

proof fn lemma_order(values: Seq<Seq<char>>)
    ensures
        forall|i: int, j: int, q: int|
            0 <= i < j < first_seen(values).len() && 0 <= q < values.len()
                && #[trigger] first_seen(values)[j] == #[trigger] values[q]
                ==> came_before(#[trigger] first_seen(values)[i], values, q),
    decreases values.len(), 0nat,
{
    if values.len() > 0 {
        let shorter = values.drop_last();
        let before = first_seen(shorter);
        let all = first_seen(values);
        lemma_order(shorter);
        if shorter.len() > 0 {
            law_mirrors(shorter);
        }
        assert forall|i: int, j: int, q: int|
            0 <= i < j < all.len() && 0 <= q < values.len() && #[trigger] all[j]
                == #[trigger] values[q] implies came_before(#[trigger] all[i], values, q) by {
            assert(all[i] == before[i]);
            if j < before.len() && q < shorter.len() {
                assert(before[j] == shorter[q]);
                assert(came_before(before[i], shorter, q));
                let p = choose|p: int| 0 <= p < q && #[trigger] shorter[p] == before[i];
                assert(values[p] == all[i]);
            } else if q == shorter.len() {
                assert(before.contains(before[i]));
                assert(shorter.contains(before[i]));
                let p = choose|p: int| 0 <= p < shorter.len() && shorter[p] == before[i];
                assert(values[p] == all[i]);
            } else {
                assert(shorter.contains(shorter[q]));
                assert(before.contains(shorter[q]));
            }
        }
    }
}

/// What the server of a file answers.
#[derive(Debug)]
pub enum Answer {
    /// The body follows.
    Accepted,
    /// Wait for so many seconds and ask again; `by_request` if the server named the
    /// wait, `attempt` being the number of refusals so far.
    Wait { seconds: u64, attempt: u32, by_request: bool },
    /// There will be no file.
    Refused(Failure),
}

/// Attempts at one file.
pub fn opening() -> (r: Attempts)
    ensures
        r == (Attempts { made: 0, of: FILE_ATTEMPTS }),
{
    Attempts::new(FILE_ATTEMPTS)
}

/// What is said when the pace stayed too fast.
pub open spec fn throttled_words(status: u16, asked: Option<u64>) -> Seq<char> {
    match asked {
        Some(asked) if asked > MAX_WAIT => "раздача просит подождать "@ + decimal_digits(
            asked as nat,
        ) + " с — дольше, чем стоит ждать в одном запуске"@,
        _ => "раздача отвечает HTTP "@ + status_line(status) + " и после "@ + decimal_digits(
            FILE_ATTEMPTS as nat,
        ) + " попыток"@,
    }
}

fn throttled(status: u16, asked: Option<u64>) -> (r: Failure)
    requires
        100 <= status < 1000,
    ensures
        r@ == Refusal::Throttled(throttled_words(status, asked)),
{
    match asked {
        Some(asked) if asked > MAX_WAIT => {
            let mut r = "раздача просит подождать ".to_owned();
            r.append(decimal(asked).as_str());
            r.append(" с — дольше, чем стоит ждать в одном запуске");
            Failure::Throttled(r)
        },
        _ => {
            let mut r = "раздача отвечает HTTP ".to_owned();
            r.append(status_text(status).as_str());
            r.append(" и после ");
            r.append(decimal(FILE_ATTEMPTS as u64).as_str());
            r.append(" попыток");
            Failure::Throttled(r)
        },
    }
}

/// What an answer to a request for a file means, given how many were refused.
pub open spec fn answer_of(attempts: Attempts, status: u16, asked: Option<u64>) -> (
    Attempts,
    Result<Option<(u64, u32, bool)>, Refusal>,
) {
    if success(status) {
        (attempts, Ok(None))
    } else if status != TOO_MANY_REQUESTS {
        (attempts, Err(Refusal::Track("файл не отдан: HTTP "@ + status_line(status))))
    } else {
        match verdict(attempts.made, attempts.of, asked) {
            Retry::After(wait) => {
                let made = (attempts.made + 1) as u32;
                (Attempts { made, of: attempts.of }, Ok(Some((wait, made, asked is Some))))
            },
            Retry::GiveUp => (attempts, Err(Refusal::Throttled(throttled_words(status, asked)))),
        }
    }
}

impl Answer {
    pub open spec fn meaning(self) -> Result<Option<(u64, u32, bool)>, Refusal> {
        match self {
            Answer::Accepted => Ok(None),
            Answer::Wait { seconds, attempt, by_request } => Ok(
                Some((seconds, attempt, by_request)),
            ),
            Answer::Refused(failure) => Err(failure@),
        }
    }
}

/// Decides on an answer to a request for a file: `asked` is the wait that the
/// server named.
pub fn answered(attempts: &mut Attempts, status: u16, asked: Option<u64>) -> (r: Answer)
    requires
        100 <= status < 1000,
    ensures
        (*final(attempts), r.meaning()) == answer_of(*old(attempts), status, asked),
{
    if 200 <= status && status < 300 {
        return Answer::Accepted;
    }
    if status != TOO_MANY_REQUESTS {
        let mut reason = "файл не отдан: HTTP ".to_owned();
        reason.append(status_text(status).as_str());
        return Answer::Refused(Failure::Track(reason));
    }
    match attempts.refused(asked) {
        Retry::After(seconds) => Answer::Wait {
            seconds,
            attempt: attempts.made,
            by_request: asked.is_some(),
        },
        Retry::GiveUp => Answer::Refused(throttled(status, asked)),
    }
}

/// Decides on an answer to a request for a file by its status and headers.
pub fn open(
    attempts: &mut Attempts,
    status: u16,
    headers: &reqwest::header::HeaderMap<reqwest::header::HeaderValue>,
) -> (r: Answer)
    requires
        100 <= status < 1000,
    ensures
        (*final(attempts), r.meaning()) == answer_of(
            *old(attempts),
            status,
            asked_wait(retry_field(header_fields(*headers))),
        ),
{
    let asked = retry_after(headers);
    answered(attempts, status, asked)
}

/// Whether more of a stream may come.
#[derive(Debug, Clone, Copy, PartialEq, Eq, Structural)]
pub enum Ending {
    More,
    Last,
}

/// Bytes to store, and why they are without tags, if they are.
#[derive(Debug)]
pub struct Portion {
    pub bytes: Vec<u8>,
    pub untagged: Option<Reason>,
}

/// A portion over plain values.
#[verifier::ext_equal]
pub struct Stored {
    pub bytes: Seq<u8>,
    pub untagged: Option<Reason>,
}

impl View for Portion {
    type V = Stored;

    open spec fn view(&self) -> Stored {
        Stored { bytes: self.bytes@, untagged: self.untagged }
    }
}

/// What becomes of the head of a file that is held back: nothing yet, or bytes to
/// store. A file whose tags cannot be written is stored as it came.
pub open spec fn decision(
    format: Format,
    meta: MetaView,
    buffer: Seq<u8>,
    ending: Ending,
) -> Option<Stored> {
    match patched(format, buffer, meta) {
        Built::Ready { head, used } => Some(
            Stored { bytes: head + buffer.skip(used), untagged: None },
        ),
        Built::Refused(reason) => Some(Stored { bytes: buffer, untagged: Some(reason) }),
        Built::More => if ending == Ending::Last {
            Some(Stored { bytes: buffer, untagged: Some(Reason::Malformed) })
        } else if buffer.len() > MAX_HEAD_BYTES {
            Some(Stored { bytes: buffer, untagged: Some(Reason::Oversized) })
        } else {
            None
        },
    }
}

/// An optional portion over plain values.
pub open spec fn stored(portion: Option<Portion>) -> Option<Stored> {
    match portion {
        Some(portion) => Some(portion@),
        None => None,
    }
}

/// The head of a file, held back until its tags can be written.
///
/// Otherwise the whole file would have to be moved after the download, to insert
/// a few hundred bytes at its beginning.
#[derive(Debug)]
pub struct Head {
    pub format: Format,
    pub meta: Meta,
    pub buffer: Vec<u8>,
}

impl Head {
    /// Takes in a piece of the stream, and gives bytes to store once it is decided
    /// which.
    pub fn feed(&mut self, chunk: &[u8]) -> (r: Option<Portion>)
        ensures
            stored(r) == decision(
                old(self).format,
                old(self).meta@,
                old(self).buffer@ + chunk@,
                Ending::More,
            ),
            final(self).format == old(self).format,
            final(self).meta == old(self).meta,
            r is None ==> final(self).buffer@ == old(self).buffer@ + chunk@,
            r is Some ==> final(self).buffer@.len() == 0,
    {
        extend(&mut self.buffer, chunk);
        self.decide(Ending::More)
    }

    /// The stream has ended: gives what there is.
    pub fn settle(self) -> (r: Portion)
        ensures
            decision(self.format, self.meta@, self.buffer@, Ending::Last) == Some(r@),
    {
        let mut head = self;
        match head.decide(Ending::Last) {
            Some(portion) => portion,
            None => Portion { bytes: head.buffer, untagged: None },
        }
    }

    /// Decides what becomes of the bytes that are held back.
    pub fn decide(&mut self, ending: Ending) -> (r: Option<Portion>)
        ensures
            stored(r) == decision(old(self).format, old(self).meta@, old(self).buffer@, ending),
            final(self).format == old(self).format,
            final(self).meta == old(self).meta,
            r is None ==> final(self).buffer@ == old(self).buffer@,
            r is Some ==> final(self).buffer@.len() == 0,
    {
        proof {
            assert(self.buffer.len() <= usize::MAX);
        }
        match patch(self.format, self.buffer.as_slice(), &self.meta) {
            Patch::Ready { head, used } => {
                proof {
                    law_ready_head_is_sound(self.format, self.buffer@, self.meta@);
                }
                let mut buffer: Vec<u8> = Vec::new();
                core::mem::swap(&mut buffer, &mut self.buffer);
                let mut bytes = head;
                extend(
                    &mut bytes,
                    vstd::slice::slice_subrange(buffer.as_slice(), used, buffer.len()),
                );
                proof {
                    assert(buffer@.subrange(used as int, buffer@.len() as int) =~= buffer@.skip(
                        used as int,
                    ));
                }
                Some(Portion { bytes, untagged: None })
            },
            Patch::Refused(reason) => Some(self.untagged(reason)),
            Patch::More => match ending {
                Ending::Last => Some(self.untagged(Reason::Malformed)),
                Ending::More => {
                    if self.buffer.len() > MAX_HEAD_BYTES {
                        Some(self.untagged(Reason::Oversized))
                    } else {
                        None
                    }
                },
            },
        }
    }

    /// Gives the bytes that are held back as they came: a track without tags is
    /// better than none.
    pub fn untagged(&mut self, reason: Reason) -> (r: Portion)
        ensures
            r@ == (Stored { bytes: old(self).buffer@, untagged: Some(reason) }),
            final(self).format == old(self).format,
            final(self).meta == old(self).meta,
            final(self).buffer@.len() == 0,
    {
        let mut bytes: Vec<u8> = Vec::new();
        core::mem::swap(&mut bytes, &mut self.buffer);
        Portion { bytes, untagged: Some(reason) }
    }
}

/// Format, tags and bytes of a head that is held back.
#[verifier::ext_equal]
pub struct Held {
    pub format: Format,
    pub meta: MetaView,
    pub buffer: Seq<u8>,
}

/// What is held back, over plain values.
pub open spec fn held(head: Option<Head>) -> Option<Held> {
    match head {
        Some(head) => Some(
            Held { format: head.format, meta: head.meta@, buffer: head.buffer@ },
        ),
        None => None,
    }
}

/// What is held back after a piece of the stream, and what is to be stored.
pub open spec fn passed(pending: Option<Held>, chunk: Seq<u8>) -> (Option<Held>, Option<Stored>) {
    match pending {
        None => (None, Some(Stored { bytes: chunk, untagged: None })),
        Some(held) => {
            let buffer = held.buffer + chunk;
            match decision(held.format, held.meta, buffer, Ending::More) {
                Some(stored) => (None, Some(stored)),
                None => (
                    Some(Held { format: held.format, meta: held.meta, buffer }),
                    None,
                ),
            }
        },
    }
}

/// What is stored at the end of the stream.
pub open spec fn left_over(pending: Option<Held>) -> Option<Stored> {
    match pending {
        None => None,
        Some(held) => decision(held.format, held.meta, held.buffer, Ending::Last),
    }
}

/// A sum that stops at the largest number.
pub open spec fn capped_sum(a: int, b: int) -> int {
    if a + b <= u64::MAX {
        a + b
    } else {
        u64::MAX as int
    }
}

/// How many bytes a portion has.
pub open spec fn weight(portion: Option<Stored>) -> int {
    match portion {
        Some(portion) => portion.bytes.len() as int,
        None => 0,
    }
}

/// One attempt to download a file.
#[derive(Debug)]
pub struct Transfer {
    /// What is held back; nothing if there are no tags to write, or if it is
    /// decided.
    pub head: Option<Head>,
    /// The size that the service promised.
    pub expected: Option<u64>,
    /// How many bytes came.
    pub received: u64,
    /// How many bytes were given out to be stored.
    pub written: u64,
}

/// What is said of a file beyond all bounds.
pub open spec fn oversized_words() -> Seq<char> {
    "файл больше "@ + decimal_digits((MAX_TRACK_BYTES / 1024 / 1024) as nat)
        + " МБ — это не похоже на трек"@
}

/// What is said of a file that is not the promised size.
pub open spec fn incomplete_words(received: u64, expected: u64) -> Seq<char> {
    "файл пришёл не целиком: "@ + decimal_digits(received as nat) + " байт вместо "@
        + decimal_digits(expected as nat)
}

/// Whether a body is still within its bounds after a piece of so many bytes.
pub open spec fn within_bounds(received: int, len: int) -> bool {
    capped_sum(received, len) <= MAX_TRACK_BYTES
}

/// What is made of a body that has ended.
pub open spec fn checked(received: u64, expected: Option<u64>, written: u64) -> Result<
    u64,
    Refusal,
> {
    match expected {
        Some(expected) if expected != received => Err(
            Refusal::Track(incomplete_words(received, expected)),
        ),
        _ => Ok(written),
    }
}

impl Transfer {
    /// An attempt that has not begun.
    pub fn new(head: Option<Head>, expected: Option<u64>) -> (r: Self)
        ensures
            r == (Transfer { head, expected, received: 0, written: 0 }),
    {
        Transfer { head, expected, received: 0, written: 0 }
    }

    /// Takes in a piece of the body, and gives bytes to store.
    pub fn accept(&mut self, chunk: &[u8]) -> (r: Result<Option<Portion>, Failure>)
        ensures
            r is Ok <==> within_bounds(old(self).received as int, chunk@.len() as int),
            final(self).expected == old(self).expected,
            final(self).received == capped_sum(old(self).received as int, chunk@.len() as int),
            match r {
                Ok(portion) => {
                    &&& final(self).received <= MAX_TRACK_BYTES
                    &&& (held(final(self).head), stored(portion)) == passed(
                        held(old(self).head),
                        chunk@,
                    )
                    &&& final(self).written == capped_sum(
                        old(self).written as int,
                        weight(stored(portion)),
                    )
                },
                Err(failure) => {
                    &&& final(self).received > MAX_TRACK_BYTES
                    &&& failure@ == Refusal::Track(oversized_words())
                    &&& final(self).written == old(self).written
                    &&& final(self).head == old(self).head
                },
            },
    {
        self.received = self.received.saturating_add(chunk.len() as u64);
        if self.received > MAX_TRACK_BYTES {
            let mut reason = "файл больше ".to_owned();
            reason.append(decimal(MAX_TRACK_BYTES / 1024 / 1024).as_str());
            reason.append(" МБ — это не похоже на трек");
            return Err(Failure::Track(reason));
        }
        let mut head: Option<Head> = None;
        core::mem::swap(&mut head, &mut self.head);
        let portion = match head {
            None => {
                let mut bytes: Vec<u8> = Vec::new();
                extend(&mut bytes, chunk);
                proof {
                    assert(bytes@ =~= chunk@);
                }
                Some(Portion { bytes, untagged: None })
            },
            Some(mut pending) => {
                let portion = pending.feed(chunk);
                if portion.is_none() {
                    self.head = Some(pending);
                }
                portion
            },
        };
        if let Some(portion) = &portion {
            self.written = self.written.saturating_add(portion.bytes.len() as u64);
        }
        Ok(portion)
    }

    /// The body has ended: gives what is still held back.
    pub fn finish(&mut self) -> (r: Option<Portion>)
        ensures
            stored(r) == left_over(held(old(self).head)),
            final(self).head is None,
            final(self).expected == old(self).expected,
            final(self).received == old(self).received,
            final(self).written == capped_sum(old(self).written as int, weight(stored(r))),
    {
        let mut head: Option<Head> = None;
        core::mem::swap(&mut head, &mut self.head);
        match head {
            None => None,
            Some(pending) => {
                let portion = pending.settle();
                self.written = self.written.saturating_add(portion.bytes.len() as u64);
                Some(portion)
            },
        }
    }

    /// Checks the size that came against the promised one, and says how many bytes
    /// were stored.
    ///
    /// It is the size that came that counts: what is stored has tags in it, which
    /// nobody promised.
    pub fn check(&self) -> (r: Result<u64, Failure>)
        ensures
            match r {
                Ok(written) => checked(self.received, self.expected, self.written) == Ok::<
                    u64,
                    Refusal,
                >(written),
                Err(failure) => checked(self.received, self.expected, self.written) == Err::<
                    u64,
                    Refusal,
                >(failure@),
            },
            match (r, self.expected) {
                (Err(failure), Some(expected)) => expected != self.received && failure@
                    == Refusal::Track(incomplete_words(self.received, expected)),
                (Err(_), None) => false,
                (Ok(written), Some(expected)) => expected == self.received && written
                    == self.written,
                (Ok(written), None) => written == self.written,
            },
    {
        if let Some(expected) = self.expected {
            if expected != self.received {
                let mut reason = "файл пришёл не целиком: ".to_owned();
                reason.append(decimal(self.received).as_str());
                reason.append(" байт вместо ");
                reason.append(decimal(expected).as_str());
                return Err(Failure::Track(reason));
            }
        }
        Ok(self.written)
    }
}

/// What is held back after pieces of a stream, and all that was given out.
#[verifier::ext_equal]
pub struct Flow {
    pub pending: Option<Held>,
    pub out: Seq<u8>,
}

/// The bytes of a portion.
pub open spec fn bytes_of(portion: Option<Stored>) -> Seq<u8> {
    match portion {
        Some(portion) => portion.bytes,
        None => Seq::empty(),
    }
}

/// What becomes of a stream, piece by piece.
pub open spec fn flow(start: Held, chunks: Seq<Seq<u8>>) -> Flow
    decreases chunks.len(),
{
    if chunks.len() == 0 {
        Flow { pending: Some(start), out: Seq::empty() }
    } else {
        let before = flow(start, chunks.drop_last());
        let (pending, portion) = passed(before.pending, chunks.last());
        Flow { pending, out: before.out + bytes_of(portion) }
    }
}

/// All that is stored of a stream.
pub open spec fn delivered(start: Held, chunks: Seq<Seq<u8>>) -> Seq<u8> {
    let flow = flow(start, chunks);
    flow.out + bytes_of(left_over(flow.pending))
}

/// Stored bytes are those of the stream, as they came or with a new head in place of
/// the old one.
pub open spec fn faithful(held: Held, stream: Seq<u8>, out: Seq<u8>) -> bool {
    out == stream || exists|n: int|
        0 <= n <= stream.len() && {
            let answer = patched(held.format, #[trigger] stream.take(n), held.meta);
            answer is Ready && 0 <= answer->used <= n && out == answer->head + stream.skip(
                answer->used,
            )
        }
}

proof fn lemma_faithful_decision(held: Held, buffer: Seq<u8>, ending: Ending)
    requires
        buffer.len() <= usize::MAX,
    ensures
        decision(held.format, held.meta, buffer, ending) matches Some(stored) ==> faithful(
            held,
            buffer,
            stored.bytes,
        ),
{
    if patched(held.format, buffer, held.meta) is Ready {
        law_ready_head_is_sound(held.format, buffer, held.meta);
        assert(buffer.take(buffer.len() as int) =~= buffer);
    }
}

proof fn lemma_faithful_grows(held: Held, stream: Seq<u8>, out: Seq<u8>, chunk: Seq<u8>)
    requires
        faithful(held, stream, out),
    ensures
        faithful(held, stream + chunk, out + chunk),
{
    if out != stream {
        let n = choose|n: int|
            0 <= n <= stream.len() && {
                let answer = patched(held.format, #[trigger] stream.take(n), held.meta);
                answer is Ready && 0 <= answer->used <= n && out == answer->head + stream.skip(
                    answer->used,
                )
            };
        let longer = stream + chunk;
        assert(longer.take(n) =~= stream.take(n));
        let answer = patched(held.format, longer.take(n), held.meta);
        assert(out + chunk =~= answer->head + longer.skip(answer->used));
    }
}

/// Tags do not depend on how a stream is cut into pieces: if the head of an orderly
/// stream is whole within [`MAX_HEAD_BYTES`], what is stored is what the whole
/// stream, taken at once, gives.
pub proof fn law_pieces_do_not_matter(start: Held, chunks: Seq<Seq<u8>>, enough: int)
    requires
        start.buffer.len() == 0,
        flat(chunks).len() <= usize::MAX,
        orderly(start.format, flat(chunks)),
        0 <= enough <= flat(chunks).len(),
        enough <= MAX_HEAD_BYTES,
        patched(start.format, flat(chunks).take(enough), start.meta) is Ready,
    ensures
        ({
            let whole = patched(start.format, flat(chunks), start.meta);
            &&& whole is Ready
            &&& delivered(start, chunks) == whole->head + flat(chunks).skip(whole->used)
        }),
{
    let stream = flat(chunks);
    let whole = patched(start.format, stream, start.meta);
    assert(stream.take(enough) + stream.skip(enough) =~= stream);
    law_decision_stands(start.format, stream.take(enough), stream.skip(enough), start.meta);
    assert(stream.take(stream.len() as int) =~= stream);
    lemma_flow_of_prefix(start, chunks, stream, enough);
    let now = flow(start, chunks);
    match now.pending {
        None => {
            assert(now.out + Seq::<u8>::empty() =~= now.out);
        },
        Some(held) => {
            assert(now.out =~= Seq::empty());
            assert(now.out + bytes_of(left_over(now.pending)) =~= bytes_of(
                left_over(now.pending),
            ));
        },
    }
}

/// What is known while pieces of such a stream come in.
proof fn lemma_flow_of_prefix(
    start: Held,
    chunks: Seq<Seq<u8>>,
    stream: Seq<u8>,
    enough: int,
)
    requires
        start.buffer.len() == 0,
        flat(chunks).len() <= stream.len() <= usize::MAX,
        stream.take(flat(chunks).len() as int) == flat(chunks),
        orderly(start.format, stream),
        0 <= enough <= stream.len(),
        enough <= MAX_HEAD_BYTES,
        patched(start.format, stream.take(enough), start.meta) is Ready,
        patched(start.format, stream, start.meta) is Ready,
    ensures
        ({
            let whole = patched(start.format, stream, start.meta);
            let now = flow(start, chunks);
            match now.pending {
                Some(held) => held.buffer == flat(chunks) && held.format == start.format
                    && held.meta == start.meta && now.out.len() == 0,
                None => whole->used <= flat(chunks).len() && now.out == whole->head + flat(
                    chunks,
                ).skip(whole->used),
            }
        }),
    decreases chunks.len(),
{
    let sofar = flat(chunks);
    let whole = patched(start.format, stream, start.meta);
    if chunks.len() == 0 {
        assert(start.buffer =~= sofar);
    } else {
        let earlier = flat(chunks.drop_last());
        let chunk = chunks.last();
        let before = flow(start, chunks.drop_last());
        assert(stream.take(earlier.len() as int) =~= sofar.take(earlier.len() as int));
        assert(sofar.take(earlier.len() as int) =~= earlier);
        lemma_flow_of_prefix(start, chunks.drop_last(), stream, enough);
        law_ready_head_is_sound(start.format, stream, start.meta);
        let rest = stream.skip(sofar.len() as int);
        assert(sofar + rest =~= stream);
        match before.pending {
            None => {
                assert(before.out + chunk =~= whole->head + sofar.skip(whole->used));
            },
            Some(held) => {
                let answer = patched(start.format, sofar, start.meta);
                if !(answer is More) {
                    law_decision_stands(start.format, sofar, rest, start.meta);
                    law_ready_head_is_sound(start.format, sofar, start.meta);
                } else if sofar.len() > MAX_HEAD_BYTES {
                    let more = sofar.skip(enough);
                    assert(sofar.take(enough) =~= stream.take(enough));
                    assert(sofar.take(enough) + more =~= sofar);
                    lemma_orderly_beginning(start.format, sofar, rest);
                    law_decision_stands(start.format, sofar.take(enough), more, start.meta);
                }
                assert(before.out =~= Seq::empty());
                assert(before.out + bytes_of(passed(before.pending, chunk).1) =~= bytes_of(
                    passed(before.pending, chunk).1,
                ));
            },
        }
    }
}

/// A stream is stored whatever becomes of its tags: at its end there is always
/// something to store of what is held back.
pub proof fn law_nothing_is_held_back_for_ever(held: Held)
    ensures
        left_over(Some(held)) is Some,
{
}

/// No byte of a stream is lost, made up or put out of order: what is stored is the
/// stream as it came, or a head with tags in place of the head it was made of. On
/// the way, nothing is stored while bytes are held back, and no more than
/// [`MAX_HEAD_BYTES`] of them are.
pub proof fn law_bytes_are_kept(start: Held, chunks: Seq<Seq<u8>>)
    requires
        start.buffer.len() == 0,
        flat(chunks).len() <= usize::MAX,
    ensures
        faithful(start, flat(chunks), delivered(start, chunks)),
        flow(start, chunks).pending matches Some(held) ==> held.buffer == flat(chunks)
            && held.buffer.len() <= MAX_HEAD_BYTES && flow(start, chunks).out.len() == 0,
        flow(start, chunks).pending is None ==> faithful(
            start,
            flat(chunks),
            flow(start, chunks).out,
        ),
    decreases chunks.len(),
{
    let stream = flat(chunks);
    let now = flow(start, chunks);
    if chunks.len() == 0 {
        assert(start.buffer =~= stream);
    } else {
        let before = flow(start, chunks.drop_last());
        let earlier = flat(chunks.drop_last());
        let chunk = chunks.last();
        law_bytes_are_kept(start, chunks.drop_last());
        lemma_flow_keeps_start(start, chunks.drop_last());
        match before.pending {
            None => {
                lemma_faithful_grows(start, earlier, before.out, chunk);
            },
            Some(held) => {
                lemma_faithful_decision(start, stream, Ending::More);
                assert(before.out =~= Seq::empty());
                assert(before.out + bytes_of(passed(before.pending, chunk).1) =~= bytes_of(
                    passed(before.pending, chunk).1,
                ));
            },
        }
    }
    lemma_flow_keeps_start(start, chunks);
    match now.pending {
        None => {
            assert(now.out + Seq::<u8>::empty() =~= now.out);
        },
        Some(held) => {
            lemma_faithful_decision(start, stream, Ending::Last);
            assert(now.out =~= Seq::empty());
            assert(now.out + bytes_of(left_over(now.pending)) =~= bytes_of(
                left_over(now.pending),
            ));
        },
    }
}

proof fn lemma_flow_keeps_start(start: Held, chunks: Seq<Seq<u8>>)
    ensures
        flow(start, chunks).pending matches Some(held) ==> held.format == start.format
            && held.meta == start.meta,
    decreases chunks.len(),
{
    if chunks.len() > 0 {
        lemma_flow_keeps_start(start, chunks.drop_last());
    }
}

/// What the service says of a file.
#[derive(Debug)]
pub struct FileInfo {
    pub codec: String,
    pub url: String,
    pub urls: Vec<String>,
    pub size: Option<u64>,
}

/// Whether a track of a name is skipped.
pub open spec fn is_skipped(name: Seq<char>, stems: Option<Set<Seq<char>>>) -> bool {
    stems is Some && stems->Some_0.contains(name)
}

/// The first decision on a track: if a file of its name is there already, it is
/// skipped, and no request is made.
pub fn skip(track: &TrackInfo, existing: Option<&Existing>) -> (r: Option<Outcome>)
    ensures
        r is Some <==> is_skipped(
            stem(track@.artists, track@.title),
            match existing {
                Some(existing) => Some(existing.stems()),
                None => None,
            },
        ),
        ({
            let name = stem(track@.artists, track@.title);
            let known = existing matches Some(existing) && existing.stems().contains(name);
            match r {
                Some(Outcome::Skipped { stem }) => known && stem@ == name,
                Some(Outcome::Downloaded { .. }) => false,
                None => !known,
            }
        }),
{
    let stem = track.file_stem();
    match existing {
        Some(existing) => {
            if existing.contains_stem(stem.as_str()) {
                Some(Outcome::Skipped { stem })
            } else {
                None
            }
        },
        None => None,
    }
}

/// The name of a finished file.
pub open spec fn final_name(stem: Seq<char>, extension: Seq<char>) -> Seq<char> {
    stem + "."@ + extension
}

/// The name of an unfinished file.
pub open spec fn partial_name(stem: Seq<char>, extension: Seq<char>) -> Seq<char> {
    stem + "."@ + extension + "."@ + PART_EXTENSION@
}

/// A track on its way to the disk.
///
/// It goes into an unfinished file first, which is renamed when it is whole: a
/// download that broke off leaves nothing that looks like a track.
#[derive(Debug)]
pub struct Job {
    /// The name of the finished file.
    pub name: String,
    /// The name of the unfinished file.
    pub temporary: String,
    /// The format to write tags in, if there is one.
    pub format: Option<Format>,
    /// What to write into the tags.
    pub meta: Meta,
    /// The promised size.
    pub expected: Option<u64>,
    /// Where to go for the file.
    pub urls: Vec<String>,
    /// How many of these have failed.
    pub tried: usize,
    /// Why the last of them failed.
    pub reason: Option<String>,
    /// The identifier of the track.
    pub id: String,
}

/// What is said of a track without links.
pub open spec fn linkless_words(id: Seq<char>) -> Seq<char> {
    "Музыка не дала ни одной ссылки на файл трека "@ + id
}

/// Whether another link is worth a try after a failure.
pub open spec fn worth_another_try(failure: Refusal) -> bool {
    failure is Track
}

/// The failure of a track whose links have all failed.
pub open spec fn last_failure(reason: Option<Seq<char>>, id: Seq<char>) -> Refusal {
    match reason {
        Some(reason) => Refusal::Track(reason),
        None => Refusal::Track(linkless_words(id)),
    }
}

impl Job {
    /// A track with its file info.
    pub fn new(track: &TrackInfo, info: &FileInfo) -> (r: Self)
        ensures
            ({
                let name = stem(track@.artists, track@.title);
                let extension = extension_of(info.codec@);
                &&& r.name@ == final_name(name, extension)
                &&& r.temporary@ == partial_name(name, extension)
                &&& r.format == format_of(extension)
                &&& r.meta@ == track_meta(track@)
                &&& r.expected == info.size
                &&& texts(r.urls@) == first_seen(seq![info.url@] + texts(info.urls@))
                &&& r.tried == 0
                &&& r.reason is None
                &&& r.id@ == track@.id
            }),
    {
        let extension = extension(info.codec.as_str());
        let mut name = track.file_stem();
        name.append(".");
        name.append(extension);
        let mut temporary = name.clone();
        temporary.append(".");
        temporary.append(PART_EXTENSION);
        Job {
            name,
            temporary,
            format: Format::of(extension),
            meta: track.tags(),
            expected: info.size,
            urls: mirrors(info.url.as_str(), info.urls.as_slice()),
            tried: 0,
            reason: None,
            id: track.id().as_str().to_owned(),
        }
    }

    /// The link to try next, if there is one left.
    pub fn next_url(&self) -> (r: Option<&str>)
        ensures
            match r {
                Some(url) => self.tried < self.urls@.len() && url@ == texts(
                    self.urls@,
                )[self.tried as int],
                None => self.tried >= self.urls@.len(),
            },
    {
        if self.tried < self.urls.len() {
            Some(self.urls[self.tried].as_str())
        } else {
            None
        }
    }

    /// An attempt to download the file, with its own head to hold back.
    pub fn transfer(&self) -> (r: Transfer)
        ensures
            r.expected == self.expected,
            r.received == 0,
            r.written == 0,
            held(r.head) == match self.format {
                Some(format) => Some(
                    (Held { format, meta: self.meta@, buffer: Seq::empty() }),
                ),
                None => None,
            },
    {
        let head = match self.format {
            Some(format) => Some(
                Head { format, meta: self.meta.clone(), buffer: Vec::new() },
            ),
            None => None,
        };
        let r = Transfer::new(head, self.expected);
        proof {
            if self.format is Some {
                assert(r.head->Some_0.buffer@ =~= Seq::empty());
            }
        }
        r
    }

    /// An attempt has failed. Gives the failure back if there is no use in trying
    /// another link: a broken directory breaks that one too, and other links share
    /// the quota of the first.
    pub fn failed(&mut self, failure: Failure) -> (r: Option<Failure>)
        requires
            old(self).tried < old(self).urls@.len(),
        ensures
            r is None <==> worth_another_try(failure@),
            r matches Some(stop) ==> stop@ == failure@,
            match failure {
                Failure::Track(reason) => {
                    &&& r is None
                    &&& final(self).tried == old(self).tried + 1
                    &&& final(self).reason == Some(reason)
                },
                _ => {
                    &&& r == Some(failure)
                    &&& final(self).tried == old(self).tried
                    &&& final(self).reason == old(self).reason
                },
            },
            final(self).urls == old(self).urls,
            final(self).name == old(self).name,
            final(self).temporary == old(self).temporary,
            final(self).format == old(self).format,
            final(self).meta == old(self).meta,
            final(self).expected == old(self).expected,
            final(self).id == old(self).id,
    {
        match failure {
            Failure::Track(reason) => {
                proof {
                    assert(self.urls.len() <= usize::MAX);
                }
                self.tried = self.tried + 1;
                self.reason = Some(reason);
                None
            },
            stop => Some(stop),
        }
    }

    /// All links have failed: the failure of the last one.
    pub fn exhausted(self) -> (r: Failure)
        ensures
            r@ == last_failure(crate::text::text_of(self.reason), self.id@),
            r@ == Refusal::Track(
                match self.reason {
                    Some(reason) => reason@,
                    None => linkless_words(self.id@),
                },
            ),
    {
        match self.reason {
            Some(reason) => Failure::Track(reason),
            None => {
                let mut reason = "Музыка не дала ни одной ссылки на файл трека ".to_owned();
                reason.append(self.id.as_str());
                Failure::Track(reason)
            },
        }
    }
}

/// A finished file is found again by the name of its track, and an unfinished one is
/// not, so that the next run downloads what this one left undone.
pub proof fn law_next_run_knows_what_is_finished(
    artists: Seq<Seq<char>>,
    title: Option<Seq<char>>,
    codec: Seq<char>,
)
    requires
        extension_of(codec).len() > 0,
        !extension_of(codec).contains('/'),
        !extension_of(codec).contains('.'),
    ensures
        ({
            let own = stem(artists, title);
            let extension = extension_of(codec);
            &&& crate::updater::stem_in(final_name(own, extension)) == Some(own)
            &&& crate::updater::stem_in(partial_name(own, extension)) != Some(own)
        }),
{
    let own = stem(artists, title);
    let extension = extension_of(codec);
    crate::track::law_stem_fits(artists, title);
    assert forall|i: int| 0 <= i < own.len() implies own[i] != '/' by {
        assert(!crate::track::forbidden(own[i]));
    }
    crate::updater::law_finished_file_is_found(own, extension);
    crate::updater::law_unfinished_file_is_not_mistaken(own, extension);
    reveal_strlit(".");
    reveal_strlit("part");
    reveal_strlit(".part");
    assert("."@ + "part"@ =~= ".part"@);
    assert(partial_name(own, extension) =~= own + "."@ + extension + ".part"@);
}

/// What is said while a file is asked for.
pub fn asking(id: &str) -> (r: String)
    ensures
        r@ == "ссылка на файл трека "@ + id@,
{
    let mut r = "ссылка на файл трека ".to_owned();
    r.append(id);
    r
}

/// What is said when the service gives no link.
pub fn no_link(id: &str) -> (r: String)
    ensures
        r@ == "нет ссылки на файл трека "@ + id@,
{
    let mut r = "нет ссылки на файл трека ".to_owned();
    r.append(id);
    r
}

/// The extension is `m4a` for the five codecs of sound in `MP4`, and the codec itself for
/// any other.
pub proof fn law_extension_of_a_codec(codec: Seq<char>)
    ensures
        codec == "aac"@ || codec == "he-aac"@ || codec == "flac-mp4"@ || codec == "aac-mp4"@
            || codec == "he-aac-mp4"@ ==> extension_of(codec) == "m4a"@,
        codec != "aac"@ && codec != "he-aac"@ && codec != "flac-mp4"@ && codec != "aac-mp4"@
            && codec != "he-aac-mp4"@ ==> extension_of(codec) == codec,
{
}

/// A download is told with its path and its size in whole kilobytes of 1024 bytes, and a
/// skipped track with its name.
pub proof fn law_outcomes_are_told(outcome: Outcome)
    ensures
        outcome is Downloaded ==> exists|kilobytes: nat|
            kilobytes * 1024 <= outcome->bytes < (kilobytes + 1) * 1024 && outcome.words()
                == "скачан "@ + outcome->path@ + " ("@ + #[trigger] decimal_digits(kilobytes)
                + " КБ)"@,
        outcome is Skipped ==> outcome.words() == "уже есть "@ + outcome->stem@,
{
    if let Outcome::Downloaded { path, bytes } = outcome {
        let kilobytes = (bytes / 1024) as nat;
        assert(kilobytes * 1024 <= bytes < (kilobytes + 1) * 1024);
        assert(outcome.words() == "скачан "@ + path@ + " ("@ + decimal_digits(kilobytes) + " КБ)"@);
    }
}

/// What an answer means is seen in its status: any success is taken, `429` is waited for
/// as long as attempts are left and the wait is short, and anything else is a failure of
/// the track that names the status. Only a wait counts as an attempt.
pub proof fn law_answers(attempts: Attempts, status: u16, asked: Option<u64>)
    ensures
        ({
            let (next, meaning) = answer_of(attempts, status, asked);
            let wait = match asked {
                Some(asked) => asked as int,
                None => crate::net::pause(attempts.made as nat),
            };
            let again = attempts.made + 1 < attempts.of && wait <= 60;
            &&& 200 <= status <= 299 ==> meaning == Ok::<
                Option<(u64, u32, bool)>,
                Refusal,
            >(None)
            &&& !(200 <= status <= 299) && status != 429 ==> meaning == Err::<
                Option<(u64, u32, bool)>,
                Refusal,
            >(Refusal::Track("файл не отдан: HTTP "@ + status_line(status)))
            &&& status == 429 && again ==> meaning == Ok::<Option<(u64, u32, bool)>, Refusal>(
                Some((wait as u64, (attempts.made + 1) as u32, asked is Some)),
            )
            &&& status == 429 && !again ==> meaning is Err && meaning->Err_0 is Throttled
            &&& next.of == attempts.of
            &&& next.made == if status == 429 && again {
                attempts.made + 1
            } else {
                attempts.made as int
            }
        }),
{
    crate::net::law_waits_double(attempts.made as nat);
}

/// A server that is given up is told of with the wait that it asked for, if that is what
/// is too long, and with its status and the number of attempts otherwise.
pub proof fn law_throttling_is_told(status: u16, asked: Option<u64>)
    ensures
        asked is Some && asked->Some_0 > 60 ==> throttled_words(status, asked)
            == "раздача просит подождать "@ + decimal_digits(asked->Some_0 as nat)
            + " с — дольше, чем стоит ждать в одном запуске"@,
        asked is None || asked->Some_0 <= 60 ==> throttled_words(status, asked)
            == "раздача отвечает HTTP "@ + status_line(status) + " и после "@ + decimal_digits(3)
            + " попыток"@,
{
}

/// What becomes of a head that is held back: with tags, the new head and what follows the
/// old one; without, the bytes as they came and the reason; and while more is needed,
/// nothing, unless the stream has ended or more than 8 megabytes are held back.
pub proof fn law_fate_of_a_head(format: Format, meta: MetaView, buffer: Seq<u8>)
    ensures
        ({
            let answer = patched(format, buffer, meta);
            let more = decision(format, meta, buffer, Ending::More);
            let last = decision(format, meta, buffer, Ending::Last);
            &&& answer is Ready ==> more == last && last is Some && last->Some_0.untagged is None
                && last->Some_0.bytes == answer->head + buffer.skip(answer->used)
            &&& answer is Refused ==> more == last && last is Some && last->Some_0.bytes == buffer
                && last->Some_0.untagged == Some(answer->Refused_0)
            &&& answer is More ==> last is Some && last->Some_0.bytes == buffer
                && last->Some_0.untagged == Some(Reason::Malformed)
            &&& answer is More && buffer.len() > 8 * 1024 * 1024 ==> more is Some
                && more->Some_0.bytes == buffer && more->Some_0.untagged == Some(Reason::Oversized)
            &&& answer is More && buffer.len() <= 8 * 1024 * 1024 ==> more is None
        }),
{
}

/// A piece of a stream whose head is no longer held back is stored as it came, and at the
/// end nothing is left over; while the head is held back, the piece joins it.
pub proof fn law_pieces_pass(held: Held, chunk: Seq<u8>)
    ensures
        passed(None, chunk) == (
            None::<Held>,
            Some((Stored { bytes: chunk, untagged: None })),
        ),
        left_over(None) is None,
        ({
            let buffer = held.buffer + chunk;
            let fate = decision(held.format, held.meta, buffer, Ending::More);
            &&& fate is Some ==> passed(Some(held), chunk) == (None::<Held>, fate)
            &&& fate is None ==> passed(Some(held), chunk).1 is None && passed(
                Some(held),
                chunk,
            ).0 == Some((Held { format: held.format, meta: held.meta, buffer }))
        }),
{
}

/// What is held back is the head: its format, its meta and its bytes.
pub proof fn law_view_of_a_head(head: Head)
    ensures
        held(None) is None,
        held(Some(head)) is Some,
        held(Some(head))->Some_0.format == head.format,
        held(Some(head))->Some_0.meta == head.meta@,
        held(Some(head))->Some_0.buffer == head.buffer@,
{
}

/// Bytes are counted as they are, up to the largest number.
pub proof fn law_bytes_are_counted(a: u64, b: u64, portion: Option<Stored>)
    ensures
        a + b <= u64::MAX ==> capped_sum(a as int, b as int) == a + b,
        a + b > u64::MAX ==> capped_sum(a as int, b as int) == u64::MAX,
        weight(None) == 0,
        portion is Some ==> weight(portion) == portion->Some_0.bytes.len(),
        bytes_of(None) == Seq::<u8>::empty(),
        portion is Some ==> bytes_of(portion) == portion->Some_0.bytes,
{
}

/// The limits of a download: 512 megabytes of a file, 8 megabytes of a head, three
/// attempts, and the status that asks for a slower pace.
pub proof fn law_limits()
    ensures
        MAX_TRACK_BYTES == 512 * 1024 * 1024,
        MAX_HEAD_BYTES == 8 * 1024 * 1024,
        FILE_ATTEMPTS == 3,
        TOO_MANY_REQUESTS == 429,
{
}

/// The name of a finished file is the name of the track, a dot and the extension; the
/// name of an unfinished one is that with `.part` behind it.
pub proof fn law_names_of_files(name: Seq<char>, extension: Seq<char>)
    ensures
        final_name(name, extension) == name.push('.') + extension,
        partial_name(name, extension) == final_name(name, extension) + seq![
            '.', 'p', 'a', 'r', 't',
        ],
{
    reveal_strlit(".");
    reveal_strlit("part");
    assert(final_name(name, extension) =~= name.push('.') + extension);
    assert(partial_name(name, extension) =~= final_name(name, extension) + seq![
        '.', 'p', 'a', 'r', 't',
    ]);
}

/// What is said of a file that did not come whole names both sizes, of one beyond all
/// bounds the bound, and of a track without links the track.
pub proof fn law_failures_are_told(received: u64, expected: u64, id: Seq<char>)
    ensures
        incomplete_words(received, expected) == "файл пришёл не целиком: "@ + decimal_digits(
            received as nat,
        ) + " байт вместо "@ + decimal_digits(expected as nat),
        oversized_words() == "файл больше "@ + decimal_digits(512)
            + " МБ — это не похоже на трек"@,
        linkless_words(id) == "Музыка не дала ни одной ссылки на файл трека "@ + id,
{
}

/// A failure keeps its kind and its reason.
pub proof fn law_view_of_a_failure(failure: Failure)
    ensures
        failure is Track ==> failure@ == Refusal::Track(failure->Track_0@),
        failure is Fatal ==> failure@ == Refusal::Fatal(failure->Fatal_0@),
        failure is Throttled ==> failure@ == Refusal::Throttled(failure->Throttled_0@),
{
}

/// A failure of the file system is the environment's where every other file would meet
/// it too: no room, no quota, no permission, a read-only file system, a directory that is
/// gone or is none.
pub proof fn law_failures_of_the_environment(kind: ErrorKind)
    ensures
        environmental(kind) <==> kind is StorageFull || kind is QuotaExceeded
            || kind is PermissionDenied || kind is ReadOnlyFilesystem || kind is NotFound
            || kind is NotADirectory,
{
}

/// What the file system reports is kept in its words behind ours, and is the
/// environment's failure exactly if every other file would meet it.
pub proof fn law_reports_keep_their_words(kind: ErrorKind, error: Seq<char>, what: Seq<char>)
    ensures
        ({
            let said = what + seq![':', ' '] + error;
            reported(kind, error, what) == if environmental(kind) {
                Refusal::Fatal(said)
            } else {
                Refusal::Track(said)
            }
        }),
{
    reveal_strlit(": ");
    assert(": "@ =~= seq![':', ' ']);
}

/// A body may have 512 megabytes and not a byte more.
pub proof fn law_bound_of_a_body(received: u64, len: nat)
    ensures
        within_bounds(received as int, len as int) <==> received + len <= 512 * 1024 * 1024,
{
}

/// A body that has ended is good exactly if it has the promised size, or none was
/// promised; then it is told how much was stored.
pub proof fn law_promised_size(received: u64, expected: Option<u64>, written: u64)
    ensures
        expected is None || expected->Some_0 == received ==> checked(received, expected, written)
            == Ok::<u64, Refusal>(written),
        expected is Some && expected->Some_0 != received ==> checked(received, expected, written)
            is Err && checked(received, expected, written)->Err_0 is Track,
{
}

/// A track is skipped exactly if there is a snapshot and its name is in it.
pub proof fn law_skipping(name: Seq<char>, stems: Set<Seq<char>>)
    ensures
        !is_skipped(name, None),
        is_skipped(name, Some(stems.insert(name))),
        !is_skipped(name, Some(stems.remove(name))),
{
}

/// Other links are tried after a failure of the track alone, and what is said in the end
/// is why the last one failed.
pub proof fn law_other_links(reason: Seq<char>, id: Seq<char>)
    ensures
        worth_another_try(Refusal::Track(reason)),
        !worth_another_try(Refusal::Fatal(reason)),
        !worth_another_try(Refusal::Throttled(reason)),
        last_failure(Some(reason), id) == Refusal::Track(reason),
        last_failure(None, id) == Refusal::Track(linkless_words(id)),
{
}

} // verus!
