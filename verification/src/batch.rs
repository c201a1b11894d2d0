//! A list of tracks on its way to the disk: what is reported, what is counted, and
//! when to stop.
//!
//! A track that fails does not stop the rest. A broken environment, a server that
//! wants a slower pace, and too many failures in a row do.

use vstd::hash_set::StringHashSet;
use vstd::prelude::*;
use vstd::string::*;

use crate::download::{Failure, Outcome};
use crate::text::{decimal, decimal_digits, text_of};
use crate::track::{artists_line, stem, title_line, TrackInfo, TrackView};

verus! {

/// How many failures in a row are the environment's fault, not the tracks'.
pub const GIVE_UP_AFTER: usize = 5;

/// A note on a file that took the place of another track's.
pub const OVERWRITTEN: &'static str = " (перезаписал одноимённый трек)";

/// What to do after a track.
#[derive(Debug)]
pub enum Step {
    /// Report the line and go on; `overwritten` if the file of another track of the
    /// same name was lost.
    Next { line: String, overwritten: bool },
    /// Report the last line, if there is one, and stop: `context` says where, `reason`
    /// why.
    Stop { last: Option<String>, context: String, reason: String },
}

/// A step over plain values.
#[verifier::ext_equal]
pub enum Move {
    Next { line: Seq<char>, overwritten: bool },
    Stop { last: Option<Seq<char>>, context: Seq<char>, reason: Seq<char> },
}

impl View for Step {
    type V = Move;

    open spec fn view(&self) -> Move {
        match self {
            Step::Next { line, overwritten } => Move::Next {
                line: line@,
                overwritten: *overwritten,
            },
            Step::Stop { last, context, reason } => Move::Stop {
                last: text_of(*last),
                context: context@,
                reason: reason@,
            },
        }
    }
}

/// What is known of a list on its way.
#[verifier::ext_equal]
pub struct Progress {
    /// How many tracks there are.
    pub total: int,
    /// How many have been dealt with.
    pub done: int,
    /// How many of these failed.
    pub failed: int,
    /// How many failed since the last download.
    pub in_a_row: int,
    /// The names of the files that were written.
    pub written: Set<Seq<char>>,
}

/// `<position> of <total>`.
pub open spec fn place(done: int, total: int) -> Seq<char> {
    decimal_digits(done as nat) + " из "@ + decimal_digits(total as nat)
}

/// The beginning of a line on a track.
pub open spec fn label(done: int, total: int, track: TrackView) -> Seq<char> {
    "["@ + decimal_digits(done as nat) + "/"@ + decimal_digits(total as nat) + "] "@ + (
    artists_line(track.artists) + " — "@ + title_line(track.title)) + " — "@
}

/// What becomes of a list after one more track, and what is to be done.
///
/// Only a download resets the count of failures in a row: a skipped track says
/// nothing about the network.
pub open spec fn advance(
    now: Progress,
    track: TrackView,
    result: Result<Outcome, Failure>,
) -> (Progress, Move) {
    let done = now.done + 1;
    let name = stem(track.artists, track.title);
    match result {
        Ok(outcome) => {
            let downloaded = outcome is Downloaded;
            let overwritten = downloaded && now.written.contains(name);
            let next = if downloaded {
                Progress { done, in_a_row: 0, written: now.written.insert(name), ..now }
            } else {
                Progress { done, ..now }
            };
            let line = label(done, now.total, track) + outcome.words() + if overwritten {
                OVERWRITTEN@
            } else {
                ""@
            };
            (next, Move::Next { line, overwritten })
        },
        Err(Failure::Fatal(reason)) => (
            Progress { done, ..now },
            Move::Stop {
                last: None,
                context: "выгрузка прервана на "@ + place(done, now.total),
                reason: reason@,
            },
        ),
        Err(Failure::Throttled(reason)) => (
            Progress { done, ..now },
            Move::Stop {
                last: None,
                context: "остановился на "@ + place(done, now.total)
                    + "; повторите позже — с `--update` докачается только недостающее"@,
                reason: reason@,
            },
        ),
        Err(Failure::Track(reason)) => {
            let in_a_row = now.in_a_row + 1;
            let line = label(done, now.total, track) + "не скачан: "@ + reason@;
            (
                Progress { done, failed: now.failed + 1, in_a_row, ..now },
                if in_a_row >= GIVE_UP_AFTER {
                    Move::Stop {
                        last: Some(line),
                        context: decimal_digits(in_a_row as nat)
                            + " трека подряд не скачались — дело не в треках; остановился на "@
                            + place(done, now.total),
                        reason: reason@,
                    }
                } else {
                    Move::Next { line, overwritten: false }
                },
            )
        },
    }
}

/// A list of tracks on its way to the disk.
pub struct Batch {
    total: usize,
    done: usize,
    failed: usize,
    in_a_row: usize,
    written: StringHashSet,
}

impl View for Batch {
    type V = Progress;

    closed spec fn view(&self) -> Progress {
        Progress {
            total: self.total as int,
            done: self.done as int,
            failed: self.failed as int,
            in_a_row: self.in_a_row as int,
            written: self.written@,
        }
    }
}

fn place_text(done: usize, total: usize) -> (r: String)
    ensures
        r@ == place(done as int, total as int),
{
    let mut r = decimal(done as u64);
    r.append(" из ");
    r.append(decimal(total as u64).as_str());
    r
}

fn label_text(done: usize, total: usize, track: &TrackInfo) -> (r: String)
    ensures
        r@ == label(done as int, total as int, track@),
{
    let mut r = "[".to_owned();
    r.append(decimal(done as u64).as_str());
    r.append("/");
    r.append(decimal(total as u64).as_str());
    r.append("] ");
    r.append(track.text().as_str());
    r.append(" — ");
    r
}

/// What is said at the end of a list, if anything failed.
pub open spec fn summary(failed: int, total: int) -> Option<Seq<char>> {
    if failed == 0 {
        None
    } else {
        Some("не скачано треков: "@ + place(failed, total))
    }
}

impl Batch {
    #[verifier::type_invariant]
    spec fn counted(self) -> bool {
        self.in_a_row <= self.failed <= self.done <= self.total
    }

    /// A list of so many tracks, none of them dealt with.
    pub fn new(total: usize) -> (r: Self)
        ensures
            r@ == (Progress {
                total: total as int,
                done: 0,
                failed: 0,
                in_a_row: 0,
                written: Set::empty(),
            }),
    {
        Batch { total, done: 0, failed: 0, in_a_row: 0, written: StringHashSet::new() }
    }

    /// Deals with the next track of the list, and says what to do.
    pub fn report(self, track: &TrackInfo, result: Result<Outcome, Failure>) -> (r: (Self, Step))
        requires
            self@.done < self@.total,
        ensures
            (r.0@, r.1@) == advance(self@, track@, result),
    {
        proof {
            use_type_invariant(&self);
        }
        let Batch { total, done, failed, in_a_row, written } = self;
        let mut written = written;
        let done: usize = done + 1;
        match result {
            Ok(outcome) => {
                let in_a_row: usize = if outcome.cost_request() {
                    0
                } else {
                    in_a_row
                };
                let overwritten = match &outcome {
                    Outcome::Downloaded { .. } => !written.insert(track.file_stem()),
                    Outcome::Skipped { .. } => false,
                };
                let mut line = label_text(done, total, track);
                line.append(outcome.text().as_str());
                line.append(
                    if overwritten {
                        OVERWRITTEN
                    } else {
                        ""
                    },
                );
                (Batch { total, done, failed, in_a_row, written }, Step::Next { line, overwritten })
            },
            Err(Failure::Fatal(reason)) => {
                let mut context = "выгрузка прервана на ".to_owned();
                context.append(place_text(done, total).as_str());
                (
                    Batch { total, done, failed, in_a_row, written },
                    Step::Stop { last: None, context, reason },
                )
            },
            Err(Failure::Throttled(reason)) => {
                let mut context = "остановился на ".to_owned();
                context.append(place_text(done, total).as_str());
                context.append(
                    "; повторите позже — с `--update` докачается только недостающее",
                );
                (
                    Batch { total, done, failed, in_a_row, written },
                    Step::Stop { last: None, context, reason },
                )
            },
            Err(Failure::Track(reason)) => {
                let failed: usize = failed + 1;
                let in_a_row: usize = in_a_row + 1;
                let mut line = label_text(done, total, track);
                line.append("не скачан: ");
                line.append(reason.as_str());
                let batch = Batch { total, done, failed, in_a_row, written };
                if in_a_row >= GIVE_UP_AFTER {
                    let mut context = decimal(in_a_row as u64);
                    context.append(
                        " трека подряд не скачались — дело не в треках; остановился на ",
                    );
                    context.append(place_text(done, total).as_str());
                    (batch, Step::Stop { last: Some(line), context, reason })
                } else {
                    (batch, Step::Next { line, overwritten: false })
                }
            },
        }
    }

    /// The end of the list: a failure if any track failed.
    pub fn finish(&self) -> (r: Result<(), String>)
        ensures
            r is Ok <==> summary(self@.failed, self@.total) is None,
            r matches Err(reason) ==> summary(self@.failed, self@.total) == Some(reason@),
            match r {
                Ok(()) => self@.failed == 0,
                Err(reason) => self@.failed > 0 && reason@ == "не скачано треков: "@ + place(
                    self@.failed,
                    self@.total,
                ),
            },
    {
        if self.failed == 0 {
            return Ok(());
        }
        let mut reason = "не скачано треков: ".to_owned();
        reason.append(place_text(self.failed, self.total).as_str());
        Err(reason)
    }
}

/// What can happen to a track that does not stop the list by itself.
pub enum Event {
    Downloaded,
    Skipped,
    Failed,
}

/// The event behind a result.
pub open spec fn event_of(result: Result<Outcome, Failure>) -> Option<Event> {
    match result {
        Ok(Outcome::Downloaded { .. }) => Some(Event::Downloaded),
        Ok(Outcome::Skipped { .. }) => Some(Event::Skipped),
        Err(Failure::Track(_)) => Some(Event::Failed),
        Err(_) => None,
    }
}

/// How many failures there are since the last download.
pub open spec fn failures_in_a_row(events: Seq<Event>) -> nat
    decreases events.len(),
{
    if events.len() == 0 {
        0
    } else {
        let before = failures_in_a_row(events.drop_last());
        match events.last() {
            Event::Downloaded => 0,
            Event::Skipped => before,
            Event::Failed => before + 1,
        }
    }
}

/// Events without the skipped tracks.
pub open spec fn without_skips(events: Seq<Event>) -> Seq<Event>
    decreases events.len(),
{
    if events.len() == 0 {
        Seq::empty()
    } else {
        let before = without_skips(events.drop_last());
        if events.last() is Skipped {
            before
        } else {
            before.push(events.last())
        }
    }
}

/// The count of failures in a row is the one of the events so far, and it stops the
/// list exactly when it reaches [`GIVE_UP_AFTER`].
pub proof fn law_breaker(
    now: Progress,
    events: Seq<Event>,
    track: TrackView,
    result: Result<Outcome, Failure>,
)
    requires
        now.in_a_row == failures_in_a_row(events),
        now.in_a_row < GIVE_UP_AFTER,
        event_of(result) is Some,
    ensures
        ({
            let longer = events.push(event_of(result)->Some_0);
            let (next, step) = advance(now, track, result);
            &&& next.in_a_row == failures_in_a_row(longer)
            &&& step is Stop <==> failures_in_a_row(longer) >= GIVE_UP_AFTER
        }),
{
    let longer = events.push(event_of(result)->Some_0);
    assert(longer.drop_last() =~= events);
}

/// Skipped tracks do not switch the breaker off: however many of them stand between
/// failures, the count is the same as without them.
pub proof fn law_skips_do_not_count(events: Seq<Event>)
    ensures
        failures_in_a_row(without_skips(events)) == failures_in_a_row(events),
    decreases events.len(),
{
    if events.len() > 0 {
        law_skips_do_not_count(events.drop_last());
        let before = without_skips(events.drop_last());
        if !(events.last() is Skipped) {
            assert(before.push(events.last()).drop_last() =~= before);
        }
    }
}

/// How many of the events are failures.
pub open spec fn failures(events: Seq<Event>) -> nat
    decreases events.len(),
{
    if events.len() == 0 {
        0
    } else {
        failures(events.drop_last()) + if events.last() is Failed {
            1nat
        } else {
            0nat
        }
    }
}

/// Every track is counted, and every failure: what is said at the end of the list is
/// how many of them there were.
pub proof fn law_failures_are_counted(
    now: Progress,
    events: Seq<Event>,
    track: TrackView,
    result: Result<Outcome, Failure>,
)
    requires
        now.done == events.len(),
        now.failed == failures(events),
        event_of(result) is Some,
    ensures
        ({
            let longer = events.push(event_of(result)->Some_0);
            let (next, _step) = advance(now, track, result);
            &&& next.done == longer.len()
            &&& next.failed == failures(longer)
            &&& next.total == now.total
        }),
{
    let longer = events.push(event_of(result)->Some_0);
    assert(longer.drop_last() =~= events);
}

/// A broken environment and a throttling server stop the list at once.
pub proof fn law_no_use_in_going_on(
    now: Progress,
    track: TrackView,
    result: Result<Outcome, Failure>,
)
    requires
        event_of(result) is None,
    ensures
        advance(now, track, result).1 is Stop,
{
}

/// Every line on a track begins with its position, the number of tracks, its artists and
/// its title, and goes on with what happened; a file that took the place of another
/// track's is noted, and only that one.
pub proof fn law_lines_tell_what_happened(
    now: Progress,
    track: TrackView,
    result: Result<Outcome, Failure>,
)
    ensures
        ({
            let (_next, step) = advance(now, track, result);
            let begun = "["@ + decimal_digits((now.done + 1) as nat) + "/"@ + decimal_digits(
                now.total as nat,
            ) + "] "@ + (artists_line(track.artists) + " — "@ + title_line(track.title)) + " — "@;
            let taken = result is Ok && result->Ok_0 is Downloaded && now.written.contains(
                stem(track.artists, track.title),
            );
            &&& result is Ok ==> step is Next && step->overwritten == taken
            &&& result is Ok && !taken ==> step->line == begun + result->Ok_0.words()
            &&& taken ==> step->line == begun + result->Ok_0.words()
                + " (перезаписал одноимённый трек)"@
            &&& result is Err && result->Err_0 is Track && now.in_a_row + 1 < 5 ==> step is Next
                && !step->overwritten && step->line == begun + "не скачан: "@
                + result->Err_0->Track_0@
            &&& result is Err && result->Err_0 is Track && now.in_a_row + 1 >= 5 ==> step is Stop
                && step->last == Some(begun + "не скачан: "@ + result->Err_0->Track_0@)
        }),
{
    reveal_strlit("");
    if result is Ok {
        let (_next, step) = advance(now, track, result);
        let begun = label(now.done + 1, now.total, track) + result->Ok_0.words();
        assert(begun + ""@ =~= begun);
    }
}

/// Where a list stops, it says where and why: the reason is that of the failure, and the
/// place is its position and the number of tracks.
pub proof fn law_stops_say_where_and_why(
    now: Progress,
    track: TrackView,
    failure: Failure,
)
    ensures
        ({
            let (_next, step) = advance(now, track, Err(failure));
            let at = decimal_digits((now.done + 1) as nat) + " из "@ + decimal_digits(
                now.total as nat,
            );
            &&& failure is Fatal ==> step == (Move::Stop {
                last: None,
                context: "выгрузка прервана на "@ + at,
                reason: failure->Fatal_0@,
            })
            &&& failure is Throttled ==> step == (Move::Stop {
                last: None,
                context: "остановился на "@ + at
                    + "; повторите позже — с `--update` докачается только недостающее"@,
                reason: failure->Throttled_0@,
            })
            &&& failure is Track && step is Stop ==> step->reason == failure->Track_0@
                && step->context == decimal_digits((now.in_a_row + 1) as nat)
                + " трека подряд не скачались — дело не в треках; остановился на "@ + at
        }),
{
}

/// A list remembers the names of the files that it wrote, and of no others; nothing else
/// of what it knows changes but the counts.
pub proof fn law_written_files_are_remembered(
    now: Progress,
    track: TrackView,
    result: Result<Outcome, Failure>,
)
    ensures
        ({
            let (next, _step) = advance(now, track, result);
            let wrote = result is Ok && result->Ok_0 is Downloaded;
            &&& next.total == now.total
            &&& next.done == now.done + 1
            &&& wrote ==> next.written == now.written.insert(stem(track.artists, track.title))
            &&& !wrote ==> next.written == now.written
            &&& wrote ==> next.in_a_row == 0
            &&& result is Ok ==> next.failed == now.failed
            &&& GIVE_UP_AFTER == 5
        }),
{
}

/// A step is what it says: its line, its note, and its reason.
pub proof fn law_view_of_a_step(step: Step)
    ensures
        step is Next <==> step@ is Next,
        step is Next ==> step@->Next_line == step->Next_line@ && step@->overwritten
            == step->overwritten,
        step is Stop ==> step@->context == step->context@ && step@->reason == step->reason@,
        step is Stop ==> (step@->last is Some <==> step->last is Some),
        step is Stop && step->last is Some ==> step@->last == Some(step->last->Some_0@),
{
}

/// A list ends well exactly if nothing failed; otherwise it is told how many tracks of how
/// many.
pub proof fn law_end_of_a_list(failed: nat, total: nat)
    ensures
        summary(0, total as int) is None,
        failed > 0 ==> summary(failed as int, total as int) == Some(
            "не скачано треков: "@ + decimal_digits(failed) + " из "@ + decimal_digits(total),
        ),
{
    if failed > 0 {
        let a = "не скачано треков: "@;
        let b = decimal_digits(failed);
        let c = " из "@;
        let d = decimal_digits(total);
        assert(a + (b + c + d) =~= a + b + c + d);
    }
}

} // verus!
