//! Decisions about requests: how often to repeat one, how long to wait, and how
//! much of an answer to read.
//!
//! Times are whole seconds.

use vstd::arithmetic::power2::{lemma2_to64, lemma_pow2_strictly_increases, lemma_pow2_unfold, pow2};
use vstd::prelude::*;
use vstd::string::*;

use crate::bytes::extend;
use crate::text::{
    decimal, decimal_digits, digit, law_decimal_round_trip, lemma_decimal_digits,
    lemma_digits_value, lemma_trimmed_inside, number_in, parse_number, text_of, trim, trimmed,
    white,
};

verus! {

/// How long one call of the service may take.
pub const API_DEADLINE: u64 = 30;

/// How long to wait for a connection to a file server.
pub const CONNECT_TIMEOUT: u64 = 10;

/// How long the body of a file may pause.
pub const READ_TIMEOUT: u64 = 30;

/// How many redirects to follow on the way to a file.
pub const MAX_REDIRECTS: usize = 3;

/// The longest wait between two attempts.
pub const MAX_WAIT: u64 = 60;

/// How many times to try a call of the service.
pub const API_ATTEMPTS: u32 = 3;

/// What to do after a refusal.
#[derive(Debug, Clone, Copy, PartialEq, Eq, Structural)]
pub enum Retry {
    /// Wait for so many seconds and repeat.
    After(u64),
    /// There are no attempts left, or the wait would be too long.
    GiveUp,
}

/// The wait before the next attempt, counted from zero: 1, 2, 4 and so on, but
/// never more than [`MAX_WAIT`].
pub open spec fn pause(attempt: nat) -> int {
    if pow2(attempt) <= MAX_WAIT {
        pow2(attempt) as int
    } else {
        MAX_WAIT as int
    }
}

/// The wait before the next attempt.
///
/// It doubles: repeating at the same pace would be the pace that was refused.
pub fn backoff(attempt: u32) -> (r: u64)
    ensures
        r == pause(attempt as nat),
{
    proof {
        lemma2_to64();
    }
    if attempt >= 6 {
        proof {
            if attempt > 6 {
                lemma_pow2_strictly_increases(6, attempt as nat);
            }
        }
        return MAX_WAIT;
    }
    let mut seconds: u64 = 1;
    let mut i: u32 = 0;
    while i < attempt
        invariant
            i <= attempt < 6,
            seconds == pow2(i as nat),
            seconds <= 32,
            i < 5 ==> seconds <= 16,
        decreases attempt - i,
    {
        proof {
            lemma2_to64();
            lemma_pow2_unfold((i + 1) as nat);
        }
        seconds = seconds * 2;
        i += 1;
    }
    seconds
}

/// What to do after attempt number `attempt` of `attempts` was refused.
///
/// The server's wish counts before our own pace, but a wish to wait longer than
/// [`MAX_WAIT`] is a refusal.
pub open spec fn verdict(attempt: u32, attempts: u32, asked: Option<u64>) -> Retry {
    let wait = match asked {
        Some(asked) => asked,
        None => pause(attempt as nat) as u64,
    };
    if attempt + 1 >= attempts || wait > MAX_WAIT {
        Retry::GiveUp
    } else {
        Retry::After(wait)
    }
}

/// Decides whether to repeat a call, and how long to wait before.
pub fn next_attempt(attempt: u32, attempts: u32, asked: Option<u64>) -> (r: Retry)
    ensures
        r == verdict(attempt, attempts, asked),
{
    let wait: u64 = match asked {
        Some(asked) => asked,
        None => backoff(attempt),
    };
    if attempt.saturating_add(1) >= attempts || wait > MAX_WAIT {
        Retry::GiveUp
    } else {
        Retry::After(wait)
    }
}

/// The headers of an answer: the type of the crate `http`, as `reqwest` hands it
/// out.
#[verifier::external_type_specification]
#[verifier::external_body]
#[verifier::reject_recursive_types(T)]
pub struct ExHeaderMap<T>(reqwest::header::HeaderMap<T>);

/// The value of a header.
#[verifier::external_type_specification]
#[verifier::external_body]
pub struct ExHeaderValue(reqwest::header::HeaderValue);

/// What headers hold: by the name of a header in lower case, the bytes of its
/// first value.
pub uninterp spec fn header_fields(
    headers: reqwest::header::HeaderMap<reqwest::header::HeaderValue>,
) -> Map<Seq<char>, Seq<u8>>;

/// `HeaderMap::get` with the name `retry-after`: the bytes of the first value of
/// that header, or nothing if there is no such header.
#[verifier::external_body]
fn retry_after_bytes(headers: &reqwest::header::HeaderMap<reqwest::header::HeaderValue>) -> (r:
    Option<Vec<u8>>)
    ensures
        match r {
            Some(bytes) => header_fields(*headers).contains_key("retry-after"@) && bytes@
                == header_fields(*headers)["retry-after"@],
            None => !header_fields(*headers).contains_key("retry-after"@),
        },
{
    headers.get(reqwest::header::RETRY_AFTER).map(|value| value.as_bytes().to_vec())
}

/// Bytes that a header value may hold if it is to be read as text: visible
/// `ASCII`, the space and the tab.
pub open spec fn visible(byte: u8) -> bool {
    32 <= byte < 127 || byte == 9
}

/// The text of a header value, if it is text.
pub open spec fn visible_text(bytes: Seq<u8>) -> Option<Seq<char>> {
    if forall|i: int| 0 <= i < bytes.len() ==> visible(#[trigger] bytes[i]) {
        Some(Seq::new(bytes.len(), |i: int| bytes[i] as char))
    } else {
        None
    }
}

/// The text of a header value, if it is text.
pub fn header_text(bytes: &[u8]) -> (r: Option<String>)
    ensures
        text_of(r) == visible_text(bytes@),
{
    let mut text = String::new();
    let mut i: usize = 0;
    let ghost all = Seq::new(bytes@.len(), |i: int| bytes@[i] as char);
    proof {
        assert(text@ =~= all.take(0));
    }
    while i < bytes.len()
        invariant
            i <= bytes@.len(),
            all == Seq::new(bytes@.len(), |i: int| bytes@[i] as char),
            forall|j: int| 0 <= j < i ==> visible(#[trigger] bytes@[j]),
            text@ == all.take(i as int),
        decreases bytes@.len() - i,
    {
        let byte = bytes[i];
        if !((32 <= byte && byte < 127) || byte == 9) {
            proof {
                assert(!visible(bytes@[i as int]));
            }
            return None;
        }
        text.push(byte as char);
        proof {
            assert(text@ =~= all.take(i + 1));
        }
        i += 1;
    }
    proof {
        assert(all.take(i as int) =~= all);
    }
    Some(text)
}

/// The wait that the value of a header `retry-after` asks for. Only a number of
/// seconds is understood; anything else means that no wait was named.
pub open spec fn asked_wait(value: Option<Seq<u8>>) -> Option<u64> {
    match value {
        Some(bytes) => match visible_text(bytes) {
            Some(text) => match number_in(trimmed(text), u64::MAX as int) {
                Some(seconds) => Some(seconds as u64),
                None => None,
            },
            None => None,
        },
        None => None,
    }
}

/// The value of the header `retry-after`, if there is one.
pub open spec fn retry_field(fields: Map<Seq<char>, Seq<u8>>) -> Option<Seq<u8>> {
    if fields.contains_key("retry-after"@) {
        Some(fields["retry-after"@])
    } else {
        None
    }
}

/// The wait that a header value asks for.
pub fn read_wait(value: &[u8]) -> (r: Option<u64>)
    ensures
        r == asked_wait(Some(value@)),
{
    match header_text(value) {
        Some(text) => parse_number(trim(text.as_str()).as_str(), u64::MAX),
        None => None,
    }
}

/// How long the server asks to wait, if it says so by the header `Retry-After`.
pub fn retry_after(headers: &reqwest::header::HeaderMap<reqwest::header::HeaderValue>) -> (r:
    Option<u64>)
    ensures
        r == asked_wait(retry_field(header_fields(*headers))),
{
    match retry_after_bytes(headers) {
        Some(value) => read_wait(value.as_slice()),
        None => None,
    }
}

/// A call that is repeated until it succeeds or the attempts are used up.
#[derive(Debug, Clone, Copy)]
pub struct Attempts {
    /// How many attempts were refused.
    pub made: u32,
    /// How many there are.
    pub of: u32,
}

impl Attempts {
    pub fn new(of: u32) -> (r: Self)
        ensures
            r == (Attempts { made: 0, of }),
    {
        Attempts { made: 0, of }
    }

    /// Says what to do after a refusal; if the call is to be repeated, the refusal
    /// is counted.
    pub fn refused(&mut self, asked: Option<u64>) -> (r: Retry)
        ensures
            r == verdict(old(self).made, old(self).of, asked),
            final(self).of == old(self).of,
            final(self).made == if r is After {
                old(self).made + 1
            } else {
                old(self).made as int
            },
    {
        let r = next_attempt(self.made, self.of, asked);
        if let Retry::After(_) = r {
            self.made = self.made.saturating_add(1);
        }
        r
    }
}

/// Repeating comes to an end: a call is made at most as often as there are
/// attempts, and never waits longer than [`MAX_WAIT`].
pub proof fn law_repeats_are_bounded(attempts: Attempts, asked: Option<u64>)
    ensures
        match verdict(attempts.made, attempts.of, asked) {
            Retry::After(wait) => wait <= MAX_WAIT && attempts.made + 1 < attempts.of,
            Retry::GiveUp => true,
        },
        attempts.of <= 1 ==> verdict(attempts.made, attempts.of, asked) is GiveUp,
{
}

/// The server's wish is obeyed to the second while it is a short one, and a longer
/// one ends the repeating.
pub proof fn law_server_is_obeyed(attempt: u32, attempts: u32, asked: u64)
    requires
        attempt + 1 < attempts,
    ensures
        asked <= MAX_WAIT ==> verdict(attempt, attempts, Some(asked)) == Retry::After(asked),
        asked > MAX_WAIT ==> verdict(attempt, attempts, Some(asked)) == Retry::GiveUp,
{
}

/// Without a wish, waits never grow shorter, and they double until they reach
/// [`MAX_WAIT`].
pub proof fn law_waits_double(attempt: nat)
    ensures
        pause(0) == 1,
        1 <= pause(attempt) <= pause(attempt + 1) <= MAX_WAIT,
        MAX_WAIT == 60,
        pause(attempt + 1) == if 2 * pause(attempt) <= MAX_WAIT {
            2 * pause(attempt)
        } else {
            MAX_WAIT as int
        },
{
    lemma_pow2_unfold((attempt + 1) as nat);
    lemma2_to64();
    if attempt > 0 {
        lemma_pow2_strictly_increases(0, attempt);
    }
}

/// The body of an answer, never longer than a limit.
#[derive(Debug)]
pub struct Capped {
    body: Vec<u8>,
    limit: usize,
}

/// Whether a body of so many bytes has room for so many more.
pub open spec fn has_room(len: int, more: int, limit: int) -> bool {
    len + more <= limit
}

impl Capped {
    pub closed spec fn content(self) -> Seq<u8> {
        self.body@
    }

    pub closed spec fn cap(self) -> usize {
        self.limit
    }

    #[verifier::type_invariant]
    spec fn bounded(self) -> bool {
        self.body@.len() <= self.limit
    }

    pub fn new(limit: usize) -> (r: Self)
        ensures
            r.content() == Seq::<u8>::empty(),
            r.cap() == limit,
    {
        Capped { body: Vec::new(), limit }
    }

    /// Takes in a piece of the body, or nothing of it if the body would grow beyond
    /// the limit.
    pub fn push(&mut self, chunk: &[u8]) -> (r: bool)
        ensures
            r == (old(self).content().len() + chunk@.len() <= old(self).cap()),
            r == has_room(
                old(self).content().len() as int,
                chunk@.len() as int,
                old(self).cap() as int,
            ),
            final(self).cap() == old(self).cap(),
            final(self).content() == if r {
                old(self).content() + chunk@
            } else {
                old(self).content()
            },
    {
        proof {
            use_type_invariant(&*self);
        }
        if chunk.len() > self.limit - self.body.len() {
            return false;
        }
        let mut body: Vec<u8> = Vec::new();
        core::mem::swap(&mut body, &mut self.body);
        extend(&mut body, chunk);
        self.body = body;
        true
    }

    /// The whole body.
    pub fn finish(self) -> (r: Vec<u8>)
        ensures
            r@ == self.content(),
            r@.len() <= self.cap(),
    {
        proof {
            use_type_invariant(&self);
        }
        self.body
    }
}

/// What is said of a body beyond its limit.
pub fn too_long(what: &str, limit: usize) -> (r: String)
    ensures
        r@ == what@ + ": ответ больше "@ + decimal_digits(limit as nat)
            + " байт, читать дальше не буду"@,
{
    let mut r = what.to_owned();
    r.append(": ответ больше ");
    r.append(decimal(limit as u64).as_str());
    r.append(" байт, читать дальше не буду");
    r
}

/// What is said of a body that broke off.
pub fn broken_off(what: &str) -> (r: String)
    ensures
        r@ == what@ + ": тело ответа оборвалось"@,
{
    let mut r = what.to_owned();
    r.append(": тело ответа оборвалось");
    r
}

/// What is said of a call without an answer.
pub fn no_answer(what: &str) -> (r: String)
    ensures
        r@ == what@ + ": ответа нет дольше "@ + decimal_digits(API_DEADLINE as nat) + " с"@,
{
    let mut r = what.to_owned();
    r.append(": ответа нет дольше ");
    r.append(decimal(API_DEADLINE).as_str());
    r.append(" с");
    r
}

/// Whether a status of `HTTP` means success.
pub open spec fn success(status: u16) -> bool {
    200 <= status < 300
}

/// The words that `StatusCode` of the crate `http` prints for a status: the number
/// and its canonical reason.
pub uninterp spec fn status_line(status: u16) -> Seq<char>;

/// `StatusCode::from_u16` and its `Display`: the number of a status and its
/// canonical reason, by the number alone.
#[verifier::external_body]
pub(crate) fn status_text(status: u16) -> (r: String)
    requires
        100 <= status < 1000,
    ensures
        r@ == status_line(status),
{
    reqwest::StatusCode::from_u16(status).map(|status| status.to_string()).unwrap_or_default()
}

/// Without a wish of the server, the wait is the one of the pace, as long as there are
/// attempts left; without attempts there is no wait, whatever the server wishes.
pub proof fn law_pace_without_a_wish(attempt: u32, attempts: u32, asked: Option<u64>)
    ensures
        attempt + 1 < attempts ==> verdict(attempt, attempts, None) == Retry::After(
            pause(attempt as nat) as u64,
        ),
        attempt + 1 >= attempts ==> verdict(attempt, attempts, asked) == Retry::GiveUp,
{
}

/// A header value is text exactly if all its bytes are visible `ASCII`, spaces or tabs,
/// and the text is these characters.
pub proof fn law_text_of_a_header(bytes: Seq<u8>)
    ensures
        visible_text(bytes) is Some <==> forall|i: int|
            0 <= i < bytes.len() ==> #[trigger] bytes[i] == 9 || 32 <= bytes[i] <= 126,
        visible_text(bytes) is Some ==> {
            let text = visible_text(bytes)->Some_0;
            text.len() == bytes.len() && forall|i: int|
                0 <= i < bytes.len() ==> #[trigger] text[i] as int == bytes[i]
        },
{
    if visible_text(bytes) is Some {
        assert forall|i: int| 0 <= i < bytes.len() implies #[trigger] bytes[i] == 9 || 32
            <= bytes[i] <= 126 by {
            assert(visible(bytes[i]));
        }
    } else {
        let i = choose|i: int| 0 <= i < bytes.len() && !visible(#[trigger] bytes[i]);
        assert(!(bytes[i] == 9 || 32 <= bytes[i] <= 126));
    }
}

/// A wait is read out of every header value that is a number of seconds with spaces or
/// tabs around it.
pub proof fn law_seconds_are_read(before: Seq<u8>, seconds: u64, behind: Seq<u8>)
    requires
        forall|i: int| 0 <= i < before.len() ==> #[trigger] before[i] == 32 || before[i] == 9,
        forall|i: int| 0 <= i < behind.len() ==> #[trigger] behind[i] == 32 || behind[i] == 9,
    ensures
        asked_wait(
            Some(
                before + Seq::new(
                    decimal_digits(seconds as nat).len(),
                    |i: int| decimal_digits(seconds as nat)[i] as u8,
                ) + behind,
            ),
        ) == Some(seconds),
{
    let digits = decimal_digits(seconds as nat);
    let ascii = Seq::new(digits.len(), |i: int| digits[i] as u8);
    let bytes = before + ascii + behind;
    lemma_decimal_digits(seconds as nat);
    assert forall|i: int| 0 <= i < bytes.len() implies visible(#[trigger] bytes[i]) by {
        if i < before.len() {
            assert(bytes[i] == before[i]);
        } else if i < before.len() + ascii.len() {
            assert(digit(digits[i - before.len()]));
        } else {
            assert(bytes[i] == behind[i - before.len() - ascii.len()]);
        }
    }
    let text = visible_text(bytes)->Some_0;
    let a = Seq::new(before.len(), |i: int| before[i] as char);
    let b = Seq::new(behind.len(), |i: int| behind[i] as char);
    assert forall|i: int| 0 <= i < digits.len() implies #[trigger] (ascii[i] as char)
        == digits[i] by {
        assert(digit(digits[i]));
    }
    assert(text =~= a + digits + b);
    assert(digit(digits[0]));
    assert(digit(digits[digits.len() - 1]));
    assert forall|i: int| 0 <= i < a.len() implies white(#[trigger] a[i]) by {
        assert(before[i] == 32 || before[i] == 9);
    }
    assert forall|i: int| 0 <= i < b.len() implies white(#[trigger] b[i]) by {
        assert(behind[i] == 32 || behind[i] == 9);
    }
    lemma_trimmed_inside(a, digits, b);
    law_decimal_round_trip(seconds as nat, u64::MAX as int);
}

/// Anything but a number of seconds names no wait, and neither does a header that is not
/// there.
pub proof fn law_only_seconds_are_read(bytes: Seq<u8>)
    ensures
        asked_wait(None) is None,
        asked_wait(Some(bytes)) is Some ==> visible_text(bytes) is Some && number_in(
            trimmed(visible_text(bytes)->Some_0),
            u64::MAX as int,
        ) == Some(asked_wait(Some(bytes))->Some_0 as int),
        visible_text(bytes) is None ==> asked_wait(Some(bytes)) is None,
{
    if let Some(text) = visible_text(bytes) {
        if number_in(trimmed(text), u64::MAX as int) is Some {
            lemma_digits_value(crate::text::unsigned_part(trimmed(text)));
        }
    }
}

/// The wait is named by the header `retry-after` and no other.
pub proof fn law_one_header_names_the_wait(
    fields: Map<Seq<char>, Seq<u8>>,
    name: Seq<char>,
    value: Seq<u8>,
)
    ensures
        retry_field(fields.insert("retry-after"@, value)) == Some(value),
        name != "retry-after"@ ==> retry_field(fields.insert(name, value)) == retry_field(fields),
        retry_field(fields.remove("retry-after"@)) is None,
{
}

/// Success is a status from 200 to 299.
pub proof fn law_success(status: u16)
    ensures
        success(status) <==> status >= 200 && status <= 299,
{
}

/// A body has room for what does not take it beyond its limit, the last byte included.
pub proof fn law_room_in_a_body(len: nat, limit: nat)
    requires
        len <= limit,
    ensures
        has_room(len as int, limit - len, limit as int),
        !has_room(len as int, limit - len + 1, limit as int),
{
}

} // verus!
