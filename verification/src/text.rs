//! Text: characters, trimming, splitting, and decimal numbers.

use vstd::prelude::*;
use vstd::string::*;
use vstd::utf8::*;

verus! {

/// `String::push` of the standard library: the character becomes the last one.
pub assume_specification[ String::push ](s: &mut String, c: char)
    ensures
        final(s)@ == old(s)@.push(c),
;

/// The texts that a sequence of strings holds.
pub open spec fn texts(v: Seq<String>) -> Seq<Seq<char>> {
    Seq::new(v.len(), |i: int| v[i]@)
}

/// The text of an optional string.
pub open spec fn text_of(value: Option<String>) -> Option<Seq<char>> {
    match value {
        Some(text) => Some(text@),
        None => None,
    }
}

pub proof fn lemma_texts_push(v: Seq<String>, last: String)
    ensures
        texts(v.push(last)) == texts(v).push(last@),
{
    assert(texts(v.push(last)) =~= texts(v).push(last@));
}

/// A copy of an optional text.
pub fn copy_text(value: &Option<String>) -> (r: Option<String>)
    ensures
        text_of(r) == text_of(*value),
{
    match value {
        Some(value) => Some(value.clone()),
        None => None,
    }
}

/// A copy of a list of texts.
pub fn copy_texts(values: &[String]) -> (r: Vec<String>)
    ensures
        texts(r@) == texts(values@),
{
    let mut list: Vec<String> = Vec::new();
    let mut i: usize = 0;
    while i < values.len()
        invariant
            i <= values@.len(),
            texts(list@) =~= texts(values@).take(i as int),
        decreases values@.len() - i,
    {
        let value = values[i].clone();
        proof {
            lemma_texts_push(list@, value);
        }
        list.push(value);
        i += 1;
    }
    proof {
        assert(texts(values@).take(i as int) =~= texts(values@));
    }
    list
}

/// The text that `String::from_utf8_lossy` reads out of bytes.
pub uninterp spec fn lossy_text(bytes: Seq<u8>) -> Seq<char>;

/// `String::from_utf8_lossy` of the standard library: bytes read as `UTF-8`, with
/// a replacement for what is none. Valid `UTF-8` is read as it is; what stands in
/// for the rest is not said here.
#[verifier::external_body]
pub(crate) fn lossy(bytes: &[u8]) -> (r: String)
    ensures
        r@ == lossy_text(bytes@),
        valid_utf8(bytes@) ==> r@ == decode_utf8(bytes@),
{
    String::from_utf8_lossy(bytes).into_owned()
}

/// The characters of a text, one by one.
pub fn chars_of(s: &str) -> (v: Vec<char>)
    ensures
        v@ == s@,
{
    let mut v: Vec<char> = Vec::new();
    for c in it: s.chars()
        invariant
            v@ == it.seq().take(it.index()),
            it.seq() == s@,
    {
        proof {
            assert(it.seq().take(it.index() + 1) =~= it.seq().take(it.index()).push(c));
        }
        v.push(c);
    }
    proof {
        assert(s@.take(s@.len() as int) =~= s@);
    }
    v
}

/// The text between two positions of a character sequence.
pub fn text_between(chars: &[char], from: usize, to: usize) -> (r: String)
    requires
        from <= to <= chars@.len(),
    ensures
        r@ == chars@.subrange(from as int, to as int),
{
    let mut r = String::new();
    let mut i: usize = from;
    while i < to
        invariant
            from <= i <= to <= chars@.len(),
            r@ == chars@.subrange(from as int, i as int),
        decreases to - i,
    {
        r.push(chars[i]);
        proof {
            assert(chars@.subrange(from as int, i + 1) =~= chars@.subrange(
                from as int,
                i as int,
            ).push(chars@[i as int]));
        }
        i += 1;
    }
    r
}

/// Whether two texts are the same.
pub fn same(a: &str, b: &str) -> (r: bool)
    ensures
        r == (a@ == b@),
{
    let r = crate::bytes::same_bytes(a.as_bytes(), b.as_bytes());
    proof {
        encode_utf8_decode_utf8(a@);
        encode_utf8_decode_utf8(b@);
    }
    r
}

/// The concatenation of a sequence of sequences.
pub open spec fn flat<T>(parts: Seq<Seq<T>>) -> Seq<T>
    decreases parts.len(),
{
    if parts.len() == 0 {
        Seq::empty()
    } else {
        flat(parts.drop_last()) + parts.last()
    }
}

pub proof fn lemma_flat_push<T>(parts: Seq<Seq<T>>, last: Seq<T>)
    ensures
        flat(parts.push(last)) == flat(parts) + last,
{
    assert(parts.push(last).drop_last() =~= parts);
}

/// Every part is found in the concatenation, behind the parts before it.
pub proof fn lemma_flat_part<T>(parts: Seq<Seq<T>>, i: int)
    requires
        0 <= i < parts.len(),
    ensures
        ({
            let at = flat(parts.take(i)).len() as int;
            &&& at + parts[i].len() <= flat(parts).len()
            &&& flat(parts).subrange(at, at + parts[i].len()) == parts[i]
        }),
    decreases parts.len(),
{
    let at = flat(parts.take(i)).len() as int;
    let shorter = parts.drop_last();
    if i == parts.len() - 1 {
        assert(parts.take(i) =~= shorter);
        assert(flat(parts).subrange(at, at + parts[i].len()) =~= parts[i]);
    } else {
        assert(shorter.take(i) =~= parts.take(i));
        lemma_flat_part(shorter, i);
        assert(flat(parts).subrange(at, at + parts[i].len()) =~= flat(shorter).subrange(
            at,
            at + parts[i].len(),
        ));
    }
}

/// Characters with the Unicode property `White_Space`.
pub open spec fn white(c: char) -> bool {
    ||| '\u{9}' <= c <= '\u{d}'
    ||| c == ' '
    ||| c == '\u{85}'
    ||| c == '\u{a0}'
    ||| c == '\u{1680}'
    ||| '\u{2000}' <= c <= '\u{200a}'
    ||| c == '\u{2028}'
    ||| c == '\u{2029}'
    ||| c == '\u{202f}'
    ||| c == '\u{205f}'
    ||| c == '\u{3000}'
}

/// Characters of the Unicode category `Cc`.
pub open spec fn control(c: char) -> bool {
    c <= '\u{1f}' || '\u{7f}' <= c <= '\u{9f}'
}

pub open spec fn digit(c: char) -> bool {
    '0' <= c <= '9'
}

pub open spec fn all_digits(s: Seq<char>) -> bool {
    forall|i: int| 0 <= i < s.len() ==> digit(#[trigger] s[i])
}

pub fn is_whitespace(c: char) -> (r: bool)
    ensures
        r == white(c),
{
    ('\u{9}' <= c && c <= '\u{d}') || c == ' ' || c == '\u{85}' || c == '\u{a0}' || c == '\u{1680}'
        || ('\u{2000}' <= c && c <= '\u{200a}') || c == '\u{2028}' || c == '\u{2029}' || c
        == '\u{202f}' || c == '\u{205f}' || c == '\u{3000}'
}

pub fn is_control(c: char) -> (r: bool)
    ensures
        r == control(c),
{
    c <= '\u{1f}' || ('\u{7f}' <= c && c <= '\u{9f}')
}

pub fn is_digit(c: char) -> (r: bool)
    ensures
        r == digit(c),
{
    '0' <= c && c <= '9'
}

/// A text without the white space it begins with.
pub open spec fn trimmed_start(s: Seq<char>) -> Seq<char>
    decreases s.len(),
{
    if s.len() > 0 && white(s[0]) {
        trimmed_start(s.drop_first())
    } else {
        s
    }
}

/// A text without the white space it ends with.
pub open spec fn trimmed_end(s: Seq<char>) -> Seq<char>
    decreases s.len(),
{
    if s.len() > 0 && white(s.last()) {
        trimmed_end(s.drop_last())
    } else {
        s
    }
}

/// A text without white space at either end.
pub open spec fn trimmed(s: Seq<char>) -> Seq<char> {
    trimmed_end(trimmed_start(s))
}

/// A text without white space at either end.
pub fn trim(s: &str) -> (r: String)
    ensures
        r@ == trimmed(s@),
{
    let chars = chars_of(s);
    let mut from: usize = 0;
    proof {
        assert(chars@.subrange(0, chars@.len() as int) =~= chars@);
    }
    while from < chars.len() && is_whitespace(chars[from])
        invariant
            from <= chars@.len(),
            chars@ == s@,
            trimmed_start(s@) == trimmed_start(chars@.subrange(from as int, chars@.len() as int)),
        decreases chars@.len() - from,
    {
        proof {
            assert(chars@.subrange(from as int, chars@.len() as int).drop_first()
                =~= chars@.subrange(from + 1, chars@.len() as int));
        }
        from += 1;
    }
    let mut to: usize = chars.len();
    while from < to && is_whitespace(chars[to - 1])
        invariant
            from <= to <= chars@.len(),
            chars@ == s@,
            trimmed(s@) == trimmed_end(chars@.subrange(from as int, to as int)),
        decreases to,
    {
        proof {
            assert(chars@.subrange(from as int, to as int).drop_last() =~= chars@.subrange(
                from as int,
                to - 1,
            ));
        }
        to -= 1;
    }
    text_between(chars.as_slice(), from, to)
}

/// A text without white space at its end.
pub fn trim_end(s: &str) -> (r: String)
    ensures
        r@ == trimmed_end(s@),
{
    let chars = chars_of(s);
    let mut to: usize = chars.len();
    proof {
        assert(chars@.subrange(0, chars@.len() as int) =~= chars@);
    }
    while 0 < to && is_whitespace(chars[to - 1])
        invariant
            to <= chars@.len(),
            chars@ == s@,
            trimmed_end(s@) == trimmed_end(chars@.subrange(0, to as int)),
        decreases to,
    {
        proof {
            assert(chars@.subrange(0, to as int).drop_last() =~= chars@.subrange(0, to - 1));
        }
        to -= 1;
    }
    text_between(chars.as_slice(), 0, to)
}

/// A trimmed text has no white space at either end.
pub proof fn lemma_trimmed_ends(s: Seq<char>)
    ensures
        trimmed(s).len() > 0 ==> !white(trimmed(s)[0]) && !white(trimmed(s).last()),
{
    lemma_trimmed_start(s);
    lemma_trimmed_end(trimmed_start(s));
}

proof fn lemma_trimmed_start(s: Seq<char>)
    ensures
        trimmed_start(s).len() > 0 ==> !white(trimmed_start(s)[0]),
    decreases s.len(),
{
    if s.len() > 0 && white(s[0]) {
        lemma_trimmed_start(s.drop_first());
    }
}

/// Trimming the end leaves a beginning of the text.
pub proof fn lemma_trimmed_end(s: Seq<char>)
    ensures
        trimmed_end(s).len() <= s.len(),
        trimmed_end(s) == s.take(trimmed_end(s).len() as int),
        trimmed_end(s).len() > 0 ==> !white(trimmed_end(s).last()),
        s.len() > 0 && !white(s[0]) ==> trimmed_end(s).len() > 0,
    decreases s.len(),
{
    if s.len() > 0 && white(s.last()) {
        lemma_trimmed_end(s.drop_last());
        let n = trimmed_end(s).len() as int;
        assert(s.drop_last().take(n) =~= s.take(n));
    } else {
        assert(s.take(s.len() as int) =~= s);
    }
}

/// Trimming twice is trimming once.
pub proof fn lemma_trimmed_twice(s: Seq<char>)
    ensures
        trimmed(trimmed(s)) == trimmed(s),
{
    lemma_trimmed_ends(s);
}

/// Trimming stops at a character that is no white space.
pub proof fn lemma_trimmed_behind(a: Seq<char>, b: Seq<char>)
    requires
        a.len() > 0,
        !white(a[0]),
        !white(a.last()),
    ensures
        trimmed(a + b) == a + trimmed_end(b),
    decreases b.len(),
{
    lemma_trimmed_end_behind(a, b);
}

proof fn lemma_trimmed_end_behind(a: Seq<char>, b: Seq<char>)
    requires
        a.len() > 0,
        !white(a.last()),
    ensures
        trimmed_end(a + b) == a + trimmed_end(b),
    decreases b.len(),
{
    if b.len() == 0 {
        assert(a + b =~= a);
        assert(a + trimmed_end(b) =~= a);
    } else if white(b.last()) {
        assert((a + b).drop_last() =~= a + b.drop_last());
        lemma_trimmed_end_behind(a, b.drop_last());
    }
}

/// The pieces of a text between occurrences of a separator.
pub open spec fn pieces(s: Seq<char>, separator: char) -> Seq<Seq<char>>
    decreases s.len(),
{
    if s.len() == 0 {
        seq![Seq::<char>::empty()]
    } else {
        let before = pieces(s.drop_last(), separator);
        if s.last() == separator {
            before.push(Seq::empty())
        } else {
            before.drop_last().push(before.last().push(s.last()))
        }
    }
}

/// There is always a piece, and no piece holds the separator.
pub proof fn lemma_pieces(s: Seq<char>, separator: char)
    ensures
        pieces(s, separator).len() > 0,
        forall|i: int|
            0 <= i < pieces(s, separator).len() ==> !(#[trigger] pieces(s, separator)[i]).contains(
                separator,
            ),
    decreases s.len(),
{
    if s.len() > 0 {
        let before = pieces(s.drop_last(), separator);
        lemma_pieces(s.drop_last(), separator);
        assert forall|i: int| 0 <= i < pieces(s, separator).len() implies !(
        #[trigger] pieces(s, separator)[i]).contains(separator) by {
            if i < before.len() - 1 {
                assert(pieces(s, separator)[i] == before[i]);
            } else if s.last() == separator {
                if i == before.len() - 1 {
                    assert(pieces(s, separator)[i] == before[i]);
                }
            } else {
                let piece = before.last().push(s.last());
                assert(!before[before.len() - 1].contains(separator));
                assert forall|j: int| 0 <= j < piece.len() implies piece[j] != separator by {
                    if j < before.last().len() {
                        assert(before.last()[j] == piece[j]);
                    }
                }
            }
        }
    }
}

/// A text without the separator is a single piece.
pub proof fn lemma_single_piece(s: Seq<char>, separator: char)
    requires
        !s.contains(separator),
    ensures
        pieces(s, separator) == seq![s],
    decreases s.len(),
{
    if s.len() > 0 {
        assert forall|j: int| 0 <= j < s.drop_last().len() implies s.drop_last()[j]
            != separator by {
            assert(s.contains(s[j]));
        }
        assert(s.contains(s.last()));
        lemma_single_piece(s.drop_last(), separator);
        assert(pieces(s, separator) =~= seq![s.drop_last().push(s.last())]);
        assert(s.drop_last().push(s.last()) =~= s);
    } else {
        assert(s =~= Seq::empty());
    }
}

/// A separator parts the pieces before it from those behind.
pub proof fn lemma_pieces_joined(a: Seq<char>, b: Seq<char>, separator: char)
    ensures
        pieces(a.push(separator) + b, separator) == pieces(a, separator) + pieces(b, separator),
    decreases b.len(),
{
    let whole = a.push(separator) + b;
    lemma_pieces(a, separator);
    lemma_pieces(b, separator);
    if b.len() == 0 {
        assert(whole =~= a.push(separator));
        assert(whole.drop_last() =~= a);
        assert(pieces(whole, separator) =~= pieces(a, separator) + pieces(b, separator));
    } else {
        let before = b.drop_last();
        assert(whole.drop_last() =~= a.push(separator) + before);
        lemma_pieces_joined(a, before, separator);
        lemma_pieces(before, separator);
        assert(pieces(whole, separator) =~= pieces(a, separator) + pieces(b, separator));
    }
}

/// Cuts a text at every occurrence of a separator.
pub fn split(s: &str, separator: char) -> (r: Vec<String>)
    ensures
        texts(r@) == pieces(s@, separator),
{
    let chars = chars_of(s);
    let mut done: Vec<String> = Vec::new();
    let mut current = String::new();
    let mut i: usize = 0;
    proof {
        assert(texts(done@).push(current@) =~= pieces(s@.take(0), separator));
    }
    while i < chars.len()
        invariant
            i <= chars@.len(),
            chars@ == s@,
            texts(done@).push(current@) == pieces(s@.take(i as int), separator),
        decreases chars@.len() - i,
    {
        let c = chars[i];
        proof {
            assert(s@.take(i + 1).drop_last() =~= s@.take(i as int));
            assert(texts(done@).push(current@).drop_last() =~= texts(done@));
        }
        if c == separator {
            let ghost before = done@;
            let ghost piece = current;
            done.push(current);
            current = String::new();
            proof {
                lemma_texts_push(before, piece);
                assert(current@ =~= Seq::empty());
            }
        } else {
            current.push(c);
        }
        i += 1;
    }
    let ghost before = done@;
    let ghost piece = current;
    done.push(current);
    proof {
        lemma_texts_push(before, piece);
        assert(s@.take(s@.len() as int) =~= s@);
    }
    done
}

/// The decimal digits of a number.
pub open spec fn decimal_digits(n: nat) -> Seq<char>
    decreases n,
{
    let last = (48 + n % 10) as char;
    if n < 10 {
        seq![last]
    } else {
        decimal_digits(n / 10).push(last)
    }
}

/// The number that a sequence of decimal digits spells.
pub open spec fn digits_value(s: Seq<char>) -> int
    decreases s.len(),
{
    if s.len() == 0 {
        0
    } else {
        digits_value(s.drop_last()) * 10 + (s.last() as int - 48)
    }
}

/// The digits that an optional plus sign leads.
pub open spec fn unsigned_part(s: Seq<char>) -> Seq<char> {
    if s.len() > 0 && s[0] == '+' {
        s.drop_first()
    } else {
        s
    }
}

/// The number that a text spells in decimal, with an optional plus sign.
///
/// There is none in a text without digits, with anything but digits, or with
/// more than `limit` in it.
pub open spec fn number_in(s: Seq<char>, limit: int) -> Option<int> {
    let body = unsigned_part(s);
    if body.len() > 0 && all_digits(body) && digits_value(body) <= limit {
        Some(digits_value(body))
    } else {
        None
    }
}

proof fn lemma_digits_value_grows(s: Seq<char>, upto: int)
    requires
        all_digits(s),
        0 <= upto <= s.len(),
    ensures
        0 <= digits_value(s.take(upto)) <= digits_value(s),
    decreases s.len(),
{
    if upto == s.len() {
        assert(s.take(upto) =~= s);
        if s.len() > 0 {
            assert(digit(s.last()));
            lemma_digits_value_grows(s.drop_last(), s.len() - 1);
            assert(s.drop_last().take(s.len() - 1) =~= s.drop_last());
        }
    } else {
        assert(digit(s.last()));
        lemma_digits_value_grows(s.drop_last(), upto);
        assert(s.drop_last().take(upto) =~= s.take(upto));
    }
}

/// Digits spell no negative number.
pub proof fn lemma_digits_value(s: Seq<char>)
    requires
        all_digits(s),
    ensures
        0 <= digits_value(s),
{
    lemma_digits_value_grows(s, s.len() as int);
    assert(s.take(s.len() as int) =~= s);
}

/// Reads a decimal number that is at most `limit`.
pub fn parse_number(s: &str, limit: u64) -> (r: Option<u64>)
    ensures
        match r {
            Some(n) => number_in(s@, limit as int) == Some(n as int),
            None => number_in(s@, limit as int) is None,
        },
{
    let chars = chars_of(s);
    let from: usize = if chars.len() > 0 && chars[0] == '+' {
        1
    } else {
        0
    };
    let ghost body = unsigned_part(s@);
    proof {
        assert(body =~= s@.skip(from as int));
    }
    if from == chars.len() {
        return None;
    }
    let mut value: u64 = 0;
    let mut i: usize = from;
    while i < chars.len()
        invariant
            from <= i <= chars@.len(),
            chars@ == s@,
            body == unsigned_part(s@),
            body == s@.skip(from as int),
            all_digits(body.take(i - from)),
            value == digits_value(body.take(i - from)),
            value <= limit,
        decreases chars@.len() - i,
    {
        let c = chars[i];
        proof {
            assert(body[i - from] == c);
            assert(body.take(i + 1 - from).drop_last() =~= body.take(i - from));
        }
        if !is_digit(c) {
            return None;
        }
        let d: u64 = (c as u32 - 48) as u64;
        proof {
            assert forall|j: int| 0 <= j < i + 1 - from implies digit(
                #[trigger] body.take(i + 1 - from)[j],
            ) by {
                if j < i - from {
                    assert(body.take(i - from)[j] == body.take(i + 1 - from)[j]);
                }
            }
            if all_digits(body) {
                lemma_digits_value_grows(body, i + 1 - from);
            }
        }
        if value > (u64::MAX - d) / 10 {
            return None;
        }
        value = value * 10 + d;
        if value > limit {
            return None;
        }
        i += 1;
    }
    proof {
        assert(body.take(body.len() as int) =~= body);
    }
    Some(value)
}

/// Writes a number in decimal.
pub fn decimal(n: u64) -> (r: String)
    ensures
        r@ == decimal_digits(n as nat),
    decreases n,
{
    let mut r = if n < 10 {
        String::new()
    } else {
        decimal(n / 10)
    };
    r.push((48u8 + (n % 10) as u8) as char);
    proof {
        if n < 10 {
            assert(r@ =~= decimal_digits(n as nat));
        }
    }
    r
}

/// Reading back a number that was written in decimal gives the number.
pub proof fn law_decimal_round_trip(n: nat, limit: int)
    requires
        n <= limit,
    ensures
        number_in(decimal_digits(n), limit) == Some(n as int),
{
    lemma_decimal_digits(n);
    assert(digit(decimal_digits(n)[0]));
}

pub proof fn lemma_decimal_digits(n: nat)
    ensures
        decimal_digits(n).len() > 0,
        all_digits(decimal_digits(n)),
        digits_value(decimal_digits(n)) == n,
    decreases n,
{
    let last = (48 + n % 10) as char;
    assert(digit(last));
    if n < 10 {
        let s = seq![last];
        assert(s.drop_last() =~= Seq::empty());
        assert(digits_value(s.drop_last()) == 0);
    } else {
        lemma_decimal_digits(n / 10);
        assert(decimal_digits(n).drop_last() =~= decimal_digits(n / 10));
        assert forall|i: int| 0 <= i < decimal_digits(n).len() implies digit(
            #[trigger] decimal_digits(n)[i],
        ) by {
            if i < decimal_digits(n / 10).len() {
                assert(decimal_digits(n)[i] == decimal_digits(n / 10)[i]);
            }
        }
    }
}

/// The bytes of a joined text are the joined bytes.
pub proof fn lemma_encoded_joined(a: Seq<char>, b: Seq<char>)
    ensures
        encode_utf8(a + b) == encode_utf8(a) + encode_utf8(b),
    decreases a.len(),
{
    if a.len() == 0 {
        assert(a + b =~= b);
        assert(encode_utf8(a) + encode_utf8(b) =~= encode_utf8(b));
    } else {
        assert((a + b).drop_first() =~= a.drop_first() + b);
        lemma_encoded_joined(a.drop_first(), b);
        assert(encode_utf8(a + b) =~= encode_utf8(a) + encode_utf8(b));
    }
}

/// How many bytes a character takes in `UTF-8`.
pub open spec fn width(c: char) -> int {
    if c as int <= 0x7F {
        1
    } else if c as int <= 0x7FF {
        2
    } else if c as int <= 0xFFFF {
        3
    } else {
        4
    }
}

pub proof fn lemma_encoded_push(s: Seq<char>, c: char)
    ensures
        encode_utf8(s.push(c)).len() == encode_utf8(s).len() + width(c),
{
    assert(s.push(c) =~= s + seq![c]);
    lemma_encoded_joined(s, seq![c]);
    assert(seq![c].drop_first() =~= Seq::empty());
    assert(encode_utf8(seq![c].drop_first()).len() == 0);
    char_is_scalar(c);
    assert(encode_utf8(seq![c]).len() == width(c));
}

/// How many bytes a character takes in `UTF-8`.
pub fn char_width(c: char) -> (r: usize)
    ensures
        r == width(c),
{
    let code = c as u32;
    if code <= 0x7F {
        1
    } else if code <= 0x7FF {
        2
    } else if code <= 0xFFFF {
        3
    } else {
        4
    }
}

/// Trimming takes white space off both ends and nothing else: a text is white space, the
/// trimmed text and white space, and the trimmed text, unless it is empty, begins and
/// ends with something else.
pub proof fn law_trimming_takes_white_space_off(s: Seq<char>)
    ensures
        exists|at: int|
            {
                &&& 0 <= at <= at + trimmed(s).len() <= s.len()
                &&& #[trigger] s.subrange(at, at + trimmed(s).len()) == trimmed(s)
                &&& forall|i: int|
                    0 <= i < s.len() && !(at <= i < at + trimmed(s).len()) ==> white(
                        #[trigger] s[i],
                    )
            },
        trimmed(s).len() > 0 ==> !white(trimmed(s)[0]) && !white(trimmed(s).last()),
        s.len() > 0 && !white(s[0]) && !white(s.last()) ==> trimmed(s) == s,
        (forall|i: int| 0 <= i < s.len() ==> white(#[trigger] s[i])) ==> trimmed(s).len() == 0,
{
    let start = trimmed_start(s);
    let t = trimmed(s);
    lemma_trimmed_ends(s);
    lemma_trimmed_start_rest(s);
    lemma_trimmed_end_rest(start);
    lemma_trimmed_end(start);
    let at = s.len() - start.len();
    assert(s.subrange(at, at + t.len()) =~= t);
    assert forall|i: int| 0 <= i < s.len() && !(at <= i < at + t.len()) implies white(
        #[trigger] s[i],
    ) by {
        if i >= at {
            assert(start[i - at] == s[i]);
        }
    }
    if (forall|i: int| 0 <= i < s.len() ==> white(#[trigger] s[i])) && t.len() > 0 {
        assert(t[0] == s[at]);
    }
}

proof fn lemma_trimmed_start_rest(s: Seq<char>)
    ensures
        trimmed_start(s).len() <= s.len(),
        trimmed_start(s) == s.skip(s.len() - trimmed_start(s).len()),
        forall|i: int| 0 <= i < s.len() - trimmed_start(s).len() ==> white(#[trigger] s[i]),
    decreases s.len(),
{
    if s.len() > 0 && white(s[0]) {
        let rest = s.drop_first();
        lemma_trimmed_start_rest(rest);
        let n = s.len() - trimmed_start(s).len();
        assert(rest.skip(n - 1) =~= s.skip(n));
        assert forall|i: int| 0 <= i < n implies white(#[trigger] s[i]) by {
            if i > 0 {
                assert(rest[i - 1] == s[i]);
            }
        }
    } else {
        assert(s.skip(0) =~= s);
    }
}

/// What trimming the end takes off is white space.
pub proof fn lemma_trimmed_end_rest(s: Seq<char>)
    ensures
        forall|i: int| trimmed_end(s).len() <= i < s.len() ==> white(#[trigger] s[i]),
    decreases s.len(),
{
    if s.len() > 0 && white(s.last()) {
        let rest = s.drop_last();
        lemma_trimmed_end_rest(rest);
        assert forall|i: int| trimmed_end(s).len() <= i < s.len() implies white(#[trigger] s[i]) by {
            if i < rest.len() {
                assert(rest[i] == s[i]);
            }
        }
    }
}

/// Characters are told apart as the Unicode tables have it: white space is the tab and
/// what follows it up to the carriage return, the space, and the blanks beyond `ASCII`;
/// control characters are those below the space and from `7f` to `9f`; digits are those
/// of `ASCII`.
pub proof fn law_characters(c: char)
    ensures
        (c as int) < 128 ==> (white(c) <==> c as int == 32 || 9 <= c as int <= 13),
        c as int >= 128 ==> (white(c) <==> c as int == 0x85 || c as int == 0xA0 || c as int
            == 0x1680 || 0x2000 <= c as int <= 0x200A || c as int == 0x2028 || c as int == 0x2029
            || c as int == 0x202F || c as int == 0x205F || c as int == 0x3000),
        control(c) <==> (c as int) < 32 || 127 <= c as int <= 159,
        digit(c) <==> 48 <= c as int <= 57,
{
}

/// Cutting a text at a separator loses nothing: with the separator between each two,
/// the pieces are the text again, and no piece holds a separator.
pub proof fn law_pieces_make_the_text(s: Seq<char>, separator: char)
    ensures
        pieces(s, separator).len() > 0,
        with_separator(pieces(s, separator), separator) == s,
        forall|i: int|
            0 <= i < pieces(s, separator).len() ==> !(#[trigger] pieces(s, separator)[i]).contains(
                separator,
            ),
    decreases s.len(),
{
    lemma_pieces(s, separator);
    let all = pieces(s, separator);
    if s.len() == 0 {
        assert(all =~= seq![Seq::<char>::empty()]);
        assert(with_separator(all, separator) =~= s);
    } else {
        let before = pieces(s.drop_last(), separator);
        law_pieces_make_the_text(s.drop_last(), separator);
        if s.last() == separator {
            assert(all.drop_last() =~= before);
            assert(with_separator(all, separator) =~= s);
        } else {
            assert(all.drop_last() =~= before.drop_last());
            assert(with_separator(all, separator) =~= with_separator(before, separator).push(
                s.last(),
            ));
            assert(with_separator(all, separator) =~= s);
        }
    }
}

/// Pieces with a separator between each two.
pub open spec fn with_separator(list: Seq<Seq<char>>, separator: char) -> Seq<char>
    decreases list.len(),
{
    if list.len() == 0 {
        Seq::empty()
    } else if list.len() == 1 {
        list[0]
    } else {
        with_separator(list.drop_last(), separator).push(separator) + list.last()
    }
}

/// A digit behind others counts them ten times: that is all there is to a decimal
/// number.
pub proof fn law_digits_count_in_tens(s: Seq<char>, c: char)
    ensures
        digits_value(Seq::<char>::empty()) == 0,
        digits_value(s.push(c)) == 10 * digits_value(s) + (c as int - '0' as int),
{
    assert(s.push(c).drop_last() =~= s);
}

/// A number is written without a sign and without zeros before it.
pub proof fn law_decimal_is_plain(n: nat)
    ensures
        all_digits(decimal_digits(n)),
        digits_value(decimal_digits(n)) == n,
        decimal_digits(n).len() > 0,
        n > 0 ==> decimal_digits(n)[0] != '0',
        n == 0 ==> decimal_digits(n).len() == 1,
    decreases n,
{
    lemma_decimal_digits(n);
    if n >= 10 {
        law_decimal_is_plain(n / 10);
    }
}

/// A number is read exactly if there are digits, an optional plus sign before them and
/// nothing else, and it is the number that the digits spell, if that is within the
/// limit.
pub proof fn law_number_is_what_digits_spell(digits: Seq<char>, limit: int)
    requires
        all_digits(digits),
        digits.len() > 0,
    ensures
        digits_value(digits) <= limit ==> number_in(digits, limit) == Some(digits_value(digits)),
        digits_value(digits) <= limit ==> number_in(seq!['+'] + digits, limit) == Some(
            digits_value(digits),
        ),
        digits_value(digits) > limit ==> number_in(digits, limit) is None,
{
    assert(digit(digits[0]));
    assert((seq!['+'] + digits).drop_first() =~= digits);
}

/// A text with anything but digits in it, or without any, is no number.
pub proof fn law_other_texts_are_no_numbers(s: Seq<char>, limit: int)
    requires
        s.len() == 0 || exists|i: int|
            0 <= i < s.len() && !(48 <= (#[trigger] s[i]) as int <= 57) && !(i == 0 && s[i] == '+'
                && s.len() > 1),
    ensures
        number_in(s, limit) is None,
{
    if s.len() > 0 {
        let i = choose|i: int|
            0 <= i < s.len() && !(48 <= (#[trigger] s[i]) as int <= 57) && !(i == 0 && s[i] == '+'
                && s.len() > 1);
        let body = unsigned_part(s);
        if s[0] == '+' {
            if i > 0 {
                assert(body[i - 1] == s[i]);
            }
        } else {
            assert(body[i] == s[i]);
        }
    }
}

/// White space around a text goes when it is trimmed.
pub proof fn lemma_trimmed_inside(a: Seq<char>, t: Seq<char>, b: Seq<char>)
    requires
        t.len() > 0,
        !white(t[0]),
        !white(t.last()),
        forall|i: int| 0 <= i < a.len() ==> white(#[trigger] a[i]),
        forall|i: int| 0 <= i < b.len() ==> white(#[trigger] b[i]),
    ensures
        trimmed(a + t + b) == t,
    decreases a.len(),
{
    let whole = a + t + b;
    if a.len() == 0 {
        assert(whole =~= t + b);
        lemma_trimmed_behind(t, b);
        lemma_trimmed_end(b);
        if trimmed_end(b).len() > 0 {
            assert(b[trimmed_end(b).len() - 1] == trimmed_end(b).last());
        }
        assert(t + trimmed_end(b) =~= t);
    } else {
        assert(whole[0] == a[0]);
        assert(whole.drop_first() =~= a.drop_first() + t + b);
        assert forall|i: int| 0 <= i < a.drop_first().len() implies white(
            #[trigger] a.drop_first()[i],
        ) by {
            assert(a.drop_first()[i] == a[i + 1]);
        }
        lemma_trimmed_inside(a.drop_first(), t, b);
    }
}

} // verus!
