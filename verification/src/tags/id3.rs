//! Tags of `MP3`: `ID3v2.4` before the first frame.
//!
//! The tag lies at the head of the file and shifts nothing. Its lengths are
//! synchsafe: seven significant bits to a byte, so that no length looks like
//! the header of a frame.

use vstd::prelude::*;
use vstd::string::*;
use vstd::utf8::*;

use super::{built, joined_text, number_text, Built, Meta, MetaView, Number, Outcome, Reason};
use crate::bytes::{extend, same_bytes};
use crate::text::{decimal, decimal_digits, flat, lemma_flat_part, lemma_flat_push};

verus! {

/// `ID3`.
pub const MAGIC: [u8; 3] = [0x49, 0x44, 0x33];

/// Signature (3), version (2), flags (1), length (4).
pub const HEADER: usize = 10;

/// The flag of a tag that ends in a copy of its header.
pub const FOOTER: u8 = 0x10;

/// The encoding of text in a frame: `UTF-8`.
pub const UTF8: u8 = 0x03;

/// The largest synchsafe number: four bytes of seven bits.
pub const MAX_SIZE: u32 = 0x0FFF_FFFF;

/// `TIT2`.
pub const TITLE: [u8; 4] = [0x54, 0x49, 0x54, 0x32];

/// `TPE1`.
pub const ARTIST: [u8; 4] = [0x54, 0x50, 0x45, 0x31];

/// `TALB`.
pub const ALBUM: [u8; 4] = [0x54, 0x41, 0x4C, 0x42];

/// `TPE2`.
pub const ALBUM_ARTIST: [u8; 4] = [0x54, 0x50, 0x45, 0x32];

/// `TDRC`.
pub const YEAR: [u8; 4] = [0x54, 0x44, 0x52, 0x43];

/// `TCON`.
pub const GENRE: [u8; 4] = [0x54, 0x43, 0x4F, 0x4E];

/// `TRCK`.
pub const TRACK: [u8; 4] = [0x54, 0x52, 0x43, 0x4B];

/// `TPOS`.
pub const VOLUME: [u8; 4] = [0x54, 0x50, 0x4F, 0x53];

/// Four bytes of seven bits, most significant first.
pub open spec fn synchsafe(value: int) -> Seq<u8> {
    seq![
        (value / 0x20_0000 % 128) as u8,
        (value / 0x4000 % 128) as u8,
        (value / 128 % 128) as u8,
        (value % 128) as u8,
    ]
}

/// The number that seven-bit bytes spell.
///
/// A byte with its high bit set makes the record malformed, and a number beyond
/// 32 bits overflows; whichever comes first decides.
pub open spec fn seven_bit_value(s: Seq<u8>) -> Result<int, Reason>
    decreases s.len(),
{
    if s.len() == 0 {
        Ok(0)
    } else {
        match seven_bit_value(s.drop_last()) {
            Err(reason) => Err(reason),
            Ok(value) => if s.last() >= 0x80 {
                Err(Reason::Malformed)
            } else if value * 128 + s.last() > u32::MAX {
                Err(Reason::Overflow)
            } else {
                Ok(value * 128 + s.last())
            },
        }
    }
}

/// Where an old tag ends: `0` without one, `None` while it is incomplete.
pub open spec fn old_tag(head: Seq<u8>) -> Result<Option<int>, Reason> {
    if head.len() < 3 {
        Ok(None)
    } else if head.take(3) != MAGIC@ {
        Ok(Some(0))
    } else if head.len() < 10 {
        Ok(None)
    } else {
        match seven_bit_value(head.subrange(6, 10)) {
            Err(reason) => Err(reason),
            Ok(size) => {
                let total = 10 + size + if head[5] / 16 % 2 == 1 {
                    10int
                } else {
                    0int
                };
                Ok(
                    if head.len() >= total {
                        Some(total)
                    } else {
                        None
                    },
                )
            },
        }
    }
}

/// A text frame: identifier, length, flags, encoding, text.
pub open spec fn frame_bytes(id: Seq<u8>, value: Seq<char>) -> Seq<u8> {
    id + synchsafe(1 + encode_utf8(value).len() as int) + seq![0u8, 0u8] + seq![UTF8]
        + encode_utf8(value)
}

/// Whether the length of a text frame fits into its field.
pub open spec fn frame_fits(value: Seq<char>) -> bool {
    1 + encode_utf8(value).len() <= MAX_SIZE
}

/// One field, if it is present.
pub open spec fn field(id: Seq<u8>, value: Option<Seq<char>>) -> Seq<(Seq<u8>, Seq<char>)> {
    match value {
        Some(value) => seq![(id, value)],
        None => Seq::empty(),
    }
}

/// The number of a track, with the number of tracks behind a slash if it is known.
pub open spec fn track_text(number: Option<Number>) -> Option<Seq<char>> {
    match number {
        Some(Number { index, total: Some(total) }) => Some(
            decimal_digits(index as nat) + "/"@ + decimal_digits(total as nat),
        ),
        Some(Number { index, total: None }) => Some(decimal_digits(index as nat)),
        None => None,
    }
}

/// The frames of a tag in their order: identifier and text of each.
pub open spec fn fields(meta: MetaView) -> Seq<(Seq<u8>, Seq<char>)> {
    field(TITLE@, meta.title) + field(ARTIST@, joined_text(meta.artists)) + field(
        ALBUM@,
        meta.album,
    ) + field(ALBUM_ARTIST@, joined_text(meta.album_artists)) + field(
        YEAR@,
        number_text(meta.year),
    ) + field(GENRE@, meta.genre) + field(TRACK@, track_text(meta.number)) + field(
        VOLUME@,
        number_text(meta.volume),
    )
}

/// Whether the lengths of all frames fit.
pub open spec fn fields_fit(fields: Seq<(Seq<u8>, Seq<char>)>) -> bool {
    forall|i: int| 0 <= i < fields.len() ==> frame_fits((#[trigger] fields[i]).1)
}

/// All frames, one after another.
pub open spec fn fields_bytes(fields: Seq<(Seq<u8>, Seq<char>)>) -> Seq<u8> {
    flat(Seq::new(fields.len(), |i: int| frame_bytes(fields[i].0, fields[i].1)))
}

/// Whether a tag can be written at all.
pub open spec fn tag_fits(meta: MetaView) -> bool {
    fields_fit(fields(meta)) && fields_bytes(fields(meta)).len() <= MAX_SIZE
}

/// The tag: signature, version, flags, length, frames.
pub open spec fn tag_bytes(meta: MetaView) -> Seq<u8> {
    MAGIC@ + seq![4u8, 0u8, 0u8] + synchsafe(fields_bytes(fields(meta)).len() as int)
        + fields_bytes(fields(meta))
}

/// What [`patch`] answers.
pub open spec fn patched(head: Seq<u8>, meta: MetaView) -> Built {
    match old_tag(head) {
        Err(reason) => Built::Refused(reason),
        Ok(None) => Built::More,
        Ok(Some(used)) => if tag_fits(meta) {
            Built::Ready { head: tag_bytes(meta), used }
        } else {
            Built::Refused(Reason::Overflow)
        },
    }
}

/// Puts the tag before the first frame, dropping an old one.
pub fn patch(head: &[u8], meta: &Meta) -> (r: Result<Outcome, Reason>)
    ensures
        built(r) == patched(head@, meta@),
{
    match existing(head)? {
        None => Ok(Outcome::More),
        Some(used) => {
            let head = tag(meta)?;
            Ok(Outcome::Ready { head, used })
        },
    }
}

/// Whether a head is one complete tag and nothing else.
pub open spec fn verified(head: Seq<u8>) -> Result<(), Reason> {
    match old_tag(head) {
        Err(reason) => Err(reason),
        Ok(Some(len)) if len == head.len() => Ok(()),
        _ => Err(Reason::Malformed),
    }
}

/// Checks a tag by parsing it back.
pub fn verify(head: &[u8]) -> (r: Result<(), Reason>)
    ensures
        r == verified(head@),
{
    match existing(head)? {
        Some(len) if len == head.len() => Ok(()),
        _other => Err(Reason::Malformed),
    }
}

/// Where an old tag ends.
pub open spec fn seen(r: Result<Option<usize>, Reason>) -> Result<Option<int>, Reason> {
    match r {
        Err(reason) => Err(reason),
        Ok(None) => Ok(None),
        Ok(Some(at)) => Ok(Some(at as int)),
    }
}

/// The length of an old tag, or `0` without one.
///
/// `None` while there is a tag that has not arrived whole: only bytes that are
/// here can be skipped.
pub fn existing(head: &[u8]) -> (r: Result<Option<usize>, Reason>)
    ensures
        seen(r) == old_tag(head@),
{
    if head.len() < 3 {
        return Ok(None);
    }
    let magic = vstd::slice::slice_subrange(head, 0, 3);
    if !same_bytes(magic, MAGIC.as_slice()) {
        return Ok(Some(0));
    }
    if head.len() < HEADER {
        return Ok(None);
    }
    let flags = head[5];
    let size: u32 = decoded(vstd::slice::slice_subrange(head, 6, HEADER))?;
    proof {
        lemma_seven_bit_bound(head@.subrange(6, 10));
        assert((flags & FOOTER == 0) == (flags / 16 % 2 == 0)) by (bit_vector)
            requires
                FOOTER == 0x10u8,
        ;
    }
    let footer: usize = if flags & FOOTER == 0 {
        0
    } else {
        HEADER
    };
    let total: usize = size as usize + HEADER + footer;
    Ok(
        if head.len() >= total {
            Some(total)
        } else {
            None
        },
    )
}

/// Four seven-bit bytes spell at most 28 bits.
proof fn lemma_seven_bit_bound(s: Seq<u8>)
    requires
        s.len() == 4,
    ensures
        seven_bit_value(s) matches Ok(value) ==> 0 <= value <= MAX_SIZE,
{
    reveal_with_fuel(seven_bit_value, 5);
}

/// A whole tag.
pub fn tag(meta: &Meta) -> (r: Result<Vec<u8>, Reason>)
    ensures
        match r {
            Ok(tag) => tag_fits(meta@) && tag@ == tag_bytes(meta@),
            Err(reason) => !tag_fits(meta@) && reason == Reason::Overflow,
        },
{
    let frames = frames(meta)?;
    if frames.len() > MAX_SIZE as usize {
        return Err(Reason::Overflow);
    }
    let size = encoded(frames.len() as u32)?;
    let mut out: Vec<u8> = Vec::new();
    extend(&mut out, MAGIC.as_slice());
    extend(&mut out, [4u8, 0u8, 0u8].as_slice());
    extend(&mut out, size.as_slice());
    extend(&mut out, frames.as_slice());
    proof {
        assert(out@ =~= tag_bytes(meta@));
    }
    Ok(out)
}

/// One frame to be: identifier and text.
pub struct Field {
    pub id: [u8; 4],
    pub value: String,
}

impl View for Field {
    type V = (Seq<u8>, Seq<char>);

    open spec fn view(&self) -> (Seq<u8>, Seq<char>) {
        (self.id@, self.value@)
    }
}

/// The identifiers and texts of fields.
pub open spec fn listed(fields: Seq<Field>) -> Seq<(Seq<u8>, Seq<char>)> {
    Seq::new(fields.len(), |i: int| fields[i]@)
}

fn add_field(list: &mut Vec<Field>, id: [u8; 4], value: &Option<String>)
    ensures
        listed(final(list)@) == listed(old(list)@) + field(id@, crate::text::text_of(*value)),
{
    if let Some(text) = value {
        list.push(Field { id, value: text.clone() });
    }
    proof {
        assert(listed(list@) =~= listed(old(list)@) + field(id@, crate::text::text_of(*value)));
    }
}

fn number(value: Option<u16>) -> (r: Option<String>)
    ensures
        crate::text::text_of(r) == number_text(value),
{
    match value {
        Some(value) => Some(decimal(value as u64)),
        None => None,
    }
}

/// The frames of a tag in their order.
fn present(meta: &Meta) -> (r: Vec<Field>)
    ensures
        listed(r@) == fields(meta@),
{
    let mut list: Vec<Field> = Vec::new();
    let track = match meta.number {
        Some(Number { index, total }) => {
            let mut line = decimal(index as u64);
            if let Some(total) = total {
                line.append("/");
                line.append(decimal(total as u64).as_str());
            }
            Some(line)
        },
        None => None,
    };
    add_field(&mut list, TITLE, &meta.title);
    add_field(&mut list, ARTIST, &meta.artists());
    add_field(&mut list, ALBUM, &meta.album);
    add_field(&mut list, ALBUM_ARTIST, &meta.album_artists());
    add_field(&mut list, YEAR, &number(meta.year));
    add_field(&mut list, GENRE, &meta.genre);
    add_field(&mut list, TRACK, &track);
    add_field(&mut list, VOLUME, &number(meta.volume));
    proof {
        assert(listed(list@) =~= fields(meta@));
    }
    list
}

/// The frames of a tag, one after another.
pub fn frames(meta: &Meta) -> (r: Result<Vec<u8>, Reason>)
    ensures
        match r {
            Ok(frames) => fields_fit(fields(meta@)) && frames@ == fields_bytes(fields(meta@)),
            Err(reason) => !fields_fit(fields(meta@)) && reason == Reason::Overflow,
        },
{
    let list = present(meta);
    let ghost all = fields(meta@);
    let mut out: Vec<u8> = Vec::new();
    let mut i: usize = 0;
    while i < list.len()
        invariant
            i <= list@.len(),
            all == fields(meta@),
            listed(list@) == all,
            fields_fit(all.take(i as int)),
            out@ == fields_bytes(all.take(i as int)),
        decreases list@.len() - i,
    {
        proof {
            assert(all[i as int] == list@[i as int]@);
        }
        let one = frame(list[i].id, list[i].value.as_str())?;
        extend(&mut out, one.as_slice());
        proof {
            let next = all.take(i + 1);
            assert forall|j: int| 0 <= j < next.len() implies frame_fits(
                (#[trigger] next[j]).1,
            ) by {
                if j < i {
                    assert(next[j] == all.take(i as int)[j]);
                }
            }
            let before = Seq::new(
                all.take(i as int).len(),
                |j: int| frame_bytes(all.take(i as int)[j].0, all.take(i as int)[j].1),
            );
            assert(Seq::new(next.len(), |j: int| frame_bytes(next[j].0, next[j].1))
                =~= before.push(one@));
            lemma_flat_push(before, one@);
        }
        i += 1;
    }
    proof {
        assert(all.take(all.len() as int) =~= all);
    }
    Ok(out)
}

/// A text frame.
pub fn frame(id: [u8; 4], value: &str) -> (r: Result<Vec<u8>, Reason>)
    ensures
        match r {
            Ok(frame) => frame_fits(value@) && frame@ == frame_bytes(id@, value@),
            Err(reason) => !frame_fits(value@) && reason == Reason::Overflow,
        },
{
    let text = value.as_bytes();
    if text.len() >= MAX_SIZE as usize {
        return Err(Reason::Overflow);
    }
    let size = encoded(text.len() as u32 + 1)?;
    let mut out: Vec<u8> = Vec::new();
    extend(&mut out, id.as_slice());
    extend(&mut out, size.as_slice());
    out.push(0);
    out.push(0);
    out.push(UTF8);
    extend(&mut out, text);
    proof {
        assert(out@ =~= frame_bytes(id@, value@));
    }
    Ok(out)
}

/// The synchsafe record of a number.
pub fn encoded(value: u32) -> (r: Result<[u8; 4], Reason>)
    ensures
        match r {
            Ok(bytes) => value <= MAX_SIZE && bytes@ == synchsafe(value as int),
            Err(reason) => value > MAX_SIZE && reason == Reason::Overflow,
        },
{
    if value > MAX_SIZE {
        return Err(Reason::Overflow);
    }
    let out = [
        (value / 0x20_0000 % 128) as u8,
        (value / 0x4000 % 128) as u8,
        (value / 128 % 128) as u8,
        (value % 128) as u8,
    ];
    proof {
        assert(out@ =~= synchsafe(value as int));
    }
    Ok(out)
}

/// The number behind a synchsafe record.
pub fn decoded(bytes: &[u8]) -> (r: Result<u32, Reason>)
    ensures
        match r {
            Ok(value) => seven_bit_value(bytes@) == Ok::<int, Reason>(value as int),
            Err(reason) => seven_bit_value(bytes@) == Err::<int, Reason>(reason),
        },
{
    let mut value: u32 = 0;
    let mut i: usize = 0;
    while i < bytes.len()
        invariant
            i <= bytes@.len(),
            seven_bit_value(bytes@.take(i as int)) == Ok::<int, Reason>(value as int),
        decreases bytes@.len() - i,
    {
        let byte = bytes[i];
        proof {
            assert(bytes@.take(i + 1).drop_last() =~= bytes@.take(i as int));
            assert((byte & 0x80 != 0) == (byte >= 0x80)) by (bit_vector);
        }
        if byte & 0x80 != 0 {
            proof {
                lemma_seven_bit_error(bytes@, i + 1);
            }
            return Err(Reason::Malformed);
        }
        if value > (u32::MAX - byte as u32) / 128 {
            proof {
                lemma_seven_bit_error(bytes@, i + 1);
            }
            return Err(Reason::Overflow);
        }
        value = value * 128 + byte as u32;
        i += 1;
    }
    proof {
        assert(bytes@.take(bytes@.len() as int) =~= bytes@);
    }
    Ok(value)
}

/// An error in a prefix is the error of the whole.
proof fn lemma_seven_bit_error(s: Seq<u8>, upto: int)
    requires
        0 <= upto <= s.len(),
        seven_bit_value(s.take(upto)) is Err,
    ensures
        seven_bit_value(s) == seven_bit_value(s.take(upto)),
    decreases s.len(),
{
    if upto == s.len() {
        assert(s.take(upto) =~= s);
    } else {
        assert(s.drop_last().take(upto) =~= s.take(upto));
        lemma_seven_bit_error(s.drop_last(), upto);
    }
}

/// A synchsafe record has no byte with its high bit set, and reading it back
/// gives the number.
pub proof fn law_synchsafe_round_trip(value: int)
    requires
        0 <= value <= MAX_SIZE,
    ensures
        seven_bit_value(synchsafe(value)) == Ok::<int, Reason>(value),
        forall|i: int| 0 <= i < 4 ==> #[trigger] synchsafe(value)[i] < 0x80,
{
    let s = synchsafe(value);
    reveal_with_fuel(seven_bit_value, 5);
    assert(s.drop_last() =~= seq![s[0], s[1], s[2]]);
    assert(s.drop_last().drop_last() =~= seq![s[0], s[1]]);
    assert(s.drop_last().drop_last().drop_last() =~= seq![s[0]]);
    assert(s.drop_last().drop_last().drop_last().drop_last() =~= Seq::empty());
}

/// Every tag that can be written is complete in itself.
pub proof fn law_tag_parses_back(meta: MetaView, rest: Seq<u8>)
    requires
        tag_fits(meta),
    ensures
        old_tag(tag_bytes(meta) + rest) == Ok::<Option<int>, Reason>(
            Some(tag_bytes(meta).len() as int),
        ),
        verified(tag_bytes(meta)) == Ok::<(), Reason>(()),
{
    let size = fields_bytes(fields(meta)).len() as int;
    law_synchsafe_round_trip(size);
    let tag = tag_bytes(meta);
    assert forall|rest: Seq<u8>| #[trigger]
        old_tag(tag + rest) == Ok::<Option<int>, Reason>(Some(tag.len() as int)) by {
        let head = tag + rest;
        assert(head.take(3) =~= MAGIC@);
        assert(head.subrange(6, 10) =~= synchsafe(size));
    }
    assert(tag + Seq::empty() =~= tag);
    assert(old_tag(tag + Seq::empty()) == Ok::<Option<int>, Reason>(Some(tag.len() as int)));
    assert(old_tag(tag + rest) == Ok::<Option<int>, Reason>(Some(tag.len() as int)));
}

/// Tags are replaced, not stacked: a file that has been tagged is tagged again
/// with the same bytes.
pub proof fn law_tagging_twice_changes_nothing(file: Seq<u8>, meta: MetaView)
    requires
        patched(file, meta) is Ready,
    ensures
        patched(patched(file, meta)->head + file.skip(patched(file, meta)->used), meta)
            == (Built::Ready { head: tag_bytes(meta), used: tag_bytes(meta).len() as int }),
{
    law_tag_parses_back(meta, file.skip(patched(file, meta)->used));
}

/// A decision stands: once enough of the stream is here, what follows changes
/// nothing, and only bytes that are here are replaced.
pub proof fn law_decision_stands(head: Seq<u8>, more: Seq<u8>, meta: MetaView)
    requires
        !(patched(head, meta) is More),
    ensures
        patched(head + more, meta) == patched(head, meta),
        patched(head, meta) matches Built::Ready { used, .. } ==> 0 <= used <= head.len(),
{
    let whole = head + more;
    assert(whole.take(3) =~= head.take(3));
    if head.len() >= 10 {
        assert(whole.subrange(6, 10) =~= head.subrange(6, 10));
        lemma_seven_bit_bound(head.subrange(6, 10));
    }
}

/// Every field is written: its frame stands in the tag behind the header and the
/// frames before it.
pub proof fn law_every_field_is_written(meta: MetaView, i: int)
    requires
        0 <= i < fields(meta).len(),
    ensures
        ({
            let (id, value) = fields(meta)[i];
            let frame = frame_bytes(id, value);
            let at = 10 + fields_bytes(fields(meta).take(i)).len();
            &&& at + frame.len() <= tag_bytes(meta).len()
            &&& tag_bytes(meta).subrange(at as int, at + frame.len() as int) == frame
        }),
{
    let all = fields(meta);
    let parts = Seq::new(all.len(), |j: int| frame_bytes(all[j].0, all[j].1));
    let before = Seq::new(
        all.take(i).len(),
        |j: int| frame_bytes(all.take(i)[j].0, all.take(i)[j].1),
    );
    assert(parts.take(i) =~= before);
    lemma_flat_part(parts, i);
    let at = flat(before).len() as int;
    let body = fields_bytes(all);
    let tag = tag_bytes(meta);
    assert(tag.skip(10) =~= body);
    assert(tag.subrange(10 + at, 10 + at + parts[i].len()) =~= body.subrange(
        at,
        at + parts[i].len(),
    ));
}

/// There is a frame to write exactly if there is anything to write.
pub proof fn law_frames_for_something(meta: MetaView)
    ensures
        fields(meta).len() == 0 <==> meta.blank(),
{
}

/// A byte of seven bits behind others counts them 128 times; one with its high bit set is
/// none.
pub proof fn law_seven_bits_count_in_128(s: Seq<u8>, byte: u8)
    ensures
        seven_bit_value(Seq::<u8>::empty()) == Ok::<int, Reason>(0),
        seven_bit_value(s) matches Ok(value) ==> seven_bit_value(s.push(byte)) == if byte >= 128 {
            Err::<int, Reason>(Reason::Malformed)
        } else if 128 * value + byte > 0xFFFF_FFFF {
            Err(Reason::Overflow)
        } else {
            Ok(128 * value + byte)
        },
        seven_bit_value(s) is Err ==> seven_bit_value(s.push(byte)) == seven_bit_value(s),
{
    assert(s.push(byte).drop_last() =~= s);
}

} // verus!
