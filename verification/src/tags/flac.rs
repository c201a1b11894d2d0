//! Tags of bare `FLAC`: the block `VORBIS_COMMENT` among the metadata.
//!
//! Metadata blocks lie at the head of the file, and the seek table counts from
//! the first frame, so that a new block shifts nothing.

use vstd::prelude::*;
use vstd::string::*;
use vstd::utf8::*;

use super::{built, number_text, Built, Meta, MetaView, Number, Outcome, Reason};
use crate::bytes::{
    be_bytes, be_value, extend, extend_be, law_be_round_trip, lemma_be_bytes_len,
    lemma_be_value_bound, lemma_capacities, same_bytes,
};
use crate::text::{
    decimal, flat, lemma_flat_part, lemma_flat_push, lemma_texts_push, text_of, texts,
};

verus! {

/// `fLaC`.
pub const MAGIC: [u8; 4] = [0x66, 0x4C, 0x61, 0x43];

/// The header of a block: kind with the flag of the last one (1), length (3).
pub const HEADER: usize = 4;

/// The longest block: its length is written in three bytes.
pub const MAX_BLOCK: usize = 0x00FF_FFFF;

/// The kind of the block that describes the stream.
pub const STREAMINFO: u8 = 0;

/// The kind of the block that holds the tags.
pub const COMMENT: u8 = 4;

/// Who wrote the comment: a field that the format demands.
pub const VENDOR: &'static str = "ymelorix 0.1.0";

/// Where a metadata block lies: its kind, its start, and the length of its body.
pub struct Part {
    pub kind: u8,
    pub start: int,
    pub len: int,
}

impl Part {
    /// The end of the block, or the largest position if it lies beyond.
    pub open spec fn limit(self) -> int {
        if self.start + 4 + self.len <= usize::MAX {
            self.start + 4 + self.len
        } else {
            usize::MAX as int
        }
    }

    /// Whether the body of the block lies inside a sequence of so many bytes.
    pub open spec fn fits(self, len: int) -> bool {
        self.start + 4 <= self.limit() <= len
    }

    /// The body of the block.
    pub open spec fn content(self, bytes: Seq<u8>) -> Seq<u8> {
        bytes.subrange(self.start + 4, self.limit())
    }
}

/// A metadata block in a byte slice.
#[derive(Debug, Clone, Copy)]
pub struct Block {
    pub kind: u8,
    pub start: usize,
    pub len: usize,
}

impl View for Block {
    type V = Part;

    open spec fn view(&self) -> Part {
        Part { kind: self.kind, start: self.start as int, len: self.len as int }
    }
}

impl Block {
    /// Where the block ends.
    pub fn end(&self) -> (r: usize)
        ensures
            r == self@.limit(),
    {
        self.start.saturating_add(HEADER).saturating_add(self.len)
    }

    /// What the block holds.
    pub fn body<'a>(&self, bytes: &'a [u8]) -> (r: Result<&'a [u8], Reason>)
        ensures
            match r {
                Ok(body) => self@.fits(bytes@.len() as int) && body@ == self@.content(bytes@),
                Err(reason) => !self@.fits(bytes@.len() as int) && reason == Reason::Malformed,
            },
    {
        let end = self.end();
        if self.start > usize::MAX - HEADER || end > bytes.len() {
            return Err(Reason::Malformed);
        }
        Ok(vstd::slice::slice_subrange(bytes, self.start + HEADER, end))
    }
}

/// What blocks a list describes.
pub open spec fn listed(blocks: Seq<Block>) -> Seq<Part> {
    Seq::new(blocks.len(), |i: int| blocks[i]@)
}

/// The metadata blocks from the start of `b`, which itself stands at `base`, up
/// to the one with the flag of the last. `None` while they are not all here.
pub open spec fn scan(b: Seq<u8>, base: int) -> Option<Seq<Part>>
    decreases b.len(),
{
    if b.len() < 4 {
        None
    } else {
        let len = be_value(b.subrange(1, 4)) as int;
        let part = Part { kind: b[0] % 128, start: base, len };
        if b.len() < 4 + len {
            None
        } else if b[0] >= 128 {
            Some(seq![part])
        } else {
            match scan(b.skip(4 + len), base + 4 + len) {
                None => None,
                Some(rest) => Some(seq![part] + rest),
            }
        }
    }
}

/// The metadata blocks of a file.
pub open spec fn parts(head: Seq<u8>) -> Result<Option<Seq<Part>>, Reason> {
    if head.len() < 4 {
        Ok(None)
    } else if head.take(4) != MAGIC@ {
        Err(Reason::Malformed)
    } else {
        Ok(scan(head.skip(4), 4))
    }
}

/// What [`blocks`] answers.
pub open spec fn seen(r: Result<Option<Vec<Block>>, Reason>) -> Result<Option<Seq<Part>>, Reason> {
    match r {
        Err(reason) => Err(reason),
        Ok(None) => Ok(None),
        Ok(Some(blocks)) => Ok(Some(listed(blocks@))),
    }
}

/// Reads all metadata blocks; `None` while the last one has not arrived whole.
pub fn blocks(head: &[u8]) -> (r: Result<Option<Vec<Block>>, Reason>)
    ensures
        seen(r) == parts(head@),
{
    if head.len() < 4 {
        return Ok(None);
    }
    if !same_bytes(vstd::slice::slice_subrange(head, 0, 4), MAGIC.as_slice()) {
        return Err(Reason::Malformed);
    }
    let mut found: Vec<Block> = Vec::new();
    let mut at: usize = 4;
    proof {
        assert(forall|rest: Seq<Part>| #[trigger] (listed(found@) + rest) =~= rest);
    }
    loop
        invariant
            4 <= at <= head@.len(),
            head@.take(4) == MAGIC@,
            scan(head@.skip(4), 4) == match scan(head@.skip(at as int), at as int) {
                None => None,
                Some(rest) => Some(listed(found@) + rest),
            },
        decreases head@.len() - at,
    {
        let ghost rest = head@.skip(at as int);
        if head.len() - at < HEADER {
            return Ok(None);
        }
        let flag = head[at];
        let len: usize = head[at + 1] as usize * 0x1_0000 + head[at + 2] as usize * 256 + head[at
            + 3] as usize;
        proof {
            lemma_three_bytes(rest.subrange(1, 4));
            assert((flag & 0x7F) == flag % 128) by (bit_vector);
            assert((flag & 0x80 != 0) == (flag >= 128)) by (bit_vector);
        }
        if head.len() - at - HEADER < len {
            return Ok(None);
        }
        let block = Block { kind: flag & 0x7F, start: at, len };
        let ghost before = found@;
        found.push(block);
        at = block.end();
        proof {
            assert(listed(found@) =~= listed(before).push(block@));
            assert(listed(found@) =~= listed(before) + seq![block@]);
            assert(rest.skip(4 + len as int) =~= head@.skip(at as int));
            assert(forall|more: Seq<Part>| #[trigger]
                (listed(found@) + more) =~= listed(before) + (seq![block@] + more));
        }
        if flag & 0x80 != 0 {
            return Ok(Some(found));
        }
    }
}

proof fn lemma_three_bytes(s: Seq<u8>)
    requires
        s.len() == 3,
    ensures
        be_value(s) == s[0] * 0x1_0000 + s[1] * 256 + s[2],
{
    reveal_with_fuel(be_value, 4);
}

/// Four bytes, least significant first.
pub open spec fn le_bytes(value: int) -> Seq<u8> {
    seq![
        (value % 256) as u8,
        (value / 256 % 256) as u8,
        (value / 0x1_0000 % 256) as u8,
        (value / 0x100_0000 % 256) as u8,
    ]
}

/// The record of a length, cut at what four bytes can hold.
pub open spec fn length_bytes(value: int) -> Seq<u8> {
    le_bytes(
        if value > u32::MAX {
            u32::MAX as int
        } else {
            value
        },
    )
}

/// The record of a length.
pub fn length(value: usize) -> (r: [u8; 4])
    ensures
        r@ == length_bytes(value as int),
{
    let value: u64 = if value as u64 > u32::MAX as u64 {
        u32::MAX as u64
    } else {
        value as u64
    };
    let r = [
        (value % 256) as u8,
        (value / 256 % 256) as u8,
        (value / 0x1_0000 % 256) as u8,
        (value / 0x100_0000 % 256) as u8,
    ];
    proof {
        assert(r@ =~= le_bytes(value as int));
    }
    r
}

/// A field of the comment, if there is a value for it.
pub open spec fn entry(key: Seq<char>, value: Option<Seq<char>>) -> Seq<Seq<char>> {
    match value {
        Some(value) => seq![key + value],
        None => Seq::empty(),
    }
}

/// A field of the comment for each value: the format allows to repeat one.
pub open spec fn each_entry(key: Seq<char>, values: Seq<Seq<char>>) -> Seq<Seq<char>> {
    Seq::new(values.len(), |i: int| key + values[i])
}

/// The fields of the comment in their order.
pub open spec fn entry_texts(meta: MetaView) -> Seq<Seq<char>> {
    let (index, total) = match meta.number {
        Some(Number { index, total }) => (Some(index), total),
        None => (None, None),
    };
    entry("TITLE="@, meta.title) + each_entry("ARTIST="@, meta.artists) + entry(
        "ALBUM="@,
        meta.album,
    ) + each_entry("ALBUMARTIST="@, meta.album_artists) + entry("DATE="@, number_text(meta.year))
        + entry("GENRE="@, meta.genre) + entry("TRACKNUMBER="@, number_text(index)) + entry(
        "TRACKTOTAL="@,
        number_text(total),
    ) + entry("DISCNUMBER="@, number_text(meta.volume))
}

fn add_entry(list: &mut Vec<String>, key: &str, value: &str)
    ensures
        texts(final(list)@) == texts(old(list)@).push(key@ + value@),
{
    let mut line = String::new();
    line.append(key);
    line.append(value);
    proof {
        assert(line@ =~= key@ + value@);
        lemma_texts_push(list@, line);
    }
    list.push(line);
}

fn add_optional(list: &mut Vec<String>, key: &str, value: &Option<String>)
    ensures
        texts(final(list)@) == texts(old(list)@) + entry(key@, text_of(*value)),
{
    if let Some(value) = value {
        add_entry(list, key, value.as_str());
    }
    proof {
        assert(texts(list@) =~= texts(old(list)@) + entry(key@, text_of(*value)));
    }
}

fn add_number(list: &mut Vec<String>, key: &str, value: Option<u16>)
    ensures
        texts(final(list)@) == texts(old(list)@) + entry(key@, number_text(value)),
{
    if let Some(value) = value {
        add_entry(list, key, decimal(value as u64).as_str());
    }
    proof {
        assert(texts(list@) =~= texts(old(list)@) + entry(key@, number_text(value)));
    }
}

fn add_each(list: &mut Vec<String>, key: &str, values: &[String])
    ensures
        texts(final(list)@) == texts(old(list)@) + each_entry(key@, texts(values@)),
{
    let ghost before = texts(list@);
    let ghost all = each_entry(key@, texts(values@));
    let mut i: usize = 0;
    proof {
        assert(before + all.take(0) =~= before);
    }
    while i < values.len()
        invariant
            i <= values@.len(),
            all == each_entry(key@, texts(values@)),
            texts(list@) == before + all.take(i as int),
        decreases values@.len() - i,
    {
        add_entry(list, key, values[i].as_str());
        proof {
            assert(before + all.take(i + 1) =~= (before + all.take(i as int)).push(all[i as int]));
        }
        i += 1;
    }
    proof {
        assert(all.take(i as int) =~= all);
    }
}

/// The fields of the comment, artists one by one.
pub fn entries(meta: &Meta) -> (r: Vec<String>)
    ensures
        texts(r@) == entry_texts(meta@),
{
    let mut list: Vec<String> = Vec::new();
    proof {
        assert(texts(list@) =~= Seq::empty());
    }
    let (index, total) = match meta.number {
        Some(Number { index, total }) => (Some(index), total),
        None => (None, None),
    };
    add_optional(&mut list, "TITLE=", &meta.title);
    add_each(&mut list, "ARTIST=", meta.artists.as_slice());
    add_optional(&mut list, "ALBUM=", &meta.album);
    add_each(&mut list, "ALBUMARTIST=", meta.album_artists.as_slice());
    add_number(&mut list, "DATE=", meta.year);
    add_optional(&mut list, "GENRE=", &meta.genre);
    add_number(&mut list, "TRACKNUMBER=", index);
    add_number(&mut list, "TRACKTOTAL=", total);
    add_number(&mut list, "DISCNUMBER=", meta.volume);
    proof {
        assert(texts(list@) =~= entry_texts(meta@));
    }
    list
}

/// A text with its length before it.
pub open spec fn measured(text: Seq<char>) -> Seq<u8> {
    length_bytes(encode_utf8(text).len() as int) + encode_utf8(text)
}

/// The body of the comment: the vendor, the number of fields, the fields.
pub open spec fn comment_bytes(meta: MetaView) -> Seq<u8> {
    let all = entry_texts(meta);
    measured(VENDOR@) + length_bytes(all.len() as int) + flat(
        Seq::new(all.len(), |i: int| measured(all[i])),
    )
}

fn add_measured(out: &mut Vec<u8>, text: &str)
    ensures
        final(out)@ == old(out)@ + measured(text@),
{
    let bytes = text.as_bytes();
    extend(out, length(bytes.len()).as_slice());
    extend(out, bytes);
    proof {
        assert(out@ =~= old(out)@ + measured(text@));
    }
}

/// The body of the comment.
pub fn comment(meta: &Meta) -> (r: Vec<u8>)
    ensures
        r@ == comment_bytes(meta@),
{
    let list = entries(meta);
    let ghost all = entry_texts(meta@);
    let ghost pieces = Seq::new(all.len(), |i: int| measured(all[i]));
    let mut out: Vec<u8> = Vec::new();
    add_measured(&mut out, VENDOR);
    extend(&mut out, length(list.len()).as_slice());
    let ghost start = out@;
    proof {
        assert(start =~= measured(VENDOR@) + length_bytes(all.len() as int));
        assert(start + flat(pieces.take(0)) =~= start);
    }
    let mut i: usize = 0;
    while i < list.len()
        invariant
            i <= list@.len(),
            texts(list@) == all,
            pieces == Seq::new(all.len(), |i: int| measured(all[i])),
            out@ == start + flat(pieces.take(i as int)),
        decreases list@.len() - i,
    {
        add_measured(&mut out, list[i].as_str());
        proof {
            let before = pieces.take(i as int);
            assert(all[i as int] == list@[i as int]@);
            assert(pieces.take(i + 1) =~= before.push(pieces[i as int]));
            lemma_flat_push(before, pieces[i as int]);
            assert(start + (flat(before) + pieces[i as int]) =~= (start + flat(before))
                + pieces[i as int]);
        }
        i += 1;
    }
    proof {
        assert(pieces.take(i as int) =~= pieces);
    }
    out
}

/// A block: kind with the flag of the last, length, body.
pub open spec fn block_bytes(kind: u8, body: Seq<u8>, last: bool) -> Seq<u8> {
    seq![
        if last {
            kind | 0x80
        } else {
            kind
        },
    ] + be_bytes(body.len(), 3) + body
}

/// Writes a block.
pub fn emit(kind: u8, body: &[u8], last: bool, out: &mut Vec<u8>) -> (r: Result<(), Reason>)
    ensures
        match r {
            Ok(()) => body@.len() <= MAX_BLOCK && final(out)@ == old(out)@ + block_bytes(
                kind,
                body@,
                last,
            ),
            Err(reason) => body@.len() > MAX_BLOCK && reason == Reason::Overflow && final(out)@
                == old(out)@,
        },
{
    if body.len() > MAX_BLOCK {
        return Err(Reason::Overflow);
    }
    out.push(
        if last {
            kind | 0x80
        } else {
            kind
        },
    );
    extend_be(out, body.len() as u64, 3);
    extend(out, body);
    proof {
        assert(out@ =~= old(out)@ + block_bytes(kind, body@, last));
    }
    Ok(())
}

/// The blocks that are neither the stream's description nor a comment: kind and
/// body of each.
pub open spec fn others(head: Seq<u8>, parts: Seq<Part>) -> Seq<(u8, Seq<u8>)>
    decreases parts.len(),
{
    if parts.len() == 0 {
        Seq::empty()
    } else {
        let first = parts[0];
        let rest = others(head, parts.drop_first());
        if first.kind == COMMENT || first.kind == STREAMINFO {
            rest
        } else {
            seq![(first.kind, first.content(head))] + rest
        }
    }
}

/// Whether the blocks that a new head is made of lie inside the old one.
pub open spec fn usable(head: Seq<u8>, parts: Seq<Part>) -> bool {
    &&& parts.len() > 0
    &&& parts[0].fits(head.len() as int)
    &&& forall|i: int|
        0 <= i < parts.len() && (#[trigger] parts[i]).kind != COMMENT && parts[i].kind
            != STREAMINFO ==> parts[i].fits(head.len() as int)
}

/// The blocks of a new head: the stream's description, the comment, all others.
pub open spec fn new_blocks(head: Seq<u8>, parts: Seq<Part>, meta: MetaView) -> Seq<
    (u8, Seq<u8>),
> {
    seq![(STREAMINFO, parts[0].content(head)), (COMMENT, comment_bytes(meta))] + others(
        head,
        parts,
    )
}

/// Kinds and bodies of a list of blocks.
pub open spec fn bodies(list: Seq<(u8, Vec<u8>)>) -> Seq<(u8, Seq<u8>)> {
    Seq::new(list.len(), |i: int| (list[i].0, list[i].1@))
}

/// The stream's description, then the comment, then all other blocks without an
/// old comment.
pub fn rearranged(head: &[u8], blocks: &[Block], meta: &Meta) -> (r: Result<
    Vec<(u8, Vec<u8>)>,
    Reason,
>)
    ensures
        match r {
            Ok(list) => usable(head@, listed(blocks@)) && bodies(list@) == new_blocks(
                head@,
                listed(blocks@),
                meta@,
            ),
            Err(reason) => !usable(head@, listed(blocks@)) && reason == Reason::Malformed,
        },
{
    let ghost all = listed(blocks@);
    if blocks.len() == 0 {
        return Err(Reason::Malformed);
    }
    proof {
        assert(all[0] == blocks@[0]@);
    }
    let mut first: Vec<u8> = Vec::new();
    extend(&mut first, blocks[0].body(head)?);
    let mut list: Vec<(u8, Vec<u8>)> = Vec::new();
    list.push((STREAMINFO, first));
    list.push((COMMENT, comment(meta)));
    let ghost start = bodies(list@);
    proof {
        assert(first@ =~= all[0].content(head@));
        assert(start =~= seq![(STREAMINFO, first@), (COMMENT, comment_bytes(meta@))]);
        assert(all.skip(0) =~= all);
    }
    let mut i: usize = 0;
    while i < blocks.len()
        invariant
            i <= blocks@.len(),
            all == listed(blocks@),
            start + others(head@, all) == bodies(list@) + others(head@, all.skip(i as int)),
            forall|j: int|
                0 <= j < i && (#[trigger] all[j]).kind != COMMENT && all[j].kind != STREAMINFO
                    ==> all[j].fits(head@.len() as int),
        decreases blocks@.len() - i,
    {
        let block = blocks[i];
        let ghost rest = all.skip(i as int);
        proof {
            assert(all[i as int] == block@);
            assert(rest[0] == block@);
            assert(rest.drop_first() =~= all.skip(i + 1));
        }
        if block.kind != COMMENT && block.kind != STREAMINFO {
            let mut body: Vec<u8> = Vec::new();
            extend(&mut body, block.body(head)?);
            let ghost before = bodies(list@);
            let ghost one = (block.kind, body@);
            list.push((block.kind, body));
            proof {
                let tail = others(head@, all.skip(i + 1));
                assert(one.1 =~= block@.content(head@));
                assert(bodies(list@) =~= before + seq![one]);
                assert(before + (seq![one] + tail) =~= (before + seq![one]) + tail);
            }
        }
        i += 1;
    }
    proof {
        assert(all.skip(i as int) =~= Seq::empty());
        assert(bodies(list@) + Seq::<(u8, Seq<u8>)>::empty() =~= bodies(list@));
    }
    Ok(list)
}

/// Blocks one after another, the last one with its flag.
pub open spec fn chain(list: Seq<(u8, Seq<u8>)>) -> Seq<u8>
    decreases list.len(),
{
    if list.len() == 0 {
        Seq::empty()
    } else {
        block_bytes(list[0].0, list[0].1, list.len() == 1) + chain(list.drop_first())
    }
}

/// Whether the lengths of all blocks fit into their fields.
pub open spec fn all_fit(list: Seq<(u8, Seq<u8>)>) -> bool {
    forall|i: int| 0 <= i < list.len() ==> (#[trigger] list[i]).1.len() <= MAX_BLOCK
}

/// What [`patch`] answers.
pub open spec fn patched(head: Seq<u8>, meta: MetaView) -> Built {
    match parts(head) {
        Err(reason) => Built::Refused(reason),
        Ok(None) => Built::More,
        Ok(Some(parts)) => {
            let list = new_blocks(head, parts, meta);
            if parts[0].kind != STREAMINFO {
                Built::Refused(Reason::Malformed)
            } else if !all_fit(list) {
                Built::Refused(Reason::Overflow)
            } else {
                Built::Ready { head: MAGIC@ + chain(list), used: parts.last().limit() }
            }
        },
    }
}

/// Blocks that were read lie inside the bytes, one behind another.
pub proof fn lemma_scan(b: Seq<u8>, base: int)
    requires
        scan(b, base) is Some,
    ensures
        scan(b, base)->Some_0.len() > 0,
        scan(b, base)->Some_0[0].start == base,
        forall|i: int|
            0 <= i < scan(b, base)->Some_0.len() ==> {
                let part = #[trigger] scan(b, base)->Some_0[i];
                &&& base <= part.start
                &&& 0 <= part.len <= MAX_BLOCK
                &&& part.start + 4 + part.len <= base + b.len()
                &&& part.kind < 128
            },
    decreases b.len(),
{
    let len = be_value(b.subrange(1, 4)) as int;
    lemma_be_value_bound(b.subrange(1, 4));
    lemma_capacities();
    if b[0] < 128 {
        lemma_scan(b.skip(4 + len), base + 4 + len);
        let rest = scan(b.skip(4 + len), base + 4 + len)->Some_0;
        assert forall|i: int| 0 <= i < scan(b, base)->Some_0.len() implies {
            let part = #[trigger] scan(b, base)->Some_0[i];
            &&& base <= part.start
            &&& 0 <= part.len <= MAX_BLOCK
            &&& part.start + 4 + part.len <= base + b.len()
            &&& part.kind < 128
        } by {
            if i > 0 {
                assert(scan(b, base)->Some_0[i] == rest[i - 1]);
            }
        }
    }
}

/// Puts tags into the head of a file.
pub fn patch(head: &[u8], meta: &Meta) -> (r: Result<Outcome, Reason>)
    ensures
        built(r) == patched(head@, meta@),
{
    let found = match blocks(head)? {
        Some(found) => found,
        None => return Ok(Outcome::More),
    };
    proof {
        assert(head.len() <= usize::MAX);
        lemma_scan(head@.skip(4), 4);
        assert(scan(head@.skip(4), 4)->Some_0 == listed(found@));
        assert(listed(found@)[0] == found@[0]@);
        assert(listed(found@).last() == found@.last()@);
        assert forall|i: int| 0 <= i < listed(found@).len() implies (
        #[trigger] listed(found@)[i]).fits(head@.len() as int) by {
            assert(listed(found@)[i] == scan(head@.skip(4), 4)->Some_0[i]);
        }
    }
    if found[0].kind != STREAMINFO {
        return Err(Reason::Malformed);
    }
    let used = found[found.len() - 1].end();
    let list = rearranged(head, found.as_slice(), meta)?;
    let ghost all = bodies(list@);
    let mut out: Vec<u8> = Vec::new();
    extend(&mut out, MAGIC.as_slice());
    proof {
        assert(out@ =~= MAGIC@);
        assert(all.skip(0) =~= all);
    }
    let mut i: usize = 0;
    while i < list.len()
        invariant
            i <= list@.len(),
            all == bodies(list@),
            all == new_blocks(head@, listed(found@), meta@),
            parts(head@) == Ok::<Option<Seq<Part>>, Reason>(Some(listed(found@))),
            listed(found@)[0].kind == STREAMINFO,
            MAGIC@ + chain(all) == out@ + chain(all.skip(i as int)),
            forall|j: int| 0 <= j < i ==> (#[trigger] all[j]).1.len() <= MAX_BLOCK,
        decreases list@.len() - i,
    {
        let ghost before = out@;
        let ghost rest = all.skip(i as int);
        proof {
            assert(all[i as int] == (list@[i as int].0, list@[i as int].1@));
            assert(rest[0] == all[i as int]);
            assert(rest.drop_first() =~= all.skip(i + 1));
        }
        emit(list[i].0, list[i].1.as_slice(), i == list.len() - 1, &mut out)?;
        proof {
            let one = block_bytes(rest[0].0, rest[0].1, rest.len() == 1);
            let tail = chain(all.skip(i + 1));
            assert(before + (one + tail) =~= (before + one) + tail);
        }
        i += 1;
    }
    proof {
        assert(all.skip(i as int) =~= Seq::empty());
        assert(out@ + Seq::<u8>::empty() =~= out@);
    }
    Ok(Outcome::Ready { head: out, used })
}

/// How many blocks are comments.
pub open spec fn comments(parts: Seq<Part>) -> nat
    decreases parts.len(),
{
    if parts.len() == 0 {
        0
    } else {
        comments(parts.drop_last()) + if parts.last().kind == COMMENT {
            1nat
        } else {
            0nat
        }
    }
}

/// What [`verify`] answers.
pub open spec fn verified(head: Seq<u8>) -> Result<(), Reason> {
    match parts(head) {
        Err(reason) => Err(reason),
        Ok(None) => Err(Reason::Malformed),
        Ok(Some(parts)) => if parts.last().limit() == head.len() && comments(parts) == 1 {
            Ok(())
        } else {
            Err(Reason::Malformed)
        },
    }
}

/// Checks a head by parsing it back.
pub fn verify(head: &[u8]) -> (r: Result<(), Reason>)
    ensures
        r == verified(head@),
{
    let found = match blocks(head)? {
        Some(found) => found,
        None => return Err(Reason::Malformed),
    };
    let ghost all = listed(found@);
    proof {
        lemma_scan(head@.skip(4), 4);
        assert(all.last() == found@.last()@);
    }
    if found[found.len() - 1].end() != head.len() {
        return Err(Reason::Malformed);
    }
    let mut count: usize = 0;
    let mut i: usize = 0;
    while i < found.len()
        invariant
            count <= i <= found@.len(),
            all == listed(found@),
            count == comments(all.take(i as int)),
        decreases found@.len() - i,
    {
        proof {
            assert(all.take(i + 1).drop_last() =~= all.take(i as int));
        }
        if found[i].kind == COMMENT {
            count += 1;
        }
        i += 1;
    }
    proof {
        assert(all.take(i as int) =~= all);
    }
    if count == 1 {
        Ok(())
    } else {
        Err(Reason::Malformed)
    }
}

/// Where blocks lie that are written one after another from `base` on.
pub open spec fn placed(list: Seq<(u8, Seq<u8>)>, base: int) -> Seq<Part>
    decreases list.len(),
{
    if list.len() == 0 {
        Seq::empty()
    } else {
        let len = list[0].1.len() as int;
        seq![Part { kind: list[0].0, start: base, len }] + placed(
            list.drop_first(),
            base + 4 + len,
        )
    }
}

/// Whether blocks can be told apart from the flag of the last one.
pub open spec fn plain_kinds(list: Seq<(u8, Seq<u8>)>) -> bool {
    forall|i: int| 0 <= i < list.len() ==> (#[trigger] list[i]).0 < 128
}

/// Blocks that were written are read back where they were placed, whatever
/// follows.
proof fn lemma_chain_read_back(list: Seq<(u8, Seq<u8>)>, rest: Seq<u8>, base: int)
    requires
        list.len() > 0,
        all_fit(list),
        plain_kinds(list),
    ensures
        scan(chain(list) + rest, base) == Some(placed(list, base)),
        placed(list, base).len() == list.len(),
        placed(list, base).last().start + 4 + placed(list, base).last().len == base + chain(
            list,
        ).len(),
    decreases list.len(),
{
    let (kind, body) = list[0];
    let last = list.len() == 1;
    let tail = list.drop_first();
    let one = block_bytes(kind, body, last);
    let b = chain(list) + rest;
    let flag = b[0];
    lemma_be_bytes_len(body.len(), 3);
    lemma_capacities();
    law_be_round_trip(body.len(), 3);
    assert(b.subrange(1, 4) =~= be_bytes(body.len(), 3));
    assert((kind | 0x80) >= 128 && (kind | 0x80) % 128 == kind) by (bit_vector)
        requires
            kind < 128,
    ;
    assert(flag % 128 == kind);
    assert(b.skip(4 + body.len() as int) =~= chain(tail) + rest);
    if last {
        assert(tail =~= Seq::empty());
        assert(chain(list) =~= one);
        assert(placed(list, base) =~= seq![
            Part { kind, start: base, len: body.len() as int },
        ]);
    } else {
        assert forall|i: int| 0 <= i < tail.len() implies (#[trigger] tail[i]).1.len()
            <= MAX_BLOCK && tail[i].0 < 128 by {
            assert(tail[i] == list[i + 1]);
        }
        lemma_chain_read_back(tail, rest, base + 4 + body.len());
        assert(placed(list, base).last() == placed(tail, base + 4 + body.len()).last());
    }
}

/// Other blocks among written ones.
pub open spec fn other_blocks(list: Seq<(u8, Seq<u8>)>) -> Seq<(u8, Seq<u8>)>
    decreases list.len(),
{
    if list.len() == 0 {
        Seq::empty()
    } else {
        let rest = other_blocks(list.drop_first());
        if list[0].0 == COMMENT || list[0].0 == STREAMINFO {
            rest
        } else {
            seq![list[0]] + rest
        }
    }
}

/// The other blocks of a file are the other ones of those that were written.
proof fn lemma_others_read_back(
    head: Seq<u8>,
    list: Seq<(u8, Seq<u8>)>,
    rest: Seq<u8>,
    base: int,
)
    requires
        0 <= base <= head.len() <= usize::MAX,
        head.skip(base) == chain(list) + rest,
        all_fit(list),
    ensures
        others(head, placed(list, base)) == other_blocks(list),
        list.len() > 0 ==> placed(list, base)[0].content(head) == list[0].1,
    decreases list.len(),
{
    if list.len() > 0 {
        let (kind, body) = list[0];
        let tail = list.drop_first();
        let next = base + 4 + body.len();
        let part = Part { kind, start: base, len: body.len() as int };
        lemma_be_bytes_len(body.len(), 3);
        assert forall|i: int| 0 <= i < tail.len() implies (#[trigger] tail[i]).1.len()
            <= MAX_BLOCK by {
            assert(tail[i] == list[i + 1]);
        }
        let b = head.skip(base);
        assert(b.skip(4 + body.len() as int) =~= chain(tail) + rest);
        assert(head.skip(next) =~= b.skip(4 + body.len() as int));
        lemma_others_read_back(head, tail, rest, next);
        assert(part.limit() == next);
        assert(head.subrange(base + 4, next) =~= b.subrange(4, 4 + body.len() as int));
        assert(b.subrange(4, 4 + body.len() as int) =~= body);
        assert(placed(list, base).drop_first() =~= placed(tail, next));
    }
}

/// The other blocks are found once.
pub proof fn lemma_others_are_others(head: Seq<u8>, parts: Seq<Part>)
    requires
        forall|i: int| 0 <= i < parts.len() ==> {
            let part = #[trigger] parts[i];
            part.kind < 128 && part.limit() - (part.start + 4) <= MAX_BLOCK && part.fits(
                head.len() as int,
            ) && 0 <= part.start
        },
    ensures
        other_blocks(others(head, parts)) == others(head, parts),
        all_fit(others(head, parts)),
        plain_kinds(others(head, parts)),
        forall|i: int|
            0 <= i < others(head, parts).len() ==> (#[trigger] others(head, parts)[i]).0 != COMMENT
                && others(head, parts)[i].0 != STREAMINFO,
    decreases parts.len(),
{
    if parts.len() > 0 {
        let tail = parts.drop_first();
        assert forall|i: int| 0 <= i < tail.len() implies {
            let part = #[trigger] tail[i];
            part.kind < 128 && part.limit() - (part.start + 4) <= MAX_BLOCK && part.fits(
                head.len() as int,
            ) && 0 <= part.start
        } by {
            assert(tail[i] == parts[i + 1]);
        }
        lemma_others_are_others(head, tail);
        let first = parts[0];
        let rest = others(head, tail);
        if first.kind != COMMENT && first.kind != STREAMINFO {
            let all = others(head, parts);
            assert(all.drop_first() =~= rest);
            assert forall|i: int| 0 <= i < all.len() implies (#[trigger] all[i]).1.len()
                <= MAX_BLOCK && all[i].0 < 128 && all[i].0 != COMMENT && all[i].0
                != STREAMINFO by {
                if i > 0 {
                    assert(all[i] == rest[i - 1]);
                }
            }
        }
    }
}

/// Blocks that are no comments.
proof fn lemma_no_comments(list: Seq<(u8, Seq<u8>)>, base: int)
    requires
        forall|i: int| 0 <= i < list.len() ==> (#[trigger] list[i]).0 != COMMENT,
    ensures
        comments(placed(list, base)) == 0,
    decreases list.len(),
{
    if list.len() > 0 {
        let tail = list.drop_first();
        let next = base + 4 + list[0].1.len();
        assert forall|i: int| 0 <= i < tail.len() implies (#[trigger] tail[i]).0 != COMMENT by {
            assert(tail[i] == list[i + 1]);
        }
        lemma_no_comments(tail, next);
        lemma_comments_prepend(
            Part { kind: list[0].0, start: base, len: list[0].1.len() as int },
            placed(tail, next),
        );
    }
}

proof fn lemma_comments_prepend(first: Part, rest: Seq<Part>)
    ensures
        comments(seq![first] + rest) == comments(rest) + if first.kind == COMMENT {
            1nat
        } else {
            0nat
        },
    decreases rest.len(),
{
    let all = seq![first] + rest;
    if rest.len() == 0 {
        assert(all.drop_last() =~= Seq::empty());
        assert(comments(all.drop_last()) == 0);
    } else {
        assert(all.drop_last() =~= seq![first] + rest.drop_last());
        lemma_comments_prepend(first, rest.drop_last());
    }
}

/// What a new head is made of, and what is read back of it.
proof fn lemma_new_head(file: Seq<u8>, meta: MetaView, rest: Seq<u8>)
    requires
        file.len() <= usize::MAX,
        patched(file, meta) is Ready,
    ensures
        ({
            let list = new_blocks(file, parts(file)->Ok_0->Some_0, meta);
            let head = patched(file, meta)->head;
            &&& list.len() >= 2
            &&& all_fit(list)
            &&& plain_kinds(list)
            &&& head == MAGIC@ + chain(list)
            &&& parts(head + rest) == Ok::<Option<Seq<Part>>, Reason>(Some(placed(list, 4)))
            &&& placed(list, 4).last().start + 4 + placed(list, 4).last().len == head.len()
            &&& comments(placed(list, 4)) == 1
            &&& other_blocks(list) == others(file, parts(file)->Ok_0->Some_0)
        }),
{
    let found = parts(file)->Ok_0->Some_0;
    let list = new_blocks(file, found, meta);
    let head = patched(file, meta)->head;
    let kept = others(file, found);
    lemma_scan(file.skip(4), 4);
    assert forall|i: int| 0 <= i < found.len() implies {
        let part = #[trigger] found[i];
        part.kind < 128 && part.limit() - (part.start + 4) <= MAX_BLOCK && part.fits(
            file.len() as int,
        ) && 0 <= part.start
    } by {
        assert(found[i] == scan(file.skip(4), 4)->Some_0[i]);
    }
    lemma_others_are_others(file, found);
    assert forall|i: int| 0 <= i < list.len() implies (#[trigger] list[i]).0 < 128 by {
        if i >= 2 {
            assert(list[i] == kept[i - 2]);
        }
    }
    let whole = head + rest;
    assert(whole.take(4) =~= MAGIC@);
    assert(whole.skip(4) =~= chain(list) + rest);
    lemma_chain_read_back(list, rest, 4);
    assert(list.drop_first().drop_first() =~= kept);
    let after_first = list.drop_first();
    assert(after_first[0] == (COMMENT, comment_bytes(meta)));
    let second = 4 + 4 + list[0].1.len() as int;
    let third = second + 4 + after_first[0].1.len() as int;
    assert(after_first.drop_first() =~= kept);
    assert(other_blocks(after_first) == other_blocks(kept));
    lemma_no_comments(kept, third);
    let middle = Part { kind: COMMENT, start: second, len: after_first[0].1.len() as int };
    assert(placed(after_first, second) == seq![middle] + placed(kept, third));
    lemma_comments_prepend(middle, placed(kept, third));
    lemma_comments_prepend(
        Part { kind: STREAMINFO, start: 4, len: list[0].1.len() as int },
        placed(after_first, second),
    );
}

/// A new head passes its own check: its blocks close, and there is exactly one
/// comment.
pub proof fn law_new_head_verifies(file: Seq<u8>, meta: MetaView)
    requires
        file.len() <= usize::MAX,
        patched(file, meta) is Ready,
        patched(file, meta)->head.len() <= usize::MAX,
    ensures
        verified(patched(file, meta)->head) == Ok::<(), Reason>(()),
{
    let head = patched(file, meta)->head;
    lemma_new_head(file, meta, Seq::empty());
    assert(head + Seq::<u8>::empty() =~= head);
}

/// All blocks but the comment are kept as they were, in their order: the stream's
/// description first, then the comment, then the rest.
pub proof fn law_other_blocks_are_kept(file: Seq<u8>, meta: MetaView)
    requires
        file.len() <= usize::MAX,
        patched(file, meta) is Ready,
        patched(file, meta)->head.len() <= usize::MAX,
    ensures
        ({
            let head = patched(file, meta)->head;
            let old = parts(file)->Ok_0->Some_0;
            let new = parts(head)->Ok_0->Some_0;
            &&& parts(head) matches Ok(Some(_))
            &&& others(head, new) == others(file, old)
            &&& new[0].kind == STREAMINFO
            &&& new[0].content(head) == old[0].content(file)
            &&& new[1].kind == COMMENT
            &&& new[1].content(head) == comment_bytes(meta)
        }),
{
    let head = patched(file, meta)->head;
    let nothing = Seq::<u8>::empty();
    let list = new_blocks(file, parts(file)->Ok_0->Some_0, meta);
    lemma_new_head(file, meta, nothing);
    assert(head + nothing =~= head);
    assert(head.skip(4) =~= chain(list) + nothing);
    lemma_others_read_back(head, list, nothing, 4);
    let after_first = list.drop_first();
    let second = 4 + 4 + list[0].1.len() as int;
    assert(after_first[0] == list[1]);
    assert(placed(list, 4)[1] == placed(after_first, second)[0]);
    lemma_be_bytes_len(list[0].1.len(), 3);
    let one = block_bytes(list[0].0, list[0].1, false);
    assert(head.skip(second) =~= chain(after_first) + nothing);
    assert forall|i: int| 0 <= i < after_first.len() implies (#[trigger] after_first[i]).1.len()
        <= MAX_BLOCK by {
        assert(after_first[i] == list[i + 1]);
    }
    lemma_others_read_back(head, after_first, nothing, second);
}

/// Tags are replaced, not stacked: a file that has been tagged is tagged again
/// with the same bytes.
pub proof fn law_tagging_twice_changes_nothing(file: Seq<u8>, meta: MetaView)
    requires
        file.len() <= usize::MAX,
        patched(file, meta) is Ready,
        (patched(file, meta)->head + file.skip(patched(file, meta)->used)).len() <= usize::MAX,
    ensures
        patched(patched(file, meta)->head + file.skip(patched(file, meta)->used), meta)
            == (Built::Ready {
            head: patched(file, meta)->head,
            used: patched(file, meta)->head.len() as int,
        }),
{
    let head = patched(file, meta)->head;
    let rest = file.skip(patched(file, meta)->used);
    let again = head + rest;
    let list = new_blocks(file, parts(file)->Ok_0->Some_0, meta);
    lemma_new_head(file, meta, rest);
    assert(again.skip(4) =~= chain(list) + rest);
    lemma_others_read_back(again, list, rest, 4);
    assert(new_blocks(again, placed(list, 4), meta) =~= list);
}

/// Every field is written: it stands in the comment with its length before it, behind
/// the vendor, the number of fields and the fields before it.
pub proof fn law_every_field_is_written(meta: MetaView, i: int)
    requires
        0 <= i < entry_texts(meta).len(),
    ensures
        ({
            let all = entry_texts(meta);
            let field = measured(all[i]);
            let before = Seq::new(all.take(i).len(), |j: int| measured(all.take(i)[j]));
            let at = measured(VENDOR@).len() + 4 + flat(before).len();
            &&& at + field.len() <= comment_bytes(meta).len()
            &&& comment_bytes(meta).subrange(at as int, at + field.len() as int) == field
        }),
{
    let all = entry_texts(meta);
    let parts = Seq::new(all.len(), |j: int| measured(all[j]));
    let before = Seq::new(all.take(i).len(), |j: int| measured(all.take(i)[j]));
    assert(parts.take(i) =~= before);
    lemma_flat_part(parts, i);
    let start = measured(VENDOR@).len() + 4;
    let at = flat(before).len() as int;
    let comment = comment_bytes(meta);
    assert(comment.skip(start as int) =~= flat(parts));
    assert(comment.subrange(start + at, start + at + parts[i].len()) =~= flat(parts).subrange(
        at,
        at + parts[i].len(),
    ));
}

/// There is a field to write exactly if there is anything to write.
pub proof fn law_fields_for_something(meta: MetaView)
    ensures
        entry_texts(meta).len() == 0 <==> meta.blank(),
{
}

/// A decision stands: once all metadata blocks are here, what follows changes
/// nothing, and only bytes that are here are replaced.
pub proof fn law_decision_stands(head: Seq<u8>, more: Seq<u8>, meta: MetaView)
    requires
        head.len() + more.len() <= usize::MAX,
        !(patched(head, meta) is More),
    ensures
        patched(head + more, meta) == patched(head, meta),
        patched(head, meta) matches Built::Ready { used, .. } ==> 0 <= used <= head.len(),
{
    let whole = head + more;
    assert(whole.take(4) =~= head.take(4));
    if head.take(4) == MAGIC@ {
        assert(whole.skip(4) =~= head.skip(4) + more);
        lemma_scan_grows(head.skip(4), more, 4);
        lemma_scan(head.skip(4), 4);
        let found = scan(head.skip(4), 4)->Some_0;
        assert forall|i: int| 0 <= i < found.len() implies (#[trigger] found[i]).fits(
            head.len() as int,
        ) && 0 <= found[i].start by {
            assert(found[i] == scan(head.skip(4), 4)->Some_0[i]);
        }
        lemma_others_grow(head, more, found);
        assert(found[0].content(whole) =~= found[0].content(head));
        assert(found.last() == found[found.len() - 1]);
    }
}

proof fn lemma_scan_grows(b: Seq<u8>, more: Seq<u8>, base: int)
    requires
        scan(b, base) is Some,
    ensures
        scan(b + more, base) == scan(b, base),
    decreases b.len(),
{
    let whole = b + more;
    assert(whole.subrange(1, 4) =~= b.subrange(1, 4));
    let len = be_value(b.subrange(1, 4)) as int;
    if b[0] < 128 {
        assert(whole.skip(4 + len) =~= b.skip(4 + len) + more);
        lemma_scan_grows(b.skip(4 + len), more, base + 4 + len);
    }
}

proof fn lemma_others_grow(head: Seq<u8>, more: Seq<u8>, parts: Seq<Part>)
    requires
        forall|i: int| 0 <= i < parts.len() ==> (#[trigger] parts[i]).fits(head.len() as int)
            && 0 <= parts[i].start,
    ensures
        others(head + more, parts) == others(head, parts),
    decreases parts.len(),
{
    if parts.len() > 0 {
        let tail = parts.drop_first();
        assert forall|i: int| 0 <= i < tail.len() implies (#[trigger] tail[i]).fits(
            head.len() as int,
        ) && 0 <= tail[i].start by {
            assert(tail[i] == parts[i + 1]);
        }
        lemma_others_grow(head, more, tail);
        assert(parts[0].content(head + more) =~= parts[0].content(head));
    }
}

} // verus!
