//! Tags of `MP4`: `moov > udta > meta > ilst`.
//!
//! The tables `stco` and `co64` hold absolute offsets of sound in the file, and
//! `moov` lies before the sound. A longer `moov` shifts all the sound, and every
//! offset has to be shifted with it.

use vstd::prelude::*;
use vstd::string::*;
use vstd::utf8::*;

use super::{built, joined_text, number_text, Built, Meta, MetaView, Number, Outcome, Reason};
use crate::bytes::{
    be_bytes, be_value, extend, extend_be, lemma_be_bytes_len, lemma_be_value_bound,
    lemma_capacities,
};
use crate::text::{decimal, flat, lemma_flat_push, text_of};

verus! {

/// Size (4) and kind (4).
pub const HEADER: usize = 8;

/// Size (4), kind (4) and a 64-bit length (8).
pub const LARGE_HEADER: usize = 16;

/// `moov`.
pub const MOOV: [u8; 4] = [0x6D, 0x6F, 0x6F, 0x76];

/// `trak`.
pub const TRAK: [u8; 4] = [0x74, 0x72, 0x61, 0x6B];

/// `mdia`.
pub const MDIA: [u8; 4] = [0x6D, 0x64, 0x69, 0x61];

/// `minf`.
pub const MINF: [u8; 4] = [0x6D, 0x69, 0x6E, 0x66];

/// `stbl`.
pub const STBL: [u8; 4] = [0x73, 0x74, 0x62, 0x6C];

/// `stco`.
pub const STCO: [u8; 4] = [0x73, 0x74, 0x63, 0x6F];

/// `co64`.
pub const CO64: [u8; 4] = [0x63, 0x6F, 0x36, 0x34];

/// `mvex`.
pub const MVEX: [u8; 4] = [0x6D, 0x76, 0x65, 0x78];

/// `udta`.
pub const UDTA: [u8; 4] = [0x75, 0x64, 0x74, 0x61];

/// `meta`.
pub const META: [u8; 4] = [0x6D, 0x65, 0x74, 0x61];

/// `ilst`.
pub const ILST: [u8; 4] = [0x69, 0x6C, 0x73, 0x74];

/// `data`.
pub const DATA: [u8; 4] = [0x64, 0x61, 0x74, 0x61];

/// The handler of iTunes metadata, without which some players skip `meta`:
/// size and kind `hdlr`, version and flags, reserved, `mdir`, `appl`,
/// reserved, an empty name.
pub const HANDLER: [u8; 33] = [
    0x00, 0x00, 0x00, 0x21, 0x68, 0x64, 0x6C, 0x72, 0x00, 0x00, 0x00, 0x00, 0x00, 0x00, 0x00, 0x00,
    0x6D, 0x64, 0x69, 0x72, 0x61, 0x70, 0x70, 0x6C, 0x00, 0x00, 0x00, 0x00, 0x00, 0x00, 0x00, 0x00,
    0x00,
];

/// `©nam`.
pub const NAME: [u8; 4] = [0xA9, 0x6E, 0x61, 0x6D];

/// `©ART`.
pub const ARTIST: [u8; 4] = [0xA9, 0x41, 0x52, 0x54];

/// `©alb`.
pub const ALBUM: [u8; 4] = [0xA9, 0x61, 0x6C, 0x62];

/// `aART`.
pub const ALBUM_ARTIST: [u8; 4] = [0x61, 0x41, 0x52, 0x54];

/// `©day`.
pub const YEAR: [u8; 4] = [0xA9, 0x64, 0x61, 0x79];

/// `©gen`.
pub const GENRE: [u8; 4] = [0xA9, 0x67, 0x65, 0x6E];

/// `trkn`.
pub const TRACK: [u8; 4] = [0x74, 0x72, 0x6B, 0x6E];

/// `disk`.
pub const VOLUME: [u8; 4] = [0x64, 0x69, 0x73, 0x6B];

/// The payload of a `data` box is text in `UTF-8`.
pub const TEXT: u32 = 1;

/// The payload of a `data` box is bytes.
pub const BINARY: u32 = 0;

/// Boxes that are worth a descent in search of offset tables.
pub open spec fn container(kind: Seq<u8>) -> bool {
    kind == MOOV@ || kind == TRAK@ || kind == MDIA@ || kind == MINF@ || kind == STBL@
}

/// Where a box lies: its kind, its start, and the lengths of its header and of
/// the whole.
#[verifier::ext_equal]
pub struct Piece {
    pub kind: Seq<u8>,
    pub start: int,
    pub header: int,
    pub size: int,
}

impl Piece {
    /// The end of the box, or the largest position if it lies beyond.
    pub open spec fn limit(self) -> int {
        if self.start + self.size <= usize::MAX {
            self.start + self.size
        } else {
            usize::MAX as int
        }
    }
}

/// The bounds of a box in a byte slice.
#[derive(Debug, Clone, Copy)]
pub struct Span {
    pub kind: [u8; 4],
    pub start: usize,
    pub header: usize,
    pub size: usize,
}

impl View for Span {
    type V = Piece;

    open spec fn view(&self) -> Piece {
        Piece {
            kind: self.kind@,
            start: self.start as int,
            header: self.header as int,
            size: self.size as int,
        }
    }
}

impl Span {
    /// Where the box ends.
    pub fn end(&self) -> (r: usize)
        ensures
            r == self@.limit(),
    {
        self.start.saturating_add(self.size)
    }

    /// What is inside the box.
    pub fn payload<'a>(&self, bytes: &'a [u8]) -> (r: Result<&'a [u8], Reason>)
        ensures
            match r {
                Ok(payload) => self.start + self.header <= self@.limit() <= bytes@.len()
                    && payload@ == bytes@.subrange(self.start + self.header, self@.limit()),
                Err(reason) => !(self.start + self.header <= self@.limit() <= bytes@.len())
                    && reason == Reason::Malformed,
            },
    {
        let end = self.end();
        if self.header > end || self.start > end - self.header || end > bytes.len() {
            return Err(Reason::Malformed);
        }
        Ok(vstd::slice::slice_subrange(bytes, self.start + self.header, end))
    }

    /// The box with its header.
    pub fn whole<'a>(&self, bytes: &'a [u8]) -> (r: Result<&'a [u8], Reason>)
        ensures
            match r {
                Ok(whole) => self@.limit() <= bytes@.len() && whole@ == bytes@.subrange(
                    self.start as int,
                    self@.limit(),
                ),
                Err(reason) => self@.limit() > bytes@.len() && reason == Reason::Malformed,
            },
    {
        let end = self.end();
        if end > bytes.len() {
            return Err(Reason::Malformed);
        }
        Ok(vstd::slice::slice_subrange(bytes, self.start, end))
    }
}

/// What boxes a list of spans describes.
pub open spec fn listed(spans: Seq<Span>) -> Seq<Piece> {
    Seq::new(spans.len(), |i: int| spans[i]@)
}

/// What a byte sequence begins with.
pub enum Step {
    /// Nothing that is a whole box.
    End,
    /// Something that is no box.
    Bad(Reason),
    /// A whole box.
    Whole { kind: Seq<u8>, header: int, size: int },
}

/// What a byte sequence begins with.
///
/// A size of `0` stands for a box that runs to the end of the file, and a size
/// of `1` for a 64-bit length behind the kind. A box that is cut off is no
/// error: more bytes may come.
pub open spec fn first_box(b: Seq<u8>) -> Step {
    if b.len() < 8 {
        Step::End
    } else {
        let declared = be_value(b.take(4)) as int;
        let kind = b.subrange(4, 8);
        if declared == 0 {
            Step::End
        } else if declared == 1 {
            if b.len() < 16 {
                Step::End
            } else {
                let size = be_value(b.subrange(8, 16)) as int;
                if size > usize::MAX {
                    Step::Bad(Reason::Overflow)
                } else if size < 16 {
                    Step::Bad(Reason::Malformed)
                } else if b.len() < size {
                    Step::End
                } else {
                    Step::Whole { kind, header: 16, size }
                }
            }
        } else if declared < 8 {
            Step::Bad(Reason::Malformed)
        } else if b.len() < declared {
            Step::End
        } else {
            Step::Whole { kind, header: 8, size: declared }
        }
    }
}

/// The whole boxes that lie one after another from the start of `b`, which
/// itself stands at `base`.
pub open spec fn boxes(b: Seq<u8>, base: int) -> Result<Seq<Piece>, Reason>
    decreases b.len(),
{
    match first_box(b) {
        Step::End => Ok(Seq::empty()),
        Step::Bad(reason) => Err(reason),
        Step::Whole { kind, header, size } => match boxes(b.skip(size), base + size) {
            Err(reason) => Err(reason),
            Ok(rest) => Ok(seq![Piece { kind, start: base, header, size }] + rest),
        },
    }
}

/// Where the last of the boxes ends, or `0` without any.
pub open spec fn closed_at(pieces: Seq<Piece>) -> int {
    if pieces.len() == 0 {
        0
    } else {
        pieces.last().start + pieces.last().size
    }
}

/// The first box of a kind.
pub open spec fn first_of(pieces: Seq<Piece>, kind: Seq<u8>) -> Option<Piece>
    decreases pieces.len(),
{
    if pieces.len() == 0 {
        None
    } else if pieces[0].kind == kind {
        Some(pieces[0])
    } else {
        first_of(pieces.drop_first(), kind)
    }
}

/// How many boxes are of a kind.
pub open spec fn count_of(pieces: Seq<Piece>, kind: Seq<u8>) -> nat
    decreases pieces.len(),
{
    if pieces.len() == 0 {
        0
    } else {
        count_of(pieces.drop_last(), kind) + if pieces.last().kind == kind {
            1nat
        } else {
            0nat
        }
    }
}

/// Offset tables, each with the position of its body and the width of its
/// entries, and the error that cut the search short.
#[verifier::ext_equal]
pub struct Found {
    pub tables: Seq<(int, int)>,
    pub error: Option<Reason>,
}

/// The offset tables in boxes at `base`, at any depth.
pub open spec fn tables_in(b: Seq<u8>, base: int) -> Found
    decreases b.len(), 1nat,
{
    match boxes(b, 0) {
        Err(reason) => Found { tables: Seq::empty(), error: Some(reason) },
        Ok(_) => tables_along(b, base),
    }
}

/// The offset tables in a box whose body lies at `at`.
pub open spec fn tables_inside(kind: Seq<u8>, body: Seq<u8>, at: int) -> Found
    decreases body.len(), 2nat,
{
    if kind == STCO@ {
        Found { tables: seq![(at, 4int)], error: None }
    } else if kind == CO64@ {
        Found { tables: seq![(at, 8int)], error: None }
    } else if container(kind) {
        tables_in(body, at)
    } else {
        Found { tables: Seq::empty(), error: None }
    }
}

/// The offset tables in a sequence of boxes that is known to parse.
pub open spec fn tables_along(b: Seq<u8>, base: int) -> Found
    decreases b.len(), 0nat,
{
    match first_box(b) {
        Step::Whole { kind, header, size } => {
            let at = base + header;
            if at > usize::MAX {
                Found { tables: Seq::empty(), error: Some(Reason::Malformed) }
            } else {
                let here = tables_inside(kind, b.subrange(header, size), at);
                if here.error is Some {
                    here
                } else {
                    let rest = tables_along(b.skip(size), base + size);
                    Found { tables: here.tables + rest.tables, error: rest.error }
                }
            }
        },
        _ => Found { tables: Seq::empty(), error: None },
    }
}

/// The big-endian number of `width` bytes at a position.
pub open spec fn number_at(b: Seq<u8>, at: int, width: int) -> Result<int, Reason> {
    if at + width > b.len() {
        Err(Reason::Malformed)
    } else {
        let value = be_value(b.subrange(at, at + width)) as int;
        if value > u64::MAX {
            Err(Reason::Overflow)
        } else {
            Ok(value)
        }
    }
}

/// The bytes with a number of `width` bytes written at a position.
///
/// A number beyond four bytes does not go into a four-byte field: that would
/// take another kind of table.
pub open spec fn stored(b: Seq<u8>, at: int, width: int, value: int) -> Result<Seq<u8>, Reason> {
    if width == 4 && value > u32::MAX {
        Err(Reason::Overflow)
    } else if at + width > usize::MAX {
        Err(Reason::Malformed)
    } else if width > 8 {
        Err(Reason::Overflow)
    } else if at + width > b.len() {
        Err(Reason::Malformed)
    } else {
        Ok(b.take(at) + be_bytes(value as nat, width as nat) + b.skip(at + width))
    }
}

/// How a new `moov` changes the file: where the old one lay, and by how much the
/// new one is longer.
pub struct Change {
    pub start: int,
    pub end: int,
    pub delta: int,
}

/// Where an offset points in the changed file.
///
/// What lies before `moov` stays, what lies behind it moves by the difference,
/// and sound inside `moov` forbids the change.
pub open spec fn new_offset(offset: int, change: Change) -> Result<int, Reason> {
    if offset < change.start {
        Ok(offset)
    } else if offset < change.end {
        Err(Reason::Inline)
    } else if 0 <= offset + change.delta <= u64::MAX {
        Ok(offset + change.delta)
    } else {
        Err(Reason::Overflow)
    }
}

/// Entries `index..count` of a table, shifted one by one.
pub open spec fn entries_shifted(
    m: Seq<u8>,
    table: (int, int),
    index: int,
    count: int,
    change: Change,
) -> Result<Seq<u8>, Reason>
    decreases count - index,
{
    if index >= count {
        Ok(m)
    } else {
        let entry = table.0 + 8 + index * table.1;
        match number_at(m, entry, table.1) {
            Err(reason) => Err(reason),
            Ok(offset) => match new_offset(offset, change) {
                Err(reason) => Err(reason),
                Ok(value) => match stored(m, entry, table.1, value) {
                    Err(reason) => Err(reason),
                    Ok(next) => entries_shifted(next, table, index + 1, count, change),
                },
            },
        }
    }
}

/// A table with all its entries shifted; their number stands behind the first
/// four bytes of its body.
pub open spec fn table_shifted(m: Seq<u8>, table: (int, int), change: Change) -> Result<
    Seq<u8>,
    Reason,
> {
    match number_at(m, table.0 + 4, 4) {
        Err(reason) => Err(reason),
        Ok(count) => entries_shifted(m, table, 0, count, change),
    }
}

/// All tables shifted in their order.
pub open spec fn tables_shifted(m: Seq<u8>, tables: Seq<(int, int)>, change: Change) -> Result<
    Seq<u8>,
    Reason,
>
    decreases tables.len(),
{
    if tables.len() == 0 {
        Ok(m)
    } else {
        match table_shifted(m, tables[0], change) {
            Err(reason) => Err(reason),
            Ok(next) => tables_shifted(next, tables.drop_first(), change),
        }
    }
}

/// A `moov` box with the offsets in its tables shifted.
pub open spec fn shifted(m: Seq<u8>, change: Change) -> Result<Seq<u8>, Reason> {
    if m.len() < 8 {
        Err(Reason::Malformed)
    } else {
        let found = tables_in(m.skip(8), 8);
        match found.error {
            Some(reason) => Err(reason),
            None => tables_shifted(m, found.tables, change),
        }
    }
}

/// A box with a 32-bit size.
pub open spec fn box_bytes(kind: Seq<u8>, payload: Seq<u8>) -> Seq<u8> {
    be_bytes(payload.len() + 8, 4) + kind + payload
}

/// Whether the size of a box fits into its field.
pub open spec fn box_fits(payload: Seq<u8>) -> bool {
    payload.len() + 8 <= u32::MAX
}

/// What a `data` box holds: the type of its value, four zero bytes, the value.
pub open spec fn data_body(kind: u32, value: Seq<u8>) -> Seq<u8> {
    be_bytes(kind as nat, 4) + seq![0u8, 0u8, 0u8, 0u8] + value
}

/// An item of a list of tags: its kind, the type of its value, the value.
pub struct Item {
    pub kind: Seq<u8>,
    pub flag: u32,
    pub value: Seq<u8>,
}

impl Item {
    pub open spec fn fits(self) -> bool {
        self.value.len() + 24 <= u32::MAX
    }

    pub open spec fn bytes(self) -> Seq<u8> {
        box_bytes(self.kind, box_bytes(DATA@, data_body(self.flag, self.value)))
    }
}

/// A text item, if there is a text.
pub open spec fn text_item(kind: Seq<u8>, value: Option<Seq<char>>) -> Seq<Item> {
    match value {
        Some(value) => seq![Item { kind, flag: TEXT, value: encode_utf8(value) }],
        None => Seq::empty(),
    }
}

/// The number of the track and the number of tracks, `0` if that is unknown.
pub open spec fn track_item(number: Option<Number>) -> Seq<Item> {
    match number {
        Some(number) => {
            let total = match number.total {
                Some(total) => total,
                None => 0,
            };
            seq![
                Item {
                    kind: TRACK@,
                    flag: BINARY,
                    value: seq![0u8, 0u8] + be_bytes(number.index as nat, 2) + be_bytes(
                        total as nat,
                        2,
                    ) + seq![0u8, 0u8],
                },
            ]
        },
        None => Seq::empty(),
    }
}

/// The number of the disc.
pub open spec fn volume_item(volume: Option<u16>) -> Seq<Item> {
    match volume {
        Some(volume) => seq![
            Item {
                kind: VOLUME@,
                flag: BINARY,
                value: seq![0u8, 0u8] + be_bytes(volume as nat, 2) + seq![0u8, 0u8],
            },
        ],
        None => Seq::empty(),
    }
}

/// The items of a list of tags in their order.
pub open spec fn items(meta: MetaView) -> Seq<Item> {
    text_item(NAME@, meta.title) + text_item(ARTIST@, joined_text(meta.artists)) + text_item(
        ALBUM@,
        meta.album,
    ) + text_item(ALBUM_ARTIST@, joined_text(meta.album_artists)) + text_item(
        YEAR@,
        number_text(meta.year),
    ) + text_item(GENRE@, meta.genre) + track_item(meta.number) + volume_item(meta.volume)
}

pub open spec fn items_fit(items: Seq<Item>) -> bool {
    forall|i: int| 0 <= i < items.len() ==> (#[trigger] items[i]).fits()
}

pub open spec fn items_bytes(items: Seq<Item>) -> Seq<u8> {
    flat(Seq::new(items.len(), |i: int| items[i].bytes()))
}

/// What `meta` holds: version and flags, the handler, the list of tags.
pub open spec fn meta_body(meta: MetaView) -> Seq<u8> {
    seq![0u8, 0u8, 0u8, 0u8] + HANDLER@ + box_bytes(ILST@, items_bytes(items(meta)))
}

/// The box of tags.
pub open spec fn udta_bytes(meta: MetaView) -> Seq<u8> {
    box_bytes(UDTA@, box_bytes(META@, meta_body(meta)))
}

/// Whether all sizes inside `udta` fit.
pub open spec fn udta_fits(meta: MetaView) -> bool {
    items_fit(items(meta)) && box_fits(box_bytes(META@, meta_body(meta)))
}

/// The boxes that are not `udta`, with their headers, one after another.
pub open spec fn kept_bytes(payload: Seq<u8>, children: Seq<Piece>) -> Seq<u8>
    decreases children.len(),
{
    if children.len() == 0 {
        Seq::empty()
    } else {
        let first = children[0];
        let rest = kept_bytes(payload, children.drop_first());
        if first.kind == UDTA@ {
            rest
        } else {
            payload.subrange(first.start, first.limit()) + rest
        }
    }
}

/// Whether every box that is not `udta` ends inside the payload.
pub open spec fn kept_inside(payload: Seq<u8>, children: Seq<Piece>) -> bool {
    forall|i: int|
        0 <= i < children.len() && (#[trigger] children[i]).kind != UDTA@ ==> children[i].limit()
            <= payload.len()
}

/// Whether a list of tags and the boxes that are kept fit into one `moov`.
pub open spec fn moov_fits(kept: Seq<u8>, meta: MetaView) -> bool {
    udta_fits(meta) && box_fits(kept + udta_bytes(meta))
}

/// A `moov` of kept boxes and the tags.
pub open spec fn moov_bytes(kept: Seq<u8>, meta: MetaView) -> Seq<u8> {
    box_bytes(MOOV@, kept + udta_bytes(meta))
}

fn is_kind(kind: &[u8; 4], other: &[u8; 4]) -> (r: bool)
    ensures
        r == (kind@ == other@),
{
    let r = kind[0] == other[0] && kind[1] == other[1] && kind[2] == other[2] && kind[3]
        == other[3];
    proof {
        if r {
            assert(kind@ =~= other@);
        }
    }
    r
}

/// Reads whole boxes one after another.
///
/// A box that is cut off ends the list: whether to wait for more bytes is up to
/// the caller.
pub fn spans(bytes: &[u8]) -> (r: Result<Vec<Span>, Reason>)
    ensures
        match r {
            Ok(spans) => boxes(bytes@, 0) == Ok::<Seq<Piece>, Reason>(listed(spans@)),
            Err(reason) => boxes(bytes@, 0) == Err::<Seq<Piece>, Reason>(reason),
        },
{
    let mut found: Vec<Span> = Vec::new();
    let mut at: usize = 0;
    proof {
        assert(bytes@.skip(0) =~= bytes@);
        assert(forall|rest: Seq<Piece>| #[trigger] (listed(found@) + rest) =~= rest);
    }
    loop
        invariant
            at <= bytes@.len(),
            boxes(bytes@, 0) == match boxes(bytes@.skip(at as int), at as int) {
                Ok(rest) => Ok::<Seq<Piece>, Reason>(listed(found@) + rest),
                Err(reason) => Err(reason),
            },
        decreases bytes@.len() - at,
    {
        let ghost rest = bytes@.skip(at as int);
        let left: usize = bytes.len() - at;
        proof {
            assert(listed(found@) + Seq::<Piece>::empty() =~= listed(found@));
            lemma_capacities();
            if left >= 8 {
                lemma_be_value_bound(rest.take(4));
                assert(rest.take(4) =~= bytes@.subrange(at as int, at + 4));
                assert(rest.subrange(4, 8) =~= bytes@.subrange(at + 4, at + 8));
            }
            if left >= 16 {
                lemma_be_value_bound(rest.subrange(8, 16));
                assert(rest.subrange(8, 16) =~= bytes@.subrange(at + 8, at + 16));
            }
        }
        if left < HEADER {
            return Ok(found);
        }
        let declared = read(bytes, at, 4)?;
        let kind = [bytes[at + 4], bytes[at + 5], bytes[at + 6], bytes[at + 7]];
        proof {
            assert(kind@ =~= rest.subrange(4, 8));
        }
        if declared == 0 {
            return Ok(found);
        }
        let size: usize;
        let header: usize;
        if declared == 1 {
            if left < LARGE_HEADER {
                return Ok(found);
            }
            let long = read(bytes, at + HEADER, 8)?;
            if long > usize::MAX as u64 {
                return Err(Reason::Overflow);
            }
            size = long as usize;
            header = LARGE_HEADER;
        } else if declared < 8 {
            return Err(Reason::Malformed);
        } else {
            size = declared as usize;
            header = HEADER;
        }
        if size < header {
            return Err(Reason::Malformed);
        }
        if left < size {
            return Ok(found);
        }
        let span = Span { kind, start: at, header, size };
        let ghost before = found@;
        found.push(span);
        proof {
            assert(rest.skip(size as int) =~= bytes@.skip(at + size));
            assert(listed(found@) =~= listed(before).push(span@));
            assert(forall|more: Seq<Piece>| #[trigger]
                (listed(found@) + more) =~= listed(before) + (seq![span@] + more));
        }
        at += size;
    }
}

/// Reads a big-endian number of `width` bytes.
pub fn read(bytes: &[u8], at: usize, width: usize) -> (r: Result<u64, Reason>)
    ensures
        match r {
            Ok(value) => number_at(bytes@, at as int, width as int) == Ok::<int, Reason>(
                value as int,
            ),
            Err(reason) => number_at(bytes@, at as int, width as int) == Err::<int, Reason>(
                reason,
            ),
        },
{
    if at > bytes.len() || width > bytes.len() - at {
        return Err(Reason::Malformed);
    }
    let ghost field = bytes@.subrange(at as int, at + width);
    let mut value: u64 = 0;
    let mut i: usize = 0;
    while i < width
        invariant
            i <= width,
            at + width <= bytes@.len(),
            at + width <= usize::MAX,
            field == bytes@.subrange(at as int, at + width),
            value == be_value(field.take(i as int)),
        decreases width - i,
    {
        let byte = bytes[at + i];
        proof {
            assert(field.take(i + 1).drop_last() =~= field.take(i as int));
        }
        if value > (u64::MAX - byte as u64) / 256 {
            proof {
                lemma_be_value_grows(field, i + 1);
            }
            return Err(Reason::Overflow);
        }
        value = value * 256 + byte as u64;
        i += 1;
    }
    proof {
        assert(field.take(width as int) =~= field);
    }
    Ok(value)
}

/// A prefix spells no more than the whole.
proof fn lemma_be_value_grows(s: Seq<u8>, upto: int)
    requires
        0 <= upto <= s.len(),
    ensures
        be_value(s.take(upto)) <= be_value(s),
    decreases s.len(),
{
    if upto == s.len() {
        assert(s.take(upto) =~= s);
    } else {
        assert(s.drop_last().take(upto) =~= s.take(upto));
        lemma_be_value_grows(s.drop_last(), upto);
    }
}

/// Writes the lowest `width` bytes of a number, most significant first.
pub fn write(bytes: &mut [u8], at: usize, width: usize, value: u64) -> (r: Result<(), Reason>)
    ensures
        match r {
            Ok(()) => stored(old(bytes)@, at as int, width as int, value as int) == Ok::<
                Seq<u8>,
                Reason,
            >(final(bytes)@),
            Err(reason) => stored(old(bytes)@, at as int, width as int, value as int) == Err::<
                Seq<u8>,
                Reason,
            >(reason) && final(bytes)@ == old(bytes)@,
        },
{
    if width == 4 && value > u32::MAX as u64 {
        return Err(Reason::Overflow);
    }
    if at > usize::MAX - width {
        return Err(Reason::Malformed);
    }
    if width > 8 {
        return Err(Reason::Overflow);
    }
    if at + width > bytes.len() {
        return Err(Reason::Malformed);
    }
    let mut field: Vec<u8> = Vec::new();
    extend_be(&mut field, value, width);
    let ghost before = bytes@;
    proof {
        lemma_be_bytes_len(value as nat, width as nat);
        assert(field@ =~= be_bytes(value as nat, width as nat));
    }
    let mut i: usize = 0;
    while i < width
        invariant
            i <= width,
            width == field@.len(),
            at + width <= before.len(),
            at + width <= usize::MAX,
            bytes@ =~= before.take(at as int) + field@.take(i as int) + before.skip(at + i),
        decreases width - i,
    {
        bytes[at + i] = field[i];
        i += 1;
    }
    proof {
        assert(field@.take(width as int) =~= field@);
    }
    Ok(())
}

/// A list of boxes, taken apart at its first.
proof fn lemma_boxes_step(b: Seq<u8>, base: int)
    requires
        boxes(b, base) is Ok,
    ensures
        ({
            let list = boxes(b, base)->Ok_0;
            if list.len() == 0 {
                first_box(b) is End
            } else {
                let first = list[0];
                &&& first.start == base
                &&& first_box(b) == (Step::Whole {
                    kind: first.kind,
                    header: first.header,
                    size: first.size,
                })
                &&& 8 <= first.header <= first.size <= b.len()
                &&& boxes(b.skip(first.size), base + first.size) == Ok::<Seq<Piece>, Reason>(
                    list.drop_first(),
                )
            }
        }),
{
    if let Step::Whole { kind, header, size } = first_box(b) {
        let rest = boxes(b.skip(size), base + size)->Ok_0;
        assert((seq![Piece { kind, start: base, header, size }] + rest).drop_first() =~= rest);
    }
}

/// All boxes of a list lie inside the bytes.
proof fn lemma_boxes_inside(b: Seq<u8>, base: int)
    requires
        boxes(b, base) is Ok,
    ensures
        forall|i: int|
            0 <= i < boxes(b, base)->Ok_0.len() ==> {
                let piece = #[trigger] boxes(b, base)->Ok_0[i];
                &&& base <= piece.start
                &&& 8 <= piece.header <= piece.size
                &&& piece.start + piece.size <= base + b.len()
            },
    decreases b.len(),
{
    lemma_boxes_step(b, base);
    let list = boxes(b, base)->Ok_0;
    if list.len() > 0 {
        let size = list[0].size;
        lemma_boxes_inside(b.skip(size), base + size);
        assert forall|i: int| 0 <= i < list.len() implies {
            let piece = #[trigger] list[i];
            &&& base <= piece.start
            &&& 8 <= piece.header <= piece.size
            &&& piece.start + piece.size <= base + b.len()
        } by {
            if i > 0 {
                assert(list[i] == list.drop_first()[i - 1]);
            }
        }
    }
}

/// A table of offsets: where its body lies, and how wide an entry is.
#[derive(Debug, Clone, Copy)]
pub struct Table {
    pub at: usize,
    pub width: usize,
}

/// What tables a list describes.
pub open spec fn located(tables: Seq<Table>) -> Seq<(int, int)> {
    Seq::new(tables.len(), |i: int| (tables[i].at as int, tables[i].width as int))
}

fn is_container(kind: &[u8; 4]) -> (r: bool)
    ensures
        r == container(kind@),
{
    is_kind(kind, &MOOV) || is_kind(kind, &TRAK) || is_kind(kind, &MDIA) || is_kind(kind, &MINF)
        || is_kind(kind, &STBL)
}

/// Gathers `stco` and `co64` from all depths, in the order of the file.
pub fn collect(bytes: &[u8], base: usize, into: &mut Vec<Table>) -> (r: Result<(), Reason>)
    ensures
        located(final(into)@) == located(old(into)@) + tables_in(bytes@, base as int).tables,
        match r {
            Ok(()) => tables_in(bytes@, base as int).error is None,
            Err(reason) => tables_in(bytes@, base as int).error == Some(reason),
        },
    decreases bytes@.len(),
{
    let ghost before = located(into@);
    proof {
        reveal_with_fuel(tables_inside, 2);
        assert(before + Seq::<(int, int)>::empty() =~= before);
    }
    let list = spans(bytes)?;
    let ghost all = tables_in(bytes@, base as int);
    let ghost mut at: int = 0;
    let ghost mut done: Seq<(int, int)> = Seq::empty();
    proof {
        assert(bytes@.skip(0) =~= bytes@);
        assert(listed(list@).skip(0) =~= listed(list@));
        assert(done + all.tables =~= all.tables);
    }
    let mut i: usize = 0;
    while i < list.len()
        invariant
            i <= list@.len(),
            0 <= at <= bytes@.len(),
            all == tables_in(bytes@, base as int),
            boxes(bytes@.skip(at), at) == Ok::<Seq<Piece>, Reason>(listed(list@).skip(i as int)),
            located(into@) == before + done,
            before == located(old(into)@),
            all.tables == done + tables_along(bytes@.skip(at), base + at).tables,
            all.error == tables_along(bytes@.skip(at), base + at).error,
        decreases list@.len() - i,
    {
        let span = list[i];
        let ghost here = bytes@.skip(at);
        let ghost rest = tables_along(bytes@.skip(at + span.size), base + at + span.size);
        proof {
            assert(bytes.len() <= usize::MAX);
            reveal_with_fuel(tables_inside, 2);
            lemma_boxes_step(here, at);
            assert(listed(list@).skip(i as int)[0] == span@);
            assert(listed(list@).skip(i as int).drop_first() =~= listed(list@).skip(i + 1));
            assert(here.skip(span.size as int) =~= bytes@.skip(at + span.size));
            assert(here.subrange(span.header as int, span.size as int) =~= bytes@.subrange(
                at + span.header,
                at + span.size,
            ));
            assert(done + Seq::<(int, int)>::empty() =~= done);
        }
        let start = match base.checked_add(span.start) {
            Some(start) => start,
            None => return Err(Reason::Malformed),
        };
        let body = match start.checked_add(span.header) {
            Some(body) => body,
            None => return Err(Reason::Malformed),
        };
        let ghost old_into = into@;
        let ghost inner = tables_inside(
            span.kind@,
            bytes@.subrange(at + span.header, at + span.size),
            body as int,
        );
        proof {
            assert(all.tables == if inner.error is Some {
                done + inner.tables
            } else {
                done + (inner.tables + rest.tables)
            });
        }
        if is_kind(&span.kind, &STCO) {
            into.push(Table { at: body, width: 4 });
            proof {
                assert(located(into@) =~= located(old_into) + inner.tables);
            }
        } else if is_kind(&span.kind, &CO64) {
            into.push(Table { at: body, width: 8 });
            proof {
                assert(located(into@) =~= located(old_into) + inner.tables);
            }
        } else if is_container(&span.kind) {
            let payload = span.payload(bytes)?;
            proof {
                assert(inner == tables_in(payload@, body as int));
                assert((before + done) + inner.tables =~= before + (done + inner.tables));
            }
            collect(payload, body, into)?;
        } else {
            proof {
                assert(located(old_into) + inner.tables =~= located(old_into));
            }
        }
        proof {
            assert(located(old_into) + inner.tables =~= before + (done + inner.tables));
            assert(done + (inner.tables + rest.tables) =~= (done + inner.tables) + rest.tables);
            done = done + inner.tables;
            at = at + span.size;
        }
        i += 1;
    }
    proof {
        lemma_boxes_step(bytes@.skip(at), at);
        assert(done + Seq::<(int, int)>::empty() =~= done);
    }
    Ok(())
}

/// Where `moov` lay in the file.
#[derive(Debug, Clone, Copy)]
pub struct Bounds {
    pub start: u64,
    pub end: u64,
}

/// How a longer or shorter `moov` at these bounds changes the file.
pub open spec fn change_of(bounds: Bounds, delta: i64) -> Change {
    Change { start: bounds.start as int, end: bounds.end as int, delta: delta as int }
}

/// Where an offset points after the change.
pub fn moved(offset: u64, bounds: &Bounds, delta: i64) -> (r: Result<u64, Reason>)
    ensures
        match r {
            Ok(value) => new_offset(offset as int, change_of(*bounds, delta)) == Ok::<int, Reason>(
                value as int,
            ),
            Err(reason) => new_offset(offset as int, change_of(*bounds, delta)) == Err::<
                int,
                Reason,
            >(reason),
        },
{
    if offset < bounds.start {
        Ok(offset)
    } else if offset < bounds.end {
        Err(Reason::Inline)
    } else {
        match offset.checked_add_signed(delta) {
            Some(value) => Ok(value),
            None => Err(Reason::Overflow),
        }
    }
}

/// Shifts the offsets in all tables of a `moov`.
pub fn shift(moov: Vec<u8>, bounds: &Bounds, delta: i64) -> (r: Result<Vec<u8>, Reason>)
    ensures
        match r {
            Ok(out) => shifted(moov@, change_of(*bounds, delta)) == Ok::<Seq<u8>, Reason>(out@),
            Err(reason) => shifted(moov@, change_of(*bounds, delta)) == Err::<Seq<u8>, Reason>(
                reason,
            ),
        },
{
    let ghost change = change_of(*bounds, delta);
    let ghost original = moov@;
    let mut out = moov;
    if out.len() < HEADER {
        return Err(Reason::Malformed);
    }
    let mut tables: Vec<Table> = Vec::new();
    proof {
        assert(original.skip(8) =~= original.subrange(8, original.len() as int));
        assert(located(tables@) + tables_in(original.skip(8), 8).tables =~= tables_in(
            original.skip(8),
            8,
        ).tables);
    }
    collect(vstd::slice::slice_subrange(out.as_slice(), HEADER, out.len()), HEADER, &mut tables)?;
    proof {
        assert(located(tables@).skip(0) =~= located(tables@));
    }
    let mut i: usize = 0;
    while i < tables.len()
        invariant
            i <= tables@.len(),
            original == moov@,
            change == change_of(*bounds, delta),
            shifted(original, change) == tables_shifted(
                out@,
                located(tables@).skip(i as int),
                change,
            ),
        decreases tables@.len() - i,
    {
        let table = tables[i];
        let ghost spot = (table.at as int, table.width as int);
        let ghost rest = located(tables@).skip(i as int);
        proof {
            assert(out.len() <= usize::MAX);
            assert(rest[0] == spot);
            assert(rest.drop_first() =~= located(tables@).skip(i + 1));
        }
        let at = match table.at.checked_add(4) {
            Some(at) => at,
            None => return Err(Reason::Malformed),
        };
        let count = read(out.as_slice(), at, 4)?;
        proof {
            lemma_be_value_bound(out@.subrange(at as int, at + 4));
            lemma_capacities();
        }
        let count = count as usize;
        let mut index: usize = 0;
        while index < count
            invariant
                i < tables@.len(),
                index <= count,
                original == moov@,
                change == change_of(*bounds, delta),
                table == tables@[i as int],
                spot == (table.at as int, table.width as int),
                shifted(original, change) == match entries_shifted(
                    out@,
                    spot,
                    index as int,
                    count as int,
                    change,
                ) {
                    Err(reason) => Err(reason),
                    Ok(next) => tables_shifted(next, located(tables@).skip(i + 1), change),
                },
            decreases count - index,
        {
            proof {
                assert(out.len() <= usize::MAX);
                assert(index * table.width >= 0) by (nonlinear_arith)
                    requires
                        index >= 0,
                        table.width >= 0,
                ;
            }
            let offset = match index.checked_mul(table.width) {
                Some(offset) => offset,
                None => return Err(Reason::Malformed),
            };
            let offset = match offset.checked_add(8) {
                Some(offset) => offset,
                None => return Err(Reason::Malformed),
            };
            let entry = match offset.checked_add(table.at) {
                Some(entry) => entry,
                None => return Err(Reason::Malformed),
            };
            let value = moved(read(out.as_slice(), entry, table.width)?, bounds, delta)?;
            write(out.as_mut_slice(), entry, table.width, value)?;
            index += 1;
        }
        i += 1;
    }
    Ok(out)
}

/// A box with a 32-bit size.
pub fn boxed(kind: [u8; 4], payload: &[u8]) -> (r: Result<Vec<u8>, Reason>)
    ensures
        match r {
            Ok(out) => box_fits(payload@) && out@ == box_bytes(kind@, payload@),
            Err(reason) => !box_fits(payload@) && reason == Reason::Overflow,
        },
{
    if payload.len() > u32::MAX as usize - HEADER {
        return Err(Reason::Overflow);
    }
    let mut out: Vec<u8> = Vec::new();
    extend_be(&mut out, (payload.len() + HEADER) as u64, 4);
    extend(&mut out, kind.as_slice());
    extend(&mut out, payload);
    proof {
        assert(out@ =~= box_bytes(kind@, payload@));
    }
    Ok(out)
}

/// A box with a value of some type.
pub fn data(kind: u32, payload: &[u8]) -> (r: Result<Vec<u8>, Reason>)
    ensures
        match r {
            Ok(out) => payload@.len() + 16 <= u32::MAX && out@ == box_bytes(
                DATA@,
                data_body(kind, payload@),
            ),
            Err(reason) => payload@.len() + 16 > u32::MAX && reason == Reason::Overflow,
        },
{
    let mut body: Vec<u8> = Vec::new();
    extend_be(&mut body, kind as u64, 4);
    extend(&mut body, [0u8, 0u8, 0u8, 0u8].as_slice());
    extend(&mut body, payload);
    proof {
        lemma_be_bytes_len(kind as nat, 4);
        assert(body@ =~= data_body(kind, payload@));
    }
    boxed(DATA, body.as_slice())
}

/// A text item of a list of tags.
pub fn text(kind: [u8; 4], value: &str) -> (r: Result<Vec<u8>, Reason>)
    ensures
        ({
            let item = Item { kind: kind@, flag: TEXT, value: encode_utf8(value@) };
            match r {
                Ok(out) => item.fits() && out@ == item.bytes(),
                Err(reason) => !item.fits() && reason == Reason::Overflow,
            }
        }),
{
    item(kind, TEXT, value.as_bytes())
}

/// An item of a list of tags.
fn item(kind: [u8; 4], flag: u32, value: &[u8]) -> (r: Result<Vec<u8>, Reason>)
    ensures
        ({
            let item = Item { kind: kind@, flag, value: value@ };
            match r {
                Ok(out) => item.fits() && out@ == item.bytes(),
                Err(reason) => !item.fits() && reason == Reason::Overflow,
            }
        }),
{
    proof {
        lemma_be_bytes_len(flag as nat, 4);
        lemma_be_bytes_len(data_body(flag, value@).len() + 8, 4);
    }
    boxed(kind, data(flag, value)?.as_slice())
}

/// A value of an item to be.
enum Value {
    Text(String),
    Binary(Vec<u8>),
}

/// An item to be: its kind and its value.
struct Entry {
    kind: [u8; 4],
    value: Value,
}

impl View for Entry {
    type V = Item;

    closed spec fn view(&self) -> Item {
        match self.value {
            Value::Text(text) => Item { kind: self.kind@, flag: TEXT, value: encode_utf8(text@) },
            Value::Binary(bytes) => Item { kind: self.kind@, flag: BINARY, value: bytes@ },
        }
    }
}

/// What items a list of entries describes.
spec fn itemised(list: Seq<Entry>) -> Seq<Item> {
    Seq::new(list.len(), |i: int| list[i]@)
}

fn add_text(list: &mut Vec<Entry>, kind: [u8; 4], value: &Option<String>)
    ensures
        itemised(final(list)@) == itemised(old(list)@) + text_item(kind@, text_of(*value)),
{
    if let Some(text) = value {
        list.push(Entry { kind, value: Value::Text(text.clone()) });
    }
    proof {
        assert(itemised(list@) =~= itemised(old(list)@) + text_item(kind@, text_of(*value)));
    }
}

fn add_track(list: &mut Vec<Entry>, number: Option<Number>)
    ensures
        itemised(final(list)@) == itemised(old(list)@) + track_item(number),
{
    if let Some(number) = number {
        let total: u16 = match number.total {
            Some(total) => total,
            None => 0,
        };
        let mut payload: Vec<u8> = Vec::new();
        extend(&mut payload, [0u8, 0u8].as_slice());
        extend_be(&mut payload, number.index as u64, 2);
        extend_be(&mut payload, total as u64, 2);
        extend(&mut payload, [0u8, 0u8].as_slice());
        proof {
            assert(payload@ =~= track_item(Some(number))[0].value);
        }
        list.push(Entry { kind: TRACK, value: Value::Binary(payload) });
    }
    proof {
        assert(itemised(list@) =~= itemised(old(list)@) + track_item(number));
    }
}

fn add_volume(list: &mut Vec<Entry>, volume: Option<u16>)
    ensures
        itemised(final(list)@) == itemised(old(list)@) + volume_item(volume),
{
    if let Some(volume) = volume {
        let mut payload: Vec<u8> = Vec::new();
        extend(&mut payload, [0u8, 0u8].as_slice());
        extend_be(&mut payload, volume as u64, 2);
        extend(&mut payload, [0u8, 0u8].as_slice());
        proof {
            assert(payload@ =~= volume_item(Some(volume))[0].value);
        }
        list.push(Entry { kind: VOLUME, value: Value::Binary(payload) });
    }
    proof {
        assert(itemised(list@) =~= itemised(old(list)@) + volume_item(volume));
    }
}

/// The items of a list of tags in their order.
fn present(meta: &Meta) -> (r: Vec<Entry>)
    ensures
        itemised(r@) == items(meta@),
{
    let year = match meta.year {
        Some(year) => Some(decimal(year as u64)),
        None => None,
    };
    let mut list: Vec<Entry> = Vec::new();
    add_text(&mut list, NAME, &meta.title);
    add_text(&mut list, ARTIST, &meta.artists());
    add_text(&mut list, ALBUM, &meta.album);
    add_text(&mut list, ALBUM_ARTIST, &meta.album_artists());
    add_text(&mut list, YEAR, &year);
    add_text(&mut list, GENRE, &meta.genre);
    add_track(&mut list, meta.number);
    add_volume(&mut list, meta.volume);
    proof {
        assert(itemised(list@) =~= items(meta@));
    }
    list
}

/// The bytes of one item.
fn made(entry: &Entry) -> (r: Result<Vec<u8>, Reason>)
    ensures
        match r {
            Ok(out) => entry@.fits() && out@ == entry@.bytes(),
            Err(reason) => !entry@.fits() && reason == Reason::Overflow,
        },
{
    match &entry.value {
        Value::Text(value) => text(entry.kind, value.as_str()),
        Value::Binary(value) => item(entry.kind, BINARY, value.as_slice()),
    }
}

/// The items of a list of tags, one after another.
pub fn ilst(meta: &Meta) -> (r: Result<Vec<u8>, Reason>)
    ensures
        match r {
            Ok(out) => items_fit(items(meta@)) && out@ == items_bytes(items(meta@)),
            Err(reason) => !items_fit(items(meta@)) && reason == Reason::Overflow,
        },
{
    let list = present(meta);
    let ghost all = items(meta@);
    let mut out: Vec<u8> = Vec::new();
    let mut i: usize = 0;
    while i < list.len()
        invariant
            i <= list@.len(),
            all == items(meta@),
            itemised(list@) == all,
            items_fit(all.take(i as int)),
            out@ == items_bytes(all.take(i as int)),
        decreases list@.len() - i,
    {
        proof {
            assert(all[i as int] == list@[i as int]@);
        }
        let one = made(&list[i])?;
        extend(&mut out, one.as_slice());
        proof {
            let before = all.take(i as int);
            let next = all.take(i + 1);
            assert forall|j: int| 0 <= j < next.len() implies (#[trigger] next[j]).fits() by {
                if j < i {
                    assert(next[j] == before[j]);
                }
            }
            let parts = Seq::new(before.len(), |j: int| before[j].bytes());
            assert(Seq::new(next.len(), |j: int| next[j].bytes()) =~= parts.push(one@));
            lemma_flat_push(parts, one@);
        }
        i += 1;
    }
    proof {
        assert(all.take(all.len() as int) =~= all);
    }
    Ok(out)
}

/// The box of tags.
pub fn udta(meta: &Meta) -> (r: Result<Vec<u8>, Reason>)
    ensures
        match r {
            Ok(out) => udta_fits(meta@) && out@ == udta_bytes(meta@),
            Err(reason) => !udta_fits(meta@) && reason == Reason::Overflow,
        },
{
    let list = ilst(meta)?;
    proof {
        lemma_be_bytes_len(list@.len() + 8, 4);
        lemma_be_bytes_len(meta_body(meta@).len() + 8, 4);
    }
    let list = boxed(ILST, list.as_slice())?;
    let mut body: Vec<u8> = Vec::new();
    extend(&mut body, [0u8, 0u8, 0u8, 0u8].as_slice());
    extend(&mut body, HANDLER.as_slice());
    extend(&mut body, list.as_slice());
    proof {
        assert(body@ =~= meta_body(meta@));
    }
    let inner = boxed(META, body.as_slice())?;
    boxed(UDTA, inner.as_slice())
}

/// A `moov` of the old boxes without `udta`, and the new `udta`.
///
/// The old `udta` is replaced: two of them in one `moov` make a broken file.
pub fn rebuild(payload: &[u8], children: &[Span], meta: &Meta) -> (r: Result<Vec<u8>, Reason>)
    ensures
        ({
            let pieces = listed(children@);
            let kept = kept_bytes(payload@, pieces);
            match r {
                Ok(out) => kept_inside(payload@, pieces) && moov_fits(kept, meta@) && out@
                    == moov_bytes(kept, meta@),
                Err(Reason::Malformed) => !kept_inside(payload@, pieces),
                Err(reason) => kept_inside(payload@, pieces) && !moov_fits(kept, meta@) && reason
                    == Reason::Overflow,
            }
        }),
{
    let ghost pieces = listed(children@);
    let mut out: Vec<u8> = Vec::new();
    let mut i: usize = 0;
    proof {
        assert(pieces.skip(0) =~= pieces);
        assert(out@ + kept_bytes(payload@, pieces) =~= kept_bytes(payload@, pieces));
    }
    while i < children.len()
        invariant
            i <= children@.len(),
            pieces == listed(children@),
            kept_bytes(payload@, pieces) == out@ + kept_bytes(payload@, pieces.skip(i as int)),
            forall|j: int|
                0 <= j < i && (#[trigger] pieces[j]).kind != UDTA@ ==> pieces[j].limit()
                    <= payload@.len(),
        decreases children@.len() - i,
    {
        let span = children[i];
        let ghost rest = pieces.skip(i as int);
        let ghost before = out@;
        proof {
            assert(pieces[i as int] == span@);
            assert(rest[0] == span@);
            assert(rest.drop_first() =~= pieces.skip(i + 1));
        }
        if !is_kind(&span.kind, &UDTA) {
            let whole = span.whole(payload)?;
            extend(&mut out, whole);
            proof {
                let tail = kept_bytes(payload@, pieces.skip(i + 1));
                assert(before + (whole@ + tail) =~= (before + whole@) + tail);
            }
        }
        i += 1;
    }
    proof {
        assert(pieces.skip(i as int) =~= Seq::empty());
        assert(out@ + Seq::<u8>::empty() =~= out@);
    }
    let tags = udta(meta)?;
    extend(&mut out, tags.as_slice());
    boxed(MOOV, out.as_slice())
}

/// What is inside a box.
pub open spec fn inside(b: Seq<u8>, piece: Piece) -> Seq<u8> {
    b.subrange(piece.start + piece.header, piece.start + piece.size)
}

/// The change that a new `moov` of `len` bytes makes to a file with an old one.
pub open spec fn replacement(moov: Piece, len: int) -> Change {
    Change { start: moov.start, end: moov.start + moov.size, delta: len - moov.size }
}

/// What [`patch`] answers.
pub open spec fn patched(head: Seq<u8>, meta: MetaView) -> Built {
    match boxes(head, 0) {
        Err(reason) => Built::Refused(reason),
        Ok(top) => match first_of(top, MOOV@) {
            None => Built::More,
            Some(moov) => {
                let payload = inside(head, moov);
                match boxes(payload, 0) {
                    Err(reason) => Built::Refused(reason),
                    Ok(children) => {
                        let kept = kept_bytes(payload, children);
                        let rebuilt = moov_bytes(kept, meta);
                        if closed_at(children) != payload.len() {
                            Built::Refused(Reason::Malformed)
                        } else if first_of(children, MVEX@) is Some {
                            Built::Refused(Reason::Fragmented)
                        } else if !moov_fits(kept, meta) || moov.size > i64::MAX {
                            Built::Refused(Reason::Overflow)
                        } else {
                            match shifted(rebuilt, replacement(moov, rebuilt.len() as int)) {
                                Err(reason) => Built::Refused(reason),
                                Ok(new) => Built::Ready {
                                    head: head.take(moov.start) + new,
                                    used: moov.start + moov.size,
                                },
                            }
                        }
                    },
                }
            },
        },
    }
}

/// What [`verify`] answers.
pub open spec fn verified(head: Seq<u8>) -> Result<(), Reason> {
    match boxes(head, 0) {
        Err(reason) => Err(reason),
        Ok(top) => if closed_at(top) != head.len() {
            Err(Reason::Malformed)
        } else {
            match first_of(top, MOOV@) {
                None => Err(Reason::Malformed),
                Some(moov) => {
                    let payload = inside(head, moov);
                    match boxes(payload, 0) {
                        Err(reason) => Err(reason),
                        Ok(children) => if closed_at(children) == payload.len() && count_of(
                            children,
                            UDTA@,
                        ) == 1 {
                            Ok(())
                        } else {
                            Err(Reason::Malformed)
                        },
                    }
                },
            }
        },
    }
}

/// The first box of a kind.
fn find(list: &[Span], kind: &[u8; 4]) -> (r: Option<Span>)
    ensures
        match r {
            Some(span) => first_of(listed(list@), kind@) == Some(span@) && exists|i: int|
                0 <= i < list@.len() && (#[trigger] list@[i]) == span,
            None => first_of(listed(list@), kind@) is None,
        },
{
    let ghost pieces = listed(list@);
    let mut i: usize = 0;
    proof {
        assert(pieces.skip(0) =~= pieces);
    }
    while i < list.len()
        invariant
            i <= list@.len(),
            pieces == listed(list@),
            first_of(pieces, kind@) == first_of(pieces.skip(i as int), kind@),
        decreases list@.len() - i,
    {
        let span = list[i];
        proof {
            assert(pieces.skip(i as int)[0] == span@);
            assert(pieces.skip(i as int).drop_first() =~= pieces.skip(i + 1));
        }
        if is_kind(&span.kind, kind) {
            return Some(span);
        }
        i += 1;
    }
    None
}

/// How many boxes are of a kind.
fn count(list: &[Span], kind: &[u8; 4]) -> (r: usize)
    ensures
        r == count_of(listed(list@), kind@),
{
    let ghost pieces = listed(list@);
    let mut found: usize = 0;
    let mut i: usize = 0;
    while i < list.len()
        invariant
            found <= i <= list@.len(),
            pieces == listed(list@),
            found == count_of(pieces.take(i as int), kind@),
        decreases list@.len() - i,
    {
        proof {
            assert(pieces.take(i + 1).drop_last() =~= pieces.take(i as int));
        }
        if is_kind(&list[i].kind, kind) {
            found += 1;
        }
        i += 1;
    }
    proof {
        assert(pieces.take(i as int) =~= pieces);
    }
    found
}

/// Where the last box ends, or `0` without any.
fn closing(list: &[Span]) -> (r: usize)
    requires
        forall|i: int| 0 <= i < list@.len() ==> (#[trigger] list@[i]).start + list@[i].size
            <= usize::MAX,
    ensures
        r == closed_at(listed(list@)),
{
    if list.len() == 0 {
        0
    } else {
        list[list.len() - 1].end()
    }
}

/// Puts tags into the head of a file.
pub fn patch(head: &[u8], meta: &Meta) -> (r: Result<Outcome, Reason>)
    ensures
        built(r) == patched(head@, meta@),
{
    let top = spans(head)?;
    let moov = match find(top.as_slice(), &MOOV) {
        Some(moov) => moov,
        None => return Ok(Outcome::More),
    };
    proof {
        assert(head.len() <= usize::MAX);
        lemma_boxes_inside(head@, 0);
        let i = choose|i: int| 0 <= i < top@.len() && (#[trigger] top@[i]) == moov;
        assert(listed(top@)[i] == moov@);
    }
    let payload = moov.payload(head)?;
    let children = spans(payload)?;
    proof {
        lemma_boxes_inside(payload@, 0);
        lemma_children_inside(payload@, children@);
    }
    if closing(children.as_slice()) != payload.len() {
        return Err(Reason::Malformed);
    }
    if find(children.as_slice(), &MVEX).is_some() {
        return Err(Reason::Fragmented);
    }
    let rebuilt = rebuild(payload, children.as_slice(), meta)?;
    if moov.size as u64 > i64::MAX as u64 {
        return Err(Reason::Overflow);
    }
    proof {
        let content = kept_bytes(payload@, listed(children@)) + udta_bytes(meta@);
        lemma_be_bytes_len(content.len() + 8, 4);
    }
    let delta: i64 = rebuilt.len() as i64 - moov.size as i64;
    let bounds = Bounds { start: moov.start as u64, end: moov.end() as u64 };
    let rebuilt = shift(rebuilt, &bounds, delta)?;
    let mut out: Vec<u8> = Vec::new();
    extend(&mut out, vstd::slice::slice_subrange(head, 0, moov.start));
    extend(&mut out, rebuilt.as_slice());
    proof {
        assert(out@ =~= head@.take(moov.start as int) + rebuilt@);
    }
    Ok(Outcome::Ready { head: out, used: moov.end() })
}

/// Boxes that were read from bytes in memory end at positions in memory.
proof fn lemma_children_inside(payload: Seq<u8>, children: Seq<Span>)
    requires
        payload.len() <= usize::MAX,
        boxes(payload, 0) == Ok::<Seq<Piece>, Reason>(listed(children)),
    ensures
        kept_inside(payload, listed(children)),
        forall|i: int| 0 <= i < children.len() ==> (#[trigger] children[i]).start
            + children[i].size <= payload.len(),
{
    lemma_boxes_inside(payload, 0);
    assert forall|i: int| 0 <= i < children.len() implies (#[trigger] children[i]).start
        + children[i].size <= payload.len() by {
        assert(boxes(payload, 0)->Ok_0[i] == children[i]@);
    }
}

/// Checks a head by parsing it back.
pub fn verify(head: &[u8]) -> (r: Result<(), Reason>)
    ensures
        r == verified(head@),
{
    let top = spans(head)?;
    proof {
        assert(head.len() <= usize::MAX);
        lemma_children_inside(head@, top@);
    }
    if closing(top.as_slice()) != head.len() {
        return Err(Reason::Malformed);
    }
    let moov = match find(top.as_slice(), &MOOV) {
        Some(moov) => moov,
        None => return Err(Reason::Malformed),
    };
    proof {
        lemma_boxes_inside(head@, 0);
        let i = choose|i: int| 0 <= i < top@.len() && (#[trigger] top@[i]) == moov;
        assert(listed(top@)[i] == moov@);
    }
    let payload = moov.payload(head)?;
    let children = spans(payload)?;
    proof {
        assert(payload.len() <= usize::MAX);
        lemma_children_inside(payload@, children@);
    }
    if closing(children.as_slice()) != payload.len() {
        return Err(Reason::Malformed);
    }
    if count(children.as_slice(), &UDTA) == 1 {
        Ok(())
    } else {
        Err(Reason::Malformed)
    }
}

} // verus!
