//! What a rewritten `moov` keeps.
//!
//! The offsets of a file are rewritten one by one, at positions gathered before.
//! Here the same is said of the boxes themselves: every box stays as it is, but
//! for the entries of offset tables, and each of these keeps pointing at the
//! same byte of sound.

use vstd::prelude::*;

use super::mp4::{
    box_bytes, box_fits, boxes, container, count_of, entries_shifted, first_box, first_of, inside,
    items, items_bytes, kept_bytes, meta_body, moov_bytes, moov_fits, new_offset, number_at,
    patched, replacement, shifted, stored, table_shifted, tables_along, tables_in, tables_inside,
    tables_shifted, udta_bytes, udta_fits, verified, Change, Piece, Step, CO64, ILST, MDIA, META,
    MINF, MOOV, MVEX, STBL, STCO, TRAK, UDTA,
};
use super::{Built, MetaView, Reason};
use crate::bytes::{
    be_bytes, be_value, capacity, law_be_bytes_of_value, law_be_round_trip, lemma_be_bytes_len,
    lemma_be_value_bound, lemma_capacities,
};
use crate::text::{flat, lemma_flat_part};

verus! {

/// The first `count` numbers of `width` bytes each.
pub open spec fn numbers(e: Seq<u8>, width: int, count: int) -> Seq<int>
    decreases count,
{
    if count <= 0 {
        Seq::empty()
    } else {
        seq![be_value(e.take(width)) as int] + numbers(e.skip(width), width, count - 1)
    }
}

/// The bytes with the first `count` numbers replaced by where they point after a
/// change.
pub open spec fn numbers_moved(e: Seq<u8>, width: int, count: int, change: Change) -> Result<
    Seq<u8>,
    Reason,
>
    decreases count,
{
    if count <= 0 {
        Ok(e)
    } else {
        match new_offset(be_value(e.take(width)) as int, change) {
            Err(reason) => Err(reason),
            Ok(value) => if width == 4 && value > u32::MAX {
                Err(Reason::Overflow)
            } else {
                match numbers_moved(e.skip(width), width, count - 1, change) {
                    Err(reason) => Err(reason),
                    Ok(rest) => Ok(be_bytes(value as nat, width as nat) + rest),
                }
            },
        }
    }
}

/// How many entries a table claims to have.
pub open spec fn claimed(body: Seq<u8>) -> int {
    be_value(body.subrange(4, 8)) as int
}

/// Whether a table has room for the entries that it claims to have.
pub open spec fn table_whole(body: Seq<u8>, width: int) -> bool {
    8 <= body.len() && 8 + claimed(body) * width <= body.len()
}

/// The body of a table after a change.
pub open spec fn table_moved(body: Seq<u8>, width: int, change: Change) -> Result<
    Seq<u8>,
    Reason,
> {
    match numbers_moved(body.skip(8), width, claimed(body), change) {
        Err(reason) => Err(reason),
        Ok(entries) => Ok(body.take(8) + entries),
    }
}

/// What is inside a box after a change.
pub open spec fn content_moved(kind: Seq<u8>, body: Seq<u8>, change: Change) -> Result<
    Seq<u8>,
    Reason,
>
    decreases body.len(), 1nat,
{
    if kind == STCO@ {
        table_moved(body, 4, change)
    } else if kind == CO64@ {
        table_moved(body, 8, change)
    } else if container(kind) {
        relocated(body, change)
    } else {
        Ok(body)
    }
}

/// Boxes with the entries of all their offset tables replaced by where they
/// point after a change.
pub open spec fn relocated(b: Seq<u8>, change: Change) -> Result<Seq<u8>, Reason>
    decreases b.len(), 0nat,
{
    match first_box(b) {
        Step::Whole { kind, header, size } => match content_moved(
            kind,
            b.subrange(header, size),
            change,
        ) {
            Err(reason) => Err(reason),
            Ok(new) => match relocated(b.skip(size), change) {
                Err(reason) => Err(reason),
                Ok(rest) => Ok(b.take(header) + new + rest),
            },
        },
        _ => Ok(b),
    }
}

/// Whether all offset tables inside a box have room for their entries.
pub open spec fn content_whole(kind: Seq<u8>, body: Seq<u8>) -> bool
    decreases body.len(), 1nat,
{
    if kind == STCO@ {
        table_whole(body, 4)
    } else if kind == CO64@ {
        table_whole(body, 8)
    } else {
        container(kind) ==> tables_whole(body)
    }
}

/// Whether all offset tables have room for the entries that they claim to have.
pub open spec fn tables_whole(b: Seq<u8>) -> bool
    decreases b.len(), 0nat,
{
    match first_box(b) {
        Step::Whole { kind, header, size } => content_whole(kind, b.subrange(header, size))
            && tables_whole(b.skip(size)),
        _ => true,
    }
}

/// All offsets inside a box, in the order of the file.
pub open spec fn content_offsets(kind: Seq<u8>, body: Seq<u8>) -> Seq<int>
    decreases body.len(), 1nat,
{
    if kind == STCO@ {
        numbers(body.skip(8), 4, claimed(body))
    } else if kind == CO64@ {
        numbers(body.skip(8), 8, claimed(body))
    } else if container(kind) {
        offsets_in(body)
    } else {
        Seq::empty()
    }
}

/// All offsets in all tables, in the order of the file.
pub open spec fn offsets_in(b: Seq<u8>) -> Seq<int>
    decreases b.len(), 0nat,
{
    match first_box(b) {
        Step::Whole { kind, header, size } => content_offsets(kind, b.subrange(header, size))
            + offsets_in(b.skip(size)),
        _ => Seq::empty(),
    }
}

/// Each offset points after the change where the other list says.
pub open spec fn follow(old: Seq<int>, new: Seq<int>, change: Change) -> bool {
    &&& old.len() == new.len()
    &&& forall|i: int|
        0 <= i < old.len() ==> new_offset(#[trigger] old[i], change) == Ok::<int, Reason>(new[i])
}

// ---------------------------------------------------------------------------
// One table
// ---------------------------------------------------------------------------

/// Shifting entries in place changes the entries and nothing around them.
proof fn lemma_entries_local(
    pre: Seq<u8>,
    e: Seq<u8>,
    post: Seq<u8>,
    table: (int, int),
    index: int,
    count: int,
    change: Change,
)
    requires
        table.1 == 4 || table.1 == 8,
        0 <= index <= count,
        0 <= table.0,
        pre.len() == table.0 + 8 + index * table.1,
        (count - index) * table.1 <= e.len(),
        pre.len() + e.len() + post.len() <= usize::MAX,
        0 <= change.start <= change.end,
    ensures
        entries_shifted(pre + e + post, table, index, count, change) == match numbers_moved(
            e,
            table.1,
            count - index,
            change,
        ) {
            Err(reason) => Err::<Seq<u8>, Reason>(reason),
            Ok(new) => Ok(pre + new + post),
        },
    decreases count - index,
{
    let width = table.1;
    let m = pre + e + post;
    if index < count {
        assert((count - index) * width == width + (count - index - 1) * width) by (nonlinear_arith);
        assert((count - index - 1) * width >= 0) by (nonlinear_arith)
            requires
                count - index - 1 >= 0,
                width >= 0,
        ;
        assert((index + 1) * width == index * width + width) by (nonlinear_arith);
        let entry = table.0 + 8 + index * width;
        let field = e.take(width);
        assert(m.subrange(entry, entry + width) =~= field);
        lemma_be_value_bound(field);
        lemma_capacities();
        if let Ok(value) = new_offset(be_value(field) as int, change) {
            lemma_be_bytes_len(value as nat, width as nat);
            if !(width == 4 && value > u32::MAX) {
                let bytes = be_bytes(value as nat, width as nat);
                let next = pre + bytes + e.skip(width) + post;
                assert(m.take(entry) + bytes + m.skip(entry + width) =~= next);
                lemma_entries_local(
                    pre + bytes,
                    e.skip(width),
                    post,
                    table,
                    index + 1,
                    count,
                    change,
                );
                if let Ok(rest) = numbers_moved(e.skip(width), width, count - index - 1, change) {
                    assert(pre + bytes + rest + post =~= pre + (bytes + rest) + post);
                }
            }
        }
    }
}

/// Moved numbers take as many bytes, and are where the old ones point.
proof fn lemma_numbers_moved(e: Seq<u8>, width: int, count: int, change: Change)
    requires
        width == 4 || width == 8,
        0 <= count,
        count * width <= e.len(),
        0 <= change.start <= change.end,
        numbers_moved(e, width, count, change) is Ok,
    ensures
        numbers_moved(e, width, count, change)->Ok_0.len() == e.len(),
        follow(
            numbers(e, width, count),
            numbers(numbers_moved(e, width, count, change)->Ok_0, width, count),
            change,
        ),
    decreases count,
{
    if count > 0 {
        assert(count * width == width + (count - 1) * width) by (nonlinear_arith);
        assert((count - 1) * width >= 0) by (nonlinear_arith)
            requires
                count - 1 >= 0,
                width >= 0,
        ;
        let value = new_offset(be_value(e.take(width)) as int, change)->Ok_0;
        let rest = numbers_moved(e.skip(width), width, count - 1, change)->Ok_0;
        let bytes = be_bytes(value as nat, width as nat);
        lemma_numbers_moved(e.skip(width), width, count - 1, change);
        lemma_be_bytes_len(value as nat, width as nat);
        lemma_be_value_bound(e.take(width));
        lemma_capacities();
        law_be_round_trip(value as nat, width as nat);
        assert((bytes + rest).take(width) =~= bytes);
        assert((bytes + rest).skip(width) =~= rest);
        let old = numbers(e, width, count);
        let new = numbers(bytes + rest, width, count);
        assert forall|i: int| 0 <= i < old.len() implies new_offset(
            #[trigger] old[i],
            change,
        ) == Ok::<int, Reason>(new[i]) by {
            if i > 0 {
                assert(old[i] == numbers(e.skip(width), width, count - 1)[i - 1]);
                assert(new[i] == numbers(rest, width, count - 1)[i - 1]);
            }
        }
    }
}

/// Numbers that stay where they are leave the bytes as they are.
proof fn lemma_numbers_settled(e: Seq<u8>, width: int, count: int, change: Change)
    requires
        width == 4 || width == 8,
        0 <= count,
        count * width <= e.len(),
        follow(numbers(e, width, count), numbers(e, width, count), change),
    ensures
        numbers_moved(e, width, count, change) == Ok::<Seq<u8>, Reason>(e),
    decreases count,
{
    if count > 0 {
        assert(count * width == width + (count - 1) * width) by (nonlinear_arith);
        assert((count - 1) * width >= 0) by (nonlinear_arith)
            requires
                count - 1 >= 0,
                width >= 0,
        ;
        let all = numbers(e, width, count);
        let rest = numbers(e.skip(width), width, count - 1);
        assert(all[0] == be_value(e.take(width)));
        assert forall|i: int| 0 <= i < rest.len() implies new_offset(
            #[trigger] rest[i],
            change,
        ) == Ok::<int, Reason>(rest[i]) by {
            assert(all[i + 1] == rest[i]);
        }
        lemma_numbers_settled(e.skip(width), width, count - 1, change);
        law_be_bytes_of_value(e.take(width));
        lemma_be_value_bound(e.take(width));
        lemma_capacities();
        assert(e.take(width) + e.skip(width) =~= e);
    }
}

// ---------------------------------------------------------------------------
// Boxes
// ---------------------------------------------------------------------------

/// The kinds that matter are told apart.
proof fn lemma_kinds()
    ensures
        UDTA@.len() == 4,
        MOOV@.len() == 4,
        UDTA@ != STCO@,
        UDTA@ != CO64@,
        UDTA@ != MVEX@,
        UDTA@ != MOOV@,
        !container(UDTA@),
{
    assert(UDTA@[0] == 0x75 && UDTA@[1] == 0x64);
    assert(STCO@[0] == 0x73);
    assert(CO64@[0] == 0x63);
    assert(MVEX@[0] == 0x6D);
    assert(MOOV@[0] == 0x6D);
    assert(TRAK@[0] == 0x74);
    assert(MDIA@[0] == 0x6D);
    assert(MINF@[0] == 0x6D);
    assert(STBL@[0] == 0x73);
}

/// What begins a sequence begins any longer one.
proof fn lemma_first_box_extends(b: Seq<u8>, more: Seq<u8>)
    requires
        !(first_box(b) is End),
    ensures
        first_box(b + more) == first_box(b),
{
    let whole = b + more;
    assert(whole.take(4) =~= b.take(4));
    assert(whole.subrange(4, 8) =~= b.subrange(4, 8));
    if b.len() >= 16 {
        assert(whole.subrange(8, 16) =~= b.subrange(8, 16));
    }
}

/// What a sequence begins with depends on its length and the header alone.
proof fn lemma_first_box_header(b: Seq<u8>, other: Seq<u8>)
    requires
        first_box(b) is Whole,
        other.len() == b.len(),
        other.take(first_box(b)->header) == b.take(first_box(b)->header),
    ensures
        first_box(other) == first_box(b),
{
    let header = first_box(b)->header;
    let known = b.take(header);
    assert(b.take(4) =~= known.take(4));
    assert(other.take(4) =~= other.take(header).take(4));
    assert(b.subrange(4, 8) =~= known.subrange(4, 8));
    assert(other.subrange(4, 8) =~= other.take(header).subrange(4, 8));
    if header == 16 {
        assert(b.subrange(8, 16) =~= known.subrange(8, 16));
        assert(other.subrange(8, 16) =~= other.take(header).subrange(8, 16));
    }
}

/// A box with a 32-bit size is read back as it was made, whatever follows.
proof fn lemma_box_read_back(kind: Seq<u8>, payload: Seq<u8>, rest: Seq<u8>)
    requires
        kind.len() == 4,
        box_fits(payload),
    ensures
        box_bytes(kind, payload).len() == payload.len() + 8,
        box_bytes(kind, payload).skip(8) == payload,
        first_box(box_bytes(kind, payload) + rest) == (Step::Whole {
            kind,
            header: 8,
            size: payload.len() as int + 8,
        }),
{
    let made = box_bytes(kind, payload);
    let whole = made + rest;
    lemma_be_bytes_len(payload.len() + 8, 4);
    lemma_capacities();
    law_be_round_trip(payload.len() + 8, 4);
    assert(whole.take(4) =~= be_bytes(payload.len() + 8, 4));
    assert(whole.subrange(4, 8) =~= kind);
    assert(made.skip(8) =~= payload);
}

/// Whole boxes from the start to the end.
pub open spec fn closes(b: Seq<u8>) -> bool
    decreases b.len(),
{
    b.len() == 0 || match first_box(b) {
        Step::Whole { kind, header, size } => closes(b.skip(size)),
        _ => false,
    }
}

/// Whole boxes before others are read first.
proof fn lemma_boxes_append(a: Seq<u8>, b: Seq<u8>, base: int)
    requires
        closes(a),
    ensures
        boxes(a, base) is Ok,
        boxes(a + b, base) == match boxes(b, base + a.len()) {
            Err(reason) => Err::<Seq<Piece>, Reason>(reason),
            Ok(rest) => Ok(boxes(a, base)->Ok_0 + rest),
        },
    decreases a.len(),
{
    if a.len() == 0 {
        assert(a + b =~= b);
        if let Ok(rest) = boxes(b, base) {
            assert(boxes(a, base)->Ok_0 + rest =~= rest);
        }
    } else {
        let size = first_box(a)->size;
        lemma_first_box_extends(a, b);
        assert((a + b).skip(size) =~= a.skip(size) + b);
        lemma_boxes_append(a.skip(size), b, base + size);
        if let Ok(rest) = boxes(b, base + a.len()) {
            let first = Piece {
                kind: first_box(a)->kind,
                start: base,
                header: first_box(a)->header,
                size,
            };
            let middle = boxes(a.skip(size), base + size)->Ok_0;
            assert(seq![first] + (middle + rest) =~= (seq![first] + middle) + rest);
        }
    }
}

proof fn lemma_closes_append(a: Seq<u8>, b: Seq<u8>)
    requires
        closes(a),
        closes(b),
    ensures
        closes(a + b),
    decreases a.len(),
{
    if a.len() == 0 {
        assert(a + b =~= b);
    } else {
        let size = first_box(a)->size;
        lemma_first_box_extends(a, b);
        assert((a + b).skip(size) =~= a.skip(size) + b);
        lemma_closes_append(a.skip(size), b);
    }
}

/// Where the last box of a list ends, for boxes that begin at `base`.
spec fn ends_at(list: Seq<Piece>, base: int) -> int {
    if list.len() == 0 {
        base
    } else {
        list.last().start + list.last().size
    }
}

/// The list of boxes says whether they close.
proof fn lemma_closes(b: Seq<u8>, base: int)
    requires
        boxes(b, base) is Ok,
    ensures
        closes(b) <==> ends_at(boxes(b, base)->Ok_0, base) == base + b.len(),
    decreases b.len(),
{
    if let Step::Whole { kind, header, size } = first_box(b) {
        lemma_closes(b.skip(size), base + size);
        let rest = boxes(b.skip(size), base + size)->Ok_0;
        let list = boxes(b, base)->Ok_0;
        assert(list =~= seq![Piece { kind, start: base, header, size }] + rest);
    }
}

/// The first box of a kind parts the boxes before it from what follows.
proof fn lemma_first_of(b: Seq<u8>, base: int, kind: Seq<u8>)
    requires
        boxes(b, base) is Ok,
        first_of(boxes(b, base)->Ok_0, kind) is Some,
    ensures
        ({
            let found = first_of(boxes(b, base)->Ok_0, kind)->Some_0;
            let at = found.start - base;
            &&& 0 <= at <= b.len()
            &&& closes(b.take(at))
            &&& boxes(b.take(at), base) is Ok
            &&& first_of(boxes(b.take(at), base)->Ok_0, kind) is None
            &&& first_box(b.skip(at)) == (Step::Whole {
                kind,
                header: found.header,
                size: found.size,
            })
            &&& boxes(b.skip(at), found.start) is Ok
        }),
    decreases b.len(),
{
    let list = boxes(b, base)->Ok_0;
    let found = first_of(list, kind)->Some_0;
    let at = found.start - base;
    let first_kind = first_box(b)->kind;
    let size = first_box(b)->size;
    let first = Piece { kind: first_kind, start: base, header: first_box(b)->header, size };
    let rest = boxes(b.skip(size), base + size)->Ok_0;
    assert(list =~= seq![first] + rest);
    assert(list.drop_first() =~= rest);
    if first_kind == kind {
        assert(b.take(0).len() == 0);
        assert(b.skip(0) =~= b);
    } else {
        lemma_first_of(b.skip(size), base + size, kind);
        let before = b.skip(size).take(at - size);
        assert(b.take(at).skip(size) =~= before);
        assert(first_box(b.take(at)) == first_box(b)) by {
            let short = b.take(at);
            assert(short.take(4) =~= b.take(4));
            assert(short.subrange(4, 8) =~= b.subrange(4, 8));
            if first.header == 16 {
                assert(short.subrange(8, 16) =~= b.subrange(8, 16));
            }
        }
        let earlier = boxes(before, base + size)->Ok_0;
        assert(boxes(b.take(at), base)->Ok_0 =~= seq![first] + earlier);
        assert(boxes(b.take(at), base)->Ok_0.drop_first() =~= earlier);
        assert(b.skip(size).skip(at - size) =~= b.skip(at));
    }
}

/// In a joined list the first part is searched first.
proof fn lemma_first_of_append(a: Seq<Piece>, b: Seq<Piece>, kind: Seq<u8>)
    ensures
        first_of(a + b, kind) == match first_of(a, kind) {
            Some(found) => Some(found),
            None => first_of(b, kind),
        },
    decreases a.len(),
{
    if a.len() == 0 {
        assert(a + b =~= b);
    } else {
        assert((a + b).drop_first() =~= a.drop_first() + b);
        lemma_first_of_append(a.drop_first(), b, kind);
    }
}

pub proof fn lemma_count_of_append(a: Seq<Piece>, b: Seq<Piece>, kind: Seq<u8>)
    ensures
        count_of(a + b, kind) == count_of(a, kind) + count_of(b, kind),
    decreases b.len(),
{
    if b.len() == 0 {
        assert(a + b =~= a);
    } else {
        assert((a + b).drop_last() =~= a + b.drop_last());
        lemma_count_of_append(a, b.drop_last(), kind);
    }
}

/// There are none of a kind if there is no first one.
proof fn lemma_count_of_none(list: Seq<Piece>, kind: Seq<u8>)
    requires
        first_of(list, kind) is None,
    ensures
        count_of(list, kind) == 0,
    decreases list.len(),
{
    if list.len() > 0 {
        lemma_count_of_none(list.drop_first(), kind);
        assert(list =~= seq![list[0]] + list.drop_first());
        lemma_count_of_append(seq![list[0]], list.drop_first(), kind);
        assert(seq![list[0]].drop_last() =~= Seq::empty());
        assert(count_of(seq![list[0]].drop_last(), kind) == 0);
    }
}

// ---------------------------------------------------------------------------
// All tables
// ---------------------------------------------------------------------------

/// Shifting the tables of two lists is shifting those of the first, then those of
/// the second.
proof fn lemma_tables_shifted_append(
    m: Seq<u8>,
    a: Seq<(int, int)>,
    b: Seq<(int, int)>,
    change: Change,
)
    ensures
        tables_shifted(m, a + b, change) == match tables_shifted(m, a, change) {
            Err(reason) => Err::<Seq<u8>, Reason>(reason),
            Ok(next) => tables_shifted(next, b, change),
        },
    decreases a.len(),
{
    if a.len() == 0 {
        assert(a + b =~= b);
    } else {
        assert((a + b).drop_first() =~= a.drop_first() + b);
        if let Ok(next) = table_shifted(m, a[0], change) {
            lemma_tables_shifted_append(next, a.drop_first(), b, change);
        }
    }
}

/// Shifting one table in place changes its entries and nothing around it.
proof fn lemma_table_local(
    pre: Seq<u8>,
    body: Seq<u8>,
    post: Seq<u8>,
    width: int,
    change: Change,
)
    requires
        width == 4 || width == 8,
        table_whole(body, width),
        pre.len() + body.len() + post.len() <= usize::MAX,
        0 <= change.start <= change.end,
    ensures
        tables_shifted(pre + body + post, seq![(pre.len() as int, width)], change)
            == match table_moved(body, width, change) {
            Err(reason) => Err::<Seq<u8>, Reason>(reason),
            Ok(new) => Ok(pre + new + post),
        },
        table_moved(body, width, change) matches Ok(new) ==> new.len() == body.len(),
{
    let at = pre.len() as int;
    let m = pre + body + post;
    let table = (at, width);
    let start = pre + body.take(8);
    let entries = body.skip(8);
    assert(m.subrange(at + 4, at + 8) =~= body.subrange(4, 8));
    lemma_be_value_bound(body.subrange(4, 8));
    lemma_capacities();
    let count = claimed(body);
    assert(m =~= start + entries + post);
    assert((count - 0) * width == count * width) by (nonlinear_arith);
    lemma_entries_local(start, entries, post, table, 0, count, change);
    if let Ok(new) = numbers_moved(entries, width, count, change) {
        lemma_numbers_moved(entries, width, count, change);
        assert(start + new + post =~= pre + (body.take(8) + new) + post);
    }
    assert(seq![table].drop_first() =~= Seq::empty());
    if let Ok(next) = table_shifted(m, table, change) {
        assert(tables_shifted(next, seq![table].drop_first(), change) == Ok::<Seq<u8>, Reason>(
            next,
        ));
    }
}

/// Shifting the tables inside a box changes nothing around it.
proof fn lemma_content_local(
    pre: Seq<u8>,
    kind: Seq<u8>,
    body: Seq<u8>,
    post: Seq<u8>,
    change: Change,
)
    requires
        tables_inside(kind, body, pre.len() as int).error is None,
        content_whole(kind, body),
        pre.len() + body.len() + post.len() <= usize::MAX,
        0 <= change.start <= change.end,
    ensures
        tables_shifted(
            pre + body + post,
            tables_inside(kind, body, pre.len() as int).tables,
            change,
        ) == match content_moved(kind, body, change) {
            Err(reason) => Err::<Seq<u8>, Reason>(reason),
            Ok(new) => Ok(pre + new + post),
        },
        content_moved(kind, body, change) matches Ok(new) ==> new.len() == body.len(),
    decreases body.len(), 1nat,
{
    if kind == STCO@ {
        lemma_table_local(pre, body, post, 4, change);
    } else if kind == CO64@ {
        lemma_table_local(pre, body, post, 8, change);
    } else if container(kind) {
        assert(tables_in(body, pre.len() as int).error is None);
        assert(tables_in(body, pre.len() as int) == tables_along(body, pre.len() as int));
        lemma_boxes_local(pre, body, post, change);
    }
}

/// Shifting all tables in place is relocating the boxes, and changes nothing
/// around them.
proof fn lemma_boxes_local(pre: Seq<u8>, b: Seq<u8>, post: Seq<u8>, change: Change)
    requires
        tables_along(b, pre.len() as int).error is None,
        tables_whole(b),
        pre.len() + b.len() + post.len() <= usize::MAX,
        0 <= change.start <= change.end,
    ensures
        tables_shifted(pre + b + post, tables_along(b, pre.len() as int).tables, change)
            == match relocated(b, change) {
            Err(reason) => Err::<Seq<u8>, Reason>(reason),
            Ok(new) => Ok(pre + new + post),
        },
        relocated(b, change) matches Ok(new) ==> new.len() == b.len(),
    decreases b.len(), 0nat,
{
    let m = pre + b + post;
    match first_box(b) {
        Step::Whole { kind, header, size } => {
            let at = pre.len() + header;
            let body = b.subrange(header, size);
            let tail = b.skip(size);
            let front = pre + b.take(header);
            let here = tables_inside(kind, body, at);
            let rest = tables_along(tail, pre.len() + size);
            assert(front.len() == at);
            assert(m =~= front + body + (tail + post));
            lemma_content_local(front, kind, body, tail + post, change);
            lemma_tables_shifted_append(m, here.tables, rest.tables, change);
            if let Ok(new) = content_moved(kind, body, change) {
                let next = pre + b.take(header) + new;
                assert(front + new + (tail + post) =~= next + tail + post);
                assert(next.len() == pre.len() + size);
                lemma_boxes_local(next, tail, post, change);
                if let Ok(last) = relocated(tail, change) {
                    assert(next + last + post =~= pre + (b.take(header) + new + last) + post);
                }
            }
        },
        _ => {},
    }
}

/// Relocating keeps the boxes, and moves each offset.
proof fn lemma_relocated(b: Seq<u8>, change: Change)
    requires
        tables_whole(b),
        0 <= change.start <= change.end,
        relocated(b, change) is Ok,
    ensures
        relocated(b, change)->Ok_0.len() == b.len(),
        first_box(relocated(b, change)->Ok_0) == first_box(b),
        forall|base: int|
            #[trigger] boxes(relocated(b, change)->Ok_0, base) == boxes(b, base),
        forall|base: int|
            #[trigger] tables_along(relocated(b, change)->Ok_0, base) == tables_along(b, base),
        closes(b) ==> closes(relocated(b, change)->Ok_0),
        tables_whole(relocated(b, change)->Ok_0),
        follow(offsets_in(b), offsets_in(relocated(b, change)->Ok_0), change),
    decreases b.len(),
{
    reveal_with_fuel(tables_whole, 2);
    reveal_with_fuel(content_whole, 2);
    reveal_with_fuel(relocated, 2);
    reveal_with_fuel(content_moved, 2);
    reveal_with_fuel(offsets_in, 2);
    reveal_with_fuel(content_offsets, 2);
    let y = relocated(b, change)->Ok_0;
    match first_box(b) {
        Step::Whole { kind, header, size } => {
            let body = b.subrange(header, size);
            let tail = b.skip(size);
            let new = content_moved(kind, body, change)->Ok_0;
            let rest = relocated(tail, change)->Ok_0;
            lemma_relocated(tail, change);
            if kind == STCO@ {
                lemma_table_moved(body, 4, change);
            } else if kind == CO64@ {
                lemma_table_moved(body, 8, change);
            } else if container(kind) {
                lemma_relocated(body, change);
            }
            assert(new.len() == body.len());
            assert(y =~= b.take(header) + new + rest);
            assert(y.take(header) =~= b.take(header));
            lemma_first_box_header(b, y);
            assert(y.subrange(header, size) =~= new);
            assert(y.skip(size) =~= rest);
            assert forall|base: int| #[trigger] boxes(y, base) == boxes(b, base) by {
                assert(boxes(rest, base + size) == boxes(tail, base + size));
            }
            assert forall|base: int| #[trigger] tables_along(y, base) == tables_along(b, base) by {
                assert(tables_along(rest, base + size) == tables_along(tail, base + size));
                assert(tables_inside(kind, new, base + header) == tables_inside(
                    kind,
                    body,
                    base + header,
                )) by {
                    reveal_with_fuel(tables_inside, 2);
                    if kind != STCO@ && kind != CO64@ && container(kind) {
                        assert(tables_in(new, base + header) == tables_in(body, base + header)) by {
                            assert(boxes(new, 0) == boxes(body, 0));
                            assert(tables_along(new, base + header) == tables_along(
                                body,
                                base + header,
                            ));
                        }
                    }
                }
            }
            let old = content_offsets(kind, body);
            let moved = content_offsets(kind, new);
            assert(follow(old, moved, change));
            let old_rest = offsets_in(tail);
            let moved_rest = offsets_in(rest);
            assert forall|i: int| 0 <= i < (old + old_rest).len() implies new_offset(
                #[trigger] (old + old_rest)[i],
                change,
            ) == Ok::<int, Reason>((moved + moved_rest)[i]) by {
                if i < old.len() {
                    assert((old + old_rest)[i] == old[i]);
                } else {
                    assert((old + old_rest)[i] == old_rest[i - old.len()]);
                }
            }
        },
        _ => {},
    }
}

pub proof fn lemma_table_moved(body: Seq<u8>, width: int, change: Change)
    requires
        width == 4 || width == 8,
        table_whole(body, width),
        0 <= change.start <= change.end,
        table_moved(body, width, change) is Ok,
    ensures
        ({
            let new = table_moved(body, width, change)->Ok_0;
            &&& new.len() == body.len()
            &&& table_whole(new, width)
            &&& claimed(new) == claimed(body)
            &&& follow(
                numbers(body.skip(8), width, claimed(body)),
                numbers(new.skip(8), width, claimed(new)),
                change,
            )
        }),
{
    let new = table_moved(body, width, change)->Ok_0;
    let entries = numbers_moved(body.skip(8), width, claimed(body), change)->Ok_0;
    lemma_numbers_moved(body.skip(8), width, claimed(body), change);
    assert(new.subrange(4, 8) =~= body.subrange(4, 8));
    assert(new.skip(8) =~= entries);
}

/// Boxes whose offsets all stay are left as they are.
proof fn lemma_settled(b: Seq<u8>, change: Change)
    requires
        tables_whole(b),
        follow(offsets_in(b), offsets_in(b), change),
    ensures
        relocated(b, change) == Ok::<Seq<u8>, Reason>(b),
    decreases b.len(),
{
    reveal_with_fuel(tables_whole, 2);
    reveal_with_fuel(content_whole, 2);
    reveal_with_fuel(relocated, 2);
    reveal_with_fuel(content_moved, 2);
    reveal_with_fuel(offsets_in, 2);
    reveal_with_fuel(content_offsets, 2);
    match first_box(b) {
        Step::Whole { kind, header, size } => {
            let body = b.subrange(header, size);
            let tail = b.skip(size);
            let own = content_offsets(kind, body);
            let rest = offsets_in(tail);
            let all = own + rest;
            assert forall|i: int| 0 <= i < own.len() implies new_offset(
                #[trigger] own[i],
                change,
            ) == Ok::<int, Reason>(own[i]) by {
                assert(all[i] == own[i]);
            }
            assert forall|i: int| 0 <= i < rest.len() implies new_offset(
                #[trigger] rest[i],
                change,
            ) == Ok::<int, Reason>(rest[i]) by {
                assert(all[own.len() + i] == rest[i]);
            }
            if kind == STCO@ {
                lemma_numbers_settled(body.skip(8), 4, claimed(body), change);
                assert(body.take(8) + body.skip(8) =~= body);
            } else if kind == CO64@ {
                lemma_numbers_settled(body.skip(8), 8, claimed(body), change);
                assert(body.take(8) + body.skip(8) =~= body);
            } else if container(kind) {
                lemma_settled(body, change);
            }
            lemma_settled(tail, change);
            assert(b.take(header) + body + tail =~= b);
        },
        _ => {},
    }
}

/// Whole boxes before others are relocated on their own, and so on.
proof fn lemma_append(a: Seq<u8>, b: Seq<u8>, change: Change)
    requires
        closes(a),
    ensures
        offsets_in(a + b) == offsets_in(a) + offsets_in(b),
        tables_whole(a + b) == (tables_whole(a) && tables_whole(b)),
        relocated(a + b, change) == match relocated(a, change) {
            Err(reason) => Err::<Seq<u8>, Reason>(reason),
            Ok(first) => match relocated(b, change) {
                Err(reason) => Err(reason),
                Ok(second) => Ok(first + second),
            },
        },
    decreases a.len(),
{
    if a.len() == 0 {
        assert(a + b =~= b);
        assert(offsets_in(a) + offsets_in(b) =~= offsets_in(b));
        if let Ok(second) = relocated(b, change) {
            assert(a + second =~= second);
        }
    } else {
        let kind = first_box(a)->kind;
        let header = first_box(a)->header;
        let size = first_box(a)->size;
        let body = a.subrange(header, size);
        let tail = a.skip(size);
        lemma_first_box_extends(a, b);
        assert((a + b).skip(size) =~= tail + b);
        assert((a + b).subrange(header, size) =~= body);
        assert((a + b).take(header) =~= a.take(header));
        lemma_append(tail, b, change);
        let own = content_offsets(kind, body);
        assert(own + (offsets_in(tail) + offsets_in(b)) =~= (own + offsets_in(tail))
            + offsets_in(b));
        if let Ok(new) = content_moved(kind, body, change) {
            if let Ok(rest) = relocated(tail, change) {
                if let Ok(second) = relocated(b, change) {
                    assert(a.take(header) + new + (rest + second) =~= (a.take(header) + new + rest)
                        + second);
                }
            }
        }
    }
}

// ---------------------------------------------------------------------------
// The boxes that are kept
// ---------------------------------------------------------------------------

/// The boxes that are not `udta`, one after another.
pub open spec fn without_tags(b: Seq<u8>) -> Seq<u8>
    decreases b.len(),
{
    match first_box(b) {
        Step::Whole { kind, header, size } => if kind == UDTA@ {
            without_tags(b.skip(size))
        } else {
            b.take(size) + without_tags(b.skip(size))
        },
        _ => Seq::empty(),
    }
}

/// The kept boxes of a list are the boxes of the bytes without `udta`.
proof fn lemma_kept(whole: Seq<u8>, base: int)
    requires
        0 <= base <= whole.len() <= usize::MAX,
        boxes(whole.skip(base), base) is Ok,
    ensures
        kept_bytes(whole, boxes(whole.skip(base), base)->Ok_0) == without_tags(whole.skip(base)),
    decreases whole.len() - base,
{
    let b = whole.skip(base);
    if let Step::Whole { kind, header, size } = first_box(b) {
        assert(b.skip(size) =~= whole.skip(base + size));
        lemma_kept(whole, base + size);
        let list = boxes(b, base)->Ok_0;
        let rest = boxes(b.skip(size), base + size)->Ok_0;
        assert(list =~= seq![Piece { kind, start: base, header, size }] + rest);
        assert(list.drop_first() =~= rest);
        assert(whole.subrange(base, base + size) =~= b.take(size));
    }
}

/// A single whole box at the head of a sequence stands on its own.
proof fn lemma_single(b: Seq<u8>)
    requires
        first_box(b) is Whole,
    ensures
        first_box(b.take(first_box(b)->size)) == first_box(b),
        closes(b.take(first_box(b)->size)),
        b.take(first_box(b)->size) + b.skip(first_box(b)->size) == b,
{
    let size = first_box(b)->size;
    let one = b.take(size);
    assert(one.take(4) =~= b.take(4));
    assert(one.subrange(4, 8) =~= b.subrange(4, 8));
    if size >= 16 {
        assert(one.subrange(8, 16) =~= b.subrange(8, 16));
    }
    assert(one.skip(size).len() == 0);
    assert(closes(one.skip(size)));
    assert(one + b.skip(size) =~= b);
}

/// Dropping `udta` keeps all other boxes and all offsets.
proof fn lemma_without_tags(b: Seq<u8>)
    requires
        closes(b),
    ensures
        closes(without_tags(b)),
        without_tags(without_tags(b)) == without_tags(b),
        offsets_in(without_tags(b)) == offsets_in(b),
        tables_whole(b) ==> tables_whole(without_tags(b)),
        first_of(boxes(without_tags(b), 0)->Ok_0, UDTA@) is None,
        first_of(boxes(b, 0)->Ok_0, MVEX@) is None ==> first_of(
            boxes(without_tags(b), 0)->Ok_0,
            MVEX@,
        ) is None,
    decreases b.len(),
{
    lemma_kinds();
    reveal_with_fuel(content_whole, 2);
    reveal_with_fuel(content_offsets, 2);
    if b.len() > 0 {
        let kind = first_box(b)->kind;
        let size = first_box(b)->size;
        let one = b.take(size);
        let tail = b.skip(size);
        let rest = without_tags(tail);
        let any = Change { start: 0, end: 0, delta: 0 };
        lemma_without_tags(tail);
        lemma_single(b);
        lemma_append(one, tail, any);
        lemma_boxes_shape(one, tail);
        lemma_first_of_moves(tail, 0, size, MVEX@);
        lemma_first_of_append(boxes(one, 0)->Ok_0, boxes(tail, size)->Ok_0, MVEX@);
        if kind == UDTA@ {
            assert(content_offsets(kind, b.subrange(first_box(b)->header, size)) =~= Seq::empty());
            assert(offsets_in(b) =~= offsets_in(tail));
        } else {
            lemma_append(one, rest, any);
            lemma_closes_append(one, rest);
            lemma_first_box_extends(one, rest);
            assert((one + rest).take(size) =~= one);
            assert((one + rest).skip(size) =~= rest);
            lemma_boxes_shape(one, rest);
            lemma_first_of_moves(rest, 0, size, MVEX@);
            lemma_first_of_moves(rest, 0, size, UDTA@);
            lemma_first_of_append(boxes(one, 0)->Ok_0, boxes(rest, size)->Ok_0, MVEX@);
            lemma_first_of_append(boxes(one, 0)->Ok_0, boxes(rest, size)->Ok_0, UDTA@);
        }
    }
}

/// A single box and what follows it, as one list.
proof fn lemma_boxes_shape(one: Seq<u8>, rest: Seq<u8>)
    requires
        first_box(one) is Whole,
        first_box(one)->size == one.len(),
        closes(rest),
    ensures
        boxes(one + rest, 0) is Ok,
        boxes(one, 0) is Ok,
        boxes(rest, one.len() as int) is Ok,
        boxes(one, 0)->Ok_0 == seq![
            Piece {
                kind: first_box(one)->kind,
                start: 0,
                header: first_box(one)->header,
                size: one.len() as int,
            },
        ],
        boxes(one + rest, 0)->Ok_0 == boxes(one, 0)->Ok_0 + boxes(rest, one.len() as int)->Ok_0,
        forall|kind: Seq<u8>|
            kind != first_box(one)->kind ==> #[trigger] first_of(boxes(one, 0)->Ok_0, kind) is None,
{
    let nothing = one.skip(one.len() as int);
    assert(nothing.len() == 0);
    assert(closes(nothing));
    assert(closes(one));
    assert(boxes(nothing, one.len() as int) == Ok::<Seq<Piece>, Reason>(Seq::empty()));
    let only = Piece {
        kind: first_box(one)->kind,
        start: 0,
        header: first_box(one)->header,
        size: one.len() as int,
    };
    assert(boxes(one, 0)->Ok_0 =~= seq![only]);
    lemma_boxes_append(one, rest, 0);
    assert(rest + Seq::<u8>::empty() =~= rest);
    lemma_boxes_append(rest, Seq::empty(), one.len() as int);
    assert forall|kind: Seq<u8>| kind != only.kind implies #[trigger] first_of(
        boxes(one, 0)->Ok_0,
        kind,
    ) is None by {
        assert(seq![only].drop_first() =~= Seq::empty());
        assert(first_of(seq![only].drop_first(), kind) is None);
    }
}

/// Whether there is a box of a kind does not depend on where the boxes begin.
proof fn lemma_first_of_moves(b: Seq<u8>, base: int, other: int, kind: Seq<u8>)
    requires
        closes(b),
    ensures
        boxes(b, base) is Ok,
        boxes(b, other) is Ok,
        first_of(boxes(b, base)->Ok_0, kind) is Some <==> first_of(
            boxes(b, other)->Ok_0,
            kind,
        ) is Some,
    decreases b.len(),
{
    if b.len() > 0 {
        let size = first_box(b)->size;
        lemma_first_of_moves(b.skip(size), base + size, other + size, kind);
        let here = boxes(b, base)->Ok_0;
        let there = boxes(b, other)->Ok_0;
        assert(here.drop_first() =~= boxes(b.skip(size), base + size)->Ok_0);
        assert(there.drop_first() =~= boxes(b.skip(size), other + size)->Ok_0);
    }
}

// ---------------------------------------------------------------------------
// The laws
// ---------------------------------------------------------------------------

/// The first `moov` of a file.
pub open spec fn moov_of(b: Seq<u8>) -> Option<Piece> {
    match boxes(b, 0) {
        Ok(top) => first_of(top, MOOV@),
        Err(_) => None,
    }
}

/// What is inside the first `moov` of a file.
pub open spec fn moov_content(b: Seq<u8>) -> Seq<u8> {
    inside(b, moov_of(b)->Some_0)
}

/// All offsets of sound in a file, in the order of the file.
pub open spec fn offsets(b: Seq<u8>) -> Seq<int> {
    offsets_in(moov_content(b))
}

/// Whether the offset tables of a file have room for their entries.
pub open spec fn sound_tables(b: Seq<u8>) -> bool {
    tables_whole(moov_content(b))
}

/// How putting tags into a file changes it.
pub open spec fn change_in(file: Seq<u8>, meta: MetaView) -> Change {
    let moov = moov_of(file)->Some_0;
    let rebuilt = moov_bytes(without_tags(moov_content(file)), meta);
    replacement(moov, rebuilt.len() as int)
}

/// The file with its head rewritten.
pub open spec fn spliced(file: Seq<u8>, meta: MetaView) -> Seq<u8> {
    patched(file, meta)->head + file.skip(patched(file, meta)->used)
}

/// A new head is the bytes before `moov` as they were, and a `moov` that holds the
/// old boxes but `udta`, their offsets moved, and the tags behind them.
pub proof fn law_new_head(file: Seq<u8>, meta: MetaView)
    requires
        file.len() <= usize::MAX,
        patched(file, meta) is Ready,
        sound_tables(file),
    ensures
        ({
            let moov = moov_of(file)->Some_0;
            let kept = without_tags(moov_content(file));
            let new = relocated(kept, change_in(file, meta));
            &&& new is Ok
            &&& new->Ok_0.len() == kept.len()
            &&& patched(file, meta) == (Built::Ready {
                head: file.take(moov.start) + box_bytes(MOOV@, new->Ok_0 + udta_bytes(meta)),
                used: moov.start + moov.size,
            })
            &&& 0 <= moov.start
            &&& moov.start + moov.size <= file.len()
            &&& patched(file, meta)->head.len() == moov.start + moov.size + change_in(
                file,
                meta,
            ).delta
        }),
{
    lemma_ready(file, meta);
    let kept = without_tags(moov_content(file));
    let tags = udta_bytes(meta);
    let change = change_in(file, meta);
    lemma_udta(meta);
    lemma_append(kept, tags, change);
    lemma_shifted(kept + tags, change);
    lemma_relocated(kept + tags, change);
    lemma_udta_stays(meta, change);
    let new = relocated(kept, change)->Ok_0;
    lemma_relocated(kept, change);
    lemma_kinds();
    lemma_box_read_back(MOOV@, new + tags, Seq::empty());
}

/// Shifting a `moov` is relocating the boxes inside.
proof fn lemma_shifted(content: Seq<u8>, change: Change)
    requires
        box_fits(content),
        tables_in(content, 8).error is None,
        tables_whole(content),
        0 <= change.start <= change.end,
    ensures
        shifted(box_bytes(MOOV@, content), change) == match relocated(content, change) {
            Err(reason) => Err::<Seq<u8>, Reason>(reason),
            Ok(new) => Ok(box_bytes(MOOV@, new)),
        },
{
    let m = box_bytes(MOOV@, content);
    let nothing = Seq::<u8>::empty();
    let pre = m.take(8);
    lemma_kinds();
    lemma_box_read_back(MOOV@, content, nothing);
    lemma_be_bytes_len(content.len() + 8, 4);
    assert(m =~= pre + content + nothing);
    lemma_boxes_local(pre, content, nothing, change);
    if let Ok(new) = relocated(content, change) {
        lemma_be_bytes_len(new.len() + 8, 4);
        assert(pre + new + nothing =~= box_bytes(MOOV@, new));
    }
}

/// The box of tags is one whole box without offsets.
proof fn lemma_udta(meta: MetaView)
    requires
        udta_fits(meta),
    ensures
        first_box(udta_bytes(meta)) == (Step::Whole {
            kind: UDTA@,
            header: 8,
            size: udta_bytes(meta).len() as int,
        }),
        closes(udta_bytes(meta)),
        offsets_in(udta_bytes(meta)) == Seq::<int>::empty(),
        tables_whole(udta_bytes(meta)),
        without_tags(udta_bytes(meta)) == Seq::<u8>::empty(),
{
    reveal_with_fuel(content_whole, 2);
    reveal_with_fuel(content_offsets, 2);
    reveal_with_fuel(tables_whole, 2);
    reveal_with_fuel(offsets_in, 2);
    lemma_kinds();
    let tags = udta_bytes(meta);
    let payload = box_bytes(META@, meta_body(meta));
    lemma_box_read_back(UDTA@, payload, Seq::empty());
    assert(tags + Seq::<u8>::empty() =~= tags);
    let nothing = tags.skip(tags.len() as int);
    assert(nothing =~= Seq::empty());
    assert(closes(nothing));
    assert(tables_whole(nothing));
    assert(offsets_in(nothing) =~= Seq::empty());
    assert(without_tags(nothing) =~= Seq::empty());
    assert(offsets_in(tags) =~= Seq::empty());
}

/// The box of tags stays as it is.
proof fn lemma_udta_stays(meta: MetaView, change: Change)
    requires
        udta_fits(meta),
    ensures
        relocated(udta_bytes(meta), change) == Ok::<Seq<u8>, Reason>(udta_bytes(meta)),
{
    lemma_udta(meta);
    lemma_settled(udta_bytes(meta), change);
}

/// Kept boxes and tags behind them make the content of a `moov`.
proof fn lemma_new_content(kept: Seq<u8>, meta: MetaView, change: Change)
    requires
        closes(kept),
        tables_whole(kept),
        first_of(boxes(kept, 0)->Ok_0, UDTA@) is None,
        first_of(boxes(kept, 0)->Ok_0, MVEX@) is None,
        udta_fits(meta),
        0 <= change.start <= change.end,
        relocated(kept, change) is Ok,
    ensures
        ({
            let new = relocated(kept, change)->Ok_0;
            let content = new + udta_bytes(meta);
            &&& closes(content)
            &&& tables_whole(content)
            &&& without_tags(content) == new
            &&& follow(offsets_in(kept), offsets_in(content), change)
            &&& boxes(content, 0) is Ok
            &&& first_of(boxes(content, 0)->Ok_0, MVEX@) is None
            &&& count_of(boxes(content, 0)->Ok_0, UDTA@) == 1
        }),
{
    let new = relocated(kept, change)->Ok_0;
    let tags = udta_bytes(meta);
    let at = new.len() as int;
    lemma_udta(meta);
    lemma_kinds();
    lemma_relocated(kept, change);
    lemma_append(new, tags, change);
    lemma_closes_append(new, tags);
    assert(offsets_in(new) + offsets_in(tags) =~= offsets_in(new));
    lemma_without_tags_append(new, tags);
    lemma_boxes_append(new, tags, 0);
    assert(boxes(new, 0) == boxes(kept, 0));
    lemma_untagged(new);
    assert(new + Seq::<u8>::empty() =~= new);
    let first = boxes(new, 0)->Ok_0;
    let second = boxes(tags, at)->Ok_0;
    let nothing = tags.skip(tags.len() as int);
    assert(nothing.len() == 0);
    assert(boxes(nothing, at + tags.len()) == Ok::<Seq<Piece>, Reason>(Seq::empty()));
    let only = Piece { kind: UDTA@, start: at, header: 8, size: tags.len() as int };
    assert(second =~= seq![only]);
    assert(second.drop_first() =~= Seq::empty());
    assert(first_of(second.drop_first(), MVEX@) is None);
    lemma_first_of_append(first, second, MVEX@);
    lemma_count_of_none(first, UDTA@);
    lemma_count_of_append(first, second, UDTA@);
    assert(second.drop_last() =~= Seq::empty());
    assert(count_of(second.drop_last(), UDTA@) == 0);
}

/// A `moov` behind other boxes is found, whatever follows it.
proof fn lemma_new_moov(pre: Seq<u8>, content: Seq<u8>, rest: Seq<u8>)
    requires
        closes(pre),
        first_of(boxes(pre, 0)->Ok_0, MOOV@) is None,
        box_fits(content),
        boxes(rest, pre.len() + content.len() as int + 8) is Ok,
    ensures
        ({
            let head = pre + box_bytes(MOOV@, content);
            let whole = head + rest;
            &&& head.len() == pre.len() + content.len() + 8
            &&& boxes(whole, 0) is Ok
            &&& closes(head)
            &&& moov_of(whole) == Some(
                Piece {
                    kind: MOOV@,
                    start: pre.len() as int,
                    header: 8,
                    size: content.len() as int + 8,
                },
            )
            &&& moov_content(whole) == content
            &&& whole.take(pre.len() as int) == pre
        }),
{
    let own = box_bytes(MOOV@, content);
    let whole = pre + own + rest;
    lemma_kinds();
    lemma_box_read_back(MOOV@, content, rest);
    lemma_box_read_back(MOOV@, content, Seq::empty());
    assert(own + Seq::<u8>::empty() =~= own);
    let nothing = own.skip(own.len() as int);
    assert(nothing.len() == 0);
    assert(closes(nothing));
    lemma_closes_append(pre, own);
    assert(whole =~= pre + (own + rest));
    assert((own + rest).skip(own.len() as int) =~= rest);
    lemma_boxes_append(pre, own + rest, 0);
    let before = boxes(pre, 0)->Ok_0;
    let after = boxes(own + rest, pre.len() as int)->Ok_0;
    assert(after[0].kind == MOOV@);
    lemma_first_of_append(before, after, MOOV@);
    assert(inside(whole, moov_of(whole)->Some_0) =~= content);
    assert(whole.take(pre.len() as int) =~= pre);
}

/// What is known of a file that tags can be put into.
proof fn lemma_ready(file: Seq<u8>, meta: MetaView)
    requires
        file.len() <= usize::MAX,
        patched(file, meta) is Ready,
        sound_tables(file),
    ensures
        ({
            let moov = moov_of(file)->Some_0;
            let pre = file.take(moov.start);
            let kept = without_tags(moov_content(file));
            let change = change_in(file, meta);
            &&& moov_of(file) is Some
            &&& 0 <= moov.start <= moov.start + moov.size <= file.len()
            &&& closes(pre)
            &&& first_of(boxes(pre, 0)->Ok_0, MOOV@) is None
            &&& forall|base: int| #[trigger]
                boxes(file.skip(moov.start + moov.size), base) is Ok
            &&& closes(kept)
            &&& tables_whole(kept)
            &&& offsets_in(kept) == offsets(file)
            &&& first_of(boxes(kept, 0)->Ok_0, UDTA@) is None
            &&& first_of(boxes(kept, 0)->Ok_0, MVEX@) is None
            &&& udta_fits(meta)
            &&& box_fits(kept + udta_bytes(meta))
            &&& change.start == moov.start
            &&& change.end == moov.start + moov.size
            &&& change.delta == kept.len() + udta_bytes(meta).len() + 8 - moov.size
            &&& tables_in(kept + udta_bytes(meta), 8).error is None
            &&& shifted(box_bytes(MOOV@, kept + udta_bytes(meta)), change) is Ok
            &&& patched(file, meta) == (Built::Ready {
                head: pre + shifted(
                    box_bytes(MOOV@, kept + udta_bytes(meta)),
                    change,
                )->Ok_0,
                used: moov.start + moov.size,
            })
        }),
{
    let moov = moov_of(file)->Some_0;
    let payload = moov_content(file);
    let kept = without_tags(payload);
    let tags = udta_bytes(meta);
    lemma_first_of(file, 0, MOOV@);
    assert(payload.skip(0) =~= payload);
    lemma_kept(payload, 0);
    lemma_closes(payload, 0);
    lemma_without_tags(payload);
    lemma_kinds();
    lemma_box_read_back(MOOV@, kept + tags, Seq::empty());
    let tail = file.skip(moov.start);
    let rest = file.skip(moov.start + moov.size);
    assert(tail.skip(moov.size) =~= rest);
    assert forall|base: int| #[trigger] boxes(rest, base) is Ok by {
        lemma_boxes_anywhere(rest, moov.start + moov.size, base);
    }
}

/// What a new head begins with, whatever follows it.
proof fn lemma_new_file(file: Seq<u8>, meta: MetaView, rest: Seq<u8>)
    requires
        file.len() <= usize::MAX,
        patched(file, meta) is Ready,
        sound_tables(file),
        boxes(rest, patched(file, meta)->head.len() as int) is Ok,
    ensures
        ({
            let moov = moov_of(file)->Some_0;
            let head = patched(file, meta)->head;
            let new = relocated(without_tags(moov_content(file)), change_in(file, meta))->Ok_0;
            let content = new + udta_bytes(meta);
            &&& boxes(head + rest, 0) is Ok
            &&& closes(head)
            &&& box_fits(content)
            &&& head == file.take(moov.start) + box_bytes(MOOV@, content)
            &&& head.len() == moov.start + content.len() + 8
            &&& moov_of(head + rest) == Some(
                Piece {
                    kind: MOOV@,
                    start: moov.start,
                    header: 8,
                    size: content.len() as int + 8,
                },
            )
            &&& moov_content(head + rest) == content
            &&& (head + rest).take(moov.start) == file.take(moov.start)
            &&& closes(content)
            &&& boxes(content, 0) is Ok
            &&& tables_whole(content)
            &&& without_tags(content) == new
            &&& follow(offsets(file), offsets_in(content), change_in(file, meta))
            &&& first_of(boxes(content, 0)->Ok_0, MVEX@) is None
            &&& count_of(boxes(content, 0)->Ok_0, UDTA@) == 1
        }),
{
    lemma_ready(file, meta);
    law_new_head(file, meta);
    let moov = moov_of(file)->Some_0;
    let kept = without_tags(moov_content(file));
    let change = change_in(file, meta);
    let new = relocated(kept, change)->Ok_0;
    lemma_new_content(kept, meta, change);
    lemma_new_moov(file.take(moov.start), new + udta_bytes(meta), rest);
}

proof fn lemma_without_tags_append(a: Seq<u8>, b: Seq<u8>)
    requires
        closes(a),
    ensures
        without_tags(a + b) == without_tags(a) + without_tags(b),
    decreases a.len(),
{
    if a.len() == 0 {
        assert(a + b =~= b);
        assert(without_tags(a) + without_tags(b) =~= without_tags(b));
    } else {
        let size = first_box(a)->size;
        lemma_first_box_extends(a, b);
        assert((a + b).skip(size) =~= a.skip(size) + b);
        assert((a + b).take(size) =~= a.take(size));
        lemma_without_tags_append(a.skip(size), b);
        assert(a.take(size) + (without_tags(a.skip(size)) + without_tags(b)) =~= (a.take(size)
            + without_tags(a.skip(size))) + without_tags(b));
    }
}

/// Boxes among which there is no `udta` are all kept.
proof fn lemma_untagged(b: Seq<u8>)
    requires
        closes(b),
        boxes(b, 0) is Ok,
        first_of(boxes(b, 0)->Ok_0, UDTA@) is None,
    ensures
        without_tags(b) == b,
    decreases b.len(),
{
    if b.len() > 0 {
        let size = first_box(b)->size;
        let list = boxes(b, 0)->Ok_0;
        assert(list.drop_first() =~= boxes(b.skip(size), size)->Ok_0);
        lemma_first_of_moves(b.skip(size), 0, size, UDTA@);
        lemma_untagged(b.skip(size));
        assert(b.take(size) + b.skip(size) =~= b);
    }
}

/// Whether bytes are boxes does not depend on where they begin.
proof fn lemma_boxes_anywhere(b: Seq<u8>, base: int, other: int)
    ensures
        boxes(b, base) is Ok <==> boxes(b, other) is Ok,
    decreases b.len(),
{
    if let Step::Whole { kind, header, size } = first_box(b) {
        lemma_boxes_anywhere(b.skip(size), base + size, other + size);
    }
}

/// What a new head is made of: boxes without a `moov`, and a `moov` of boxes without
/// tags and the tags.
pub proof fn lemma_parts_of_new_head(file: Seq<u8>, meta: MetaView)
    requires
        file.len() <= usize::MAX,
        patched(file, meta) is Ready,
        sound_tables(file),
    ensures
        ({
            let pre = file.take(moov_of(file)->Some_0.start);
            let kept = without_tags(moov_content(file));
            let new = relocated(kept, change_in(file, meta))->Ok_0;
            &&& closes(pre)
            &&& boxes(pre, 0) is Ok
            &&& first_of(boxes(pre, 0)->Ok_0, MOOV@) is None
            &&& closes(new)
            &&& boxes(new, 0) is Ok
            &&& first_of(boxes(new, 0)->Ok_0, UDTA@) is None
            &&& udta_fits(meta)
            &&& box_fits(new + udta_bytes(meta))
            &&& patched(file, meta)->head == pre + box_bytes(MOOV@, new + udta_bytes(meta))
        }),
{
    lemma_ready(file, meta);
    law_new_head(file, meta);
    let pre = file.take(moov_of(file)->Some_0.start);
    let kept = without_tags(moov_content(file));
    let change = change_in(file, meta);
    lemma_relocated(kept, change);
    let new = relocated(kept, change)->Ok_0;
    assert(boxes(new, 0) == boxes(kept, 0));
    lemma_boxes_append(pre, Seq::empty(), 0);
    lemma_boxes_append(kept, Seq::empty(), 0);
}

/// Where the `moov` of a file lies.
pub proof fn lemma_moov_place(file: Seq<u8>)
    requires
        file.len() <= usize::MAX,
        moov_of(file) is Some,
    ensures
        ({
            let moov = moov_of(file)->Some_0;
            &&& first_box(file.skip(moov.start)) == (Step::Whole {
                kind: MOOV@,
                header: moov.header,
                size: moov.size,
            })
            &&& 0 <= moov.start <= moov.start + moov.size <= file.len()
            &&& moov_content(file) == file.skip(moov.start).subrange(moov.header, moov.size)
            &&& closes(file.take(moov.start))
            &&& boxes(file.take(moov.start), 0) is Ok
            &&& first_of(boxes(file.take(moov.start), 0)->Ok_0, MOOV@) is None
        }),
{
    lemma_first_of(file, 0, MOOV@);
    let moov = moov_of(file)->Some_0;
    assert(moov_content(file) =~= file.skip(moov.start).subrange(moov.header, moov.size));
}

/// Where the offsets of a new head point.
#[verifier::rlimit(50)]
pub proof fn lemma_moov_and_offsets(file: Seq<u8>, meta: MetaView)
    requires
        file.len() <= usize::MAX,
        patched(file, meta) is Ready,
        sound_tables(file),
    ensures
        ({
            let moov = moov_of(file)->Some_0;
            let kept = without_tags(moov_content(file));
            let change = change_in(file, meta);
            let content = relocated(kept, change)->Ok_0 + udta_bytes(meta);
            &&& moov_of(file) is Some
            &&& tables_whole(kept)
            &&& relocated(kept, change) is Ok
            &&& tables_whole(content)
            &&& follow(offsets(file), offsets_in(content), change)
            &&& change.start == moov.start
            &&& change.end == moov.start + moov.size
            &&& change.delta == patched(file, meta)->head.len() - patched(file, meta)->used
            &&& patched(file, meta)->used == moov.start + moov.size
            &&& 0 <= change.start <= change.end
        }),
{
    let head = patched(file, meta)->head;
    let nothing = Seq::<u8>::empty();
    lemma_ready(file, meta);
    assert(boxes(nothing, head.len() as int) is Ok);
    lemma_new_file(file, meta, nothing);
    law_new_head(file, meta);
}

/// The sound moves as one: every offset of the rewritten file is the old one,
/// where sound lies before `moov`, and the old one moved by the difference of
/// the two lengths of `moov`, where it lies behind.
pub proof fn law_offsets_follow_the_sound(file: Seq<u8>, meta: MetaView)
    requires
        file.len() <= usize::MAX,
        patched(file, meta) is Ready,
        sound_tables(file),
    ensures
        follow(offsets(file), offsets(patched(file, meta)->head), change_in(file, meta)),
        follow(offsets(file), offsets(spliced(file, meta)), change_in(file, meta)),
{
    let head = patched(file, meta)->head;
    let nothing = Seq::<u8>::empty();
    assert(boxes(nothing, head.len() as int) is Ok);
    lemma_new_file(file, meta, nothing);
    assert(head + nothing =~= head);
    lemma_ready(file, meta);
    lemma_new_file(file, meta, file.skip(patched(file, meta)->used));
}

/// Every offset keeps pointing at the same byte: what lay at an offset of the old
/// file lies at the same offset of the rewritten one, moved or not.
pub proof fn law_offsets_keep_their_bytes(file: Seq<u8>, meta: MetaView, i: int)
    requires
        file.len() <= usize::MAX,
        patched(file, meta) is Ready,
        sound_tables(file),
        0 <= i < offsets(file).len(),
        offsets(file)[i] < file.len(),
    ensures
        0 <= offsets(spliced(file, meta))[i] < spliced(file, meta).len(),
        spliced(file, meta)[offsets(spliced(file, meta))[i]] == file[offsets(file)[i]],
{
    law_offsets_follow_the_sound(file, meta);
    lemma_offsets_natural(moov_content(file));
    let head = patched(file, meta)->head;
    lemma_ready(file, meta);
    lemma_new_file(file, meta, Seq::empty());
    law_new_head(file, meta);
    assert(head + Seq::<u8>::empty() =~= head);
    lemma_same_byte(file, head, change_in(file, meta), offsets(file)[i]);
}

/// A byte of a file in the file with its head replaced.
proof fn lemma_same_byte(file: Seq<u8>, head: Seq<u8>, change: Change, offset: int)
    requires
        0 <= change.start <= change.end <= file.len(),
        change.start <= head.len(),
        head.take(change.start) == file.take(change.start),
        head.len() == change.end + change.delta,
        0 <= offset < file.len(),
        new_offset(offset, change) is Ok,
    ensures
        ({
            let moved = new_offset(offset, change)->Ok_0;
            let whole = head + file.skip(change.end);
            &&& 0 <= moved < whole.len()
            &&& whole[moved] == file[offset]
        }),
{
    let rest = file.skip(change.end);
    if offset < change.start {
        assert((head + rest)[offset] == head.take(change.start)[offset]);
        assert(file[offset] == file.take(change.start)[offset]);
    } else {
        assert(rest[offset - change.end] == file[offset]);
        assert((head + rest)[offset + change.delta] == rest[offset - change.end]);
    }
}

/// Offsets are not negative.
proof fn lemma_offsets_natural(b: Seq<u8>)
    ensures
        forall|i: int| 0 <= i < offsets_in(b).len() ==> 0 <= #[trigger] offsets_in(b)[i],
    decreases b.len(),
{
    reveal_with_fuel(content_offsets, 2);
    reveal_with_fuel(offsets_in, 2);
    if let Step::Whole { kind, header, size } = first_box(b) {
        let body = b.subrange(header, size);
        let own = content_offsets(kind, body);
        let rest = offsets_in(b.skip(size));
        lemma_offsets_natural(b.skip(size));
        if kind == STCO@ {
            lemma_numbers_natural(body.skip(8), 4, claimed(body));
        } else if kind == CO64@ {
            lemma_numbers_natural(body.skip(8), 8, claimed(body));
        } else if container(kind) {
            lemma_offsets_natural(body);
        }
        assert forall|i: int| 0 <= i < own.len() implies 0 <= #[trigger] own[i] by {
            if kind == STCO@ {
                assert(own[i] == numbers(body.skip(8), 4, claimed(body))[i]);
            } else if kind == CO64@ {
                assert(own[i] == numbers(body.skip(8), 8, claimed(body))[i]);
            } else {
                assert(own[i] == offsets_in(body)[i]);
            }
        }
        assert(offsets_in(b) == own + rest);
        assert forall|i: int| 0 <= i < offsets_in(b).len() implies 0 <= #[trigger] offsets_in(
            b,
        )[i] by {
            if i < own.len() {
                assert(offsets_in(b)[i] == own[i]);
            } else {
                assert(offsets_in(b)[i] == rest[i - own.len()]);
            }
        }
    }
}

proof fn lemma_numbers_natural(e: Seq<u8>, width: int, count: int)
    ensures
        forall|i: int|
            0 <= i < numbers(e, width, count).len() ==> 0 <= #[trigger] numbers(
                e,
                width,
                count,
            )[i],
    decreases count,
{
    if count > 0 {
        let rest = numbers(e.skip(width), width, count - 1);
        lemma_numbers_natural(e.skip(width), width, count - 1);
        assert forall|i: int| 0 <= i < numbers(e, width, count).len() implies 0
            <= #[trigger] numbers(e, width, count)[i] by {
            if i > 0 {
                assert(numbers(e, width, count)[i] == rest[i - 1]);
            }
        }
    }
}

/// A new head passes its own check: its boxes close, and there is exactly one
/// `udta`.
pub proof fn law_new_head_verifies(file: Seq<u8>, meta: MetaView)
    requires
        file.len() <= usize::MAX,
        patched(file, meta) is Ready,
        sound_tables(file),
    ensures
        verified(patched(file, meta)->head) == Ok::<(), Reason>(()),
{
    let head = patched(file, meta)->head;
    let nothing = Seq::<u8>::empty();
    assert(boxes(nothing, head.len() as int) is Ok);
    lemma_new_file(file, meta, nothing);
    assert(head + nothing =~= head);
    lemma_closes(head, 0);
    let content = moov_content(head);
    lemma_boxes_append(content, nothing, 0);
    lemma_closes(content, 0);
}

/// The offset tables of a new head are where they were searched for.
proof fn lemma_tables_of_new_head(kept: Seq<u8>, meta: MetaView, change: Change)
    requires
        closes(kept),
        tables_whole(kept),
        udta_fits(meta),
        0 <= change.start <= change.end,
        relocated(kept, change) is Ok,
        tables_in(kept + udta_bytes(meta), 8).error is None,
    ensures
        tables_in(relocated(kept, change)->Ok_0 + udta_bytes(meta), 8).error is None,
{
    let tags = udta_bytes(meta);
    lemma_udta(meta);
    lemma_append(kept, tags, change);
    lemma_udta_stays(meta, change);
    lemma_relocated(kept + tags, change);
    let content = relocated(kept + tags, change)->Ok_0;
    assert(boxes(content, 0) == boxes(kept + tags, 0));
    assert(tables_along(content, 8) == tables_along(kept + tags, 8));
}

/// What is answered to a file whose `moov` is known.
proof fn lemma_answer(file: Seq<u8>, meta: MetaView)
    requires
        file.len() <= usize::MAX,
        boxes(file, 0) is Ok,
        moov_of(file) is Some,
        moov_of(file)->Some_0.size <= i64::MAX,
        closes(moov_content(file)),
        boxes(moov_content(file), 0) is Ok,
        first_of(boxes(moov_content(file), 0)->Ok_0, MVEX@) is None,
        moov_fits(without_tags(moov_content(file)), meta),
    ensures
        ({
            let moov = moov_of(file)->Some_0;
            let rebuilt = moov_bytes(without_tags(moov_content(file)), meta);
            patched(file, meta) == match shifted(rebuilt, change_in(file, meta)) {
                Err(reason) => Built::Refused(reason),
                Ok(new) => Built::Ready {
                    head: file.take(moov.start) + new,
                    used: moov.start + moov.size,
                },
            }
        }),
{
    let payload = moov_content(file);
    lemma_first_of(file, 0, MOOV@);
    assert(payload.skip(0) =~= payload);
    lemma_kept(payload, 0);
    lemma_closes(payload, 0);
}

/// Offsets that have moved once stay where they are.
proof fn lemma_moved_once(old: Seq<int>, new: Seq<int>, before: Change, after: Change)
    requires
        follow(old, new, before),
        after.start == before.start,
        after.end == before.end + before.delta,
        after.delta == 0,
    ensures
        follow(new, new, after),
{
    assert forall|i: int| 0 <= i < new.len() implies new_offset(
        #[trigger] new[i],
        after,
    ) == Ok::<int, Reason>(new[i]) by {
        assert(new_offset(old[i], before) == Ok::<int, Reason>(new[i]));
    }
}

/// Tags are replaced, not stacked: a file that has been tagged is tagged again
/// with the same bytes.
pub proof fn law_tagging_twice_changes_nothing(file: Seq<u8>, meta: MetaView)
    requires
        file.len() <= usize::MAX,
        patched(file, meta) is Ready,
        sound_tables(file),
        spliced(file, meta).len() <= usize::MAX,
    ensures
        patched(spliced(file, meta), meta) == (Built::Ready {
            head: patched(file, meta)->head,
            used: patched(file, meta)->head.len() as int,
        }),
        spliced(spliced(file, meta), meta) == spliced(file, meta),
{
    let head = patched(file, meta)->head;
    let rest = file.skip(patched(file, meta)->used);
    let again = head + rest;
    lemma_ready(file, meta);
    law_new_head(file, meta);
    lemma_new_file(file, meta, rest);
    let before = change_in(file, meta);
    let after = change_in(again, meta);
    let kept = without_tags(moov_content(file));
    let content = moov_content(again);
    lemma_answer(again, meta);
    lemma_moved_once(offsets(file), offsets_in(content), before, after);
    lemma_settled(content, after);
    lemma_tables_of_new_head(kept, meta, before);
    lemma_shifted(content, after);
    assert(again.skip(head.len() as int) =~= rest);
}

/// More bytes add boxes at the end of a list, or make it an error.
pub proof fn lemma_boxes_grow(b: Seq<u8>, more: Seq<u8>, base: int, kind: Seq<u8>)
    ensures
        boxes(b, base) is Err ==> boxes(b + more, base) == boxes(b, base),
        boxes(b, base) is Ok && boxes(b + more, base) is Ok && first_of(
            boxes(b, base)->Ok_0,
            kind,
        ) is Some ==> first_of(boxes(b + more, base)->Ok_0, kind) == first_of(
            boxes(b, base)->Ok_0,
            kind,
        ),
    decreases b.len(),
{
    if !(first_box(b) is End) {
        lemma_first_box_extends(b, more);
    }
    if let Step::Whole { kind: first, header, size } = first_box(b) {
        assert((b + more).skip(size) =~= b.skip(size) + more);
        lemma_boxes_grow(b.skip(size), more, base + size, kind);
        let piece = Piece { kind: first, start: base, header, size };
        if boxes(b, base) is Ok && boxes(b + more, base) is Ok {
            let short = boxes(b.skip(size), base + size)->Ok_0;
            let long = boxes(b.skip(size) + more, base + size)->Ok_0;
            assert((seq![piece] + short).drop_first() =~= short);
            assert((seq![piece] + long).drop_first() =~= long);
        }
    }
}

/// A decision stands: once `moov` is here whole, what follows changes nothing, as
/// long as it is a sequence of boxes, and only bytes that are here are replaced.
pub proof fn law_decision_stands(head: Seq<u8>, more: Seq<u8>, meta: MetaView)
    requires
        !(patched(head, meta) is More),
        boxes(head, 0) is Err || boxes(head + more, 0) is Ok,
    ensures
        patched(head + more, meta) == patched(head, meta),
        patched(head, meta) matches Built::Ready { used, .. } ==> 0 <= used <= head.len(),
{
    lemma_boxes_grow(head, more, 0, MOOV@);
    if boxes(head, 0) is Ok {
        lemma_first_of(head, 0, MOOV@);
        let moov = moov_of(head)->Some_0;
        assert(inside(head + more, moov) =~= inside(head, moov));
        assert((head + more).take(moov.start) =~= head.take(moov.start));
    }
}

/// Every field is written: its item stands in the box of tags, behind the headers, the
/// handler and the items before it.
pub proof fn law_every_field_is_written(meta: MetaView, i: int)
    requires
        0 <= i < items(meta).len(),
    ensures
        ({
            let item = items(meta)[i].bytes();
            let at = 61 + items_bytes(items(meta).take(i)).len();
            &&& at + item.len() <= udta_bytes(meta).len()
            &&& udta_bytes(meta).subrange(at as int, at + item.len() as int) == item
        }),
{
    let all = items(meta);
    let parts = Seq::new(all.len(), |j: int| all[j].bytes());
    let before = Seq::new(all.take(i).len(), |j: int| all.take(i)[j].bytes());
    assert(parts.take(i) =~= before);
    lemma_flat_part(parts, i);
    let list = items_bytes(all);
    let inner = box_bytes(META@, meta_body(meta));
    let tags = udta_bytes(meta);
    lemma_be_bytes_len(list.len() + 8, 4);
    lemma_be_bytes_len(meta_body(meta).len() + 8, 4);
    lemma_be_bytes_len(inner.len() + 8, 4);
    let at = flat(before).len() as int;
    assert(box_bytes(ILST@, list).skip(8) =~= list);
    assert(meta_body(meta).skip(45) =~= list);
    assert(inner.skip(53) =~= meta_body(meta).skip(45));
    assert(tags.skip(61) =~= inner.skip(53));
    assert(tags.subrange(61 + at, 61 + at + parts[i].len()) =~= list.subrange(
        at,
        at + parts[i].len(),
    ));
}

/// There is an item to write exactly if there is anything to write.
pub proof fn law_items_for_something(meta: MetaView)
    ensures
        items(meta).len() == 0 <==> meta.blank(),
{
}

/// A number that was written is read back, and nothing around it has changed.
pub proof fn law_written_number_is_read_back(b: Seq<u8>, at: int, width: int, value: int)
    requires
        0 <= at,
        0 <= width,
        0 <= value <= u64::MAX,
        value < capacity(width as nat),
        stored(b, at, width, value) is Ok,
    ensures
        ({
            let new = stored(b, at, width, value)->Ok_0;
            &&& number_at(new, at, width) == Ok::<int, Reason>(value)
            &&& new.len() == b.len()
            &&& new.take(at) == b.take(at)
            &&& new.skip(at + width) == b.skip(at + width)
        }),
{
    let new = stored(b, at, width, value)->Ok_0;
    lemma_be_bytes_len(value as nat, width as nat);
    law_be_round_trip(value as nat, width as nat);
    assert(new.subrange(at, at + width) =~= be_bytes(value as nat, width as nat));
    assert(new.take(at) =~= b.take(at));
    assert(new.skip(at + width) =~= b.skip(at + width));
}

/// What the answer to a file in order depends on: whether its offsets can be moved.
#[verifier::rlimit(50)]
pub proof fn lemma_answer_to_a_file_in_order(file: Seq<u8>, meta: MetaView)
    requires
        file.len() <= usize::MAX,
        file.len() <= i64::MAX,
        moov_of(file) is Some,
        closes(moov_content(file)),
        first_of(boxes(moov_content(file), 0)->Ok_0, MVEX@) is None,
        sound_tables(file),
        tables_in(without_tags(moov_content(file)) + udta_bytes(meta), 8).error is None,
        moov_fits(without_tags(moov_content(file)), meta),
    ensures
        match relocated(without_tags(moov_content(file)), change_in(file, meta)) {
            Ok(_) => patched(file, meta) is Ready,
            Err(reason) => patched(file, meta) == Built::Refused(reason),
        },
{
    let payload = moov_content(file);
    let kept = without_tags(payload);
    let tags = udta_bytes(meta);
    let change = change_in(file, meta);
    lemma_moov_place(file);
    lemma_boxes_append(payload, Seq::empty(), 0);
    assert(payload.skip(0) =~= payload);
    lemma_kept(payload, 0);
    lemma_closes(payload, 0);
    lemma_without_tags(payload);
    lemma_udta(meta);
    lemma_append(kept, tags, change);
    lemma_udta_stays(meta, change);
    lemma_shifted(kept + tags, change);
    lemma_box_read_back(MOOV@, kept + tags, Seq::empty());
}

/// Whether an offset can be written after a change, in a table of either width.
pub open spec fn movable(offset: int, change: Change) -> bool {
    offset < change.start || change.end <= offset && 0 <= offset + change.delta <= u32::MAX
}

/// Whether an offset points into what is replaced.
pub open spec fn replaced_at(offset: int, change: Change) -> bool {
    change.start <= offset < change.end
}

/// Whether offsets can all be moved, or else point into what is replaced.
pub open spec fn settled(offsets: Seq<int>, change: Change) -> bool {
    forall|i: int|
        0 <= i < offsets.len() ==> movable(#[trigger] offsets[i], change) || replaced_at(
            offsets[i],
            change,
        )
}

/// Whether none of the offsets points into what is replaced.
pub open spec fn none_replaced(offsets: Seq<int>, change: Change) -> bool {
    forall|i: int| 0 <= i < offsets.len() ==> !replaced_at(#[trigger] offsets[i], change)
}

proof fn lemma_settled_parts(a: Seq<int>, b: Seq<int>, change: Change)
    ensures
        settled(a + b, change) <==> settled(a, change) && settled(b, change),
        none_replaced(a + b, change) <==> none_replaced(a, change) && none_replaced(b, change),
{
    let whole = a + b;
    assert forall|i: int| 0 <= i < a.len() implies whole[i] == #[trigger] a[i] by {}
    assert forall|i: int| 0 <= i < b.len() implies whole[a.len() + i] == #[trigger] b[i] by {}
    if settled(a, change) && settled(b, change) {
        assert forall|i: int| 0 <= i < whole.len() implies movable(#[trigger] whole[i], change)
            || replaced_at(whole[i], change) by {
            if i >= a.len() {
                assert(whole[i] == b[i - a.len()]);
            } else {
                assert(whole[i] == a[i]);
            }
        }
    }
    if none_replaced(a, change) && none_replaced(b, change) {
        assert forall|i: int| 0 <= i < whole.len() implies !replaced_at(
            #[trigger] whole[i],
            change,
        ) by {
            if i >= a.len() {
                assert(whole[i] == b[i - a.len()]);
            } else {
                assert(whole[i] == a[i]);
            }
        }
    }
}

proof fn lemma_numbers_can_be_moved(e: Seq<u8>, width: int, count: int, change: Change)
    requires
        width == 4 || width == 8,
        0 <= count,
        count * width <= e.len(),
        settled(numbers(e, width, count), change),
        0 <= change.start <= change.end,
    ensures
        match numbers_moved(e, width, count, change) {
            Ok(_) => none_replaced(numbers(e, width, count), change),
            Err(reason) => reason == Reason::Inline && !none_replaced(
                numbers(e, width, count),
                change,
            ),
        },
    decreases count,
{
    if count > 0 {
        let first = be_value(e.take(width)) as int;
        let one = seq![first];
        let rest = numbers(e.skip(width), width, count - 1);
        lemma_settled_parts(one, rest, change);
        assert(one[0] == first);
        assert((one + rest)[0] == first);
        assert((count - 1) * width == count * width - width) by (nonlinear_arith);
        assert(count * width >= width) by (nonlinear_arith)
            requires
                count >= 1,
                width >= 0,
        ;
        lemma_be_value_bound(e.take(width));
        lemma_capacities();
        if settled(rest, change) {
            lemma_numbers_can_be_moved(e.skip(width), width, count - 1, change);
        }
        if replaced_at(first, change) {
            assert(!none_replaced(one, change));
        } else {
            assert(none_replaced(one, change));
        }
    }
}

/// Offsets that can all be moved are moved, and one that points into what is replaced
/// stops it.
pub proof fn lemma_offsets_can_be_moved(b: Seq<u8>, change: Change)
    requires
        tables_whole(b),
        settled(offsets_in(b), change),
        0 <= change.start <= change.end,
    ensures
        match relocated(b, change) {
            Ok(_) => none_replaced(offsets_in(b), change),
            Err(reason) => reason == Reason::Inline && !none_replaced(offsets_in(b), change),
        },
    decreases b.len(),
{
    reveal_with_fuel(content_whole, 2);
    reveal_with_fuel(tables_whole, 2);
    reveal_with_fuel(offsets_in, 2);
    reveal_with_fuel(relocated, 2);
    reveal_with_fuel(content_offsets, 2);
    reveal_with_fuel(content_moved, 2);
    if let Step::Whole { kind, header, size } = first_box(b) {
        let body = b.subrange(header, size);
        let own = content_offsets(kind, body);
        assert(content_whole(kind, body));
        let rest = offsets_in(b.skip(size));
        lemma_settled_parts(own, rest, change);
        lemma_offsets_can_be_moved(b.skip(size), change);
        if kind == STCO@ {
            lemma_numbers_can_be_moved(body.skip(8), 4, claimed(body), change);
        } else if kind == CO64@ {
            lemma_numbers_can_be_moved(body.skip(8), 8, claimed(body), change);
        } else if container(kind) {
            lemma_offsets_can_be_moved(body, change);
        }
    }
}

/// Removing tags leaves the offsets as they are.
pub proof fn lemma_offsets_without_tags(b: Seq<u8>)
    requires
        closes(b),
    ensures
        offsets_in(without_tags(b)) == offsets_in(b),
        closes(without_tags(b)),
{
    lemma_without_tags(b);
}

/// Removing tags leaves the tables as they are.
pub proof fn lemma_tables_without_tags(b: Seq<u8>)
    requires
        closes(b),
        tables_whole(b),
    ensures
        tables_whole(without_tags(b)),
{
    lemma_without_tags(b);
}

/// Boxes that fill all of the bytes end where the bytes do.
pub proof fn lemma_closed(b: Seq<u8>)
    requires
        b.len() <= usize::MAX,
        closes(b),
        boxes(b, 0) is Ok,
    ensures
        super::mp4::closed_at(boxes(b, 0)->Ok_0) == b.len(),
{
    lemma_closes(b, 0);
}

/// Boxes fill the bytes exactly if they end where the bytes do.
pub proof fn lemma_closed_if(b: Seq<u8>)
    requires
        b.len() <= usize::MAX,
        boxes(b, 0) is Ok,
    ensures
        super::mp4::closed_at(boxes(b, 0)->Ok_0) == b.len() <==> closes(b),
{
    lemma_closes(b, 0);
    lemma_boxes_end_inside(b, 0);
}

proof fn lemma_boxes_end_inside(b: Seq<u8>, base: int)
    requires
        boxes(b, base) is Ok,
    ensures
        ends_at(boxes(b, base)->Ok_0, base) <= base + b.len(),
    decreases b.len(),
{
    if let Step::Whole { kind, header, size } = first_box(b) {
        lemma_boxes_end_inside(b.skip(size), base + size);
        let rest = boxes(b.skip(size), base + size)->Ok_0;
        let list = boxes(b, base)->Ok_0;
        assert(list =~= seq![Piece { kind, start: base, header, size }] + rest);
    }
}

} // verus!
