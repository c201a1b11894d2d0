//! What becomes of the sound of an `MP4` file, as a player finds it.
//!
//! The offsets are read here by the format alone: from the boxes that hold tables of
//! offsets, whatever way they were rewritten.

use vstd::prelude::*;

use super::mp4;
use super::reading::{
    box_at, items_size, law_mp4_tags_fit, lemma_payload_behind, lemma_payload_first, lemma_under_joined, payload_of,
    under,
};
use super::relocation;
use super::{Built, MetaView, Reason};
use crate::bytes::be_value;

verus! {

/// `moov`, `trak`, `mdia`, `minf` and `stbl`, which hold other boxes.
pub open spec fn holds_boxes(kind: Seq<u8>) -> bool {
    ||| kind == seq![0x6Du8, 0x6Fu8, 0x6Fu8, 0x76u8]
    ||| kind == seq![0x74u8, 0x72u8, 0x61u8, 0x6Bu8]
    ||| kind == seq![0x6Du8, 0x64u8, 0x69u8, 0x61u8]
    ||| kind == seq![0x6Du8, 0x69u8, 0x6Eu8, 0x66u8]
    ||| kind == seq![0x73u8, 0x74u8, 0x62u8, 0x6Cu8]
}

/// How many bytes an offset takes in a table: four in `stco`, eight in `co64`, and none in
/// a box that is no table.
pub open spec fn width_in(kind: Seq<u8>) -> int {
    if kind == seq![0x73u8, 0x74u8, 0x63u8, 0x6Fu8] {
        4
    } else if kind == seq![0x63u8, 0x6Fu8, 0x36u8, 0x34u8] {
        8
    } else {
        0
    }
}

/// The offsets of a table: their number stands behind four bytes, and they behind it.
pub open spec fn table_read(body: Seq<u8>, width: int) -> Seq<int> {
    Seq::new(
        be_value(body.subrange(4, 8)),
        |i: int| be_value(body.subrange(8 + width * i, 8 + width * i + width)) as int,
    )
}

/// All offsets that a player finds in boxes, in their order.
pub open spec fn offsets_read(b: Seq<u8>) -> Seq<int>
    decreases b.len(),
{
    match box_at(b) {
        Some((kind, header, size)) => if header < 8 || size < header || b.len() < size {
            Seq::empty()
        } else {
            let body = b.subrange(header, size);
            let own = if width_in(kind) > 0 {
                table_read(body, width_in(kind))
            } else if holds_boxes(kind) {
                offsets_read(body)
            } else {
                Seq::empty()
            };
            own + offsets_read(b.skip(size))
        },
        None => Seq::empty(),
    }
}

/// The kinds of boxes, told by their bytes.
proof fn lemma_kinds(kind: Seq<u8>)
    ensures
        holds_boxes(kind) <==> mp4::container(kind),
        width_in(kind) == 4 <==> kind == mp4::STCO@,
        width_in(kind) == 8 <==> kind == mp4::CO64@,
        width_in(kind) == 0 || width_in(kind) == 4 || width_in(kind) == 8,
        kind == mp4::STCO@ ==> kind != mp4::CO64@ && !holds_boxes(kind),
        kind == mp4::CO64@ ==> !holds_boxes(kind),
        mp4::UDTA@ == seq![0x75u8, 0x64u8, 0x74u8, 0x61u8],
        mp4::MOOV@ == seq![0x6Du8, 0x6Fu8, 0x6Fu8, 0x76u8],
{
    assert(mp4::MOOV@ =~= seq![0x6Du8, 0x6Fu8, 0x6Fu8, 0x76u8]);
    assert(mp4::TRAK@ =~= seq![0x74u8, 0x72u8, 0x61u8, 0x6Bu8]);
    assert(mp4::MDIA@ =~= seq![0x6Du8, 0x64u8, 0x69u8, 0x61u8]);
    assert(mp4::MINF@ =~= seq![0x6Du8, 0x69u8, 0x6Eu8, 0x66u8]);
    assert(mp4::STBL@ =~= seq![0x73u8, 0x74u8, 0x62u8, 0x6Cu8]);
    assert(mp4::STCO@ =~= seq![0x73u8, 0x74u8, 0x63u8, 0x6Fu8]);
    assert(mp4::CO64@ =~= seq![0x63u8, 0x6Fu8, 0x36u8, 0x34u8]);
    assert(mp4::UDTA@ =~= seq![0x75u8, 0x64u8, 0x74u8, 0x61u8]);
    let stco = seq![0x73u8, 0x74u8, 0x63u8, 0x6Fu8];
    let co64 = seq![0x63u8, 0x6Fu8, 0x36u8, 0x34u8];
    assert(stco[0] == 0x73 && stco[2] == 0x63);
    assert(co64[0] == 0x63);
    assert(mp4::MOOV@[0] == 0x6D && mp4::TRAK@[0] == 0x74 && mp4::MDIA@[0] == 0x6D);
    assert(mp4::MINF@[0] == 0x6D && mp4::STBL@[2] == 0x62);
}

/// Both ways of reading a box agree.
proof fn lemma_box_at(b: Seq<u8>)
    requires
        b.len() <= usize::MAX,
    ensures
        match mp4::first_box(b) {
            mp4::Step::Whole { kind, header, size } => box_at(b) == Some((kind, header, size))
                && 8 <= header <= size <= b.len(),
            _ => box_at(b) is None,
        },
{
}

proof fn lemma_numbers(e: Seq<u8>, width: int, count: int, i: int)
    requires
        width > 0,
        0 <= i < count,
        width * i + width <= e.len(),
    ensures
        relocation::numbers(e, width, count).len() == count,
        relocation::numbers(e, width, count)[i] == be_value(
            e.subrange(width * i, width * i + width),
        ),
    decreases count,
{
    lemma_numbers_len(e, width, count);
    if i == 0 {
        assert(width * i == 0) by (nonlinear_arith)
            requires
                i == 0,
        ;
        assert(e.take(width) =~= e.subrange(0, width));
    } else {
        let rest = e.skip(width);
        assert(width * i == width * (i - 1) + width) by (nonlinear_arith);
        assert(0 <= width * (i - 1)) by (nonlinear_arith)
            requires
                width > 0,
                i > 0,
        ;
        lemma_numbers(rest, width, count - 1, i - 1);
        assert(rest.subrange(width * (i - 1), width * (i - 1) + width) =~= e.subrange(
            width * i,
            width * i + width,
        ));
    }
}

proof fn lemma_numbers_len(e: Seq<u8>, width: int, count: int)
    requires
        0 <= count,
    ensures
        relocation::numbers(e, width, count).len() == count,
    decreases count,
{
    if count > 0 {
        lemma_numbers_len(e.skip(width), width, count - 1);
    }
}

proof fn lemma_table(body: Seq<u8>, width: int)
    requires
        width > 0,
        relocation::table_whole(body, width),
    ensures
        table_read(body, width) == relocation::numbers(
            body.skip(8),
            width,
            relocation::claimed(body),
        ),
{
    let count = relocation::claimed(body);
    let entries = body.skip(8);
    let listed = relocation::numbers(entries, width, count);
    lemma_numbers_len(entries, width, count);
    assert forall|i: int| 0 <= i < count implies table_read(body, width)[i] == listed[i] by {
        assert(width * i + width <= count * width) by (nonlinear_arith)
            requires
                width > 0,
                0 <= i < count,
        ;
        assert(0 <= width * i) by (nonlinear_arith)
            requires
                width > 0,
                0 <= i,
        ;
        lemma_numbers(entries, width, count, i);
        assert(entries.subrange(width * i, width * i + width) =~= body.subrange(
            8 + width * i,
            8 + width * i + width,
        ));
    }
    assert(table_read(body, width) =~= listed);
}

/// A player finds the offsets of all tables.
proof fn lemma_offsets_read(b: Seq<u8>)
    requires
        b.len() <= usize::MAX,
        relocation::tables_whole(b),
    ensures
        offsets_read(b) == relocation::offsets_in(b),
    decreases b.len(),
{
    reveal_with_fuel(relocation::content_whole, 2);
    reveal_with_fuel(relocation::tables_whole, 2);
    reveal_with_fuel(relocation::content_offsets, 2);
    reveal_with_fuel(relocation::offsets_in, 2);
    lemma_box_at(b);
    if let mp4::Step::Whole { kind, header, size } = mp4::first_box(b) {
        let body = b.subrange(header, size);
        assert(relocation::content_whole(kind, body));
        lemma_kinds(kind);
        lemma_offsets_read(b.skip(size));
        if width_in(kind) > 0 {
            lemma_table(body, width_in(kind));
        } else if holds_boxes(kind) {
            lemma_offsets_read(body);
        }
    }
}

/// The `moov` of a file, and that of the file with a new head.
proof fn lemma_moovs(file: Seq<u8>, meta: MetaView)
    requires
        file.len() <= usize::MAX,
        mp4::patched(file, meta) is Ready,
        relocation::sound_tables(file),
    ensures
        ({
            let head = mp4::patched(file, meta)->head;
            let rest = file.skip(mp4::patched(file, meta)->used);
            let kept = relocation::without_tags(relocation::moov_content(file));
            let new = relocation::relocated(kept, relocation::change_in(file, meta))->Ok_0;
            let content = new + mp4::udta_bytes(meta);
            &&& payload_of(file, mp4::MOOV@) == Some(relocation::moov_content(file))
            &&& payload_of(head + rest, mp4::MOOV@) == Some(content)
            &&& content.len() <= usize::MAX
        }),
{
    relocation::lemma_parts_of_new_head(file, meta);
    relocation::lemma_moov_and_offsets(file, meta);
    lemma_moov_of(file);
    let pre = file.take(relocation::moov_of(file)->Some_0.start);
    let kept = relocation::without_tags(relocation::moov_content(file));
    let new = relocation::relocated(kept, relocation::change_in(file, meta))->Ok_0;
    lemma_new_moov(
        pre,
        new + mp4::udta_bytes(meta),
        file.skip(mp4::patched(file, meta)->used),
    );
}

proof fn lemma_moov_of(file: Seq<u8>)
    requires
        file.len() <= usize::MAX,
        relocation::moov_of(file) is Some,
    ensures
        payload_of(file, mp4::MOOV@) == Some(relocation::moov_content(file)),
{
    relocation::lemma_moov_place(file);
    let moov = relocation::moov_of(file)->Some_0;
    let pre = file.take(moov.start);
    let tail = file.skip(moov.start);
    assert(pre + tail =~= file);
    lemma_payload_behind(pre, tail, mp4::MOOV@, 0);
    lemma_box_at(tail);
}

proof fn lemma_new_moov(pre: Seq<u8>, content: Seq<u8>, rest: Seq<u8>)
    requires
        relocation::closes(pre),
        mp4::boxes(pre, 0) is Ok,
        mp4::first_of(mp4::boxes(pre, 0)->Ok_0, mp4::MOOV@) is None,
        mp4::box_fits(content),
    ensures
        payload_of(pre + mp4::box_bytes(mp4::MOOV@, content) + rest, mp4::MOOV@) == Some(content),
        content.len() <= usize::MAX,
{
    let own = mp4::box_bytes(mp4::MOOV@, content);
    assert(pre + own + rest =~= pre + (own + rest));
    lemma_payload_behind(pre, own + rest, mp4::MOOV@, 0);
    lemma_kinds(mp4::MOOV@);
    lemma_payload_first(mp4::MOOV@, content, rest);
}

/// A player that follows an offset finds the same sound as before: the rewritten file has
/// as many offsets as the old one, each that points before the `moov` is the old one,
/// each that points behind it has moved by as much as the file has grown, and what lies
/// there is the byte that lay at the old offset.
pub proof fn law_sound_is_found_where_it_lies(file: Seq<u8>, meta: MetaView, i: int)
    requires
        file.len() <= usize::MAX,
        mp4::patched(file, meta) is Ready,
        relocation::sound_tables(file),
    ensures
        ({
            let moov = seq![0x6Du8, 0x6Fu8, 0x6Fu8, 0x76u8];
            let answer = mp4::patched(file, meta);
            let out = answer->head + file.skip(answer->used);
            let old = offsets_read(payload_of(file, moov)->Some_0);
            let new = offsets_read(payload_of(out, moov)->Some_0);
            &&& payload_of(file, moov) is Some && payload_of(out, moov) is Some
            &&& new.len() == old.len()
            &&& 0 <= i < old.len() && old[i] < answer->used ==> new[i] == old[i]
            &&& 0 <= i < old.len() && old[i] >= answer->used ==> new[i] == old[i] + out.len()
                - file.len()
            &&& 0 <= i < old.len() && old[i] < file.len() ==> 0 <= new[i] < out.len()
                && out[new[i]] == file[old[i]]
        }),
{
    lemma_kinds(mp4::MOOV@);
    lemma_moovs(file, meta);
    relocation::lemma_moov_and_offsets(file, meta);
    relocation::lemma_moov_place(file);
    relocation::law_offsets_follow_the_sound(file, meta);
    let content = relocation::relocated(
        relocation::without_tags(relocation::moov_content(file)),
        relocation::change_in(file, meta),
    )->Ok_0 + mp4::udta_bytes(meta);
    lemma_offsets_read(relocation::moov_content(file));
    lemma_offsets_read(content);
    let answer = mp4::patched(file, meta);
    let out = answer->head + file.skip(answer->used);
    let old = relocation::offsets(file);
    let new = relocation::offsets_in(content);
    if 0 <= i < old.len() {
        let change = relocation::change_in(file, meta);
        assert(mp4::new_offset(old[i], change) == Ok::<int, Reason>(new[i]));
        if old[i] < file.len() {
            relocation::law_offsets_keep_their_bytes(file, meta, i);
            assert(relocation::spliced(file, meta) == out);
            let there = relocation::offsets(out);
            assert(mp4::new_offset(old[i], change) == Ok::<int, Reason>(there[i]));
        }
    }
}

/// Boxes without those of tags, one after another.
pub open spec fn without_udta(b: Seq<u8>) -> Seq<u8>
    decreases b.len(),
{
    match box_at(b) {
        Some((kind, header, size)) => if header < 8 || size < header || b.len() < size {
            Seq::empty()
        } else if kind == seq![0x75u8, 0x64u8, 0x74u8, 0x61u8] {
            without_udta(b.skip(size))
        } else {
            b.take(size) + without_udta(b.skip(size))
        },
        None => Seq::empty(),
    }
}

/// The same boxes but for the offsets: boxes of the same kinds and sizes, in the same
/// order; a table of offsets has the same number of them, a box that holds boxes the same
/// but for the offsets, and any other box the same bytes.
pub open spec fn same_but_offsets(a: Seq<u8>, b: Seq<u8>) -> bool
    decreases a.len(),
{
    match box_at(a) {
        Some((kind, header, size)) => if header < 8 || size < header || a.len() < size {
            a == b
        } else {
            let one = a.subrange(header, size);
            let other = b.subrange(header, size);
            &&& a.len() == b.len()
            &&& a.take(header) == b.take(header)
            &&& if width_in(kind) > 0 {
                one.len() >= 8 && one.take(8) == other.take(8)
            } else if holds_boxes(kind) {
                same_but_offsets(one, other)
            } else {
                one == other
            }
            &&& same_but_offsets(a.skip(size), b.skip(size))
        },
        None => a == b,
    }
}

proof fn lemma_without_udta(b: Seq<u8>)
    requires
        b.len() <= usize::MAX,
    ensures
        without_udta(b) == relocation::without_tags(b),
    decreases b.len(),
{
    lemma_box_at(b);
    if let mp4::Step::Whole { kind, header, size } = mp4::first_box(b) {
        lemma_kinds(kind);
        lemma_without_udta(b.skip(size));
    }
}

proof fn lemma_same_but_offsets(b: Seq<u8>, change: mp4::Change)
    requires
        b.len() <= usize::MAX,
        relocation::tables_whole(b),
        0 <= change.start <= change.end,
        relocation::relocated(b, change) is Ok,
    ensures
        same_but_offsets(b, relocation::relocated(b, change)->Ok_0),
        relocation::relocated(b, change)->Ok_0.len() == b.len(),
    decreases b.len(),
{
    reveal_with_fuel(relocation::content_whole, 2);
    reveal_with_fuel(relocation::tables_whole, 2);
    reveal_with_fuel(relocation::content_moved, 2);
    reveal_with_fuel(relocation::relocated, 2);
    lemma_box_at(b);
    let out = relocation::relocated(b, change)->Ok_0;
    if let mp4::Step::Whole { kind, header, size } = mp4::first_box(b) {
        let body = b.subrange(header, size);
        assert(relocation::content_whole(kind, body));
        let new = relocation::content_moved(kind, body, change)->Ok_0;
        let rest = relocation::relocated(b.skip(size), change)->Ok_0;
        lemma_kinds(kind);
        lemma_same_but_offsets(b.skip(size), change);
        if width_in(kind) > 0 {
            relocation::lemma_table_moved(body, width_in(kind), change);
            assert(new.take(8) =~= body.take(8));
        } else if holds_boxes(kind) {
            lemma_same_but_offsets(body, change);
        }
        assert(new.len() == body.len());
        assert(out =~= b.take(header) + new + rest);
        assert(out.take(header) =~= b.take(header));
        assert(out.subrange(header, size) =~= new);
        assert(out.skip(size) =~= rest);
    }
}

/// Nothing but tags and offsets changes: the bytes before the `moov` stay, and the new
/// `moov` holds the boxes of the old one, but for old tags and where offsets point, and
/// then one box of tags.
pub proof fn law_only_tags_and_offsets_change(file: Seq<u8>, meta: MetaView)
    requires
        file.len() <= usize::MAX,
        mp4::patched(file, meta) is Ready,
        relocation::sound_tables(file),
    ensures
        ({
            let kind = seq![0x6Du8, 0x6Fu8, 0x6Fu8, 0x76u8];
            let answer = mp4::patched(file, meta);
            let out = answer->head + file.skip(answer->used);
            let old = without_udta(payload_of(file, kind)->Some_0);
            let new = payload_of(out, kind)->Some_0;
            let at = answer->head.len() - 8 - new.len();
            &&& old.len() + 8 <= new.len()
            &&& same_but_offsets(old, new.take(old.len() as int))
            &&& box_at(new.skip(old.len() as int)) == Some(
                (seq![0x75u8, 0x64u8, 0x74u8, 0x61u8], 8int, new.len() - old.len()),
            )
            &&& 0 <= at <= answer->used <= file.len()
            &&& answer->head.take(at) == file.take(at)
            &&& box_at(answer->head.skip(at)) == Some((kind, 8int, new.len() as int + 8))
            &&& box_at(file.skip(at)) is Some
            &&& box_at(file.skip(at))->Some_0.0 == kind
            &&& box_at(file.skip(at))->Some_0.2 == answer->used - at
        }),
{
    lemma_kinds(mp4::MOOV@);
    lemma_moovs(file, meta);
    relocation::lemma_moov_and_offsets(file, meta);
    relocation::lemma_moov_place(file);
    relocation::lemma_parts_of_new_head(file, meta);
    let change = relocation::change_in(file, meta);
    let kept = relocation::without_tags(relocation::moov_content(file));
    lemma_without_udta(relocation::moov_content(file));
    assert(kept.len() <= relocation::moov_content(file).len()) by {
        lemma_without_len(relocation::moov_content(file));
    }
    lemma_same_but_offsets(kept, change);
    let new = relocation::relocated(kept, change)->Ok_0;
    let tags = mp4::udta_bytes(meta);
    let content = new + tags;
    let answer = mp4::patched(file, meta);
    let moov = relocation::moov_of(file)->Some_0;
    assert(content.take(kept.len() as int) =~= new);
    assert(content.skip(kept.len() as int) =~= tags);
    lemma_made_box(mp4::UDTA@, mp4::box_bytes(mp4::META@, mp4::meta_body(meta)));
    lemma_made_box(mp4::MOOV@, content);
    let at = moov.start;
    assert(answer->head.take(at) =~= file.take(at));
    assert(answer->head.skip(at) =~= mp4::box_bytes(mp4::MOOV@, content));
    lemma_box_at(file.skip(at));
}

proof fn lemma_without_len(b: Seq<u8>)
    ensures
        relocation::without_tags(b).len() <= b.len(),
    decreases b.len(),
{
    if let mp4::Step::Whole { kind, header, size } = mp4::first_box(b) {
        lemma_without_len(b.skip(size));
    }
}

/// A box with a 32-bit size is read as it was made.
proof fn lemma_made_box(kind: Seq<u8>, payload: Seq<u8>)
    requires
        kind.len() == 4,
        mp4::box_fits(payload),
    ensures
        mp4::box_bytes(kind, payload).len() == payload.len() + 8,
        box_at(mp4::box_bytes(kind, payload)) == Some((kind, 8int, payload.len() as int + 8)),
{
    let made = mp4::box_bytes(kind, payload);
    crate::bytes::lemma_be_bytes_len(payload.len() + 8, 4);
    crate::bytes::lemma_capacities();
    crate::bytes::law_be_round_trip(payload.len() + 8, 4);
    assert(made.take(4) =~= crate::bytes::be_bytes(payload.len() + 8, 4));
    assert(made.subrange(4, 8) =~= kind);
}

/// Whether bytes begin with a box that makes no sense: one smaller than its own header, or
/// larger than any position.
pub open spec fn bad_box(b: Seq<u8>) -> bool {
    b.len() >= 8 && {
        let declared = be_value(b.take(4)) as int;
        ||| 2 <= declared <= 7
        ||| declared == 1 && b.len() >= 16 && (be_value(b.subrange(8, 16)) < 16 || be_value(
            b.subrange(8, 16),
        ) > usize::MAX)
    }
}

/// Whether all boxes make sense.
pub open spec fn orderly(b: Seq<u8>) -> bool
    decreases b.len(),
{
    !bad_box(b) && match box_at(b) {
        Some((kind, header, size)) => 8 <= header <= size <= b.len() && orderly(b.skip(size)),
        None => true,
    }
}

/// Whether all boxes make sense, and those inside them too.
pub open spec fn orderly_inside(b: Seq<u8>) -> bool
    decreases b.len(),
{
    !bad_box(b) && match box_at(b) {
        Some((kind, header, size)) => {
            &&& 8 <= header <= size <= b.len()
            &&& holds_boxes(kind) ==> orderly_inside(b.subrange(header, size))
            &&& orderly_inside(b.skip(size))
        },
        None => true,
    }
}

/// Whether boxes fill all of the bytes.
pub open spec fn tiled(b: Seq<u8>) -> bool
    decreases b.len(),
{
    b.len() == 0 || match box_at(b) {
        Some((kind, header, size)) => 8 <= header <= size <= b.len() && tiled(b.skip(size)),
        None => false,
    }
}

/// Where the first box of a kind begins.
pub open spec fn place_of(b: Seq<u8>, kind: Seq<u8>) -> int
    decreases b.len(),
{
    match box_at(b) {
        Some((found, header, size)) => if header < 8 || size < header || b.len() < size || found
            == kind {
            0
        } else {
            size + place_of(b.skip(size), kind)
        },
        None => 0,
    }
}

proof fn lemma_orderly(b: Seq<u8>, base: int)
    requires
        b.len() <= usize::MAX,
        orderly(b),
    ensures
        mp4::boxes(b, base) is Ok,
    decreases b.len(),
{
    lemma_box_at(b);
    if let mp4::Step::Whole { kind, header, size } = mp4::first_box(b) {
        lemma_orderly(b.skip(size), base + size);
    }
}

proof fn lemma_orderly_inside(b: Seq<u8>)
    requires
        orderly_inside(b),
    ensures
        orderly(b),
    decreases b.len(),
{
    if let Some((kind, header, size)) = box_at(b) {
        lemma_orderly_inside(b.skip(size));
    }
}

proof fn lemma_tiled(b: Seq<u8>)
    requires
        b.len() <= usize::MAX,
        tiled(b),
    ensures
        relocation::closes(b),
    decreases b.len(),
{
    lemma_box_at(b);
    if b.len() > 0 {
        if let mp4::Step::Whole { kind, header, size } = mp4::first_box(b) {
            lemma_tiled(b.skip(size));
        }
    }
}

/// Both ways of looking for a box agree.
proof fn lemma_found(b: Seq<u8>, base: int, kind: Seq<u8>)
    requires
        b.len() <= usize::MAX,
        mp4::boxes(b, base) is Ok,
    ensures
        mp4::first_of(mp4::boxes(b, base)->Ok_0, kind) is Some <==> payload_of(b, kind) is Some,
        mp4::first_of(mp4::boxes(b, base)->Ok_0, kind) matches Some(found) ==> found.start == base
            + place_of(b, kind),
    decreases b.len(),
{
    lemma_box_at(b);
    if let mp4::Step::Whole { kind: first, header, size } = mp4::first_box(b) {
        let list = mp4::boxes(b, base)->Ok_0;
        let rest = mp4::boxes(b.skip(size), base + size)->Ok_0;
        let piece = mp4::Piece { kind: first, start: base, header, size };
        assert(list =~= seq![piece] + rest);
        assert(list[0] == piece);
        assert(list.drop_first() =~= rest);
        lemma_found(b.skip(size), base + size, kind);
    }
}

proof fn lemma_tables_found(b: Seq<u8>, base: int)
    requires
        orderly_inside(b),
        0 <= base,
        base + b.len() <= usize::MAX,
    ensures
        mp4::tables_along(b, base).error is None,
        mp4::tables_in(b, base).error is None,
    decreases b.len(),
{
    reveal_with_fuel(mp4::tables_in, 3);
    reveal_with_fuel(mp4::tables_inside, 3);
    reveal_with_fuel(mp4::tables_along, 3);
    lemma_box_at(b);
    lemma_orderly_inside(b);
    lemma_orderly(b, 0);
    if let mp4::Step::Whole { kind, header, size } = mp4::first_box(b) {
        lemma_kinds(kind);
        lemma_tables_found(b.skip(size), base + size);
        if holds_boxes(kind) {
            lemma_tables_found(b.subrange(header, size), base + header);
        }
        assert(mp4::tables_inside(kind, b.subrange(header, size), base + header).error is None);
    }
}

proof fn lemma_box_at_begins(a: Seq<u8>, b: Seq<u8>)
    requires
        box_at(a) is Some,
        !bad_box(a),
    ensures
        box_at(a + b) == box_at(a),
        !bad_box(a + b),
{
    let whole = a + b;
    assert(whole.take(4) =~= a.take(4));
    assert(whole.subrange(4, 8) =~= a.subrange(4, 8));
    if a.len() >= 16 {
        assert(whole.subrange(8, 16) =~= a.subrange(8, 16));
    }
}

proof fn lemma_orderly_joined(a: Seq<u8>, b: Seq<u8>)
    requires
        tiled(a),
        orderly_inside(a),
        orderly_inside(b),
    ensures
        orderly_inside(a + b),
    decreases a.len(),
{
    if a.len() == 0 {
        assert(a + b =~= b);
    } else if let Some((kind, header, size)) = box_at(a) {
        lemma_box_at_begins(a, b);
        lemma_orderly_joined(a.skip(size), b);
        assert((a + b).skip(size) =~= a.skip(size) + b);
        assert((a + b).subrange(header, size) =~= a.subrange(header, size));
    }
}

proof fn lemma_orderly_without(b: Seq<u8>)
    requires
        tiled(b),
        orderly_inside(b),
    ensures
        tiled(without_udta(b)),
        orderly_inside(without_udta(b)),
        without_udta(b).len() <= b.len(),
    decreases b.len(),
{
    if b.len() > 0 {
        if let Some((kind, header, size)) = box_at(b) {
            let one = b.take(size);
            let rest = without_udta(b.skip(size));
            lemma_orderly_without(b.skip(size));
            if kind != seq![0x75u8, 0x64u8, 0x74u8, 0x61u8] {
                let whole = one + rest;
                assert(whole.take(4) =~= b.take(4));
                assert(whole.subrange(4, 8) =~= b.subrange(4, 8));
                if header == 16 {
                    assert(whole.subrange(8, 16) =~= b.subrange(8, 16));
                }
                assert(whole.skip(size) =~= rest);
                assert(whole.subrange(header, size) =~= b.subrange(header, size));
                assert(box_at(whole) == Some((kind, header, size)));
                assert(!bad_box(whole));
            }
        }
    }
}

proof fn lemma_orderly_tags(meta: MetaView)
    requires
        mp4::udta_fits(meta),
    ensures
        orderly_inside(mp4::udta_bytes(meta)),
{
    let inner = mp4::box_bytes(mp4::META@, mp4::meta_body(meta));
    let tags = mp4::udta_bytes(meta);
    lemma_kinds(mp4::UDTA@);
    lemma_made_box(mp4::UDTA@, inner);
    let size = tags.len() as int;
    assert(tags.take(4) =~= crate::bytes::be_bytes(inner.len() + 8, 4)) by {
        crate::bytes::lemma_be_bytes_len(inner.len() + 8, 4);
    }
    assert(be_value(tags.take(4)) == inner.len() + 8) by {
        crate::bytes::lemma_capacities();
        crate::bytes::law_be_round_trip(inner.len() + 8, 4);
    }
    assert(tags.skip(size).len() == 0);
    assert(mp4::UDTA@[0] == 0x75);
    assert(mp4::MOOV@[0] == 0x6D && mp4::TRAK@[0] == 0x74 && mp4::MDIA@[0] == 0x6D);
    assert(mp4::MINF@[0] == 0x6D && mp4::STBL@[0] == 0x73);
    assert(!holds_boxes(mp4::UDTA@));
    assert(orderly_inside(tags.skip(size)));
}

/// How putting tags into a file changes it: the place of its `moov`, and by how much that
/// grows.
pub open spec fn growth(file: Seq<u8>, meta: MetaView) -> mp4::Change {
    let kind = seq![0x6Du8, 0x6Fu8, 0x6Fu8, 0x76u8];
    let start = place_of(file, kind);
    let size = box_at(file.skip(start))->Some_0.2;
    mp4::Change {
        start,
        end: start + size,
        delta: without_udta(payload_of(file, kind)->Some_0).len() + 69 + items_size(meta) - size,
    }
}

proof fn lemma_growth(file: Seq<u8>, meta: MetaView)
    requires
        file.len() <= usize::MAX,
        orderly(file),
        payload_of(file, mp4::MOOV@) is Some,
    ensures
        relocation::moov_of(file) is Some,
        payload_of(file, mp4::MOOV@) == Some(relocation::moov_content(file)),
        relocation::moov_content(file).len() <= usize::MAX,
        relocation::change_in(file, meta) == growth(file, meta),
        0 <= growth(file, meta).start <= growth(file, meta).end,
{
    lemma_orderly(file, 0);
    lemma_found(file, 0, mp4::MOOV@);
    lemma_moov_of(file);
    relocation::lemma_moov_place(file);
    lemma_kinds(mp4::MOOV@);
    let content = relocation::moov_content(file);
    lemma_without_udta(content);
    let kept = relocation::without_tags(content);
    law_mp4_tags_fit(kept, meta);
    crate::bytes::lemma_be_bytes_len((kept + mp4::udta_bytes(meta)).len() + 8, 4);
    lemma_box_at(file.skip(relocation::moov_of(file)->Some_0.start));
}

/// Every file in order is tagged: one of boxes that make sense, with a `moov` that boxes
/// fill, that is not fragmented and whose offset tables have room for their entries, as
/// long as the new `moov` fits its size and the offsets their tables. Only an offset that
/// points into the `moov` itself stands in the way, and is named.
pub proof fn law_mp4_in_order_is_tagged(file: Seq<u8>, meta: MetaView)
    requires
        file.len() <= usize::MAX,
        file.len() <= i64::MAX,
        orderly(file),
        payload_of(file, seq![0x6Du8, 0x6Fu8, 0x6Fu8, 0x76u8]) is Some,
        ({
            let content = payload_of(file, seq![0x6Du8, 0x6Fu8, 0x6Fu8, 0x76u8])->Some_0;
            &&& tiled(content)
            &&& orderly_inside(content)
            &&& payload_of(content, seq![0x6Du8, 0x76u8, 0x65u8, 0x78u8]) is None
            &&& without_udta(content).len() + 69 + items_size(meta) <= 0xFFFF_FFFF
            &&& relocation::sound_tables(file)
            &&& forall|i: int|
                0 <= i < offsets_read(content).len() ==> {
                    let offset = #[trigger] offsets_read(content)[i];
                    let change = growth(file, meta);
                    offset < change.end || 0 <= offset + change.delta <= 0xFFFF_FFFF
                }
        }),
    ensures
        ({
            let content = payload_of(file, seq![0x6Du8, 0x6Fu8, 0x6Fu8, 0x76u8])->Some_0;
            let change = growth(file, meta);
            let inside = exists|i: int|
                0 <= i < offsets_read(content).len() && change.start <= #[trigger] offsets_read(
                    content,
                )[i] < change.end;
            &&& !inside ==> mp4::patched(file, meta) is Ready
            &&& inside ==> mp4::patched(file, meta) == Built::Refused(Reason::Inline)
        }),
{
    lemma_kinds(mp4::MOOV@);
    lemma_growth(file, meta);
    let content = relocation::moov_content(file);
    let change = growth(file, meta);
    let kept = relocation::without_tags(content);
    let tags = mp4::udta_bytes(meta);
    lemma_without_udta(content);
    law_mp4_tags_fit(kept, meta);
    lemma_tiled(content);
    lemma_orderly_inside(content);
    lemma_orderly(content, 0);
    assert(mp4::MVEX@ =~= seq![0x6Du8, 0x76u8, 0x65u8, 0x78u8]);
    lemma_found(content, 0, mp4::MVEX@);
    lemma_orderly_without(content);
    lemma_orderly_tags(meta);
    lemma_orderly_joined(kept, tags);
    lemma_tables_found(kept + tags, 8);
    relocation::lemma_offsets_without_tags(content);
    lemma_offsets_read(content);
    let offsets = relocation::offsets_in(kept);
    assert(offsets == offsets_read(content));
    assert forall|i: int| 0 <= i < offsets.len() implies relocation::movable(
        #[trigger] offsets[i],
        change,
    ) || relocation::replaced_at(offsets[i], change) by {
        assert(offsets_read(content)[i] == offsets[i]);
    }
    relocation::lemma_tables_without_tags(content);
    relocation::lemma_offsets_can_be_moved(kept, change);
    relocation::lemma_answer_to_a_file_in_order(file, meta);
}

/// A file without a `moov` is waited for, and a fragmented one is refused as such.
pub proof fn law_mp4_without_moov_or_in_fragments(file: Seq<u8>, meta: MetaView)
    requires
        file.len() <= usize::MAX,
        orderly(file),
    ensures
        ({
            let moov = payload_of(file, seq![0x6Du8, 0x6Fu8, 0x6Fu8, 0x76u8]);
            let fragments = moov is Some && payload_of(
                moov->Some_0,
                seq![0x6Du8, 0x76u8, 0x65u8, 0x78u8],
            ) is Some;
            &&& moov is None ==> mp4::patched(file, meta) is More
            &&& fragments && tiled(moov->Some_0) && orderly(moov->Some_0) ==> mp4::patched(
                file,
                meta,
            ) == Built::Refused(Reason::Fragmented)
        }),
{
    lemma_kinds(mp4::MOOV@);
    lemma_orderly(file, 0);
    lemma_found(file, 0, mp4::MOOV@);
    if payload_of(file, mp4::MOOV@) is Some {
        lemma_growth(file, meta);
        let content = relocation::moov_content(file);
        if tiled(content) && orderly(content) {
            lemma_tiled(content);
            lemma_orderly(content, 0);
            assert(mp4::MVEX@ =~= seq![0x6Du8, 0x76u8, 0x65u8, 0x78u8]);
            lemma_found(content, 0, mp4::MVEX@);
            relocation::lemma_closed(content);
        }
    }
}

/// Whether all offset tables have room for the entries that they claim to have.
pub open spec fn roomy(b: Seq<u8>) -> bool
    decreases b.len(),
{
    match box_at(b) {
        Some((kind, header, size)) => if header < 8 || size < header || b.len() < size {
            true
        } else {
            let body = b.subrange(header, size);
            &&& width_in(kind) > 0 ==> body.len() >= 8 && 8 + be_value(body.subrange(4, 8))
                * width_in(kind) <= body.len()
            &&& holds_boxes(kind) ==> roomy(body)
            &&& roomy(b.skip(size))
        },
        None => true,
    }
}

proof fn lemma_roomy(b: Seq<u8>)
    requires
        b.len() <= usize::MAX,
    ensures
        roomy(b) <==> relocation::tables_whole(b),
    decreases b.len(),
{
    reveal_with_fuel(relocation::content_whole, 2);
    reveal_with_fuel(relocation::tables_whole, 2);
    lemma_box_at(b);
    if let mp4::Step::Whole { kind, header, size } = mp4::first_box(b) {
        let body = b.subrange(header, size);
        lemma_kinds(kind);
        lemma_roomy(b.skip(size));
        if holds_boxes(kind) {
            lemma_roomy(body);
        }
        assert(relocation::tables_whole(b) <==> relocation::content_whole(kind, body)
            && relocation::tables_whole(b.skip(size)));
    }
}

/// The offset tables of a file in order are sound exactly if each has room for the
/// entries that it claims to have.
pub proof fn law_sound_tables_have_room(file: Seq<u8>)
    requires
        file.len() <= usize::MAX,
        orderly(file),
        payload_of(file, seq![0x6Du8, 0x6Fu8, 0x6Fu8, 0x76u8]) is Some,
    ensures
        relocation::sound_tables(file) <==> roomy(
            payload_of(file, seq![0x6Du8, 0x6Fu8, 0x6Fu8, 0x76u8])->Some_0,
        ),
{
    lemma_kinds(mp4::MOOV@);
    lemma_orderly(file, 0);
    lemma_found(file, 0, mp4::MOOV@);
    lemma_moov_of(file);
    relocation::lemma_moov_place(file);
    lemma_roomy(relocation::moov_content(file));
}

/// Kinds and contents of boxes, one after another.
pub open spec fn children(b: Seq<u8>) -> Seq<(Seq<u8>, Seq<u8>)>
    decreases b.len(),
{
    match box_at(b) {
        Some((kind, header, size)) => if header < 8 || size < header || b.len() < size {
            Seq::empty()
        } else {
            seq![(kind, b.subrange(header, size))] + children(b.skip(size))
        },
        None => Seq::empty(),
    }
}

proof fn lemma_children(b: Seq<u8>, base: int, kind: Seq<u8>)
    requires
        b.len() <= usize::MAX,
        mp4::boxes(b, base) is Ok,
    ensures
        mp4::count_of(mp4::boxes(b, base)->Ok_0, kind) == under(children(b), kind).len(),
    decreases b.len(),
{
    lemma_box_at(b);
    if let mp4::Step::Whole { kind: first, header, size } = mp4::first_box(b) {
        let rest = mp4::boxes(b.skip(size), base + size)->Ok_0;
        let piece = mp4::Piece { kind: first, start: base, header, size };
        let one = seq![(first, b.subrange(header, size))];
        lemma_children(b.skip(size), base + size, kind);
        relocation::lemma_count_of_append(seq![piece], rest, kind);
        lemma_under_joined(one, children(b.skip(size)), kind);
        assert(seq![piece].drop_last() =~= Seq::empty());
        assert(mp4::count_of(seq![piece].drop_last(), kind) == 0);
        assert(one.drop_last() =~= Seq::empty());
        assert(under(one.drop_last(), kind) =~= Seq::empty());
    }
}

proof fn lemma_tiled_if(b: Seq<u8>)
    requires
        b.len() <= usize::MAX,
    ensures
        relocation::closes(b) <==> tiled(b),
    decreases b.len(),
{
    lemma_box_at(b);
    if let mp4::Step::Whole { kind, header, size } = mp4::first_box(b) {
        lemma_tiled_if(b.skip(size));
    }
}

proof fn lemma_orderly_if(b: Seq<u8>, base: int)
    requires
        b.len() <= usize::MAX,
    ensures
        mp4::boxes(b, base) is Ok <==> orderly(b),
    decreases b.len(),
{
    lemma_box_at(b);
    if let mp4::Step::Whole { kind, header, size } = mp4::first_box(b) {
        lemma_orderly_if(b.skip(size), base + size);
    }
}

/// A head of `MP4` passes its check exactly if boxes that make sense fill it and its
/// `moov`, and there is one box of tags in the `moov`.
pub proof fn law_mp4_check(head: Seq<u8>)
    requires
        head.len() <= usize::MAX,
    ensures
        mp4::verified(head) is Ok <==> {
            let moov = payload_of(head, seq![0x6Du8, 0x6Fu8, 0x6Fu8, 0x76u8]);
            &&& orderly(head) && tiled(head)
            &&& moov is Some
            &&& orderly(moov->Some_0) && tiled(moov->Some_0)
            &&& under(children(moov->Some_0), seq![0x75u8, 0x64u8, 0x74u8, 0x61u8]).len() == 1
        },
{
    lemma_kinds(mp4::MOOV@);
    lemma_orderly_if(head, 0);
    if mp4::boxes(head, 0) is Ok {
        lemma_tiled_if(head);
        relocation::lemma_closed_if(head);
        lemma_found(head, 0, mp4::MOOV@);
        if relocation::moov_of(head) is Some {
            lemma_moov_of(head);
            relocation::lemma_moov_place(head);
            let content = relocation::moov_content(head);
            lemma_orderly_if(content, 0);
            if mp4::boxes(content, 0) is Ok {
                lemma_tiled_if(content);
                relocation::lemma_closed_if(content);
                lemma_children(content, 0, mp4::UDTA@);
            }
        }
    }
}

} // verus!
