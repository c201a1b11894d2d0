//! What a player reads out of the tags.
//!
//! The readers here follow the formats alone: they know nothing of how a tag is
//! written, and the laws say that they find every field of the meta under its own
//! name, and nothing else.

use vstd::prelude::*;
use vstd::utf8::*;

use super::{comma_separated, joined_text, number_text, Built, MetaView, Number, Reason};
use super::{flac, id3, mp4, relocation};
use crate::bytes::{
    be_bytes, be_value, law_be_round_trip, lemma_be_bytes_len, lemma_be_value_bound,
    lemma_capacities,
};
use crate::text::{decimal_digits, flat, lemma_encoded_joined, lemma_flat_part};

verus! {

// ---------------------------------------------------------------------------
// Lists of names and values
// ---------------------------------------------------------------------------

/// The values that a list gives a name, in their order.
pub open spec fn under<K, V>(list: Seq<(K, V)>, key: K) -> Seq<V>
    decreases list.len(),
{
    if list.len() == 0 {
        Seq::empty()
    } else {
        let before = under(list.drop_last(), key);
        if list.last().0 == key {
            before.push(list.last().1)
        } else {
            before
        }
    }
}

/// The bytes of a text, if there is one.
pub open spec fn only(text: Option<Seq<char>>) -> Seq<Seq<u8>> {
    match text {
        Some(text) => seq![encode_utf8(text)],
        None => Seq::empty(),
    }
}

/// The bytes of names in one line, if there are any.
pub open spec fn in_one_line(names: Seq<Seq<char>>) -> Seq<Seq<u8>> {
    if names.len() == 0 {
        Seq::empty()
    } else {
        seq![encode_utf8(comma_separated(names))]
    }
}

/// The digits of a number, if there is one.
pub open spec fn in_digits(number: Option<u16>) -> Seq<Seq<u8>> {
    match number {
        Some(number) => seq![encode_utf8(decimal_digits(number as nat))],
        None => Seq::empty(),
    }
}

/// Values with a name before each.
pub open spec fn named<K, V>(key: K, values: Seq<V>) -> Seq<(K, V)> {
    Seq::new(values.len(), |i: int| (key, values[i]))
}

proof fn lemma_under_named<K, V>(key: K, values: Seq<V>, other: K)
    ensures
        under(named(key, values), other) == if key == other {
            values
        } else {
            Seq::empty()
        },
    decreases values.len(),
{
    let list = named(key, values);
    if values.len() > 0 {
        assert(list.drop_last() =~= named(key, values.drop_last()));
        lemma_under_named(key, values.drop_last(), other);
        assert(values.drop_last().push(values.last()) =~= values);
    } else {
        assert(values =~= Seq::empty());
    }
}

pub proof fn lemma_under_joined<K, V>(a: Seq<(K, V)>, b: Seq<(K, V)>, key: K)
    ensures
        under(a + b, key) == under(a, key) + under(b, key),
    decreases b.len(),
{
    if b.len() == 0 {
        assert(a + b =~= a);
        assert(under(a, key) + under(b, key) =~= under(a, key));
    } else {
        assert((a + b).drop_last() =~= a + b.drop_last());
        lemma_under_joined(a, b.drop_last(), key);
        assert(under(a + b, key) =~= under(a, key) + under(b, key));
    }
}

/// A list of eight names with values.
pub open spec fn eight<K, V>(keys: Seq<K>, values: Seq<Seq<V>>) -> Seq<(K, V)> {
    named(keys[0], values[0]) + named(keys[1], values[1]) + named(keys[2], values[2]) + named(
        keys[3],
        values[3],
    ) + named(keys[4], values[4]) + named(keys[5], values[5]) + named(keys[6], values[6]) + named(
        keys[7],
        values[7],
    )
}

/// In such a list every name has its own values.
proof fn lemma_eight<K, V>(keys: Seq<K>, values: Seq<Seq<V>>, at: int)
    requires
        keys.len() == 8,
        values.len() == 8,
        keys.no_duplicates(),
        0 <= at < 8,
    ensures
        under(eight(keys, values), keys[at]) == values[at],
        forall|i: int|
            0 <= i < eight(keys, values).len() ==> keys.contains(
                (#[trigger] eight(keys, values)[i]).0,
            ),
{
    let key = keys[at];
    let n0 = named(keys[0], values[0]);
    let n1 = named(keys[1], values[1]);
    let n2 = named(keys[2], values[2]);
    let n3 = named(keys[3], values[3]);
    let n4 = named(keys[4], values[4]);
    let n5 = named(keys[5], values[5]);
    let n6 = named(keys[6], values[6]);
    let n7 = named(keys[7], values[7]);
    lemma_under_joined(n0, n1, key);
    lemma_under_joined(n0 + n1, n2, key);
    lemma_under_joined(n0 + n1 + n2, n3, key);
    lemma_under_joined(n0 + n1 + n2 + n3, n4, key);
    lemma_under_joined(n0 + n1 + n2 + n3 + n4, n5, key);
    lemma_under_joined(n0 + n1 + n2 + n3 + n4 + n5, n6, key);
    lemma_under_joined(n0 + n1 + n2 + n3 + n4 + n5 + n6, n7, key);
    lemma_under_named(keys[0], values[0], key);
    lemma_under_named(keys[1], values[1], key);
    lemma_under_named(keys[2], values[2], key);
    lemma_under_named(keys[3], values[3], key);
    lemma_under_named(keys[4], values[4], key);
    lemma_under_named(keys[5], values[5], key);
    lemma_under_named(keys[6], values[6], key);
    lemma_under_named(keys[7], values[7], key);
    assert(forall|i: int| 0 <= i < 8 && i != at ==> #[trigger] keys[i] != key);
    assert(under(eight(keys, values), key) =~= values[at]);
    assert(keys.contains(keys[0]) && keys.contains(keys[1]) && keys.contains(keys[2])
        && keys.contains(keys[3]) && keys.contains(keys[4]) && keys.contains(keys[5])
        && keys.contains(keys[6]) && keys.contains(keys[7]));
}

// ---------------------------------------------------------------------------
// `ID3v2.4`
// ---------------------------------------------------------------------------

/// The length that four bytes of seven bits spell.
pub open spec fn synchsafe_length(b: Seq<u8>) -> int {
    b[0] * 0x20_0000 + b[1] * 0x4000 + b[2] * 128 + b[3]
}

/// The text frames that a reader finds, up to the first thing that is none: the
/// identifier (4), the length (4), flags (2), the encoding `3` for `UTF-8`, the text.
pub open spec fn frames_read(b: Seq<u8>) -> Seq<(Seq<u8>, Seq<u8>)>
    decreases b.len(),
{
    if b.len() < 11 {
        Seq::empty()
    } else {
        let size = synchsafe_length(b.subrange(4, 8));
        if size < 1 || b.len() < 10 + size || b[8] != 0 || b[9] != 0 || b[10] != 3 {
            Seq::empty()
        } else {
            seq![(b.take(4), b.subrange(11, 10 + size))] + frames_read(b.skip(10 + size))
        }
    }
}

proof fn lemma_frame_read(id: Seq<u8>, value: Seq<char>, rest: Seq<u8>)
    requires
        id.len() == 4,
        id3::frame_fits(value),
    ensures
        frames_read(id3::frame_bytes(id, value) + rest) == seq![(id, encode_utf8(value))]
            + frames_read(rest),
{
    let text = encode_utf8(value);
    let b = id3::frame_bytes(id, value) + rest;
    let size = 1 + text.len() as int;
    let length = id3::synchsafe(size);
    assert(b.subrange(4, 8) =~= length);
    assert(synchsafe_length(length) == size);
    assert(b.take(4) =~= id);
    assert(b.subrange(11, 10 + size) =~= text);
    assert(b.skip(10 + size) =~= rest);
}

/// The identifiers and the bytes of texts.
spec fn encoded(fields: Seq<(Seq<u8>, Seq<char>)>) -> Seq<(Seq<u8>, Seq<u8>)> {
    Seq::new(fields.len(), |i: int| (fields[i].0, encode_utf8(fields[i].1)))
}

proof fn lemma_frames_read(fields: Seq<(Seq<u8>, Seq<char>)>, rest: Seq<u8>)
    requires
        id3::fields_fit(fields),
        forall|i: int| 0 <= i < fields.len() ==> (#[trigger] fields[i]).0.len() == 4,
    ensures
        frames_read(id3::fields_bytes(fields) + rest) == encoded(fields) + frames_read(rest),
    decreases fields.len(),
{
    if fields.len() == 0 {
        assert(id3::fields_bytes(fields) + rest =~= rest);
        assert(encoded(fields) + frames_read(rest) =~= frames_read(rest));
    } else {
        let before = fields.drop_last();
        let (id, value) = fields.last();
        let last = id3::frame_bytes(id, value);
        let parts = Seq::new(
            fields.len(),
            |i: int| id3::frame_bytes(fields[i].0, fields[i].1),
        );
        assert(parts.drop_last() =~= Seq::new(
            before.len(),
            |i: int| id3::frame_bytes(before[i].0, before[i].1),
        ));
        assert(fields[fields.len() - 1] == (id, value));
        assert(id3::frame_fits(value));
        assert forall|i: int| 0 <= i < before.len() implies id3::frame_fits(
            (#[trigger] before[i]).1,
        ) && before[i].0.len() == 4 by {
            assert(before[i] == fields[i]);
        }
        assert(id3::fields_bytes(fields) + rest =~= id3::fields_bytes(before) + (last + rest));
        lemma_frames_read(before, last + rest);
        lemma_frame_read(id, value, rest);
        assert(encoded(fields) + frames_read(rest) =~= encoded(before) + (seq![
            (id, encode_utf8(value)),
        ] + frames_read(rest)));
    }
}

/// The number of a track in one line: the number, and the number of tracks behind a
/// slash if it is known.
pub open spec fn place_in_one_line(number: Option<Number>) -> Seq<Seq<u8>> {
    match number {
        Some(number) => match number.total {
            Some(total) => seq![
                encode_utf8(
                    decimal_digits(number.index as nat) + "/"@ + decimal_digits(total as nat),
                ),
            ],
            None => seq![encode_utf8(decimal_digits(number.index as nat))],
        },
        None => Seq::empty(),
    }
}

/// The identifiers of the frames: `TIT2`, `TPE1`, `TALB`, `TPE2`, `TDRC`, `TCON`,
/// `TRCK`, `TPOS`.
pub open spec fn frame_ids() -> Seq<Seq<u8>> {
    seq![
        seq![0x54u8, 0x49u8, 0x54u8, 0x32u8],
        seq![0x54u8, 0x50u8, 0x45u8, 0x31u8],
        seq![0x54u8, 0x41u8, 0x4Cu8, 0x42u8],
        seq![0x54u8, 0x50u8, 0x45u8, 0x32u8],
        seq![0x54u8, 0x44u8, 0x52u8, 0x43u8],
        seq![0x54u8, 0x43u8, 0x4Fu8, 0x4Eu8],
        seq![0x54u8, 0x52u8, 0x43u8, 0x4Bu8],
        seq![0x54u8, 0x50u8, 0x4Fu8, 0x53u8],
    ]
}

/// What goes into these frames.
pub open spec fn frame_texts(meta: MetaView) -> Seq<Seq<Seq<u8>>> {
    seq![
        only(meta.title),
        in_one_line(meta.artists),
        only(meta.album),
        in_one_line(meta.album_artists),
        in_digits(meta.year),
        only(meta.genre),
        place_in_one_line(meta.number),
        in_digits(meta.volume),
    ]
}

/// A tag of `MP3` says what the meta says: its header is that of `ID3v2.4`, its length
/// is that of what follows, and a reader finds `TIT2` exactly if there is a title, with
/// that title, `TPE1` exactly if there are artists, with these in one line, and so on
/// for the album (`TALB`), its artists (`TPE2`), the year (`TDRC`), the genre (`TCON`),
/// the place (`TRCK`) and the disc (`TPOS`), and no other frame.
pub proof fn law_id3_tag_says_what_the_meta_says(file: Seq<u8>, meta: MetaView)
    requires
        id3::patched(file, meta) is Ready,
    ensures
        ({
            let tag = id3::patched(file, meta)->head;
            let frames = frames_read(tag.skip(10));
            &&& tag.take(6) == seq![0x49u8, 0x44u8, 0x33u8, 4u8, 0u8, 0u8]
            &&& synchsafe_length(tag.subrange(6, 10)) == tag.len() - 10
            &&& under(frames, seq![0x54u8, 0x49u8, 0x54u8, 0x32u8]) == only(meta.title)
            &&& under(frames, seq![0x54u8, 0x50u8, 0x45u8, 0x31u8]) == in_one_line(meta.artists)
            &&& under(frames, seq![0x54u8, 0x41u8, 0x4Cu8, 0x42u8]) == only(meta.album)
            &&& under(frames, seq![0x54u8, 0x50u8, 0x45u8, 0x32u8]) == in_one_line(
                meta.album_artists,
            )
            &&& under(frames, seq![0x54u8, 0x44u8, 0x52u8, 0x43u8]) == in_digits(meta.year)
            &&& under(frames, seq![0x54u8, 0x43u8, 0x4Fu8, 0x4Eu8]) == only(meta.genre)
            &&& under(frames, seq![0x54u8, 0x52u8, 0x43u8, 0x4Bu8]) == place_in_one_line(
                meta.number,
            )
            &&& under(frames, seq![0x54u8, 0x50u8, 0x4Fu8, 0x53u8]) == in_digits(meta.volume)
            &&& frames.len() == only(meta.title).len() + in_one_line(meta.artists).len() + only(
                meta.album,
            ).len() + in_one_line(meta.album_artists).len() + in_digits(meta.year).len() + only(
                meta.genre,
            ).len() + place_in_one_line(meta.number).len() + in_digits(meta.volume).len()
        }),
{
    let tag = id3::patched(file, meta)->head;
    let fields = id3::fields(meta);
    let body = id3::fields_bytes(fields);
    let size = body.len() as int;
    assert(tag =~= id3::tag_bytes(meta));
    assert(tag.take(6) =~= seq![0x49u8, 0x44u8, 0x33u8, 4u8, 0u8, 0u8]);
    assert(tag.subrange(6, 10) =~= id3::synchsafe(size));
    assert(synchsafe_length(id3::synchsafe(size)) == size);
    assert(tag.skip(10) =~= body + Seq::empty());
    assert forall|i: int| 0 <= i < fields.len() implies (#[trigger] fields[i]).0.len() == 4 by {}
    lemma_frames_read(fields, Seq::empty());
    let frames = frames_read(tag.skip(10));
    assert(frames =~= encoded(fields));
    let keys = frame_ids();
    let values = frame_texts(meta);
    lemma_frame_ids();
    lemma_encoded_fields(meta);
    assert(frames =~= eight(keys, values));
    lemma_eight(keys, values, 0);
    lemma_eight(keys, values, 1);
    lemma_eight(keys, values, 2);
    lemma_eight(keys, values, 3);
    lemma_eight(keys, values, 4);
    lemma_eight(keys, values, 5);
    lemma_eight(keys, values, 6);
    lemma_eight(keys, values, 7);
}

proof fn lemma_frame_ids()
    ensures
        frame_ids().no_duplicates(),
        frame_ids()[0] == id3::TITLE@,
        frame_ids()[1] == id3::ARTIST@,
        frame_ids()[2] == id3::ALBUM@,
        frame_ids()[3] == id3::ALBUM_ARTIST@,
        frame_ids()[4] == id3::YEAR@,
        frame_ids()[5] == id3::GENRE@,
        frame_ids()[6] == id3::TRACK@,
        frame_ids()[7] == id3::VOLUME@,
{
    let keys = frame_ids();
    assert(keys[0] =~= id3::TITLE@);
    assert(keys[1] =~= id3::ARTIST@);
    assert(keys[2] =~= id3::ALBUM@);
    assert(keys[3] =~= id3::ALBUM_ARTIST@);
    assert(keys[4] =~= id3::YEAR@);
    assert(keys[5] =~= id3::GENRE@);
    assert(keys[6] =~= id3::TRACK@);
    assert(keys[7] =~= id3::VOLUME@);
    assert forall|i: int, j: int| 0 <= i < 8 && 0 <= j < 8 && i != j implies keys[i]
        != keys[j] by {
        assert(keys[i][1] != keys[j][1] || keys[i][2] != keys[j][2] || keys[i][3] != keys[j][3]);
    }
}

proof fn lemma_encoded_fields(meta: MetaView)
    ensures
        encoded(id3::fields(meta)) == eight(
            seq![
                id3::TITLE@,
                id3::ARTIST@,
                id3::ALBUM@,
                id3::ALBUM_ARTIST@,
                id3::YEAR@,
                id3::GENRE@,
                id3::TRACK@,
                id3::VOLUME@,
            ],
            frame_texts(meta),
        ),
{
    lemma_encoded_field(id3::TITLE@, meta.title);
    lemma_encoded_field(id3::ARTIST@, joined_text(meta.artists));
    lemma_encoded_field(id3::ALBUM@, meta.album);
    lemma_encoded_field(id3::ALBUM_ARTIST@, joined_text(meta.album_artists));
    lemma_encoded_field(id3::YEAR@, number_text(meta.year));
    lemma_encoded_field(id3::GENRE@, meta.genre);
    lemma_encoded_field(id3::TRACK@, id3::track_text(meta.number));
    lemma_encoded_field(id3::VOLUME@, number_text(meta.volume));
    let texts = frame_texts(meta);
    assert(texts[1] =~= only(joined_text(meta.artists)));
    assert(texts[3] =~= only(joined_text(meta.album_artists)));
    assert(texts[4] =~= only(number_text(meta.year)));
    assert(texts[6] =~= only(id3::track_text(meta.number)));
    assert(texts[7] =~= only(number_text(meta.volume)));
    let f0 = id3::field(id3::TITLE@, meta.title);
    let f1 = id3::field(id3::ARTIST@, joined_text(meta.artists));
    let f2 = id3::field(id3::ALBUM@, meta.album);
    let f3 = id3::field(id3::ALBUM_ARTIST@, joined_text(meta.album_artists));
    let f4 = id3::field(id3::YEAR@, number_text(meta.year));
    let f5 = id3::field(id3::GENRE@, meta.genre);
    let f6 = id3::field(id3::TRACK@, id3::track_text(meta.number));
    let f7 = id3::field(id3::VOLUME@, number_text(meta.volume));
    lemma_encoded_both(f0, f1);
    lemma_encoded_both(f0 + f1, f2);
    lemma_encoded_both(f0 + f1 + f2, f3);
    lemma_encoded_both(f0 + f1 + f2 + f3, f4);
    lemma_encoded_both(f0 + f1 + f2 + f3 + f4, f5);
    lemma_encoded_both(f0 + f1 + f2 + f3 + f4 + f5, f6);
    lemma_encoded_both(f0 + f1 + f2 + f3 + f4 + f5 + f6, f7);
}

proof fn lemma_encoded_both(a: Seq<(Seq<u8>, Seq<char>)>, b: Seq<(Seq<u8>, Seq<char>)>)
    ensures
        encoded(a + b) == encoded(a) + encoded(b),
{
    assert(encoded(a + b) =~= encoded(a) + encoded(b));
}

proof fn lemma_encoded_field(id: Seq<u8>, value: Option<Seq<char>>)
    ensures
        encoded(id3::field(id, value)) == named(id, only(value)),
{
    assert(encoded(id3::field(id, value)) =~= named(id, only(value)));
}

/// How many bytes frames with these texts take.
pub open spec fn frames_size(texts: Seq<Seq<u8>>) -> int
    decreases texts.len(),
{
    if texts.len() == 0 {
        0
    } else {
        frames_size(texts.drop_last()) + 11 + texts.last().len()
    }
}

/// How many bytes the frames of a meta take.
pub open spec fn tag_size(meta: MetaView) -> int {
    frames_size(only(meta.title)) + frames_size(in_one_line(meta.artists)) + frames_size(
        only(meta.album),
    ) + frames_size(in_one_line(meta.album_artists)) + frames_size(in_digits(meta.year))
        + frames_size(only(meta.genre)) + frames_size(place_in_one_line(meta.number))
        + frames_size(in_digits(meta.volume))
}

/// How many bytes the frames of a list take.
spec fn list_size(fields: Seq<(Seq<u8>, Seq<char>)>) -> int {
    id3::fields_bytes(fields).len() as int
}

proof fn lemma_list_size(a: Seq<(Seq<u8>, Seq<char>)>, b: Seq<(Seq<u8>, Seq<char>)>)
    ensures
        list_size(a + b) == list_size(a) + list_size(b),
    decreases b.len(),
{
    let frames = |fields: Seq<(Seq<u8>, Seq<char>)>|
        Seq::new(fields.len(), |i: int| id3::frame_bytes(fields[i].0, fields[i].1));
    if b.len() == 0 {
        assert(a + b =~= a);
    } else {
        assert((a + b).drop_last() =~= a + b.drop_last());
        lemma_list_size(a, b.drop_last());
        assert(frames(a + b).drop_last() =~= frames((a + b).drop_last()));
        assert(frames(b).drop_last() =~= frames(b.drop_last()));
        assert(id3::fields_bytes(a + b) == flat(frames(a + b)));
        assert(id3::fields_bytes(b) == flat(frames(b)));
        assert(id3::fields_bytes((a + b).drop_last()) == flat(frames((a + b).drop_last())));
        assert(id3::fields_bytes(b.drop_last()) == flat(frames(b.drop_last())));
    }
}

proof fn lemma_field_size(id: Seq<u8>, value: Option<Seq<char>>)
    requires
        id.len() == 4,
    ensures
        list_size(id3::field(id, value)) == frames_size(only(value)),
{
    let fields = id3::field(id, value);
    let frames = Seq::new(fields.len(), |i: int| id3::frame_bytes(fields[i].0, fields[i].1));
    if let Some(text) = value {
        assert(frames.drop_last() =~= Seq::empty());
        assert(flat(frames.drop_last()).len() == 0);
        assert(only(value).drop_last() =~= Seq::empty());
        assert(frames_size(only(value).drop_last()) == 0);
    }
}

/// Every meta whose frames take no more than `0FFFFFFF` bytes is written, and no other.
pub proof fn law_id3_tag_fits(meta: MetaView)
    ensures
        id3::tag_fits(meta) <==> tag_size(meta) <= 0x0FFF_FFFF,
{
    let f0 = id3::field(id3::TITLE@, meta.title);
    let f1 = id3::field(id3::ARTIST@, joined_text(meta.artists));
    let f2 = id3::field(id3::ALBUM@, meta.album);
    let f3 = id3::field(id3::ALBUM_ARTIST@, joined_text(meta.album_artists));
    let f4 = id3::field(id3::YEAR@, number_text(meta.year));
    let f5 = id3::field(id3::GENRE@, meta.genre);
    let f6 = id3::field(id3::TRACK@, id3::track_text(meta.number));
    let f7 = id3::field(id3::VOLUME@, number_text(meta.volume));
    lemma_list_size(f0, f1);
    lemma_list_size(f0 + f1, f2);
    lemma_list_size(f0 + f1 + f2, f3);
    lemma_list_size(f0 + f1 + f2 + f3, f4);
    lemma_list_size(f0 + f1 + f2 + f3 + f4, f5);
    lemma_list_size(f0 + f1 + f2 + f3 + f4 + f5, f6);
    lemma_list_size(f0 + f1 + f2 + f3 + f4 + f5 + f6, f7);
    lemma_field_size(id3::TITLE@, meta.title);
    lemma_field_size(id3::ARTIST@, joined_text(meta.artists));
    lemma_field_size(id3::ALBUM@, meta.album);
    lemma_field_size(id3::ALBUM_ARTIST@, joined_text(meta.album_artists));
    lemma_field_size(id3::YEAR@, number_text(meta.year));
    lemma_field_size(id3::GENRE@, meta.genre);
    lemma_field_size(id3::TRACK@, id3::track_text(meta.number));
    lemma_field_size(id3::VOLUME@, number_text(meta.volume));
    assert(in_one_line(meta.artists) =~= only(joined_text(meta.artists)));
    assert(in_one_line(meta.album_artists) =~= only(joined_text(meta.album_artists)));
    assert(in_digits(meta.year) =~= only(number_text(meta.year)));
    assert(place_in_one_line(meta.number) =~= only(id3::track_text(meta.number)));
    assert(in_digits(meta.volume) =~= only(number_text(meta.volume)));
    assert(list_size(id3::fields(meta)) == tag_size(meta));
    lemma_lengths_fit(id3::fields(meta));
}

/// Frames that fit together fit one by one.
proof fn lemma_lengths_fit(fields: Seq<(Seq<u8>, Seq<char>)>)
    ensures
        list_size(fields) <= 0x0FFF_FFFF ==> id3::fields_fit(fields),
{
    let frames = Seq::new(fields.len(), |i: int| id3::frame_bytes(fields[i].0, fields[i].1));
    if list_size(fields) <= 0x0FFF_FFFF {
        assert forall|i: int| 0 <= i < fields.len() implies id3::frame_fits(
            (#[trigger] fields[i]).1,
        ) by {
            lemma_flat_part(frames, i);
            assert(frames[i] == id3::frame_bytes(fields[i].0, fields[i].1));
        }
    }
}

/// An old tag goes whole, with its footer if its flags say that there is one, and nothing
/// else goes: what does not begin with a tag is kept from its first byte. A tag that is
/// not here whole is waited for, and one whose length makes no sense is refused.
pub proof fn law_id3_old_tag_goes(file: Seq<u8>, meta: MetaView)
    requires
        tag_size(meta) <= 0x0FFF_FFFF,
    ensures
        ({
            let answer = id3::patched(file, meta);
            let tagged = file.len() >= 3 && file[0] == 0x49 && file[1] == 0x44 && file[2] == 0x33;
            let legible = file[6] < 128 && file[7] < 128 && file[8] < 128 && file[9] < 128;
            let size = 10 + synchsafe_length(file.subrange(6, 10)) + if file[5] / 16 % 2 == 1 {
                10int
            } else {
                0int
            };
            &&& file.len() < 3 ==> answer is More
            &&& file.len() >= 3 && !tagged ==> answer is Ready && answer->used == 0
            &&& tagged && file.len() < 10 ==> answer is More
            &&& tagged && file.len() >= 10 && !legible ==> answer == Built::Refused(
                Reason::Malformed,
            )
            &&& tagged && file.len() >= 10 && legible && file.len() < size ==> answer is More
            &&& tagged && file.len() >= 10 && legible && file.len() >= size ==> answer is Ready
                && answer->used == size
        }),
{
    law_id3_tag_fits(meta);
    if file.len() >= 3 {
        let begun = file.take(3);
        let tagged = file[0] == 0x49 && file[1] == 0x44 && file[2] == 0x33;
        if tagged {
            assert(begun =~= id3::MAGIC@);
        } else {
            assert(begun[0] == file[0] && begun[1] == file[1] && begun[2] == file[2]);
            assert(id3::MAGIC@[0] == 0x49 && id3::MAGIC@[1] == 0x44 && id3::MAGIC@[2] == 0x33);
        }
    }
    if file.len() >= 10 {
        let s = file.subrange(6, 10);
        reveal_with_fuel(id3::seven_bit_value, 5);
        assert(s.drop_last() =~= seq![s[0], s[1], s[2]]);
        assert(s.drop_last().drop_last() =~= seq![s[0], s[1]]);
        assert(s.drop_last().drop_last().drop_last() =~= seq![s[0]]);
        assert(s.drop_last().drop_last().drop_last().drop_last() =~= Seq::empty());
    }
}

// ---------------------------------------------------------------------------
// `FLAC`
// ---------------------------------------------------------------------------

/// The metadata blocks that a reader finds: kind and body of each, up to the one with
/// the flag of the last.
pub open spec fn blocks_read(b: Seq<u8>) -> Seq<(int, Seq<u8>)>
    decreases b.len(),
{
    if b.len() < 4 {
        Seq::empty()
    } else {
        let len = b[1] * 0x1_0000 + b[2] * 256 + b[3];
        if b.len() < 4 + len {
            Seq::empty()
        } else {
            let one = seq![(b[0] as int % 128, b.subrange(4, 4 + len))];
            if b[0] >= 128 {
                one
            } else {
                one + blocks_read(b.skip(4 + len))
            }
        }
    }
}

/// Whether the blocks are all here: the one with the flag of the last is.
pub open spec fn blocks_whole(b: Seq<u8>) -> bool
    decreases b.len(),
{
    b.len() >= 4 && {
        let len = b[1] * 0x1_0000 + b[2] * 256 + b[3];
        b.len() >= 4 + len && (b[0] >= 128 || blocks_whole(b.skip(4 + len)))
    }
}

/// How many bytes blocks take, with their headers.
pub open spec fn span(blocks: Seq<(int, Seq<u8>)>) -> int
    decreases blocks.len(),
{
    if blocks.len() == 0 {
        0
    } else {
        span(blocks.drop_last()) + 4 + blocks.last().1.len()
    }
}

/// The blocks that are neither the description of the stream (`0`) nor a comment (`4`).
pub open spec fn apart_from_tags(blocks: Seq<(int, Seq<u8>)>) -> Seq<(int, Seq<u8>)>
    decreases blocks.len(),
{
    if blocks.len() == 0 {
        Seq::empty()
    } else {
        let before = apart_from_tags(blocks.drop_last());
        if blocks.last().0 == 0 || blocks.last().0 == 4 {
            before
        } else {
            before.push(blocks.last())
        }
    }
}

/// The number that four bytes spell, least significant first.
pub open spec fn little_endian(b: Seq<u8>) -> int {
    b[0] + b[1] * 256 + b[2] * 0x1_0000 + b[3] * 0x100_0000
}

/// So many texts, each with its length before it.
pub open spec fn texts_read(b: Seq<u8>, count: int) -> Seq<Seq<u8>>
    decreases count,
{
    if count <= 0 || b.len() < 4 {
        Seq::empty()
    } else {
        let len = little_endian(b.take(4));
        if b.len() < 4 + len {
            Seq::empty()
        } else {
            seq![b.subrange(4, 4 + len)] + texts_read(b.skip(4 + len), count - 1)
        }
    }
}

/// The fields that a reader finds in a comment, behind the name of its writer.
pub open spec fn comment_read(b: Seq<u8>) -> Seq<Seq<u8>> {
    let writer = little_endian(b.take(4));
    texts_read(b.skip(8 + writer), little_endian(b.subrange(4 + writer, 8 + writer)))
}

/// Whether bytes begin so.
pub open spec fn begins(field: Seq<u8>, key: Seq<u8>) -> bool {
    key.len() <= field.len() && field.take(key.len() as int) == key
}

/// The values of the fields that begin with a key, in their order.
pub open spec fn valued(fields: Seq<Seq<u8>>, key: Seq<u8>) -> Seq<Seq<u8>>
    decreases fields.len(),
{
    if fields.len() == 0 {
        Seq::empty()
    } else {
        let before = valued(fields.drop_last(), key);
        if begins(fields.last(), key) {
            before.push(fields.last().skip(key.len() as int))
        } else {
            before
        }
    }
}

/// The bytes of each text.
pub open spec fn each(texts: Seq<Seq<char>>) -> Seq<Seq<u8>> {
    Seq::new(texts.len(), |i: int| encode_utf8(texts[i]))
}

/// The number of a track, if it is known.
pub open spec fn index_of(number: Option<Number>) -> Option<u16> {
    match number {
        Some(number) => Some(number.index),
        None => None,
    }
}

/// The number of tracks, if it is known.
pub open spec fn total_of(number: Option<Number>) -> Option<u16> {
    match number {
        Some(number) => number.total,
        None => None,
    }
}

/// Kinds as numbers.
spec fn plain(list: Seq<(u8, Seq<u8>)>) -> Seq<(int, Seq<u8>)> {
    Seq::new(list.len(), |i: int| (list[i].0 as int, list[i].1))
}

proof fn lemma_chain_read(list: Seq<(u8, Seq<u8>)>)
    requires
        list.len() > 0,
        flac::all_fit(list),
        flac::plain_kinds(list),
    ensures
        blocks_read(flac::chain(list)) == plain(list),
    decreases list.len(),
{
    let (kind, body) = list[0];
    let last = list.len() == 1;
    let rest = list.drop_first();
    let b = flac::chain(list);
    let one = flac::block_bytes(kind, body, last);
    let length = be_bytes(body.len(), 3);
    lemma_be_bytes_len(body.len(), 3);
    lemma_capacities();
    law_be_round_trip(body.len(), 3);
    lemma_three(length);
    assert(kind < 128);
    assert((kind | 0x80) == kind + 128) by (bit_vector)
        requires
            kind < 128,
    ;
    assert(one[1] == length[0] && one[2] == length[1] && one[3] == length[2]);
    assert(b =~= one + flac::chain(rest));
    assert(b.subrange(4, 4 + body.len() as int) =~= body);
    assert(b.skip(4 + body.len() as int) =~= flac::chain(rest));
    if last {
        assert(plain(list) =~= seq![(kind as int, body)]);
    } else {
        assert forall|i: int| 0 <= i < rest.len() implies (#[trigger] rest[i]).1.len()
            <= flac::MAX_BLOCK && rest[i].0 < 128 by {
            assert(rest[i] == list[i + 1]);
        }
        lemma_chain_read(rest);
        assert(plain(list) =~= seq![(kind as int, body)] + plain(rest));
    }
}

proof fn lemma_three(s: Seq<u8>)
    requires
        s.len() == 3,
    ensures
        be_value(s) == s[0] * 0x1_0000 + s[1] * 256 + s[2],
{
    reveal_with_fuel(be_value, 4);
}

/// What blocks a list of places describes.
spec fn found_at(whole: Seq<u8>, parts: Seq<flac::Part>) -> Seq<(int, Seq<u8>)> {
    Seq::new(parts.len(), |i: int| (parts[i].kind as int, parts[i].content(whole)))
}

proof fn lemma_scan_read(whole: Seq<u8>, base: int)
    requires
        0 <= base <= whole.len() <= usize::MAX,
    ensures
        blocks_whole(whole.skip(base)) <==> flac::scan(whole.skip(base), base) is Some,
        flac::scan(whole.skip(base), base) matches Some(parts) ==> blocks_read(whole.skip(base))
            == found_at(whole, parts) && parts.len() > 0 && parts.last().limit() == base + span(
            blocks_read(whole.skip(base)),
        ),
    decreases whole.len() - base,
{
    let b = whole.skip(base);
    if b.len() >= 4 {
        let len = be_value(b.subrange(1, 4)) as int;
        lemma_three(b.subrange(1, 4));
        lemma_be_value_bound(b.subrange(1, 4));
        lemma_capacities();
        let part = flac::Part { kind: b[0] % 128, start: base, len };
        if b.len() >= 4 + len {
            let body = b.subrange(4, 4 + len);
            assert(part.content(whole) =~= body);
            assert(b.skip(4 + len) =~= whole.skip(base + 4 + len));
            let one = seq![(b[0] as int % 128, body)];
            assert(one.drop_last() =~= Seq::empty());
            assert(span(one.drop_last()) == 0);
            if b[0] >= 128 {
                assert(found_at(whole, seq![part]) =~= one);
            } else {
                lemma_scan_read(whole, base + 4 + len);
                if let Some(rest) = flac::scan(whole.skip(base + 4 + len), base + 4 + len) {
                    let more = blocks_read(whole.skip(base + 4 + len));
                    assert(found_at(whole, seq![part] + rest) =~= one + found_at(whole, rest));
                    lemma_span_joined(one, more);
                    assert((seq![part] + rest).last() == rest.last());
                }
            }
        }
    }
}

proof fn lemma_span_joined(a: Seq<(int, Seq<u8>)>, b: Seq<(int, Seq<u8>)>)
    ensures
        span(a + b) == span(a) + span(b),
    decreases b.len(),
{
    if b.len() == 0 {
        assert(a + b =~= a);
    } else {
        assert((a + b).drop_last() =~= a + b.drop_last());
        lemma_span_joined(a, b.drop_last());
    }
}

proof fn lemma_apart_joined(a: Seq<(int, Seq<u8>)>, b: Seq<(int, Seq<u8>)>)
    ensures
        apart_from_tags(a + b) == apart_from_tags(a) + apart_from_tags(b),
    decreases b.len(),
{
    if b.len() == 0 {
        assert(a + b =~= a);
        assert(apart_from_tags(a) + apart_from_tags(b) =~= apart_from_tags(a));
    } else {
        assert((a + b).drop_last() =~= a + b.drop_last());
        lemma_apart_joined(a, b.drop_last());
        assert(apart_from_tags(a + b) =~= apart_from_tags(a) + apart_from_tags(b));
    }
}

/// The blocks that are kept are those that are apart from the tags.
proof fn lemma_others_read(whole: Seq<u8>, parts: Seq<flac::Part>)
    ensures
        plain(flac::others(whole, parts)) == apart_from_tags(found_at(whole, parts)),
        apart_from_tags(apart_from_tags(found_at(whole, parts))) == apart_from_tags(
            found_at(whole, parts),
        ),
        under(apart_from_tags(found_at(whole, parts)), 4) == Seq::<Seq<u8>>::empty(),
    decreases parts.len(),
{
    if parts.len() == 0 {
        assert(plain(flac::others(whole, parts)) =~= apart_from_tags(found_at(whole, parts)));
    } else {
        let first = parts[0];
        let rest = parts.drop_first();
        let one = seq![(first.kind as int, first.content(whole))];
        lemma_others_read(whole, rest);
        assert(found_at(whole, parts) =~= one + found_at(whole, rest));
        lemma_apart_joined(one, found_at(whole, rest));
        assert(one.drop_last() =~= Seq::empty());
        assert(apart_from_tags(one.drop_last()) =~= Seq::empty());
        assert(apart_from_tags(one) =~= if first.kind == 0 || first.kind == 4 {
            Seq::empty()
        } else {
            one
        });
        let kept = apart_from_tags(found_at(whole, rest));
        lemma_apart_joined(apart_from_tags(one), kept);
        lemma_under_joined(apart_from_tags(one), kept, 4);
        assert(under(one.drop_last(), 4) =~= Seq::empty());
        if first.kind == 0 || first.kind == 4 {
            assert(apart_from_tags(one) + kept =~= kept);
        } else {
            assert(plain(flac::others(whole, parts)) =~= one + kept);
            assert(under(one, 4) =~= Seq::empty());
            assert(under(one, 4) + under(kept, 4) =~= Seq::empty());
        }
    }
}

proof fn lemma_text_read(text: Seq<char>, rest: Seq<u8>, count: int)
    requires
        encode_utf8(text).len() <= u32::MAX,
        count > 0,
    ensures
        texts_read(flac::measured(text) + rest, count) == seq![encode_utf8(text)] + texts_read(
            rest,
            count - 1,
        ),
{
    let bytes = encode_utf8(text);
    let b = flac::measured(text) + rest;
    let len = bytes.len() as int;
    assert(b.take(4) =~= flac::le_bytes(len));
    assert(little_endian(flac::le_bytes(len)) == len);
    assert(b.subrange(4, 4 + len) =~= bytes);
    assert(b.skip(4 + len) =~= rest);
}

#[verifier::rlimit(60)]
#[verifier::spinoff_prover]
proof fn lemma_texts_read(texts: Seq<Seq<char>>, rest: Seq<u8>, more: int)
    requires
        more >= 0,
        forall|i: int|
            0 <= i < texts.len() ==> encode_utf8(#[trigger] texts[i]).len() <= u32::MAX,
    ensures
        texts_read(
            flat(Seq::new(texts.len(), |i: int| flac::measured(texts[i]))) + rest,
            texts.len() + more,
        ) == each(texts) + texts_read(rest, more),
    decreases texts.len(),
{
    let parts = Seq::new(texts.len(), |i: int| flac::measured(texts[i]));
    if texts.len() == 0 {
        assert(flat(parts) + rest =~= rest);
        assert(each(texts) + texts_read(rest, more) =~= texts_read(rest, more));
    } else {
        let before = texts.drop_last();
        let last = flac::measured(texts.last());
        assert(parts.drop_last() =~= Seq::new(before.len(), |i: int| flac::measured(before[i])));
        assert(flat(parts) + rest =~= flat(parts.drop_last()) + (last + rest));
        assert(texts[texts.len() - 1] == texts.last());
        assert forall|i: int| 0 <= i < before.len() implies encode_utf8(
            #[trigger] before[i],
        ).len() <= u32::MAX by {
            assert(before[i] == texts[i]);
        }
        lemma_texts_read(before, last + rest, more + 1);
        lemma_text_read(texts.last(), rest, more + 1);
        assert(each(texts) + texts_read(rest, more) =~= each(before) + (seq![
            encode_utf8(texts.last()),
        ] + texts_read(rest, more)));
    }
}

proof fn lemma_comment_read(meta: MetaView)
    requires
        flac::comment_bytes(meta).len() <= flac::MAX_BLOCK,
    ensures
        comment_read(flac::comment_bytes(meta)) == each(flac::entry_texts(meta)),
{
    lemma_list_read(flac::entry_texts(meta));
}

/// A comment is read back field by field.
#[verifier::rlimit(60)]
#[verifier::spinoff_prover]
proof fn lemma_list_read(all: Seq<Seq<char>>)
    requires
        (flac::measured(flac::VENDOR@) + flac::length_bytes(all.len() as int) + flat(
            Seq::new(all.len(), |i: int| flac::measured(all[i])),
        )).len() <= flac::MAX_BLOCK,
    ensures
        comment_read(
            flac::measured(flac::VENDOR@) + flac::length_bytes(all.len() as int) + flat(
                Seq::new(all.len(), |i: int| flac::measured(all[i])),
            ),
        ) == each(all),
{
    let parts = Seq::new(all.len(), |i: int| flac::measured(all[i]));
    let b = flac::measured(flac::VENDOR@) + flac::length_bytes(all.len() as int) + flat(parts);
    let vendor = encode_utf8(flac::VENDOR@);
    let writer = vendor.len() as int;
    assert(b.len() == 4 + writer + 4 + flat(parts).len());
    lemma_weight(parts, 4);
    assert(b.take(4) =~= flac::le_bytes(writer));
    assert(little_endian(flac::le_bytes(writer)) == writer);
    let count = all.len() as int;
    assert(b.subrange(4 + writer, 8 + writer) =~= flac::le_bytes(count));
    assert(little_endian(flac::le_bytes(count)) == count);
    assert(b.skip(8 + writer) =~= flat(parts) + Seq::empty());
    assert forall|i: int| 0 <= i < all.len() implies encode_utf8(#[trigger] all[i]).len()
        <= u32::MAX by {
        lemma_flat_part(parts, i);
        assert(parts[i] == flac::measured(all[i]));
    }
    lemma_texts_read(all, Seq::empty(), 0);
    assert(each(all) + texts_read(Seq::empty(), 0) =~= each(all));
}

/// Parts that have a least length have it together.
proof fn lemma_weight(parts: Seq<Seq<u8>>, least: int)
    requires
        least > 0,
        forall|i: int| 0 <= i < parts.len() ==> (#[trigger] parts[i]).len() >= least,
    ensures
        flat(parts).len() >= parts.len(),
    decreases parts.len(),
{
    if parts.len() > 0 {
        assert(parts[parts.len() - 1] == parts.last());
        assert forall|i: int| 0 <= i < parts.drop_last().len() implies (
        #[trigger] parts.drop_last()[i]).len() >= least by {
            assert(parts.drop_last()[i] == parts[i]);
        }
        lemma_weight(parts.drop_last(), least);
    }
}

/// Values with a key before each.
pub open spec fn keyed(key: Seq<u8>, values: Seq<Seq<u8>>) -> Seq<Seq<u8>> {
    Seq::new(values.len(), |i: int| key + values[i])
}

/// Whether two keys differ at a position that both have.
spec fn differ(a: Seq<u8>, b: Seq<u8>, at: int) -> bool {
    0 <= at < a.len() && at < b.len() && a[at] != b[at]
}

proof fn lemma_valued_keyed(key: Seq<u8>, values: Seq<Seq<u8>>, other: Seq<u8>)
    requires
        key == other || exists|at: int| differ(key, other, at),
    ensures
        valued(keyed(key, values), other) == if key == other {
            values
        } else {
            Seq::empty()
        },
    decreases values.len(),
{
    let list = keyed(key, values);
    if values.len() > 0 {
        assert(list.drop_last() =~= keyed(key, values.drop_last()));
        lemma_valued_keyed(key, values.drop_last(), other);
        assert(values.drop_last().push(values.last()) =~= values);
        let field = key + values.last();
        if key == other {
            assert(field.take(key.len() as int) =~= key);
            assert(field.skip(key.len() as int) =~= values.last());
        } else {
            let at = choose|at: int| differ(key, other, at);
            if begins(field, other) {
                assert(field.take(other.len() as int)[at] == other[at]);
                assert(field[at] == key[at]);
            }
        }
    } else {
        assert(values =~= Seq::empty());
    }
}

proof fn lemma_valued_joined(a: Seq<Seq<u8>>, b: Seq<Seq<u8>>, key: Seq<u8>)
    ensures
        valued(a + b, key) == valued(a, key) + valued(b, key),
    decreases b.len(),
{
    if b.len() == 0 {
        assert(a + b =~= a);
        assert(valued(a, key) + valued(b, key) =~= valued(a, key));
    } else {
        assert((a + b).drop_last() =~= a + b.drop_last());
        lemma_valued_joined(a, b.drop_last(), key);
        assert(valued(a + b, key) =~= valued(a, key) + valued(b, key));
    }
}

/// Fields under nine keys.
pub open spec fn nine(keys: Seq<Seq<u8>>, values: Seq<Seq<Seq<u8>>>) -> Seq<Seq<u8>> {
    keyed(keys[0], values[0]) + keyed(keys[1], values[1]) + keyed(keys[2], values[2]) + keyed(
        keys[3],
        values[3],
    ) + keyed(keys[4], values[4]) + keyed(keys[5], values[5]) + keyed(keys[6], values[6]) + keyed(
        keys[7],
        values[7],
    ) + keyed(keys[8], values[8])
}

spec fn all_differ(keys: Seq<Seq<u8>>) -> bool {
    forall|i: int, j: int|
        0 <= i < keys.len() && 0 <= j < keys.len() && i != j ==> exists|at: int|
            #[trigger] differ(#[trigger] keys[i], #[trigger] keys[j], at)
}

proof fn lemma_nine(keys: Seq<Seq<u8>>, values: Seq<Seq<Seq<u8>>>, at: int)
    requires
        keys.len() == 9,
        values.len() == 9,
        all_differ(keys),
        0 <= at < 9,
    ensures
        valued(nine(keys, values), keys[at]) == values[at],
{
    let key = keys[at];
    let n0 = keyed(keys[0], values[0]);
    let n1 = keyed(keys[1], values[1]);
    let n2 = keyed(keys[2], values[2]);
    let n3 = keyed(keys[3], values[3]);
    let n4 = keyed(keys[4], values[4]);
    let n5 = keyed(keys[5], values[5]);
    let n6 = keyed(keys[6], values[6]);
    let n7 = keyed(keys[7], values[7]);
    let n8 = keyed(keys[8], values[8]);
    lemma_valued_joined(n0, n1, key);
    lemma_valued_joined(n0 + n1, n2, key);
    lemma_valued_joined(n0 + n1 + n2, n3, key);
    lemma_valued_joined(n0 + n1 + n2 + n3, n4, key);
    lemma_valued_joined(n0 + n1 + n2 + n3 + n4, n5, key);
    lemma_valued_joined(n0 + n1 + n2 + n3 + n4 + n5, n6, key);
    lemma_valued_joined(n0 + n1 + n2 + n3 + n4 + n5 + n6, n7, key);
    lemma_valued_joined(n0 + n1 + n2 + n3 + n4 + n5 + n6 + n7, n8, key);
    lemma_valued_at(keys, values, 0, at);
    lemma_valued_at(keys, values, 1, at);
    lemma_valued_at(keys, values, 2, at);
    lemma_valued_at(keys, values, 3, at);
    lemma_valued_at(keys, values, 4, at);
    lemma_valued_at(keys, values, 5, at);
    lemma_valued_at(keys, values, 6, at);
    lemma_valued_at(keys, values, 7, at);
    lemma_valued_at(keys, values, 8, at);
    assert(valued(nine(keys, values), key) =~= values[at]);
}

proof fn lemma_valued_at(keys: Seq<Seq<u8>>, values: Seq<Seq<Seq<u8>>>, i: int, at: int)
    requires
        all_differ(keys),
        0 <= i < keys.len(),
        0 <= at < keys.len(),
    ensures
        valued(keyed(keys[i], values[i]), keys[at]) == if i == at {
            values[i]
        } else {
            Seq::empty()
        },
{
    if i != at {
        let k = choose|k: int| differ(keys[i], keys[at], k);
        assert(differ(keys[i], keys[at], k));
        assert(keys[i] != keys[at]);
    }
    lemma_valued_keyed(keys[i], values[i], keys[at]);
}

/// The keys of a comment.
pub open spec fn comment_keys() -> Seq<Seq<u8>> {
    seq![
        encode_utf8("TITLE="@),
        encode_utf8("ARTIST="@),
        encode_utf8("ALBUM="@),
        encode_utf8("ALBUMARTIST="@),
        encode_utf8("DATE="@),
        encode_utf8("GENRE="@),
        encode_utf8("TRACKNUMBER="@),
        encode_utf8("TRACKTOTAL="@),
        encode_utf8("DISCNUMBER="@),
    ]
}

/// What goes behind these keys.
pub open spec fn comment_values(meta: MetaView) -> Seq<Seq<Seq<u8>>> {
    seq![
        only(meta.title),
        each(meta.artists),
        only(meta.album),
        each(meta.album_artists),
        in_digits(meta.year),
        only(meta.genre),
        in_digits(index_of(meta.number)),
        in_digits(total_of(meta.number)),
        in_digits(meta.volume),
    ]
}

proof fn lemma_comment_keys()
    ensures
        all_differ(comment_keys()),
{
    let keys = comment_keys();
    reveal_strlit("TITLE=");
    reveal_strlit("ARTIST=");
    reveal_strlit("ALBUM=");
    reveal_strlit("ALBUMARTIST=");
    reveal_strlit("DATE=");
    reveal_strlit("GENRE=");
    reveal_strlit("TRACKNUMBER=");
    reveal_strlit("TRACKTOTAL=");
    reveal_strlit("DISCNUMBER=");
    is_ascii_chars_encode_utf8("TITLE="@);
    is_ascii_chars_encode_utf8("ARTIST="@);
    is_ascii_chars_encode_utf8("ALBUM="@);
    is_ascii_chars_encode_utf8("ALBUMARTIST="@);
    is_ascii_chars_encode_utf8("DATE="@);
    is_ascii_chars_encode_utf8("GENRE="@);
    is_ascii_chars_encode_utf8("TRACKNUMBER="@);
    is_ascii_chars_encode_utf8("TRACKTOTAL="@);
    is_ascii_chars_encode_utf8("DISCNUMBER="@);
    assert(keys[0][0] == 84 && keys[0][1] == 73 && keys[0][5] == 61);
    assert(keys[1][0] == 65 && keys[1][1] == 82 && keys[1][5] == 84);
    assert(keys[2][0] == 65 && keys[2][1] == 76 && keys[2][5] == 61);
    assert(keys[3][0] == 65 && keys[3][1] == 76 && keys[3][5] == 65);
    assert(keys[4][0] == 68 && keys[4][1] == 65);
    assert(keys[5][0] == 71 && keys[5][1] == 69 && keys[5][5] == 61);
    assert(keys[6][0] == 84 && keys[6][1] == 82 && keys[6][5] == 78);
    assert(keys[7][0] == 84 && keys[7][1] == 82 && keys[7][5] == 84);
    assert(keys[8][0] == 68 && keys[8][1] == 73 && keys[8][5] == 85);
    assert forall|i: int, j: int|
        0 <= i < keys.len() && 0 <= j < keys.len() && i != j implies exists|at: int|
        #[trigger] differ(#[trigger] keys[i], #[trigger] keys[j], at) by {
        if keys[i][0] != keys[j][0] {
            assert(differ(keys[i], keys[j], 0));
        } else if keys[i][1] != keys[j][1] {
            assert(differ(keys[i], keys[j], 1));
        } else {
            assert(differ(keys[i], keys[j], 5));
        }
    }
}

proof fn lemma_each_entry(key: Seq<char>, values: Seq<Seq<char>>)
    ensures
        each(flac::each_entry(key, values)) == keyed(encode_utf8(key), each(values)),
{
    let a = each(flac::each_entry(key, values));
    let b = keyed(encode_utf8(key), each(values));
    assert forall|i: int| 0 <= i < values.len() implies a[i] == b[i] by {
        lemma_encoded_joined(key, values[i]);
    }
    assert(a =~= b);
}

proof fn lemma_entry(key: Seq<char>, value: Option<Seq<char>>)
    ensures
        each(flac::entry(key, value)) == keyed(encode_utf8(key), only(value)),
{
    if let Some(text) = value {
        lemma_encoded_joined(key, text);
    }
    assert(each(flac::entry(key, value)) =~= keyed(encode_utf8(key), only(value)));
}

proof fn lemma_each_both(a: Seq<Seq<char>>, b: Seq<Seq<char>>)
    ensures
        each(a + b) == each(a) + each(b),
{
    assert(each(a + b) =~= each(a) + each(b));
}

proof fn lemma_entries(meta: MetaView)
    ensures
        each(flac::entry_texts(meta)) == nine(comment_keys(), comment_values(meta)),
{
    let index = index_of(meta.number);
    let total = total_of(meta.number);
    let e0 = flac::entry("TITLE="@, meta.title);
    let e1 = flac::each_entry("ARTIST="@, meta.artists);
    let e2 = flac::entry("ALBUM="@, meta.album);
    let e3 = flac::each_entry("ALBUMARTIST="@, meta.album_artists);
    let e4 = flac::entry("DATE="@, number_text(meta.year));
    let e5 = flac::entry("GENRE="@, meta.genre);
    let e6 = flac::entry("TRACKNUMBER="@, number_text(index));
    let e7 = flac::entry("TRACKTOTAL="@, number_text(total));
    let e8 = flac::entry("DISCNUMBER="@, number_text(meta.volume));
    assert(flac::entry_texts(meta) == e0 + e1 + e2 + e3 + e4 + e5 + e6 + e7 + e8);
    lemma_each_both(e0, e1);
    lemma_each_both(e0 + e1, e2);
    lemma_each_both(e0 + e1 + e2, e3);
    lemma_each_both(e0 + e1 + e2 + e3, e4);
    lemma_each_both(e0 + e1 + e2 + e3 + e4, e5);
    lemma_each_both(e0 + e1 + e2 + e3 + e4 + e5, e6);
    lemma_each_both(e0 + e1 + e2 + e3 + e4 + e5 + e6, e7);
    lemma_each_both(e0 + e1 + e2 + e3 + e4 + e5 + e6 + e7, e8);
    lemma_entry("TITLE="@, meta.title);
    lemma_each_entry("ARTIST="@, meta.artists);
    lemma_entry("ALBUM="@, meta.album);
    lemma_each_entry("ALBUMARTIST="@, meta.album_artists);
    lemma_entry("DATE="@, number_text(meta.year));
    lemma_entry("GENRE="@, meta.genre);
    lemma_entry("TRACKNUMBER="@, number_text(index));
    lemma_entry("TRACKTOTAL="@, number_text(total));
    lemma_entry("DISCNUMBER="@, number_text(meta.volume));
    assert(in_digits(meta.year) =~= only(number_text(meta.year)));
    assert(in_digits(index) =~= only(number_text(index)));
    assert(in_digits(total) =~= only(number_text(total)));
    assert(in_digits(meta.volume) =~= only(number_text(meta.volume)));
}

/// A new head of `FLAC` is the old one with one comment, that of the meta, behind the
/// description of the stream: all other blocks are there, as they were and in their
/// order, and exactly the old blocks are replaced.
pub proof fn law_flac_head_keeps_all_but_the_comment(file: Seq<u8>, meta: MetaView)
    requires
        file.len() <= usize::MAX,
        flac::patched(file, meta) is Ready,
    ensures
        ({
            let head = flac::patched(file, meta)->head;
            let old = blocks_read(file.skip(4));
            let new = blocks_read(head.skip(4));
            &&& head.take(4) == seq![0x66u8, 0x4Cu8, 0x61u8, 0x43u8]
            &&& flac::patched(file, meta)->used == 4 + span(old)
            &&& head.len() == 4 + span(new)
            &&& old.len() > 0 && old[0].0 == 0
            &&& new.len() > 1 && new[0] == old[0]
            &&& new[1] == (4int, flac::comment_bytes(meta))
            &&& under(new, 4) == seq![flac::comment_bytes(meta)]
            &&& apart_from_tags(new) == apart_from_tags(old)
            &&& flac::comment_bytes(meta).len() <= 0xFF_FFFF
        }),
{
    let head = flac::patched(file, meta)->head;
    let old = blocks_read(file.skip(4));
    let parts = flac::scan(file.skip(4), 4)->Some_0;
    let list = flac::new_blocks(file, parts, meta);
    lemma_scan_read(file, 4);
    flac::lemma_scan(file.skip(4), 4);
    lemma_others_read(file, parts);
    let others = flac::others(file, parts);
    let kept = plain(others);
    assert(list[0] == (0u8, parts[0].content(file)));
    assert(list[1] == (4u8, flac::comment_bytes(meta)));
    flac::lemma_others_are_others(file, parts);
    assert forall|i: int| 0 <= i < list.len() implies (#[trigger] list[i]).0 < 128 by {
        if i >= 2 {
            assert(list[i] == others[i - 2]);
        }
    }
    lemma_chain_read(list);
    let new = plain(list);
    assert(head.skip(4) =~= flac::chain(list));
    assert(head.take(4) =~= seq![0x66u8, 0x4Cu8, 0x61u8, 0x43u8]);
    let first = seq![(0int, parts[0].content(file)), (4int, flac::comment_bytes(meta))];
    assert(new =~= first + kept);
    assert(old[0] == (0int, parts[0].content(file)));
    lemma_apart_joined(first, kept);
    lemma_under_joined(first, kept, 4);
    assert(first.drop_last() =~= seq![first[0]]);
    assert(first.drop_last().drop_last() =~= Seq::empty());
    reveal_with_fuel(apart_from_tags, 3);
    reveal_with_fuel(under, 3);
    assert(apart_from_tags(first) =~= Seq::empty());
    assert(under(first, 4) =~= seq![flac::comment_bytes(meta)]);
    assert(apart_from_tags(first) + kept =~= kept);
    assert(under(first, 4) + under(kept, 4) =~= under(first, 4));
    lemma_chain_span(list);
}

proof fn lemma_chain_span(list: Seq<(u8, Seq<u8>)>)
    ensures
        flac::chain(list).len() == span(plain(list)),
    decreases list.len(),
{
    if list.len() > 0 {
        let rest = list.drop_first();
        let one = seq![(list[0].0 as int, list[0].1)];
        lemma_chain_span(rest);
        lemma_be_bytes_len(list[0].1.len(), 3);
        assert(plain(list) =~= one + plain(rest));
        lemma_span_joined(one, plain(rest));
        assert(one.drop_last() =~= Seq::empty());
        assert(span(one.drop_last()) == 0);
    }
}

/// How many bytes texts take, with the length before each.
pub open spec fn measure(fields: Seq<Seq<u8>>) -> int
    decreases fields.len(),
{
    if fields.len() == 0 {
        0
    } else {
        measure(fields.drop_last()) + 4 + fields.last().len()
    }
}

proof fn lemma_measure(texts: Seq<Seq<char>>)
    ensures
        flat(Seq::new(texts.len(), |i: int| flac::measured(texts[i]))).len() == measure(
            each(texts),
        ),
    decreases texts.len(),
{
    let parts = Seq::new(texts.len(), |i: int| flac::measured(texts[i]));
    if texts.len() > 0 {
        let before = texts.drop_last();
        assert(parts.drop_last() =~= Seq::new(before.len(), |i: int| flac::measured(before[i])));
        assert(each(texts).drop_last() =~= each(before));
        lemma_measure(before);
    }
}

proof fn lemma_comment_measure(all: Seq<Seq<char>>)
    ensures
        ({
            let comment = flac::measured(flac::VENDOR@) + flac::length_bytes(all.len() as int)
                + flat(Seq::new(all.len(), |i: int| flac::measured(all[i])));
            comment.len() <= flac::MAX_BLOCK ==> comment.len() == 8 + little_endian(
                comment.take(4),
            ) + measure(each(all))
        }),
{
    let comment = flac::measured(flac::VENDOR@) + flac::length_bytes(all.len() as int) + flat(
        Seq::new(all.len(), |i: int| flac::measured(all[i])),
    );
    let writer = encode_utf8(flac::VENDOR@).len() as int;
    lemma_measure(all);
    if comment.len() <= flac::MAX_BLOCK {
        assert(comment.take(4) =~= flac::le_bytes(writer));
        assert(little_endian(flac::le_bytes(writer)) == writer);
    }
}

proof fn lemma_comment_fields(meta: MetaView)
    requires
        flac::comment_bytes(meta).len() <= 0xFF_FFFF,
    ensures
        ({
            let comment = flac::comment_bytes(meta);
            let fields = comment_read(comment);
            &&& valued(fields, encode_utf8("TITLE="@)) == only(meta.title)
            &&& valued(fields, encode_utf8("ARTIST="@)) == each(meta.artists)
            &&& valued(fields, encode_utf8("ALBUM="@)) == only(meta.album)
            &&& valued(fields, encode_utf8("ALBUMARTIST="@)) == each(meta.album_artists)
            &&& valued(fields, encode_utf8("DATE="@)) == in_digits(meta.year)
            &&& valued(fields, encode_utf8("GENRE="@)) == only(meta.genre)
            &&& valued(fields, encode_utf8("TRACKNUMBER="@)) == in_digits(index_of(meta.number))
            &&& valued(fields, encode_utf8("TRACKTOTAL="@)) == in_digits(total_of(meta.number))
            &&& valued(fields, encode_utf8("DISCNUMBER="@)) == in_digits(meta.volume)
            &&& fields.len() == only(meta.title).len() + meta.artists.len() + only(
                meta.album,
            ).len() + meta.album_artists.len() + in_digits(meta.year).len() + only(
                meta.genre,
            ).len() + in_digits(index_of(meta.number)).len() + in_digits(
                total_of(meta.number),
            ).len() + in_digits(meta.volume).len()
            &&& comment.len() == 8 + little_endian(comment.take(4)) + measure(fields)
        }),
{
    lemma_comment_read(meta);
    lemma_entries(meta);
    lemma_comment_keys();
    lemma_comment_measure(flac::entry_texts(meta));
    let keys = comment_keys();
    let values = comment_values(meta);
    lemma_nine(keys, values, 0);
    lemma_nine(keys, values, 1);
    lemma_nine(keys, values, 2);
    lemma_nine(keys, values, 3);
    lemma_nine(keys, values, 4);
    lemma_nine(keys, values, 5);
    lemma_nine(keys, values, 6);
    lemma_nine(keys, values, 7);
    lemma_nine(keys, values, 8);
}

/// The comment of a new head says what the meta says: its fields that begin with
/// `ARTIST=` are the artists, one by one and in their order, those that begin with
/// `ALBUMARTIST=` the artists of the album, whatever the other fields are, and so on for
/// each key and its own field of the meta; there is no other field, and nothing behind
/// the last one.
#[verifier::rlimit(60)]
#[verifier::spinoff_prover]
pub proof fn law_flac_comment_says_what_the_meta_says(file: Seq<u8>, meta: MetaView)
    requires
        file.len() <= usize::MAX,
        flac::patched(file, meta) is Ready,
    ensures
        ({
            let comment = blocks_read(flac::patched(file, meta)->head.skip(4))[1].1;
            let fields = comment_read(comment);
            &&& valued(fields, encode_utf8("TITLE="@)) == only(meta.title)
            &&& valued(fields, encode_utf8("ARTIST="@)) == each(meta.artists)
            &&& valued(fields, encode_utf8("ALBUM="@)) == only(meta.album)
            &&& valued(fields, encode_utf8("ALBUMARTIST="@)) == each(meta.album_artists)
            &&& valued(fields, encode_utf8("DATE="@)) == in_digits(meta.year)
            &&& valued(fields, encode_utf8("GENRE="@)) == only(meta.genre)
            &&& valued(fields, encode_utf8("TRACKNUMBER="@)) == in_digits(index_of(meta.number))
            &&& valued(fields, encode_utf8("TRACKTOTAL="@)) == in_digits(total_of(meta.number))
            &&& valued(fields, encode_utf8("DISCNUMBER="@)) == in_digits(meta.volume)
            &&& fields.len() == only(meta.title).len() + meta.artists.len() + only(
                meta.album,
            ).len() + meta.album_artists.len() + in_digits(meta.year).len() + only(
                meta.genre,
            ).len() + in_digits(index_of(meta.number)).len() + in_digits(
                total_of(meta.number),
            ).len() + in_digits(meta.volume).len()
            &&& comment.len() == 8 + little_endian(comment.take(4)) + measure(fields)
        }),
{
    law_flac_head_keeps_all_but_the_comment(file, meta);
    lemma_comment_fields(meta);
}

/// Tags are written into every `FLAC` file whose blocks are all here, with the
/// description of the stream first, as long as the comment fits into a block.
pub proof fn law_flac_is_tagged(file: Seq<u8>, meta: MetaView)
    requires
        file.len() <= usize::MAX,
        file.len() >= 4,
        file.take(4) == seq![0x66u8, 0x4Cu8, 0x61u8, 0x43u8],
        blocks_whole(file.skip(4)),
        flac::comment_bytes(meta).len() <= 0xFF_FFFF,
    ensures
        flac::patched(file, meta) is Ready <==> blocks_read(file.skip(4))[0].0 == 0,
        !(flac::patched(file, meta) is Ready) ==> flac::patched(file, meta) == Built::Refused(
            Reason::Malformed,
        ),
{
    let parts = flac::scan(file.skip(4), 4)->Some_0;
    assert(flac::MAGIC@ =~= seq![0x66u8, 0x4Cu8, 0x61u8, 0x43u8]);
    lemma_scan_read(file, 4);
    flac::lemma_scan(file.skip(4), 4);
    let list = flac::new_blocks(file, parts, meta);
    let others = flac::others(file, parts);
    flac::lemma_others_are_others(file, parts);
    assert(blocks_read(file.skip(4))[0].0 == parts[0].kind);
    assert forall|i: int| 0 <= i < list.len() implies (#[trigger] list[i]).1.len()
        <= flac::MAX_BLOCK by {
        if i >= 2 {
            assert(list[i] == others[i - 2]);
        }
    }
}

// ---------------------------------------------------------------------------
// `MP4`
// ---------------------------------------------------------------------------

/// The box that bytes begin with, if it is here whole: its kind, the length of its header
/// and its size. A box has its size (4) and its kind (4) before it, and the size once
/// more (8) if the first one is `1`.
pub open spec fn box_at(b: Seq<u8>) -> Option<(Seq<u8>, int, int)> {
    if b.len() < 8 {
        None
    } else {
        let declared = be_value(b.take(4)) as int;
        let large = declared == 1 && b.len() >= 16;
        let header: int = if large {
            16
        } else {
            8
        };
        let size = if large {
            be_value(b.subrange(8, 16)) as int
        } else {
            declared
        };
        if size < header || b.len() < size {
            None
        } else {
            Some((b.subrange(4, 8), header, size))
        }
    }
}

/// What is inside the first box of a kind.
pub open spec fn payload_of(b: Seq<u8>, kind: Seq<u8>) -> Option<Seq<u8>>
    decreases b.len(),
{
    match box_at(b) {
        Some((found, header, size)) => if header < 8 || size < header || b.len() < size {
            None
        } else if found == kind {
            Some(b.subrange(header, size))
        } else {
            payload_of(b.skip(size), kind)
        },
        None => None,
    }
}

/// The items that a reader finds in a list of tags: the kind of each, the type of its
/// value and the value, out of the box `data` inside the item.
pub open spec fn items_read(b: Seq<u8>) -> Seq<(Seq<u8>, (int, Seq<u8>))>
    decreases b.len(),
{
    if b.len() < 24 {
        Seq::empty()
    } else {
        let size = be_value(b.take(4)) as int;
        if size < 24 || b.len() < size || be_value(b.subrange(8, 12)) != size - 8 || b.subrange(
            12,
            16,
        ) != seq![0x64u8, 0x61u8, 0x74u8, 0x61u8] || be_value(b.subrange(20, 24)) != 0 {
            Seq::empty()
        } else {
            seq![(b.subrange(4, 8), (be_value(b.subrange(16, 20)) as int, b.subrange(24, size)))]
                + items_read(b.skip(size))
        }
    }
}

/// Values of the type of a text.
pub open spec fn as_text(values: Seq<Seq<u8>>) -> Seq<(int, Seq<u8>)> {
    Seq::new(values.len(), |i: int| (1int, values[i]))
}

/// The number of a track and the number of tracks, `0` if that is unknown, in two bytes
/// each.
pub open spec fn place_in_bytes(number: Option<Number>) -> Seq<(int, Seq<u8>)> {
    match number {
        Some(number) => {
            let total = match number.total {
                Some(total) => total,
                None => 0,
            };
            seq![
                (
                    0int,
                    seq![
                        0u8,
                        0u8,
                        (number.index as int / 256) as u8,
                        (number.index as int % 256) as u8,
                        (total as int / 256) as u8,
                        (total as int % 256) as u8,
                        0u8,
                        0u8,
                    ],
                ),
            ]
        },
        None => Seq::empty(),
    }
}

/// The number of a disc in two bytes.
pub open spec fn disc_in_bytes(volume: Option<u16>) -> Seq<(int, Seq<u8>)> {
    match volume {
        Some(volume) => seq![
            (
                0int,
                seq![
                    0u8,
                    0u8,
                    (volume as int / 256) as u8,
                    (volume as int % 256) as u8,
                    0u8,
                    0u8,
                ],
            ),
        ],
        None => Seq::empty(),
    }
}

pub proof fn lemma_payload_first(kind: Seq<u8>, payload: Seq<u8>, rest: Seq<u8>)
    requires
        kind.len() == 4,
        mp4::box_fits(payload),
    ensures
        mp4::box_bytes(kind, payload).len() == payload.len() + 8,
        payload_of(mp4::box_bytes(kind, payload) + rest, kind) == Some(payload),
{
    let made = mp4::box_bytes(kind, payload);
    let whole = made + rest;
    lemma_be_bytes_len(payload.len() + 8, 4);
    lemma_capacities();
    law_be_round_trip(payload.len() + 8, 4);
    assert(whole.take(4) =~= be_bytes(payload.len() + 8, 4));
    assert(whole.subrange(4, 8) =~= kind);
    assert(whole.subrange(8, payload.len() + 8 as int) =~= payload);
}

/// A box is found behind boxes of other kinds.
pub proof fn lemma_payload_behind(a: Seq<u8>, b: Seq<u8>, kind: Seq<u8>, base: int)
    requires
        relocation::closes(a),
        mp4::boxes(a, base) is Ok,
        mp4::first_of(mp4::boxes(a, base)->Ok_0, kind) is None,
    ensures
        payload_of(a + b, kind) == payload_of(b, kind),
    decreases a.len(),
{
    if a.len() == 0 {
        assert(a + b =~= b);
    } else if let mp4::Step::Whole { kind: first, header, size } = mp4::first_box(a) {
        let list = mp4::boxes(a, base)->Ok_0;
        let rest = mp4::boxes(a.skip(size), base + size)->Ok_0;
        let piece = mp4::Piece { kind: first, start: base, header, size };
        assert(list =~= seq![piece] + rest);
        assert(list[0] == piece);
        assert(list.drop_first() =~= rest);
        assert(first != kind);
        lemma_payload_behind(a.skip(size), b, kind, base + size);
        let whole = a + b;
        assert(whole.take(4) =~= a.take(4));
        assert(whole.subrange(4, 8) =~= a.subrange(4, 8));
        if header == 16 {
            assert(whole.subrange(8, 16) =~= a.subrange(8, 16));
        }
        assert(whole.skip(size) =~= a.skip(size) + b);
    }
}

proof fn lemma_item_read(item: mp4::Item, rest: Seq<u8>)
    requires
        item.kind.len() == 4,
        item.fits(),
    ensures
        items_read(item.bytes() + rest) == seq![(item.kind, (item.flag as int, item.value))]
            + items_read(rest),
{
    let b = item.bytes() + rest;
    let body = mp4::data_body(item.flag, item.value);
    let inner = mp4::box_bytes(mp4::DATA@, body);
    let size = item.value.len() + 24;
    lemma_be_bytes_len(item.flag as nat, 4);
    lemma_be_bytes_len((size - 8) as nat, 4);
    lemma_be_bytes_len(size as nat, 4);
    lemma_capacities();
    law_be_round_trip(item.flag as nat, 4);
    law_be_round_trip((size - 8) as nat, 4);
    law_be_round_trip(size as nat, 4);
    assert(body.len() == item.value.len() + 8);
    assert(inner.len() == size - 8);
    assert(b.take(4) =~= be_bytes(size as nat, 4));
    assert(b.subrange(4, 8) =~= item.kind);
    assert(b.subrange(8, 12) =~= be_bytes((size - 8) as nat, 4));
    assert(b.subrange(12, 16) =~= seq![0x64u8, 0x61u8, 0x74u8, 0x61u8]);
    assert(b.subrange(16, 20) =~= be_bytes(item.flag as nat, 4));
    assert(b.subrange(20, 24) =~= seq![0u8, 0u8, 0u8, 0u8]);
    assert(be_value(seq![0u8, 0u8, 0u8, 0u8]) == 0) by {
        reveal_with_fuel(be_value, 5);
    }
    assert(b.subrange(24, size as int) =~= item.value);
    assert(b.skip(size as int) =~= rest);
}

/// Kinds, types and values of items.
spec fn told(items: Seq<mp4::Item>) -> Seq<(Seq<u8>, (int, Seq<u8>))> {
    Seq::new(items.len(), |i: int| (items[i].kind, (items[i].flag as int, items[i].value)))
}

#[verifier::rlimit(60)]
#[verifier::spinoff_prover]
proof fn lemma_items_read(items: Seq<mp4::Item>, rest: Seq<u8>)
    requires
        mp4::items_fit(items),
        forall|i: int| 0 <= i < items.len() ==> (#[trigger] items[i]).kind.len() == 4,
    ensures
        items_read(mp4::items_bytes(items) + rest) == told(items) + items_read(rest),
    decreases items.len(),
{
    if items.len() == 0 {
        assert(mp4::items_bytes(items) + rest =~= rest);
        assert(told(items) + items_read(rest) =~= items_read(rest));
    } else {
        let before = items.drop_last();
        let item = items.last();
        let parts = Seq::new(items.len(), |i: int| items[i].bytes());
        assert(parts.drop_last() =~= Seq::new(before.len(), |i: int| before[i].bytes()));
        assert(items[items.len() - 1] == item);
        assert forall|i: int| 0 <= i < before.len() implies (#[trigger] before[i]).fits()
            && before[i].kind.len() == 4 by {
            assert(before[i] == items[i]);
        }
        assert(mp4::items_bytes(items) + rest =~= mp4::items_bytes(before) + (item.bytes()
            + rest));
        lemma_items_read(before, item.bytes() + rest);
        lemma_item_read(item, rest);
        assert(told(items) + items_read(rest) =~= told(before) + (seq![
            (item.kind, (item.flag as int, item.value)),
        ] + items_read(rest)));
    }
}

/// The kinds of items: `©nam`, `©ART`, `©alb`, `aART`, `©day`, `©gen`, `trkn`, `disk`.
pub open spec fn item_kinds() -> Seq<Seq<u8>> {
    seq![
        seq![0xA9u8, 0x6Eu8, 0x61u8, 0x6Du8],
        seq![0xA9u8, 0x41u8, 0x52u8, 0x54u8],
        seq![0xA9u8, 0x61u8, 0x6Cu8, 0x62u8],
        seq![0x61u8, 0x41u8, 0x52u8, 0x54u8],
        seq![0xA9u8, 0x64u8, 0x61u8, 0x79u8],
        seq![0xA9u8, 0x67u8, 0x65u8, 0x6Eu8],
        seq![0x74u8, 0x72u8, 0x6Bu8, 0x6Eu8],
        seq![0x64u8, 0x69u8, 0x73u8, 0x6Bu8],
    ]
}

/// What goes into these items.
pub open spec fn item_values(meta: MetaView) -> Seq<Seq<(int, Seq<u8>)>> {
    seq![
        as_text(only(meta.title)),
        as_text(in_one_line(meta.artists)),
        as_text(only(meta.album)),
        as_text(in_one_line(meta.album_artists)),
        as_text(in_digits(meta.year)),
        as_text(only(meta.genre)),
        place_in_bytes(meta.number),
        disc_in_bytes(meta.volume),
    ]
}

proof fn lemma_item_kinds()
    ensures
        item_kinds().no_duplicates(),
        item_kinds()[0] == mp4::NAME@,
        item_kinds()[1] == mp4::ARTIST@,
        item_kinds()[2] == mp4::ALBUM@,
        item_kinds()[3] == mp4::ALBUM_ARTIST@,
        item_kinds()[4] == mp4::YEAR@,
        item_kinds()[5] == mp4::GENRE@,
        item_kinds()[6] == mp4::TRACK@,
        item_kinds()[7] == mp4::VOLUME@,
{
    let kinds = item_kinds();
    assert(kinds[0] =~= mp4::NAME@);
    assert(kinds[1] =~= mp4::ARTIST@);
    assert(kinds[2] =~= mp4::ALBUM@);
    assert(kinds[3] =~= mp4::ALBUM_ARTIST@);
    assert(kinds[4] =~= mp4::YEAR@);
    assert(kinds[5] =~= mp4::GENRE@);
    assert(kinds[6] =~= mp4::TRACK@);
    assert(kinds[7] =~= mp4::VOLUME@);
    assert forall|i: int, j: int| 0 <= i < 8 && 0 <= j < 8 && i != j implies kinds[i]
        != kinds[j] by {
        assert(kinds[i][0] != kinds[j][0] || kinds[i][1] != kinds[j][1]);
    }
}

proof fn lemma_two_bytes(value: nat)
    requires
        value < 0x1_0000,
    ensures
        be_bytes(value, 2) == seq![(value as int / 256) as u8, (value as int % 256) as u8],
{
    reveal_with_fuel(be_bytes, 3);
    assert(be_bytes(value, 2) =~= seq![(value as int / 256) as u8, (value as int % 256) as u8]);
}

proof fn lemma_told_text(kind: Seq<u8>, value: Option<Seq<char>>)
    ensures
        told(mp4::text_item(kind, value)) == named(kind, as_text(only(value))),
{
    assert(told(mp4::text_item(kind, value)) =~= named(kind, as_text(only(value))));
}

proof fn lemma_told_numbers(number: Option<Number>, volume: Option<u16>)
    ensures
        told(mp4::track_item(number)) == named(mp4::TRACK@, place_in_bytes(number)),
        told(mp4::volume_item(volume)) == named(mp4::VOLUME@, disc_in_bytes(volume)),
{
    if let Some(number) = number {
        let total = match number.total {
            Some(total) => total,
            None => 0,
        };
        lemma_two_bytes(number.index as nat);
        lemma_two_bytes(total as nat);
        assert(mp4::track_item(Some(number))[0].value =~= place_in_bytes(Some(number))[0].1);
    }
    if let Some(volume) = volume {
        lemma_two_bytes(volume as nat);
        assert(mp4::volume_item(Some(volume))[0].value =~= disc_in_bytes(Some(volume))[0].1);
    }
    assert(told(mp4::track_item(number)) =~= named(mp4::TRACK@, place_in_bytes(number)));
    assert(told(mp4::volume_item(volume)) =~= named(mp4::VOLUME@, disc_in_bytes(volume)));
}

proof fn lemma_told_both(a: Seq<mp4::Item>, b: Seq<mp4::Item>)
    ensures
        told(a + b) == told(a) + told(b),
{
    assert(told(a + b) =~= told(a) + told(b));
}

proof fn lemma_told_items(meta: MetaView)
    ensures
        told(mp4::items(meta)) == eight(
            seq![
                mp4::NAME@,
                mp4::ARTIST@,
                mp4::ALBUM@,
                mp4::ALBUM_ARTIST@,
                mp4::YEAR@,
                mp4::GENRE@,
                mp4::TRACK@,
                mp4::VOLUME@,
            ],
            item_values(meta),
        ),
{
    let i0 = mp4::text_item(mp4::NAME@, meta.title);
    let i1 = mp4::text_item(mp4::ARTIST@, joined_text(meta.artists));
    let i2 = mp4::text_item(mp4::ALBUM@, meta.album);
    let i3 = mp4::text_item(mp4::ALBUM_ARTIST@, joined_text(meta.album_artists));
    let i4 = mp4::text_item(mp4::YEAR@, number_text(meta.year));
    let i5 = mp4::text_item(mp4::GENRE@, meta.genre);
    let i6 = mp4::track_item(meta.number);
    let i7 = mp4::volume_item(meta.volume);
    lemma_told_text(mp4::NAME@, meta.title);
    lemma_told_text(mp4::ARTIST@, joined_text(meta.artists));
    lemma_told_text(mp4::ALBUM@, meta.album);
    lemma_told_text(mp4::ALBUM_ARTIST@, joined_text(meta.album_artists));
    lemma_told_text(mp4::YEAR@, number_text(meta.year));
    lemma_told_text(mp4::GENRE@, meta.genre);
    lemma_told_numbers(meta.number, meta.volume);
    lemma_told_both(i0, i1);
    lemma_told_both(i0 + i1, i2);
    lemma_told_both(i0 + i1 + i2, i3);
    lemma_told_both(i0 + i1 + i2 + i3, i4);
    lemma_told_both(i0 + i1 + i2 + i3 + i4, i5);
    lemma_told_both(i0 + i1 + i2 + i3 + i4 + i5, i6);
    lemma_told_both(i0 + i1 + i2 + i3 + i4 + i5 + i6, i7);
    assert(in_one_line(meta.artists) =~= only(joined_text(meta.artists)));
    assert(in_one_line(meta.album_artists) =~= only(joined_text(meta.album_artists)));
    assert(in_digits(meta.year) =~= only(number_text(meta.year)));
}

/// What is inside the box of tags.
proof fn lemma_udta_read(meta: MetaView)
    requires
        mp4::udta_fits(meta),
    ensures
        ({
            let handler = seq![0x68u8, 0x64u8, 0x6Cu8, 0x72u8];
            let inner = mp4::box_bytes(mp4::META@, mp4::meta_body(meta));
            let body = mp4::meta_body(meta);
            &&& mp4::udta_bytes(meta) == mp4::box_bytes(mp4::UDTA@, inner)
            &&& mp4::box_fits(inner)
            &&& payload_of(inner, mp4::META@) == Some(body)
            &&& body.take(4) == seq![0u8, 0u8, 0u8, 0u8]
            &&& payload_of(body.skip(4), handler) == Some(
                seq![
                    0u8, 0u8, 0u8, 0u8, 0u8, 0u8, 0u8, 0u8, 0x6Du8, 0x64u8, 0x69u8, 0x72u8, 0x61u8,
                    0x70u8, 0x70u8, 0x6Cu8, 0u8, 0u8, 0u8, 0u8, 0u8, 0u8, 0u8, 0u8, 0u8,
                ],
            )
            &&& payload_of(body.skip(4), mp4::ILST@) == Some(
                mp4::items_bytes(mp4::items(meta)),
            )
        }),
{
    let list = mp4::items_bytes(mp4::items(meta));
    let body = mp4::meta_body(meta);
    let inner = mp4::box_bytes(mp4::META@, body);
    let own = mp4::box_bytes(mp4::ILST@, list);
    lemma_be_bytes_len(list.len() + 8, 4);
    lemma_be_bytes_len(body.len() + 8, 4);
    assert(inner + Seq::<u8>::empty() =~= inner);
    lemma_payload_first(mp4::META@, body, Seq::empty());
    assert(body.take(4) =~= seq![0u8, 0u8, 0u8, 0u8]);
    let b = body.skip(4);
    assert(b =~= mp4::HANDLER@ + own);
    assert(be_value(b.take(4)) == 33) by {
        assert(b.take(4) =~= seq![0u8, 0u8, 0u8, 0x21u8]);
        reveal_with_fuel(be_value, 5);
    }
    let handler = seq![0x68u8, 0x64u8, 0x6Cu8, 0x72u8];
    assert(b.subrange(4, 8) =~= handler);
    assert(handler[0] == 0x68 && mp4::ILST@[0] == 0x69);
    assert(b.subrange(8, 33) =~= seq![
        0u8, 0u8, 0u8, 0u8, 0u8, 0u8, 0u8, 0u8, 0x6Du8, 0x64u8, 0x69u8, 0x72u8, 0x61u8, 0x70u8,
        0x70u8, 0x6Cu8, 0u8, 0u8, 0u8, 0u8, 0u8, 0u8, 0u8, 0u8, 0u8,
    ]);
    assert(b.skip(33) =~= own + Seq::empty());
    lemma_payload_first(mp4::ILST@, list, Seq::empty());
}

proof fn lemma_told_read(
    items: Seq<mp4::Item>,
    kinds: Seq<Seq<u8>>,
    values: Seq<Seq<(int, Seq<u8>)>>,
)
    requires
        mp4::items_fit(items),
        told(items) == eight(kinds, values),
        kinds.len() == 8,
        values.len() == 8,
        kinds.no_duplicates(),
        forall|i: int| 0 <= i < 8 ==> (#[trigger] kinds[i]).len() == 4,
    ensures
        items_read(mp4::items_bytes(items)) == eight(kinds, values),
{
    let list = mp4::items_bytes(items);
    lemma_eight(kinds, values, 0);
    assert forall|i: int| 0 <= i < items.len() implies (#[trigger] items[i]).kind.len() == 4 by {
        assert(told(items)[i].0 == items[i].kind);
        assert(kinds.contains(eight(kinds, values)[i].0));
    }
    lemma_items_read(items, Seq::empty());
    assert(list + Seq::empty() =~= list);
    assert(told(items) + items_read(Seq::empty()) =~= told(items));
}

#[verifier::rlimit(40)]
proof fn lemma_list_told(meta: MetaView)
    requires
        mp4::items_fit(mp4::items(meta)),
    ensures
        ({
            let items = items_read(mp4::items_bytes(mp4::items(meta)));
            &&& under(items, seq![0xA9u8, 0x6Eu8, 0x61u8, 0x6Du8]) == as_text(only(meta.title))
            &&& under(items, seq![0xA9u8, 0x41u8, 0x52u8, 0x54u8]) == as_text(
                in_one_line(meta.artists),
            )
            &&& under(items, seq![0xA9u8, 0x61u8, 0x6Cu8, 0x62u8]) == as_text(only(meta.album))
            &&& under(items, seq![0x61u8, 0x41u8, 0x52u8, 0x54u8]) == as_text(
                in_one_line(meta.album_artists),
            )
            &&& under(items, seq![0xA9u8, 0x64u8, 0x61u8, 0x79u8]) == as_text(in_digits(meta.year))
            &&& under(items, seq![0xA9u8, 0x67u8, 0x65u8, 0x6Eu8]) == as_text(only(meta.genre))
            &&& under(items, seq![0x74u8, 0x72u8, 0x6Bu8, 0x6Eu8]) == place_in_bytes(meta.number)
            &&& under(items, seq![0x64u8, 0x69u8, 0x73u8, 0x6Bu8]) == disc_in_bytes(meta.volume)
            &&& items.len() == only(meta.title).len() + in_one_line(meta.artists).len() + only(
                meta.album,
            ).len() + in_one_line(meta.album_artists).len() + in_digits(meta.year).len() + only(
                meta.genre,
            ).len() + place_in_bytes(meta.number).len() + disc_in_bytes(meta.volume).len()
        }),
{
    lemma_told_items(meta);
    lemma_item_kinds();
    let kinds = item_kinds();
    let values = item_values(meta);
    assert(kinds =~= seq![
        mp4::NAME@,
        mp4::ARTIST@,
        mp4::ALBUM@,
        mp4::ALBUM_ARTIST@,
        mp4::YEAR@,
        mp4::GENRE@,
        mp4::TRACK@,
        mp4::VOLUME@,
    ]);
    lemma_told_read(mp4::items(meta), kinds, values);
    lemma_eight(kinds, values, 0);
    lemma_eight(kinds, values, 1);
    lemma_eight(kinds, values, 2);
    lemma_eight(kinds, values, 3);
    lemma_eight(kinds, values, 4);
    lemma_eight(kinds, values, 5);
    lemma_eight(kinds, values, 6);
    lemma_eight(kinds, values, 7);
}

/// The list of tags of a new head of `MP4` says what the meta says: in
/// `moov/udta/meta/ilst`, which a reader of boxes finds with the handler `mdir` before
/// it, there is an item `©nam` exactly if there is a title, with that title as a text,
/// an item `©ART` exactly if there are artists, with these in one line, and so on for
/// the album (`©alb`), its artists (`aART`), the year (`©day`), the genre (`©gen`), the
/// place (`trkn`) and the disc (`disk`), and no other item.
#[verifier::rlimit(60)]
#[verifier::spinoff_prover]
pub proof fn law_mp4_list_says_what_the_meta_says(file: Seq<u8>, meta: MetaView)
    requires
        file.len() <= usize::MAX,
        mp4::patched(file, meta) is Ready,
        relocation::sound_tables(file),
    ensures
        ({
            let head = mp4::patched(file, meta)->head;
            let moov = payload_of(head, seq![0x6Du8, 0x6Fu8, 0x6Fu8, 0x76u8]);
            let udta = payload_of(moov->Some_0, seq![0x75u8, 0x64u8, 0x74u8, 0x61u8]);
            let inner = payload_of(udta->Some_0, seq![0x6Du8, 0x65u8, 0x74u8, 0x61u8]);
            let boxes = inner->Some_0.skip(4);
            let handler = payload_of(boxes, seq![0x68u8, 0x64u8, 0x6Cu8, 0x72u8]);
            let list = payload_of(boxes, seq![0x69u8, 0x6Cu8, 0x73u8, 0x74u8]);
            let items = items_read(list->Some_0);
            &&& moov is Some && udta is Some && inner is Some && handler is Some && list is Some
            &&& inner->Some_0.take(4) == seq![0u8, 0u8, 0u8, 0u8]
            &&& handler->Some_0 == seq![
                0u8, 0u8, 0u8, 0u8, 0u8, 0u8, 0u8, 0u8, 0x6Du8, 0x64u8, 0x69u8, 0x72u8, 0x61u8,
                0x70u8, 0x70u8, 0x6Cu8, 0u8, 0u8, 0u8, 0u8, 0u8, 0u8, 0u8, 0u8, 0u8,
            ]
            &&& under(items, seq![0xA9u8, 0x6Eu8, 0x61u8, 0x6Du8]) == as_text(only(meta.title))
            &&& under(items, seq![0xA9u8, 0x41u8, 0x52u8, 0x54u8]) == as_text(
                in_one_line(meta.artists),
            )
            &&& under(items, seq![0xA9u8, 0x61u8, 0x6Cu8, 0x62u8]) == as_text(only(meta.album))
            &&& under(items, seq![0x61u8, 0x41u8, 0x52u8, 0x54u8]) == as_text(
                in_one_line(meta.album_artists),
            )
            &&& under(items, seq![0xA9u8, 0x64u8, 0x61u8, 0x79u8]) == as_text(in_digits(meta.year))
            &&& under(items, seq![0xA9u8, 0x67u8, 0x65u8, 0x6Eu8]) == as_text(only(meta.genre))
            &&& under(items, seq![0x74u8, 0x72u8, 0x6Bu8, 0x6Eu8]) == place_in_bytes(meta.number)
            &&& under(items, seq![0x64u8, 0x69u8, 0x73u8, 0x6Bu8]) == disc_in_bytes(meta.volume)
            &&& items.len() == only(meta.title).len() + in_one_line(meta.artists).len() + only(
                meta.album,
            ).len() + in_one_line(meta.album_artists).len() + in_digits(meta.year).len() + only(
                meta.genre,
            ).len() + place_in_bytes(meta.number).len() + disc_in_bytes(meta.volume).len()
        }),
{
    lemma_mp4_path(file, meta);
    lemma_udta_read(meta);
    lemma_list_told(meta);
    assert(mp4::MOOV@ =~= seq![0x6Du8, 0x6Fu8, 0x6Fu8, 0x76u8]);
    assert(mp4::UDTA@ =~= seq![0x75u8, 0x64u8, 0x74u8, 0x61u8]);
    assert(mp4::META@ =~= seq![0x6Du8, 0x65u8, 0x74u8, 0x61u8]);
    assert(mp4::ILST@ =~= seq![0x69u8, 0x6Cu8, 0x73u8, 0x74u8]);
}

/// The way to the tags of a new head.
#[verifier::rlimit(60)]
#[verifier::spinoff_prover]
proof fn lemma_mp4_path(file: Seq<u8>, meta: MetaView)
    requires
        file.len() <= usize::MAX,
        mp4::patched(file, meta) is Ready,
        relocation::sound_tables(file),
    ensures
        ({
            let head = mp4::patched(file, meta)->head;
            let moov = payload_of(head, mp4::MOOV@);
            &&& mp4::udta_fits(meta)
            &&& moov is Some
            &&& payload_of(moov->Some_0, mp4::UDTA@) == Some(
                mp4::box_bytes(mp4::META@, mp4::meta_body(meta)),
            )
        }),
{
    relocation::lemma_parts_of_new_head(file, meta);
    lemma_udta_read(meta);
    lemma_tags_behind(
        file.take(relocation::moov_of(file)->Some_0.start),
        relocation::relocated(
            relocation::without_tags(relocation::moov_content(file)),
            relocation::change_in(file, meta),
        )->Ok_0,
        mp4::box_bytes(mp4::META@, mp4::meta_body(meta)),
    );
}

/// A box of tags behind the other boxes of a `moov` behind other boxes is found.
proof fn lemma_tags_behind(pre: Seq<u8>, new: Seq<u8>, inner: Seq<u8>)
    requires
        relocation::closes(pre),
        mp4::boxes(pre, 0) is Ok,
        mp4::first_of(mp4::boxes(pre, 0)->Ok_0, mp4::MOOV@) is None,
        relocation::closes(new),
        mp4::boxes(new, 0) is Ok,
        mp4::first_of(mp4::boxes(new, 0)->Ok_0, mp4::UDTA@) is None,
        mp4::box_fits(inner),
        mp4::box_fits(new + mp4::box_bytes(mp4::UDTA@, inner)),
    ensures
        ({
            let content = new + mp4::box_bytes(mp4::UDTA@, inner);
            let head = pre + mp4::box_bytes(mp4::MOOV@, content);
            &&& payload_of(head, mp4::MOOV@) == Some(content)
            &&& payload_of(content, mp4::UDTA@) == Some(inner)
        }),
{
    let nothing = Seq::<u8>::empty();
    let tags = mp4::box_bytes(mp4::UDTA@, inner);
    let content = new + tags;
    let own = mp4::box_bytes(mp4::MOOV@, content);
    lemma_payload_behind(pre, own, mp4::MOOV@, 0);
    assert(own + nothing =~= own);
    lemma_payload_first(mp4::MOOV@, content, nothing);
    lemma_payload_behind(new, tags, mp4::UDTA@, 0);
    assert(tags + nothing =~= tags);
    lemma_payload_first(mp4::UDTA@, inner, nothing);
}

/// How many bytes items with these values take.
pub open spec fn values_size(values: Seq<(int, Seq<u8>)>) -> int
    decreases values.len(),
{
    if values.len() == 0 {
        0
    } else {
        values_size(values.drop_last()) + 24 + values.last().1.len()
    }
}

/// How many bytes the items of a meta take.
pub open spec fn items_size(meta: MetaView) -> int {
    values_size(as_text(only(meta.title))) + values_size(as_text(in_one_line(meta.artists)))
        + values_size(as_text(only(meta.album))) + values_size(
        as_text(in_one_line(meta.album_artists)),
    ) + values_size(as_text(in_digits(meta.year))) + values_size(as_text(only(meta.genre)))
        + values_size(place_in_bytes(meta.number)) + values_size(disc_in_bytes(meta.volume))
}

proof fn lemma_items_joined(a: Seq<mp4::Item>, b: Seq<mp4::Item>)
    ensures
        mp4::items_bytes(a + b).len() == mp4::items_bytes(a).len() + mp4::items_bytes(b).len(),
    decreases b.len(),
{
    let made = |items: Seq<mp4::Item>| Seq::new(items.len(), |i: int| items[i].bytes());
    if b.len() == 0 {
        assert(a + b =~= a);
    } else {
        assert((a + b).drop_last() =~= a + b.drop_last());
        lemma_items_joined(a, b.drop_last());
        assert(made(a + b).drop_last() =~= made((a + b).drop_last()));
        assert(made(b).drop_last() =~= made(b.drop_last()));
        assert(mp4::items_bytes(a + b) == flat(made(a + b)));
        assert(mp4::items_bytes(b) == flat(made(b)));
        assert(mp4::items_bytes((a + b).drop_last()) == flat(made((a + b).drop_last())));
        assert(mp4::items_bytes(b.drop_last()) == flat(made(b.drop_last())));
    }
}

/// At most one item takes what its value takes.
proof fn lemma_item_size(items: Seq<mp4::Item>, values: Seq<(int, Seq<u8>)>)
    requires
        items.len() == values.len() <= 1,
        items.len() == 1 ==> items[0].value == values[0].1 && items[0].kind.len() == 4,
    ensures
        mp4::items_bytes(items).len() == values_size(values),
{
    let made = Seq::new(items.len(), |i: int| items[i].bytes());
    if items.len() == 1 {
        let body = mp4::data_body(items[0].flag, items[0].value);
        let inner = mp4::box_bytes(mp4::DATA@, body);
        lemma_be_bytes_len(items[0].flag as nat, 4);
        lemma_be_bytes_len(body.len() + 8, 4);
        lemma_be_bytes_len(inner.len() + 8, 4);
        assert(made.drop_last() =~= Seq::empty());
        assert(flat(made.drop_last()).len() == 0);
        assert(values.drop_last() =~= Seq::empty());
        assert(values_size(values.drop_last()) == 0);
    }
}

proof fn lemma_text_size(kind: Seq<u8>, value: Option<Seq<char>>)
    requires
        kind.len() == 4,
    ensures
        mp4::items_bytes(mp4::text_item(kind, value)).len() == values_size(as_text(only(value))),
{
    lemma_item_size(mp4::text_item(kind, value), as_text(only(value)));
}

proof fn lemma_number_sizes(number: Option<Number>, volume: Option<u16>)
    ensures
        mp4::items_bytes(mp4::track_item(number)).len() == values_size(place_in_bytes(number)),
        mp4::items_bytes(mp4::volume_item(volume)).len() == values_size(disc_in_bytes(volume)),
{
    let track = mp4::track_item(number);
    let disc = mp4::volume_item(volume);
    lemma_told_numbers(number, volume);
    assert(number is Some ==> told(track)[0] == named(mp4::TRACK@, place_in_bytes(number))[0]);
    assert(volume is Some ==> told(disc)[0] == named(mp4::VOLUME@, disc_in_bytes(volume))[0]);
    lemma_item_size(track, place_in_bytes(number));
    lemma_item_size(disc, disc_in_bytes(volume));
}

proof fn lemma_eight_sizes(
    i0: Seq<mp4::Item>,
    i1: Seq<mp4::Item>,
    i2: Seq<mp4::Item>,
    i3: Seq<mp4::Item>,
    i4: Seq<mp4::Item>,
    i5: Seq<mp4::Item>,
    i6: Seq<mp4::Item>,
    i7: Seq<mp4::Item>,
)
    ensures
        mp4::items_bytes(i0 + i1 + i2 + i3 + i4 + i5 + i6 + i7).len() == mp4::items_bytes(i0).len()
            + mp4::items_bytes(i1).len() + mp4::items_bytes(i2).len() + mp4::items_bytes(i3).len()
            + mp4::items_bytes(i4).len() + mp4::items_bytes(i5).len() + mp4::items_bytes(i6).len()
            + mp4::items_bytes(i7).len(),
{
    lemma_items_joined(i0, i1);
    lemma_items_joined(i0 + i1, i2);
    lemma_items_joined(i0 + i1 + i2, i3);
    lemma_items_joined(i0 + i1 + i2 + i3, i4);
    lemma_items_joined(i0 + i1 + i2 + i3 + i4, i5);
    lemma_items_joined(i0 + i1 + i2 + i3 + i4 + i5, i6);
    lemma_items_joined(i0 + i1 + i2 + i3 + i4 + i5 + i6, i7);
}

proof fn lemma_items_size(meta: MetaView)
    ensures
        mp4::items_bytes(mp4::items(meta)).len() == items_size(meta),
{
    lemma_eight_sizes(
        mp4::text_item(mp4::NAME@, meta.title),
        mp4::text_item(mp4::ARTIST@, joined_text(meta.artists)),
        mp4::text_item(mp4::ALBUM@, meta.album),
        mp4::text_item(mp4::ALBUM_ARTIST@, joined_text(meta.album_artists)),
        mp4::text_item(mp4::YEAR@, number_text(meta.year)),
        mp4::text_item(mp4::GENRE@, meta.genre),
        mp4::track_item(meta.number),
        mp4::volume_item(meta.volume),
    );
    lemma_text_size(mp4::NAME@, meta.title);
    lemma_text_size(mp4::ARTIST@, joined_text(meta.artists));
    lemma_text_size(mp4::ALBUM@, meta.album);
    lemma_text_size(mp4::ALBUM_ARTIST@, joined_text(meta.album_artists));
    lemma_text_size(mp4::YEAR@, number_text(meta.year));
    lemma_text_size(mp4::GENRE@, meta.genre);
    lemma_number_sizes(meta.number, meta.volume);
    assert(in_one_line(meta.artists) =~= only(joined_text(meta.artists)));
    assert(in_one_line(meta.album_artists) =~= only(joined_text(meta.album_artists)));
    assert(in_digits(meta.year) =~= only(number_text(meta.year)));
}

/// Tags fit into a `moov` exactly if all of it, with what is kept, takes no more than a
/// 32-bit size can say; the tags take 61 bytes and what their items take.
pub proof fn law_mp4_tags_fit(kept: Seq<u8>, meta: MetaView)
    ensures
        mp4::udta_bytes(meta).len() == 61 + items_size(meta),
        mp4::moov_fits(kept, meta) <==> kept.len() + 69 + items_size(meta) <= 0xFFFF_FFFF,
{
    let items = mp4::items(meta);
    let list = mp4::items_bytes(items);
    let body = mp4::meta_body(meta);
    let inner = mp4::box_bytes(mp4::META@, body);
    lemma_items_size(meta);
    lemma_be_bytes_len(list.len() + 8, 4);
    lemma_be_bytes_len(body.len() + 8, 4);
    lemma_be_bytes_len(inner.len() + 8, 4);
    assert(mp4::META@.len() == 4 && mp4::ILST@.len() == 4 && mp4::UDTA@.len() == 4);
    if list.len() <= u32::MAX {
        lemma_items_fit(meta, items);
    }
}

proof fn lemma_items_fit(meta: MetaView, items: Seq<mp4::Item>)
    requires
        items == mp4::items(meta),
        mp4::items_bytes(items).len() <= u32::MAX,
    ensures
        mp4::items_fit(items),
{
    let made = Seq::new(items.len(), |i: int| items[i].bytes());
    let kinds = item_kinds();
    let values = item_values(meta);
    lemma_told_items(meta);
    lemma_item_kinds();
    assert(kinds =~= seq![
        mp4::NAME@,
        mp4::ARTIST@,
        mp4::ALBUM@,
        mp4::ALBUM_ARTIST@,
        mp4::YEAR@,
        mp4::GENRE@,
        mp4::TRACK@,
        mp4::VOLUME@,
    ]);
    lemma_eight(kinds, values, 0);
    assert forall|i: int| 0 <= i < items.len() implies (#[trigger] items[i]).fits() by {
        lemma_flat_part(made, i);
        assert(made[i] == items[i].bytes());
        assert(told(items)[i].0 == items[i].kind);
        assert(kinds.contains(eight(kinds, values)[i].0));
        let body = mp4::data_body(items[i].flag, items[i].value);
        let inner = mp4::box_bytes(mp4::DATA@, body);
        lemma_be_bytes_len(items[i].flag as nat, 4);
        lemma_be_bytes_len(body.len() + 8, 4);
        lemma_be_bytes_len(inner.len() + 8, 4);
    }
}

/// A tag passes its check exactly if it is one tag from the first byte to the last.
pub proof fn law_id3_check(head: Seq<u8>)
    ensures
        id3::verified(head) is Ok <==> {
            &&& head.len() >= 10
            &&& head[0] == 0x49 && head[1] == 0x44 && head[2] == 0x33
            &&& head[6] < 128 && head[7] < 128 && head[8] < 128 && head[9] < 128
            &&& head.len() == 10 + synchsafe_length(head.subrange(6, 10)) + if head[5] / 16 % 2
                == 1 {
                10int
            } else {
                0int
            }
        },
{
    if head.len() >= 3 {
        let begun = head.take(3);
        if head[0] == 0x49 && head[1] == 0x44 && head[2] == 0x33 {
            assert(begun =~= id3::MAGIC@);
        } else {
            assert(begun[0] == head[0] && begun[1] == head[1] && begun[2] == head[2]);
            assert(id3::MAGIC@[0] == 0x49 && id3::MAGIC@[1] == 0x44 && id3::MAGIC@[2] == 0x33);
        }
    }
    if head.len() >= 10 {
        let s = head.subrange(6, 10);
        reveal_with_fuel(id3::seven_bit_value, 5);
        assert(s.drop_last() =~= seq![s[0], s[1], s[2]]);
        assert(s.drop_last().drop_last() =~= seq![s[0], s[1]]);
        assert(s.drop_last().drop_last().drop_last() =~= seq![s[0]]);
        assert(s.drop_last().drop_last().drop_last().drop_last() =~= Seq::empty());
    }
}

proof fn lemma_comments(whole: Seq<u8>, parts: Seq<flac::Part>)
    ensures
        flac::comments(parts) == under(found_at(whole, parts), 4).len(),
    decreases parts.len(),
{
    if parts.len() > 0 {
        lemma_comments(whole, parts.drop_last());
        assert(found_at(whole, parts).drop_last() =~= found_at(whole, parts.drop_last()));
    }
}

/// A head of `FLAC` passes its check exactly if its blocks fill it and one of them is a
/// comment.
pub proof fn law_flac_check(head: Seq<u8>)
    requires
        head.len() <= usize::MAX,
    ensures
        flac::verified(head) is Ok <==> {
            &&& head.len() >= 4
            &&& head.take(4) == seq![0x66u8, 0x4Cu8, 0x61u8, 0x43u8]
            &&& blocks_whole(head.skip(4))
            &&& head.len() == 4 + span(blocks_read(head.skip(4)))
            &&& under(blocks_read(head.skip(4)), 4).len() == 1
        },
{
    assert(flac::MAGIC@ =~= seq![0x66u8, 0x4Cu8, 0x61u8, 0x43u8]);
    if head.len() >= 4 {
        lemma_scan_read(head, 4);
        if let Some(parts) = flac::scan(head.skip(4), 4) {
            lemma_comments(head, parts);
        }
    }
}

/// A `FLAC` file is waited for while its blocks are not all here, and what does not begin
/// as one is refused.
pub proof fn law_flac_is_waited_for(file: Seq<u8>, meta: MetaView)
    requires
        file.len() <= usize::MAX,
    ensures
        file.len() < 4 ==> flac::patched(file, meta) is More,
        file.len() >= 4 && file.take(4) != seq![0x66u8, 0x4Cu8, 0x61u8, 0x43u8] ==> flac::patched(
            file,
            meta,
        ) == Built::Refused(Reason::Malformed),
        file.len() >= 4 && file.take(4) == seq![0x66u8, 0x4Cu8, 0x61u8, 0x43u8] ==> (flac::patched(
            file,
            meta,
        ) is More <==> !blocks_whole(file.skip(4))),
{
    assert(flac::MAGIC@ =~= seq![0x66u8, 0x4Cu8, 0x61u8, 0x43u8]);
    if file.len() >= 4 {
        lemma_scan_read(file, 4);
    }
}

/// A tag has its frames in the order title, artists, album, its artists, year, genre,
/// place, disc.
pub proof fn law_id3_order(meta: MetaView)
    requires
        tag_size(meta) <= 0x0FFF_FFFF,
    ensures
        frames_read(id3::tag_bytes(meta).skip(10)) == eight(frame_ids(), frame_texts(meta)),
{
    law_id3_tag_fits(meta);
    let fields = id3::fields(meta);
    lemma_frame_ids();
    lemma_encoded_fields(meta);
    assert(frame_ids() =~= seq![
        id3::TITLE@,
        id3::ARTIST@,
        id3::ALBUM@,
        id3::ALBUM_ARTIST@,
        id3::YEAR@,
        id3::GENRE@,
        id3::TRACK@,
        id3::VOLUME@,
    ]);
    assert forall|i: int| 0 <= i < fields.len() implies (#[trigger] fields[i]).0.len() == 4 by {}
    lemma_frames_read(fields, Seq::empty());
    assert(id3::tag_bytes(meta).skip(10) =~= id3::fields_bytes(fields) + Seq::empty());
    assert(encoded(fields) + frames_read(Seq::empty()) =~= encoded(fields));
}

/// A comment names its writer, and has its fields in the order title, artists, album, its
/// artists, date, genre, number, total, disc.
pub proof fn law_flac_writer_and_order(meta: MetaView)
    requires
        flac::comment_bytes(meta).len() <= 0xFF_FFFF,
    ensures
        ({
            let comment = flac::comment_bytes(meta);
            let writer = little_endian(comment.take(4));
            &&& comment.subrange(4, 4 + writer) == encode_utf8("ymelorix 0.1.0"@)
            &&& comment_read(comment) == nine(comment_keys(), comment_values(meta))
        }),
{
    lemma_comment_read(meta);
    lemma_entries(meta);
    lemma_writer(flac::entry_texts(meta));
}

proof fn lemma_writer(all: Seq<Seq<char>>)
    ensures
        ({
            let comment = flac::measured(flac::VENDOR@) + flac::length_bytes(all.len() as int)
                + flat(Seq::new(all.len(), |i: int| flac::measured(all[i])));
            let writer = little_endian(comment.take(4));
            comment.len() <= flac::MAX_BLOCK ==> comment.subrange(4, 4 + writer) == encode_utf8(
                "ymelorix 0.1.0"@,
            )
        }),
{
    let comment = flac::measured(flac::VENDOR@) + flac::length_bytes(all.len() as int) + flat(
        Seq::new(all.len(), |i: int| flac::measured(all[i])),
    );
    let vendor = encode_utf8(flac::VENDOR@);
    let writer = vendor.len() as int;
    if comment.len() <= flac::MAX_BLOCK {
        assert(comment.take(4) =~= flac::le_bytes(writer));
        assert(little_endian(flac::le_bytes(writer)) == writer);
        assert(comment.subrange(4, 4 + writer) =~= vendor);
    }
}

/// A list of tags has its items in the order title, artists, album, its artists, year,
/// genre, place, disc.
pub proof fn law_mp4_order(meta: MetaView)
    requires
        69 + items_size(meta) <= 0xFFFF_FFFF,
    ensures
        items_read(mp4::items_bytes(mp4::items(meta))) == eight(item_kinds(), item_values(meta)),
{
    law_mp4_tags_fit(Seq::empty(), meta);
    lemma_told_items(meta);
    lemma_item_kinds();
    assert(item_kinds() =~= seq![
        mp4::NAME@,
        mp4::ARTIST@,
        mp4::ALBUM@,
        mp4::ALBUM_ARTIST@,
        mp4::YEAR@,
        mp4::GENRE@,
        mp4::TRACK@,
        mp4::VOLUME@,
    ]);
    lemma_told_read(mp4::items(meta), item_kinds(), item_values(meta));
}

} // verus!
