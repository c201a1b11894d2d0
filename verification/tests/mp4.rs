//! Tags of `MP4`.

use ymelorix::tags::mp4::{
    boxed, collect, data, ilst, moved, patch, read, shift, spans, text, udta, verify,
    Bounds, Span, HEADER,
};
use ymelorix::tags::{Meta, Number, Outcome, Reason};

/// The body of `mdat` in a file made for these tests.
const SOUND: usize = 64;

fn sample() -> Meta {
    Meta {
        title: Some("Сорок седьмой этаж".to_owned()),
        artists: vec!["Ветер Овна".to_owned()],
        album: Some("Пыль на антресолях".to_owned()),
        album_artists: vec!["Ветер Овна".to_owned()],
        year: Some(2018),
        genre: Some("rap".to_owned()),
        number: Some(Number {
            index: 3,
            total: Some(12),
        }),
        volume: Some(1),
    }
}

/// The smallest file: `moov` before `mdat`, one table `stco` of offsets into `mdat`.
fn file(offsets: &[u32]) -> Vec<u8> {
    let mut table = vec![0, 0, 0, 0];
    table.extend(u32::try_from(offsets.len()).unwrap().to_be_bytes());
    for offset in offsets {
        table.extend(offset.to_be_bytes());
    }

    let stbl = wrap(*b"stbl", &wrap(*b"stco", &table));
    let moov = wrap(
        *b"moov",
        &wrap(*b"trak", &wrap(*b"mdia", &wrap(*b"minf", &stbl))),
    );

    [
        wrap(*b"ftyp", b"isom\x00\x00\x02\x00"),
        moov,
        wrap(*b"mdat", &[0xAB; SOUND]),
    ]
    .concat()
}

fn wrap(kind: [u8; 4], payload: &[u8]) -> Vec<u8> {
    let size = u32::try_from(payload.len() + HEADER).unwrap();
    [size.to_be_bytes().as_slice(), kind.as_slice(), payload].concat()
}

/// Reads the offsets back.
fn offsets(head: &[u8]) -> Vec<u64> {
    let top = spans(head).unwrap();
    let moov = top.iter().find(|span| span.kind == *b"moov").unwrap();
    let mut tables = Vec::new();
    collect(
        moov.payload(head).unwrap(),
        moov.start + moov.header,
        &mut tables,
    )
    .unwrap();

    tables
        .iter()
        .flat_map(|table| {
            let count = usize::try_from(read(head, table.at + 4, 4).unwrap()).unwrap();
            (0..count)
                .map(|index| read(head, table.at + 8 + index * table.width, table.width).unwrap())
                .collect::<Vec<u64>>()
        })
        .collect()
}

fn ready(bytes: &[u8], meta: &Meta) -> Option<(Vec<u8>, usize)> {
    match patch(bytes, meta) {
        Ok(Outcome::Ready { head, used }) => Some((head, used)),
        _other => None,
    }
}

/// Joins a new head with the rest of the file.
fn spliced(original: &[u8], meta: &Meta) -> Vec<u8> {
    let (head, used) = ready(original, meta).unwrap();
    head.into_iter()
        .chain(original.iter().copied().skip(used))
        .collect()
}

#[test]
fn moves_chunk_offsets_by_the_length_it_inserted() {
    let original = file(&[100, 140]);
    let (head, used) = ready(&original, &sample()).unwrap();

    let delta = u64::try_from(head.len() - used).unwrap();
    assert_eq!(offsets(&head), vec![100 + delta, 140 + delta]);
}

#[test]
fn keeps_offsets_pointing_at_the_same_bytes() {
    let target = u32::try_from(file(&[0]).len() - SOUND + 7).unwrap();
    let mut original = file(&[target]);
    *original.get_mut(usize::try_from(target).unwrap()).unwrap() = 0x5A;

    let patched = spliced(&original, &sample());
    let moved = usize::try_from(offsets(&patched).first().copied().unwrap()).unwrap();

    assert_eq!(patched.get(moved).copied(), Some(0x5A));
}

#[test]
fn asks_for_more_until_moov_is_whole() {
    let original = file(&[100]);
    assert!(matches!(
        patch(original.get(..24).unwrap(), &sample()),
        Ok(Outcome::More)
    ));
}

#[test]
fn writes_an_ilst_that_survives_reparsing() {
    let (head, _used) = ready(&file(&[100]), &sample()).unwrap();

    assert!(verify(&head).is_ok());
    assert!(head.windows(4).any(|window| window == b"ilst"));
    assert!(head.windows(4).any(|window| window == b"\xA9nam"));
    assert!(head.windows(4).any(|window| window == b"trkn"));
}

#[test]
fn replaces_tags_instead_of_stacking_them() {
    let once = spliced(&file(&[100]), &sample());
    let (twice, _used) = ready(&once, &sample()).unwrap();

    assert!(verify(&twice).is_ok());
    assert_eq!(offsets(&twice), offsets(&once));
}

#[test]
fn refuses_when_sound_lives_inside_the_header() {
    assert_eq!(patch(&file(&[40]), &sample()).err(), Some(Reason::Inline));
}

#[test]
fn refuses_broken_input() {
    let bytes = vec![0, 0, 0, 3, b'b', b'a', b'd', b'!'];
    assert_eq!(patch(&bytes, &sample()).err(), Some(Reason::Malformed));
}

#[test]
fn spans_stop_at_a_truncated_box() {
    let found: Vec<Span> = spans(&[0, 0, 0, 16, b'f', b't', b'y', b'p', 0, 0]).unwrap();
    assert!(found.is_empty());
}

#[test]
fn tagging_an_mp4_twice_gives_the_same_bytes() {
    let once = spliced(&file(&[10, 150]), &sample());
    let (head, used) = ready(&once, &sample()).unwrap();
    assert_eq!(head.len(), used);
    assert_eq!(spliced(&once, &sample()), once);
}

#[test]
fn sound_before_moov_stays_where_it_is() {
    let original = file(&[10]);
    let (head, _used) = ready(&original, &sample()).unwrap();
    assert_eq!(offsets(&head), vec![10]);
}

#[test]
fn reads_a_box_with_a_long_size() {
    let mut long = vec![0, 0, 0, 1];
    long.extend_from_slice(b"free");
    long.extend_from_slice(&20_u64.to_be_bytes());
    long.extend_from_slice(&[1, 2, 3, 4]);
    let found = spans(&long).unwrap();
    let span = found.first().copied().unwrap();
    assert_eq!((span.start, span.header, span.size, span.end()), (0, 16, 20, 20));
    assert_eq!(span.payload(&long), Ok(&[1_u8, 2, 3, 4][..]));
    assert_eq!(span.whole(&long), Ok(long.as_slice()));
    assert_eq!(span.whole(long.get(..19).unwrap()), Err(Reason::Malformed));
    assert_eq!(span.payload(long.get(..19).unwrap()), Err(Reason::Malformed));

    let mut short = long.clone();
    *short.get_mut(15).unwrap() = 15;
    assert_eq!(spans(&short).err(), Some(Reason::Malformed));
    assert!(spans(long.get(..15).unwrap()).unwrap().is_empty());
    // A size of zero runs to the end of the file: nothing more can be read.
    assert!(spans(&[0, 0, 0, 0, b'm', b'd', b'a', b't']).unwrap().is_empty());
}

#[test]
fn moves_wide_offsets_too() {
    let mut table = vec![0, 0, 0, 0, 0, 0, 0, 1];
    table.extend(0x1_0000_0000_u64.to_be_bytes());
    let moov = wrap(*b"moov", &wrap(*b"trak", &wrap(*b"co64", &table)));
    let (head, used) = ready(&moov, &sample()).unwrap();
    let delta = u64::try_from(head.len() - used).unwrap();
    assert_eq!(offsets(&head), vec![0x1_0000_0000 + delta]);
}

#[test]
fn a_narrow_offset_that_no_longer_fits_is_refused() {
    assert_eq!(
        patch(&file(&[u32::MAX]), &sample()).err(),
        Some(Reason::Overflow)
    );
}

#[test]
fn fragmented_files_are_refused() {
    let moov = wrap(*b"moov", &wrap(*b"mvex", &[]));
    assert_eq!(patch(&moov, &sample()).err(), Some(Reason::Fragmented));
}

#[test]
fn a_header_with_loose_bytes_is_refused() {
    let moov = wrap(*b"moov", &[wrap(*b"free", &[]), vec![0, 0]].concat());
    assert_eq!(patch(&moov, &sample()).err(), Some(Reason::Malformed));
    assert_eq!(verify(&moov), Err(Reason::Malformed));
    assert_eq!(verify(&wrap(*b"free", &[])), Err(Reason::Malformed));
    assert_eq!(verify(&wrap(*b"moov", &[])), Err(Reason::Malformed));
    let tags = wrap(*b"udta", &[]);
    assert_eq!(verify(&wrap(*b"moov", &tags)), Ok(()));
    let twice = [tags.clone(), tags].concat();
    assert_eq!(verify(&wrap(*b"moov", &twice)), Err(Reason::Malformed));
}

#[test]
fn a_table_that_claims_too_much_is_refused() {
    let moov = wrap(*b"moov", &wrap(*b"stco", &[0, 0, 0, 0, 0xFF, 0xFF, 0xFF, 0xFF]));
    assert!(patch(&moov, &sample()).is_err());
    assert_eq!(
        shift(vec![0, 1, 2], &Bounds { start: 0, end: 0 }, 0).err(),
        Some(Reason::Malformed)
    );
}

#[test]
fn numbers_are_read_and_written_most_significant_first() {
    let mut bytes = [0xFF; 8];
    assert_eq!(ymelorix::tags::mp4::write(&mut bytes, 2, 4, 0x0102_0304), Ok(()));
    assert_eq!(bytes, [0xFF, 0xFF, 1, 2, 3, 4, 0xFF, 0xFF]);
    assert_eq!(read(&bytes, 2, 4), Ok(0x0102_0304));
    assert_eq!(read(&bytes, 5, 4), Err(Reason::Malformed));
    assert_eq!(read(&[1; 9], 0, 9), Err(Reason::Overflow));
    assert_eq!(read(&bytes, usize::MAX, 2), Err(Reason::Malformed));
    assert_eq!(
        ymelorix::tags::mp4::write(&mut bytes, 0, 4, 0x1_0000_0000),
        Err(Reason::Overflow)
    );
    assert_eq!(ymelorix::tags::mp4::write(&mut bytes, 6, 4, 1), Err(Reason::Malformed));
    assert_eq!(ymelorix::tags::mp4::write(&mut [0; 16], 0, 9, 1), Err(Reason::Overflow));
    assert_eq!(
        ymelorix::tags::mp4::write(&mut bytes, usize::MAX, 2, 1),
        Err(Reason::Malformed)
    );
}

#[test]
fn offsets_move_by_the_rule() {
    let bounds = Bounds { start: 10, end: 20 };
    assert_eq!(moved(9, &bounds, 5), Ok(9));
    assert_eq!(moved(10, &bounds, 5), Err(Reason::Inline));
    assert_eq!(moved(19, &bounds, 5), Err(Reason::Inline));
    assert_eq!(moved(20, &bounds, 5), Ok(25));
    assert_eq!(moved(20, &bounds, -5), Ok(15));
    assert_eq!(moved(u64::MAX, &bounds, 1), Err(Reason::Overflow));
}

#[test]
fn writes_items_byte_for_byte() {
    assert_eq!(
        text(*b"aART", "Hi").unwrap(),
        b"\x00\x00\x00\x1aaART\x00\x00\x00\x12data\x00\x00\x00\x01\x00\x00\x00\x00Hi".to_vec()
    );
    assert_eq!(
        data(0, &[7]).unwrap(),
        b"\x00\x00\x00\x11data\x00\x00\x00\x00\x00\x00\x00\x00\x07".to_vec()
    );
    assert_eq!(boxed(*b"free", &[1, 2]).unwrap(), b"\x00\x00\x00\x0afree\x01\x02".to_vec());
    let meta = Meta {
        number: Some(Number {
            index: 0x0102,
            total: None,
        }),
        volume: Some(3),
        ..Meta::default()
    };
    let track = [
        b"\x00\x00\x00\x20trkn\x00\x00\x00\x18data".as_slice(),
        &[0; 8],
        &[0, 0, 1, 2, 0, 0, 0, 0],
    ]
    .concat();
    let disk = [
        b"\x00\x00\x00\x1edisk\x00\x00\x00\x16data".as_slice(),
        &[0; 8],
        &[0, 0, 0, 3, 0, 0],
    ]
    .concat();
    assert_eq!(ilst(&meta).unwrap(), [track, disk].concat());
    let whole = udta(&meta).unwrap();
    assert_eq!(whole.get(4..8), Some(&b"udta"[..]));
    assert_eq!(whole.get(12..16), Some(&b"meta"[..]));
    assert_eq!(whole.get(24..28), Some(&b"hdlr"[..]));
}

#[test]
fn rebuilding_drops_the_old_tags_and_refuses_loose_spans() {
    let payload = [wrap(*b"free", &[1]), wrap(*b"udta", &[2, 3])].concat();
    let children = spans(&payload).unwrap();
    let rebuilt = ymelorix::tags::mp4::rebuild(&payload, &children, &sample()).unwrap();
    let expected = wrap(
        *b"moov",
        &[wrap(*b"free", &[1]), udta(&sample()).unwrap()].concat(),
    );
    assert_eq!(rebuilt, expected);
    assert_eq!(
        ymelorix::tags::mp4::rebuild(&[], &children, &sample()).err(),
        Some(Reason::Malformed)
    );
}
