//! Tags of bare `FLAC`.

use ymelorix::tags::flac::{
    blocks, comment, emit, entries, length, patch, verify, COMMENT, MAGIC, MAX_BLOCK, VENDOR,
};
use ymelorix::tags::{Meta, Number, Outcome, Reason};

fn sample() -> Meta {
    Meta {
        title: Some("Сорок седьмой этаж".to_owned()),
        artists: vec!["Ветер Овна".to_owned()],
        album: Some("Пыль на антресолях".to_owned()),
        album_artists: vec!["Ветер Овна".to_owned()],
        year: Some(2018),
        genre: Some("rap".to_owned()),
        number: Some(Number {
            index: 3,
            total: Some(12),
        }),
        volume: Some(1),
    }
}

/// The smallest file: a description of the stream, other blocks, and frames.
fn file(extra: &[(u8, Vec<u8>)]) -> Vec<u8> {
    let mut out = MAGIC.to_vec();
    let mut all = vec![(0_u8, vec![0x11; 34])];
    all.extend_from_slice(extra);

    let last = all.len() - 1;
    for (index, (kind, body)) in all.iter().enumerate() {
        let flag = if index == last { kind | 0x80 } else { *kind };
        out.push(flag);
        out.extend(
            u32::try_from(body.len())
                .unwrap()
                .to_be_bytes()
                .into_iter()
                .skip(1),
        );
        out.extend_from_slice(body);
    }
    out.extend_from_slice(&[0xFF, 0xF8, 0x00, 0x00]);
    out
}

fn ready(bytes: &[u8], meta: &Meta) -> Option<(Vec<u8>, usize)> {
    match patch(bytes, meta) {
        Ok(Outcome::Ready { head, used }) => Some((head, used)),
        _other => None,
    }
}

#[test]
fn inserts_a_comment_right_after_streaminfo() {
    let (head, used) = ready(&file(&[]), &sample()).unwrap();

    assert!(verify(&head).is_ok());
    let parsed = blocks(&head).unwrap().unwrap();
    assert_eq!(parsed.len(), 2);
    assert_eq!(parsed.get(1).map(|block| block.kind), Some(COMMENT));
    assert_eq!(used, file(&[]).len() - 4);
}

#[test]
fn flac_writes_every_field_it_was_given() {
    let (head, _used) = ready(&file(&[]), &sample()).unwrap();
    let text = String::from_utf8_lossy(&head).into_owned();

    for expected in [
        "TITLE=Сорок седьмой этаж",
        "ARTIST=Ветер Овна",
        "ALBUM=Пыль на антресолях",
        "DATE=2018",
        "GENRE=rap",
        "TRACKNUMBER=3",
        "TRACKTOTAL=12",
        "DISCNUMBER=1",
    ] {
        assert!(text.contains(expected), "нет поля {expected}");
    }
}

#[test]
fn replaces_an_existing_comment_and_keeps_the_rest() {
    let original = file(&[
        (COMMENT, b"\x00\x00\x00\x00\x00\x00\x00\x00".to_vec()),
        (3, vec![0x22; 18]),
    ]);
    let (head, _used) = ready(&original, &sample()).unwrap();

    let parsed = blocks(&head).unwrap().unwrap();
    assert_eq!(
        parsed.iter().map(|block| block.kind).collect::<Vec<u8>>(),
        vec![0, COMMENT, 3]
    );
    assert!(verify(&head).is_ok());
}

#[test]
fn asks_for_more_until_the_last_block_arrives() {
    let original = file(&[]);
    assert!(matches!(
        patch(original.get(..10).unwrap(), &sample()),
        Ok(Outcome::More)
    ));
}

#[test]
fn refuses_what_is_not_flac() {
    assert_eq!(patch(b"OggS0000", &sample()).err(), Some(Reason::Malformed));
}

#[test]
fn other_blocks_keep_their_bodies() {
    let original = file(&[(1, vec![0; 7]), (COMMENT, vec![9; 8]), (3, vec![0x22; 18])]);
    let (head, used) = ready(&original, &sample()).unwrap();
    assert_eq!(used, original.len() - 4);

    let parsed = blocks(&head).unwrap().unwrap();
    let bodies: Vec<Vec<u8>> = parsed
        .iter()
        .map(|block| block.body(&head).unwrap().to_vec())
        .collect();
    assert_eq!(bodies.len(), 4);
    assert_eq!(bodies.first(), Some(&vec![0x11; 34]));
    assert_eq!(bodies.get(1), Some(&comment(&sample())));
    assert_eq!(bodies.get(2), Some(&vec![0; 7]));
    assert_eq!(bodies.get(3), Some(&vec![0x22; 18]));
    assert_eq!(parsed.last().map(|block| block.end()), Some(head.len()));
}

#[test]
fn a_stream_without_its_description_is_refused() {
    let mut odd = MAGIC.to_vec();
    odd.extend_from_slice(&[0x81, 0, 0, 2, 1, 2]);
    assert_eq!(patch(&odd, &sample()).err(), Some(Reason::Malformed));
    assert_eq!(verify(&odd), Err(Reason::Malformed));
    assert!(matches!(blocks(b"fL"), Ok(None)));
}

#[test]
fn tagging_a_flac_twice_changes_nothing() {
    let original = file(&[(3, vec![0x22; 18])]);
    let (head, used) = ready(&original, &sample()).unwrap();
    let once = [head.as_slice(), original.get(used..).unwrap()].concat();
    let (again, used) = ready(&once, &sample()).unwrap();
    assert_eq!(again, head);
    assert_eq!(used, head.len());
}

#[test]
fn artists_stay_apart() {
    let meta = Meta {
        artists: vec!["Смоки Мо".to_owned(), "Lil Kate".to_owned()],
        ..Meta::default()
    };
    assert_eq!(
        entries(&meta),
        vec!["ARTIST=Смоки Мо".to_owned(), "ARTIST=Lil Kate".to_owned()]
    );
}

#[test]
fn writes_a_comment_byte_for_byte() {
    let meta = Meta {
        title: Some("Hi".to_owned()),
        ..Meta::default()
    };
    let mut expected = vec![14, 0, 0, 0];
    expected.extend_from_slice(VENDOR.as_bytes());
    expected.extend_from_slice(&[1, 0, 0, 0, 8, 0, 0, 0]);
    expected.extend_from_slice(b"TITLE=Hi");
    assert_eq!(comment(&meta), expected);
    assert_eq!(length(0x0102_0304), [4, 3, 2, 1]);
}

#[test]
fn a_block_beyond_three_bytes_of_length_does_not_fit() {
    let mut out = vec![7];
    assert_eq!(emit(4, &[1, 2], true, &mut out), Ok(()));
    assert_eq!(out, vec![7, 0x84, 0, 0, 2, 1, 2]);

    let large = vec![0; MAX_BLOCK + 1];
    assert_eq!(emit(4, &large, false, &mut out), Err(Reason::Overflow));
    assert_eq!(out.len(), 7);

    let meta = Meta {
        title: Some("x".repeat(MAX_BLOCK)),
        ..Meta::default()
    };
    assert_eq!(patch(&file(&[]), &meta).err(), Some(Reason::Overflow));
}
