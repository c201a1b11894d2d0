//! Tags of `MP3`.

use ymelorix::tags::id3::{decoded, encoded, existing, frame, patch, tag, verify, HEADER, MAGIC};
use ymelorix::tags::{Meta, Number, Outcome, Reason};

fn sample() -> Meta {
    Meta {
        title: Some("Сорок седьмой этаж".to_owned()),
        artists: vec!["Ветер Овна".to_owned()],
        album: Some("Пыль на антресолях".to_owned()),
        album_artists: vec!["Ветер Овна".to_owned()],
        year: Some(2018),
        genre: Some("rap".to_owned()),
        number: Some(Number {
            index: 3,
            total: Some(12),
        }),
        volume: Some(1),
    }
}

fn ready(bytes: &[u8], meta: &Meta) -> Option<(Vec<u8>, usize)> {
    match patch(bytes, meta) {
        Ok(Outcome::Ready { head, used }) => Some((head, used)),
        _other => None,
    }
}

#[test]
fn prepends_a_tag_to_a_bare_file() {
    let (head, used) = ready(&[0xFF, 0xFB, 0x90, 0x00], &sample()).unwrap();

    assert_eq!(used, 0);
    assert!(verify(&head).is_ok());
    assert_eq!(head.get(..3), Some(&MAGIC[..]));
}

#[test]
fn id3_writes_every_field_it_was_given() {
    let (head, _used) = ready(&[0xFF, 0xFB, 0x90, 0x00], &sample()).unwrap();
    let text = String::from_utf8_lossy(&head).into_owned();

    for expected in [
        "TIT2", "TPE1", "TALB", "TPE2", "TDRC", "TCON", "TRCK", "TPOS",
    ] {
        assert!(text.contains(expected), "нет кадра {expected}");
    }
    assert!(text.contains("Сорок седьмой этаж"));
    assert!(text.contains("3/12"));
}

#[test]
fn drops_an_existing_tag() {
    let old = [
        &MAGIC[..],
        &[0x03, 0x00, 0x00],
        &encoded(6).unwrap(),
        &[0; 6],
    ]
    .concat();
    let file = [old.as_slice(), &[0xFF, 0xFB]].concat();

    let (head, used) = ready(&file, &sample()).unwrap();
    assert_eq!(used, HEADER + 6);
    assert!(verify(&head).is_ok());
}

#[test]
fn asks_for_more_until_the_old_tag_is_whole() {
    let truncated = [&MAGIC[..], &[0x03, 0x00, 0x00], &encoded(64).unwrap()].concat();

    assert!(matches!(patch(&truncated, &sample()), Ok(Outcome::More)));
}

#[test]
fn round_trips_synchsafe_lengths() {
    for value in [0, 127, 128, 0x0FFF_FFFF] {
        assert_eq!(decoded(&encoded(value).unwrap()), Ok(value));
    }
}

#[test]
fn synchsafe_lengths_are_seven_bit() {
    assert_eq!(encoded(257), Ok([0, 0, 2, 1]));
    assert_eq!(encoded(0x1000_0000), Err(Reason::Overflow));
    assert_eq!(decoded(&[0, 0, 2, 1]), Ok(257));
    assert_eq!(decoded(&[0x80]), Err(Reason::Malformed));
    assert_eq!(decoded(&[0x7F; 5]), Err(Reason::Overflow));
    assert_eq!(decoded(&[]), Ok(0));
}

#[test]
fn a_footer_belongs_to_the_old_tag() {
    let header = [&MAGIC[..], &[0x04, 0x00, 0x10], &encoded(6).unwrap()].concat();
    let whole = [header.as_slice(), &[0; 16], &[0xFF, 0xFB]].concat();
    assert_eq!(existing(&whole), Ok(Some(26)));
    assert_eq!(existing(whole.get(..25).unwrap()), Ok(None));
}

#[test]
fn a_broken_length_is_refused() {
    let broken = [&MAGIC[..], &[0x04, 0x00, 0x00, 0xFF, 0, 0, 0]].concat();
    assert_eq!(patch(&broken, &sample()).err(), Some(Reason::Malformed));
    assert_eq!(verify(&broken), Err(Reason::Malformed));
    assert_eq!(verify(b"not a tag"), Err(Reason::Malformed));
    assert_eq!(verify(&[]), Err(Reason::Malformed));
}

#[test]
fn writes_a_frame_byte_for_byte() {
    assert_eq!(
        frame(*b"TIT2", "Hi").unwrap(),
        b"TIT2\x00\x00\x00\x03\x00\x00\x03Hi".to_vec()
    );
    let meta = Meta {
        number: Some(Number {
            index: 7,
            total: None,
        }),
        ..Meta::default()
    };
    assert_eq!(
        tag(&meta).unwrap(),
        b"ID3\x04\x00\x00\x00\x00\x00\x0cTRCK\x00\x00\x00\x02\x00\x00\x037".to_vec()
    );
}

#[test]
fn tagging_an_mp3_twice_changes_nothing() {
    let file = [0xFF, 0xFB, 0x90, 0x00, 0x01, 0x02];
    let (head, used) = ready(&file, &sample()).unwrap();
    let once = [head.as_slice(), file.get(used..).unwrap()].concat();
    let (again, used) = ready(&once, &sample()).unwrap();
    assert_eq!(again, head);
    assert_eq!(used, head.len());
}
