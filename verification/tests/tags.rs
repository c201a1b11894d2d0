//! Choosing a format, and refusing to write nothing.

use ymelorix::tags::{joined, patch, verify, Format, Meta, Number, Outcome, Patch, Reason};

fn sample() -> Meta {
    Meta {
        title: Some("Сорок седьмой этаж".to_owned()),
        artists: vec!["Ветер Овна".to_owned()],
        album: Some("Пыль на антресолях".to_owned()),
        album_artists: vec!["Ветер Овна".to_owned()],
        year: Some(2018),
        genre: Some("rap".to_owned()),
        number: Some(Number {
            index: 3,
            total: Some(12),
        }),
        volume: Some(1),
    }
}

#[test]
fn maps_extension_to_format() {
    for (extension, expected) in [
        ("m4a", Some(Format::Mp4)),
        ("flac", Some(Format::Flac)),
        ("mp3", Some(Format::Mp3)),
        ("opus", None),
        ("", None),
        ("M4A", None),
    ] {
        assert_eq!(Format::of(extension), expected);
    }
}

#[test]
fn refuses_to_write_nothing() {
    for format in [Format::Mp4, Format::Flac, Format::Mp3] {
        assert!(matches!(
            patch(format, &[], &Meta::default()),
            Patch::Refused(Reason::Empty)
        ));
    }
}

#[test]
fn joins_artists_and_keeps_absence_absent() {
    let meta = sample();
    assert_eq!(meta.artists(), Some("Ветер Овна".to_owned()));
    assert_eq!(Meta::default().artists(), None);
}

#[test]
fn joins_several_names_with_commas() {
    assert_eq!(
        joined(&["a".to_owned(), "b".to_owned(), "c".to_owned()]),
        Some("a, b, c".to_owned())
    );
    assert_eq!(joined(&[]), None);
    assert_eq!(sample().album_artists(), Some("Ветер Овна".to_owned()));
}

#[test]
fn any_single_field_makes_a_meta_worth_writing() {
    let blank = Meta::default();
    assert!(blank.is_empty());
    assert!(!sample().is_empty());
    for meta in [
        Meta { title: Some("t".to_owned()), ..Meta::default() },
        Meta { artists: vec!["a".to_owned()], ..Meta::default() },
        Meta { album: Some("b".to_owned()), ..Meta::default() },
        Meta { album_artists: vec!["c".to_owned()], ..Meta::default() },
        Meta { year: Some(1), ..Meta::default() },
        Meta { genre: Some("g".to_owned()), ..Meta::default() },
        Meta { number: Some(Number { index: 1, total: None }), ..Meta::default() },
        Meta { volume: Some(1), ..Meta::default() },
    ] {
        assert!(!meta.is_empty());
        assert_eq!(meta.clone(), meta);
    }
}

#[test]
fn a_ready_head_passes_its_check() {
    let mp3 = [0xFF, 0xFB, 0x90, 0x00];
    match patch(Format::Mp3, &mp3, &sample()) {
        Patch::Ready { head, used } => {
            assert_eq!(used, 0);
            assert_eq!(verify(Format::Mp3, &head), Ok(()));
            assert_eq!(verify(Format::Flac, &head), Err(Reason::Malformed));
        }
        other => panic!("{other:?}"),
    }
    assert!(matches!(patch(Format::Mp3, &[], &sample()), Patch::More));
    assert!(matches!(
        patch(Format::Flac, b"OggS", &sample()),
        Patch::Refused(Reason::Malformed)
    ));
}

#[test]
fn a_head_that_breaks_its_own_boxes_is_refused() {
    // An offset table of fourteen bytes, without room for its count: the count and
    // the one entry are read out of the header of the next box, and the entry, moved
    // by a long title, comes back as another size of that box.
    let wrap = |kind: &[u8; 4], payload: &[u8]| -> Vec<u8> {
        let size = u32::try_from(payload.len() + 8).unwrap();
        [size.to_be_bytes().as_slice(), kind.as_slice(), payload].concat()
    };
    let table = wrap(b"stco", &[0; 6]);
    let free = wrap(b"free", &[0; 0x1_0010 - 8]);
    let moov = wrap(b"moov", &[table, free].concat());
    let long = Meta {
        title: Some("x".repeat(50_000)),
        ..Meta::default()
    };
    match ymelorix::tags::mp4::patch(&moov, &long) {
        Ok(Outcome::Ready { head, .. }) => {
            assert_eq!(verify(Format::Mp4, &head), Err(Reason::Malformed));
        }
        other => panic!("{other:?}"),
    }
    assert!(matches!(
        patch(Format::Mp4, &moov, &long),
        Patch::Refused(Reason::Malformed)
    ));
}

#[test]
fn reasons_have_words() {
    assert_eq!(Reason::Empty.text(), "нет данных для тегов");
    assert_eq!(Reason::Malformed.text(), "структура файла не разобрана");
    assert_eq!(Reason::Fragmented.text(), "фрагментированный MP4");
    assert_eq!(Reason::Inline.text(), "звук лежит внутри заголовка");
    assert_eq!(Reason::Oversized.text(), "заголовок не уместился в буфер");
    assert_eq!(Reason::Overflow.text(), "длина не помещается в поле формата");
}
