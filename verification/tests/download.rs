//! Downloading a track.

use reqwest::header::{HeaderMap, HeaderValue, RETRY_AFTER};
use ymelorix::download::{
    answered, asking, extension, from_io, is_environment_failure, mirrors, no_link, open, opening,
    skip, Answer, Ending, ErrorKind, Failure, FileInfo, Head, Job, Outcome, Quality, Transfer,
    MAX_HEAD_BYTES, MAX_TRACK_BYTES,
};
use ymelorix::tags::{Format, Meta, Reason};
use ymelorix::track::{TrackId, TrackInfo};
use ymelorix::updater::Existing;

fn meta() -> Meta {
    Meta {
        title: Some("T".to_owned()),
        ..Meta::default()
    }
}

fn head(format: Format) -> Head {
    Head {
        format,
        meta: meta(),
        buffer: Vec::new(),
    }
}

fn burial() -> TrackInfo {
    TrackInfo {
        id: TrackId("42".to_owned()),
        artists: vec!["Burial".to_owned()],
        title: Some("Archangel".to_owned()),
        album: None,
    }
}

#[test]
fn tells_which_outcomes_cost_a_request() {
    let downloaded = Outcome::Downloaded {
        path: "a.flac".to_owned(),
        bytes: 1,
    };
    assert!(downloaded.cost_request());
    let skipped = Outcome::Skipped {
        stem: "a".to_owned(),
    };
    assert!(!skipped.cost_request());
}

#[test]
fn outcomes_have_words() {
    let downloaded = Outcome::Downloaded {
        path: "dir/a.flac".to_owned(),
        bytes: 2047,
    };
    assert_eq!(downloaded.text(), "скачан dir/a.flac (1 КБ)");
    let skipped = Outcome::Skipped {
        stem: "a".to_owned(),
    };
    assert_eq!(skipped.text(), "уже есть a");
}

#[test]
fn maps_quality_to_wire_value() {
    for (quality, expected) in [
        (Quality::Lossless, Some("lossless")),
        (Quality::High, None),
        (Quality::Normal, Some("nq")),
        (Quality::Low, Some("lq")),
    ] {
        assert_eq!(quality.wire(), expected.map(str::to_owned));
    }
}

#[test]
fn maps_codec_to_extension() {
    for (codec, expected) in [
        ("flac", "flac"),
        ("mp3", "mp3"),
        ("aac", "m4a"),
        ("he-aac", "m4a"),
        ("flac-mp4", "m4a"),
        ("aac-mp4", "m4a"),
        ("he-aac-mp4", "m4a"),
        ("opus", "opus"),
    ] {
        assert_eq!(extension(codec), expected);
    }
}

#[test]
fn tells_environment_failure_from_track_failure() {
    for (kind, expected) in [
        (ErrorKind::StorageFull, true),
        (ErrorKind::QuotaExceeded, true),
        (ErrorKind::PermissionDenied, true),
        (ErrorKind::ReadOnlyFilesystem, true),
        (ErrorKind::NotFound, true),
        (ErrorKind::NotADirectory, true),
        (ErrorKind::InvalidFilename, false),
        (ErrorKind::Interrupted, false),
        (ErrorKind::Other, false),
    ] {
        assert_eq!(is_environment_failure(kind), expected);
    }
}

#[test]
fn failures_have_words() {
    let reason = || "x".to_owned();
    assert_eq!(Failure::Track(reason()).message(), "трек не скачан");
    assert_eq!(Failure::Fatal(reason()).message(), "выгрузка невозможна");
    assert_eq!(
        Failure::Throttled(reason()).message(),
        "сервер ограничивает темп запросов"
    );
}

#[test]
fn a_failure_of_the_file_system_keeps_its_words() {
    match from_io(ErrorKind::StorageFull, "no space", "не удалось создать x") {
        Failure::Fatal(reason) => assert_eq!(reason, "не удалось создать x: no space"),
        other => panic!("{other:?}"),
    }
    match from_io(ErrorKind::Other, "odd", "не удалось создать x") {
        Failure::Track(reason) => assert_eq!(reason, "не удалось создать x: odd"),
        other => panic!("{other:?}"),
    }
}

#[test]
fn puts_primary_url_first_and_drops_repeats() {
    let alternatives = [
        "https://one.example/a".to_owned(),
        "https://two.example/a".to_owned(),
    ];

    assert_eq!(
        mirrors("https://one.example/a", &alternatives),
        vec![
            "https://one.example/a".to_owned(),
            "https://two.example/a".to_owned(),
        ]
    );
}

#[test]
fn repeats_among_mirrors_are_dropped_too() {
    let alternatives = ["b", "c", "b", "a"].map(str::to_owned);
    assert_eq!(
        mirrors("a", &alternatives),
        vec!["a".to_owned(), "b".to_owned(), "c".to_owned()]
    );
}

#[test]
fn a_success_is_accepted() {
    let mut attempts = opening();
    assert!(matches!(answered(&mut attempts, 200, None), Answer::Accepted));
    assert!(matches!(answered(&mut attempts, 299, None), Answer::Accepted));
    assert_eq!(attempts.made, 0);
}

#[test]
fn a_refused_file_says_its_status() {
    let mut attempts = opening();
    match answered(&mut attempts, 404, Some(1)) {
        Answer::Refused(Failure::Track(reason)) => {
            assert_eq!(reason, "файл не отдан: HTTP 404 Not Found");
        }
        other => panic!("{other:?}"),
    }
    match answered(&mut attempts, 999, None) {
        Answer::Refused(Failure::Track(reason)) => {
            assert_eq!(reason, "файл не отдан: HTTP 999 <unknown status code>");
        }
        other => panic!("{other:?}"),
    }
}

#[test]
fn a_throttling_server_is_waited_for_and_then_given_up() {
    let mut attempts = opening();
    let mut headers = HeaderMap::new();
    match open(&mut attempts, 429, &headers) {
        Answer::Wait {
            seconds,
            attempt,
            by_request,
        } => assert_eq!((seconds, attempt, by_request), (1, 1, false)),
        other => panic!("{other:?}"),
    }
    headers.insert(RETRY_AFTER, HeaderValue::from_static("7"));
    match open(&mut attempts, 429, &headers) {
        Answer::Wait {
            seconds,
            attempt,
            by_request,
        } => assert_eq!((seconds, attempt, by_request), (7, 2, true)),
        other => panic!("{other:?}"),
    }
    match open(&mut attempts, 429, &headers) {
        Answer::Refused(Failure::Throttled(reason)) => assert_eq!(
            reason,
            "раздача отвечает HTTP 429 Too Many Requests и после 3 попыток"
        ),
        other => panic!("{other:?}"),
    }
}

#[test]
fn a_server_that_wants_too_long_a_wait_is_given_up_at_once() {
    let mut attempts = opening();
    match answered(&mut attempts, 429, Some(61)) {
        Answer::Refused(Failure::Throttled(reason)) => assert_eq!(
            reason,
            "раздача просит подождать 61 с — дольше, чем стоит ждать в одном запуске"
        ),
        other => panic!("{other:?}"),
    }
}

#[test]
fn a_head_is_held_back_until_it_is_whole() {
    let mut head = head(Format::Mp3);
    assert!(head.feed(b"I").is_none());
    assert!(head.feed(b"D").is_none());
    let portion = head.feed(b"X and sound").unwrap();
    assert_eq!(portion.untagged, None);
    assert!(portion.bytes.starts_with(b"ID3\x04"));
    assert!(portion.bytes.ends_with(b"IDX and sound"));
    assert!(head.buffer.is_empty());
}

#[test]
fn a_head_that_makes_no_sense_is_stored_as_it_came() {
    let mut flac = head(Format::Flac);
    let portion = flac.feed(b"OggS and sound").unwrap();
    assert_eq!(portion.bytes, b"OggS and sound".to_vec());
    assert_eq!(portion.untagged, Some(Reason::Malformed));
}

#[test]
fn a_stream_that_ends_early_is_stored_as_it_came() {
    let mut mp3 = head(Format::Mp3);
    assert!(mp3.feed(b"ID").is_none());
    let portion = mp3.settle();
    assert_eq!(portion.bytes, b"ID".to_vec());
    assert_eq!(portion.untagged, Some(Reason::Malformed));
}

#[test]
fn a_head_that_never_ends_is_let_go() {
    let mut mp4 = head(Format::Mp4);
    let mut start = 0x7FFF_FFFF_u32.to_be_bytes().to_vec();
    start.extend_from_slice(b"mdat");
    assert!(mp4.feed(&start).is_none());
    assert!(mp4.feed(&vec![0; MAX_HEAD_BYTES - 8]).is_none());
    let portion = mp4.feed(&[1]).unwrap();
    assert_eq!(portion.bytes.len(), MAX_HEAD_BYTES + 1);
    assert_eq!(portion.untagged, Some(Reason::Oversized));
    assert!(mp4.decide(Ending::More).is_none());
}

#[test]
fn a_head_gives_its_bytes_back_untagged() {
    let mut mp4 = Head {
        buffer: b"abc".to_vec(),
        ..head(Format::Mp4)
    };
    let portion = mp4.untagged(Reason::Inline);
    assert_eq!(portion.bytes, b"abc".to_vec());
    assert_eq!(portion.untagged, Some(Reason::Inline));
    assert!(mp4.buffer.is_empty());
}

#[test]
fn a_transfer_keeps_every_byte() {
    let mut transfer = Transfer::new(Some(head(Format::Mp3)), Some(7));
    let mut out = Vec::new();
    for chunk in [b"so".as_slice(), b"un", b"", b"ds!"] {
        if let Some(portion) = transfer.accept(chunk).unwrap() {
            out.extend_from_slice(&portion.bytes);
        }
    }
    if let Some(portion) = transfer.finish() {
        out.extend_from_slice(&portion.bytes);
    }
    assert!(out.starts_with(b"ID3"));
    assert!(out.ends_with(b"sounds!"));
    assert_eq!(transfer.check().unwrap(), u64::try_from(out.len()).unwrap());
    assert!(transfer.finish().is_none());
}

#[test]
fn pieces_of_a_stream_do_not_matter() {
    // A marker, a block of stream properties that is the last one, then sound.
    let mut stream = b"fLaC\x80\x00\x00\x22".to_vec();
    stream.extend_from_slice(&[7; 34]);
    stream.extend_from_slice(b"\xff\xf8 the sound of it");
    let stored = |size: usize| {
        let mut transfer = Transfer::new(Some(head(Format::Flac)), None);
        let mut out = Vec::new();
        for chunk in stream.chunks(size) {
            if let Some(portion) = transfer.accept(chunk).unwrap() {
                assert_eq!(portion.untagged, None);
                out.extend_from_slice(&portion.bytes);
            }
        }
        assert!(transfer.finish().is_none());
        out
    };
    let whole = stored(stream.len());
    assert!(whole.len() > stream.len());
    assert!(whole.ends_with(b"\xff\xf8 the sound of it"));
    for size in 1..stream.len() {
        assert_eq!(stored(size), whole);
    }
}

#[test]
fn a_transfer_without_tags_passes_bytes_on() {
    let mut transfer = Transfer::new(None, None);
    let portion = transfer.accept(b"abc").unwrap().unwrap();
    assert_eq!(portion.bytes, b"abc".to_vec());
    assert_eq!(portion.untagged, None);
    assert!(transfer.finish().is_none());
    assert_eq!(transfer.check().unwrap(), 3);
}

#[test]
fn a_transfer_of_the_wrong_size_fails() {
    let mut transfer = Transfer::new(None, Some(4));
    transfer.accept(b"abc").unwrap();
    match transfer.check() {
        Err(Failure::Track(reason)) => {
            assert_eq!(reason, "файл пришёл не целиком: 3 байт вместо 4");
        }
        other => panic!("{other:?}"),
    }
}

#[test]
fn a_transfer_beyond_all_bounds_fails() {
    let mut transfer = Transfer {
        received: MAX_TRACK_BYTES - 1,
        ..Transfer::new(None, None)
    };
    assert!(transfer.accept(b"a").is_ok());
    match transfer.accept(b"a") {
        Err(Failure::Track(reason)) => {
            assert_eq!(reason, "файл больше 512 МБ — это не похоже на трек");
        }
        other => panic!("{other:?}"),
    }
}

#[test]
fn a_track_that_is_there_is_skipped() {
    let there = Existing::from_names(&["Burial - Archangel.mp3"]);
    match skip(&burial(), Some(&there)) {
        Some(Outcome::Skipped { stem }) => assert_eq!(stem, "Burial - Archangel"),
        other => panic!("{other:?}"),
    }
    let elsewhere = Existing::from_names(&["Burial - Archangel.mp3.part"]);
    assert!(skip(&burial(), Some(&elsewhere)).is_none());
    assert!(skip(&burial(), None).is_none());
}

fn info() -> FileInfo {
    FileInfo {
        codec: "flac-mp4".to_owned(),
        url: "a".to_owned(),
        urls: vec!["a".to_owned(), "b".to_owned()],
        size: Some(10),
    }
}

#[test]
fn a_job_knows_its_files() {
    let job = Job::new(&burial(), &info());
    assert_eq!(job.name, "Burial - Archangel.m4a");
    assert_eq!(job.temporary, "Burial - Archangel.m4a.part");
    assert_eq!(job.format, Some(Format::Mp4));
    assert_eq!(job.urls, vec!["a".to_owned(), "b".to_owned()]);
    assert_eq!(job.meta, burial().tags());
    let transfer = job.transfer();
    assert_eq!(transfer.expected, Some(10));
    assert_eq!(transfer.head.map(|head| head.format), Some(Format::Mp4));

    let unknown = FileInfo {
        codec: "opus".to_owned(),
        ..info()
    };
    assert!(Job::new(&burial(), &unknown).transfer().head.is_none());
}

#[test]
fn a_job_tries_every_link_once() {
    let mut job = Job::new(&burial(), &info());
    assert_eq!(job.next_url(), Some("a"));
    assert!(job.failed(Failure::Track("first".to_owned())).is_none());
    assert_eq!(job.next_url(), Some("b"));
    assert!(job.failed(Failure::Track("second".to_owned())).is_none());
    assert_eq!(job.next_url(), None);
    match job.exhausted() {
        Failure::Track(reason) => assert_eq!(reason, "second"),
        other => panic!("{other:?}"),
    }
}

#[test]
fn a_job_stops_where_other_links_are_no_use() {
    let mut job = Job::new(&burial(), &info());
    assert!(matches!(
        job.failed(Failure::Fatal("disk".to_owned())),
        Some(Failure::Fatal(reason)) if reason == "disk"
    ));
    assert!(matches!(
        job.failed(Failure::Throttled("pace".to_owned())),
        Some(Failure::Throttled(reason)) if reason == "pace"
    ));
    assert_eq!(job.next_url(), Some("a"));
    match job.exhausted() {
        Failure::Track(reason) => {
            assert_eq!(reason, "Музыка не дала ни одной ссылки на файл трека 42");
        }
        other => panic!("{other:?}"),
    }
}

#[test]
fn asking_for_a_file_has_words() {
    assert_eq!(asking("42"), "ссылка на файл трека 42");
    assert_eq!(no_link("42"), "нет ссылки на файл трека 42");
}
