//! Tracks, their names and their files.

use std::path::Path;

use ymelorix::tags::Number;
use ymelorix::track::{
    cleaned, is_id, names, owned, truncate_bytes, Album, AlbumInfo, Artist, Malformed, Position,
    Track, TrackId, TrackInfo, TrackPosition, MAX_NAME_BYTES,
};

fn track(artists: &[&str], title: Option<&str>) -> TrackInfo {
    TrackInfo {
        id: TrackId("1".to_owned()),
        artists: artists.iter().map(|name| (*name).to_owned()).collect(),
        title: title.map(str::to_owned),
        album: None,
    }
}

fn with_id(id: &str, artists: &[&str], title: Option<&str>) -> TrackInfo {
    let TrackInfo {
        id: _generated,
        artists,
        title,
        album,
    } = track(artists, title);

    TrackInfo {
        id: TrackId(id.to_owned()),
        artists,
        title,
        album,
    }
}

#[test]
fn displays_track() {
    for (track, expected) in [
        (
            track(&["Radiohead"], Some("Weird Fishes")),
            "Radiohead — Weird Fishes",
        ),
        (
            track(&["Emika", "Michal Wolski"], Some("Cooler")),
            "Emika, Michal Wolski — Cooler",
        ),
        (
            track(&[], Some("Untitled")),
            "<неизвестный исполнитель> — Untitled",
        ),
        (track(&["Burial"], None), "Burial — <без названия>"),
        (
            track(&[], None),
            "<неизвестный исполнитель> — <без названия>",
        ),
    ] {
        assert_eq!(track.text(), expected);
    }
}

#[test]
fn builds_file_stem() {
    for (track, expected) in [
        (track(&["Burial"], Some("Archangel")), "Burial - Archangel"),
        (
            track(&["Emika", "Michal Wolski"], Some("Cooler")),
            "Emika, Michal Wolski - Cooler",
        ),
        (
            track(&["AC/DC"], Some("Who Made Who?")),
            "AC_DC - Who Made Who_",
        ),
        (track(&["A\nB"], Some("C\tD")), "A_B - C_D"),
        (track(&["\\:*?\"<>|"], Some("\u{7f}")), "________ - _"),
    ] {
        assert_eq!(track.file_stem(), expected);
    }
}

#[test]
fn gives_equally_titled_tracks_the_same_name() {
    let original = with_id("1", &["Nirvana"], Some("Lithium"));
    let remaster = with_id("2", &["Nirvana"], Some("Lithium"));

    assert_eq!(original.file_stem(), remaster.file_stem());
}

#[test]
fn keeps_file_stem_within_byte_budget() {
    for symbol in ["о", "🎧", "o"] {
        let track = track(&["Разработчик"], Some(&symbol.repeat(500)));

        let stem = track.file_stem();
        assert!(
            stem.len() <= MAX_NAME_BYTES,
            "имя заняло {} байт: {stem}",
            stem.len()
        );
    }
}

#[test]
fn treats_blank_values_from_api_as_missing() {
    for (track, expected) in [
        (
            track(&["   "], Some("Untitled")),
            "_неизвестный исполнитель_ - Untitled",
        ),
        (track(&["Burial"], Some("  ")), "Burial - _без названия_"),
    ] {
        assert_eq!(track.file_stem(), expected);
    }
}

#[test]
fn file_stem_stays_a_single_path_component() {
    for title in ["../../etc/passwd", "/etc/passwd", "..\\..\\windows", ".."] {
        let stem = track(&["Кто-то"], Some(title)).file_stem();

        let path = Path::new("/базовая").join(&stem);
        assert_eq!(
            path.file_name().and_then(|name| name.to_str()),
            Some(&*stem)
        );
        assert_eq!(path.parent(), Some(Path::new("/базовая")));
    }
}

#[test]
fn carries_album_data_into_tags() {
    let track = TrackInfo {
        id: TrackId("1".to_owned()),
        artists: vec!["Кремний".to_owned(), "  Тальк  ".to_owned()],
        title: Some("  Обратный отсчёт  ".to_owned()),
        album: Some(AlbumInfo {
            title: Some("Ниже уровня моря".to_owned()),
            artists: vec!["Кремний".to_owned()],
            year: Some(2019),
            genre: Some("rap".to_owned()),
            position: Some(Position {
                volume: 1,
                index: 4,
            }),
            tracks: Some(11),
        }),
    };

    let meta = track.tags();
    assert_eq!(meta.title, Some("Обратный отсчёт".to_owned()));
    assert_eq!(meta.artists, vec!["Кремний".to_owned(), "Тальк".to_owned()]);
    assert_eq!(meta.album, Some("Ниже уровня моря".to_owned()));
    assert_eq!(
        meta.number,
        Some(Number {
            index: 4,
            total: Some(11)
        })
    );
    assert_eq!(meta.volume, Some(1));
    assert_eq!(meta.year, Some(2019));
    assert_eq!(meta.genre, Some("rap".to_owned()));
    assert_eq!(meta.album_artists, vec!["Кремний".to_owned()]);
}

#[test]
fn keeps_placeholders_out_of_tags() {
    let meta = track(&["   "], None).tags();

    assert_eq!(meta.title, None);
    assert!(meta.artists.is_empty());
    assert_eq!(meta.number, None);
}

#[test]
fn parses_track_id() {
    for (input, expected) in [
        (
            "https://music.yandex.ru/album/4147089/track/33898323",
            "33898323",
        ),
        ("https://music.yandex.ru/track/33898323", "33898323"),
        (
            "https://music.yandex.ru/album/1/track/42?utm_source=web",
            "42",
        ),
        ("https://music.yandex.ru/album/1/track/42#play", "42"),
        ("music.yandex.ru/album/1/track/42", "42"),
        ("33898323", "33898323"),
        ("  33898323  ", "33898323"),
    ] {
        let parsed = TrackId::parse(input).map(|id| id.as_str().to_owned());
        assert_eq!(parsed.ok(), Some(expected.to_owned()));
    }
}

#[test]
fn rejects_bad_track_link() {
    for input in [
        "https://music.yandex.ru/album/4147089",
        "https://music.yandex.ru/artist/9262",
        "https://music.yandex.ru/album/1/track/",
        "https://music.yandex.ru/album/1/track/abc",
        "",
    ] {
        assert!(TrackId::parse(input).is_err());
    }
}

#[test]
fn a_stem_cut_at_a_space_loses_the_space() {
    let title = format!("{} x", "a".repeat(150 - "B - ".len() - 1));
    let stem = track(&["B"], Some(&title)).file_stem();
    assert_eq!(stem.len(), 149);
    assert!(stem.ends_with('a'));
}

#[test]
fn a_name_of_dots_and_spaces_is_only_safe_with_its_extension() {
    let artist = format!("..{}x", " ".repeat(148));
    let stem = track(&[&artist], Some("t")).file_stem();
    assert_eq!(stem, "..");
    let path = Path::new("/базовая").join(format!("{stem}.flac"));
    assert_eq!(path.parent(), Some(Path::new("/базовая")));
}

#[test]
fn cuts_between_characters() {
    assert_eq!(truncate_bytes("абв", 4), "аб");
    assert_eq!(truncate_bytes("абв", 5), "аб");
    assert_eq!(truncate_bytes("a🎧b", 4), "a");
    assert_eq!(truncate_bytes("a🎧b", 5), "a🎧");
    assert_eq!(truncate_bytes("€uro", 2), "");
    assert_eq!(truncate_bytes("abc", 10), "abc");
}

#[test]
fn blank_names_are_dropped() {
    assert_eq!(cleaned(Some("  a b ")), Some("a b".to_owned()));
    assert_eq!(cleaned(Some("\u{3000}\n")), None);
    assert_eq!(cleaned(None), None);
    assert_eq!(
        owned(&[" ".to_owned(), " x ".to_owned(), String::new()]),
        vec!["x".to_owned()]
    );
    assert_eq!(
        names(&[
            Artist { name: None },
            Artist { name: Some(" y".to_owned()) }
        ]),
        vec![" y".to_owned()]
    );
    assert!(is_id("0123"));
    assert!(!is_id("12a"));
    assert!(!is_id("+1"));
    assert!(!is_id("٣"));
}

fn described(position: Option<TrackPosition>, track_count: Option<u32>) -> Track {
    Track {
        id: "77".to_owned(),
        artists: vec![
            Artist { name: Some("A".to_owned()) },
            Artist { name: None },
        ],
        title: Some("T".to_owned()),
        albums: vec![
            Album {
                title: Some("First".to_owned()),
                artists: vec![Artist { name: Some("B".to_owned()) }],
                year: Some(1999),
                genre: None,
                track_position: position,
                track_count,
            },
            Album {
                title: Some("Second".to_owned()),
                artists: vec![],
                year: None,
                genre: None,
                track_position: None,
                track_count: Some(u32::MAX),
            },
        ],
    }
}

#[test]
fn takes_the_first_album_of_a_description() {
    let info = TrackInfo::try_from(&described(
        Some(TrackPosition {
            volume: 255,
            index: 65_535,
        }),
        Some(65_535),
    ))
    .unwrap();
    assert_eq!(info.id().as_str(), "77");
    assert_eq!(info.artists, vec!["A".to_owned()]);
    let album = info.album.unwrap();
    assert_eq!(album.title, Some("First".to_owned()));
    assert_eq!(
        album.position,
        Some(Position {
            volume: 255,
            index: 65_535
        })
    );
    assert_eq!(album.tracks, Some(65_535));
    assert_eq!(album.artists, vec!["B".to_owned()]);
    assert_eq!(album.year, Some(1999));
}

#[test]
fn numbers_that_fit_no_tag_are_refused() {
    let broken = Some(TrackPosition {
        volume: 1,
        index: 65_536,
    });
    assert_eq!(
        TrackInfo::try_from(&described(broken, Some(65_536))).err(),
        Some(Malformed::Position(65_536))
    );
    assert_eq!(
        TrackInfo::try_from(&described(None, Some(65_536))).err(),
        Some(Malformed::Count(65_536))
    );
    assert_eq!(
        Malformed::Position(65_536).message(),
        "номер трека в альбоме не похож на номер: 65536"
    );
    assert_eq!(
        Malformed::Count(70_000).message(),
        "число треков в альбоме не похоже на число: 70000"
    );
}
