//! Links.

use ymelorix::source::{after, is_owner, Fault, Source};

fn parsed(input: &str) -> Option<String> {
    Source::parse(input).map(|source| source.text()).ok()
}

#[test]
fn parses_link() {
    for (input, expected) in [
        ("https://music.yandex.ru/album/4147089", "альбом 4147089"),
        (
            "https://music.yandex.ru/album/4147089?utm_source=web",
            "альбом 4147089",
        ),
        ("music.yandex.ru/album/4147089", "альбом 4147089"),
        ("https://music.yandex.ru/album/4147089/", "альбом 4147089"),
        (
            "https://music.yandex.ru/users/yamusic-daily/playlists/1234",
            "плейлист yamusic-daily/1234",
        ),
        (
            "https://music.yandex.ru/users/ivan/playlists/3#play",
            "плейлист ivan/3",
        ),
        (
            "https://music.yandex.ru/users/1130000012345678/playlists/3",
            "плейлист 1130000012345678/3",
        ),
        ("  https://music.yandex.ru/album/1  ", "альбом 1"),
    ] {
        assert_eq!(parsed(input), Some(expected.to_owned()));
    }
}

#[test]
fn parses_track_link() {
    for (input, expected) in [
        (
            "https://music.yandex.ru/album/4147089/track/33898323",
            "трек 33898323",
        ),
        ("https://music.yandex.ru/track/33898323", "трек 33898323"),
        ("https://music.yandex.ru/track/42?utm_source=web", "трек 42"),
        ("33898323", "трек 33898323"),
        ("  33898323  ", "трек 33898323"),
    ] {
        assert_eq!(parsed(input), Some(expected.to_owned()));
    }
}

#[test]
fn rejects_bad_link() {
    for input in [
        "https://music.yandex.ru/artist/9262",
        "https://music.yandex.ru/album/",
        "https://music.yandex.ru/album/abc",
        "https://music.yandex.ru/users/ivan/playlists/",
        "https://music.yandex.ru/users//playlists/1",
        "https://music.yandex.ru/users/ivan/playlists/abc",
        "https://music.yandex.ru/album/1/track/abc",
        "https://music.yandex.ru/album/1/track/",
        "",
        "https://music.yandex.ru/users/..%2f..%2faccount/playlists/1",
        "https://music.yandex.ru/users/ivan%3Fx=1/playlists/1",
    ] {
        assert!(Source::parse(input).is_err());
    }
}

#[test]
fn explains_that_uuid_playlist_link_is_not_supported() {
    let message = Source::parse("https://music.yandex.ru/playlists/8a7b6c5d")
        .err()
        .map(|error| error.message());

    assert!(
        message.is_some_and(|message| message.contains("users/")),
        "отказ должен показывать поддерживаемую форму ссылки"
    );
}

#[test]
fn every_fault_is_told_apart() {
    for (input, fault, message) in [
        (
            " track/x ",
            Fault::NoTrack,
            "в ссылке нет идентификатора трека: track/x",
        ),
        (
            "a/album/4294967296",
            Fault::NoAlbum,
            "в ссылке нет номера альбома: a/album/4294967296",
        ),
        (
            "a/users/b/playlists/",
            Fault::NoPlaylist,
            "в ссылке нет номера плейлиста: a/users/b/playlists/",
        ),
        (
            "users/a b/playlists/1",
            Fault::NoOwner,
            "плейлист адресуется владельцем и номером: \
             music.yandex.ru/users/<владелец>/playlists/<номер>. \
             Такую ссылку даёт кнопка «Поделиться» в плейлисте: users/a b/playlists/1",
        ),
        (
            "somewhere",
            Fault::Unknown,
            "ссылка не похожа ни на трек, ни на альбом, ни на плейлист: somewhere",
        ),
    ] {
        let bad = Source::parse(input).err().unwrap();
        assert_eq!(bad.fault, fault);
        assert_eq!(bad.message(), message);
    }
}

#[test]
fn a_link_gives_its_parts() {
    match Source::parse("music.yandex.ru/users/Ivan.P_1/playlists/+7#x") {
        Ok(Source::Playlist(id)) => {
            assert_eq!(id.owner(), "Ivan.P_1");
            assert_eq!(id.kind(), 7);
            assert_eq!(id.clone(), id);
        }
        other => panic!("{other:?}"),
    }
    match Source::parse("music.yandex.ru/album/4294967295") {
        Ok(Source::Album(id)) => assert_eq!(id.value(), u32::MAX),
        other => panic!("{other:?}"),
    }
    match Source::parse("album/1/track/42") {
        Ok(Source::Track(id)) => assert_eq!(id.as_str(), "42"),
        other => panic!("{other:?}"),
    }
}

#[test]
fn owners_are_logins() {
    for (value, expected) in [
        ("ivan", true),
        ("Ivan-P._9", true),
        ("", false),
        ("a/b", false),
        ("иван", false),
        ("a%2f", false),
    ] {
        assert_eq!(is_owner(value), expected);
    }
}

#[test]
fn the_segment_behind_the_first_of_a_name() {
    let segments: Vec<String> = ["a", "b", "a", "c"].map(str::to_owned).to_vec();
    assert_eq!(after(&segments, "a"), Some("b"));
    assert_eq!(after(&segments, "b"), Some("a"));
    assert_eq!(after(&segments, "c"), None);
    assert_eq!(after(&segments, "d"), None);
}
