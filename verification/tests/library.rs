//! Answers of the service.

use ymelorix::account::{Account, Plus, Status};
use ymelorix::library::{
    account_path, album_tracks, batches, playlist_ids, playlist_path, read_answer, take_tracks,
    track_by_id, AlbumListing, EntryId, Playlist, PlaylistEntry,
};
use ymelorix::source::{AlbumId, Source};
use ymelorix::track::{Album, Track, TrackId, TrackInfo};

fn track(id: &str) -> Track {
    Track {
        id: id.to_owned(),
        artists: vec![],
        title: None,
        albums: vec![],
    }
}

fn broken(id: &str) -> Track {
    Track {
        albums: vec![Album {
            title: None,
            artists: vec![],
            year: None,
            genre: None,
            track_position: None,
            track_count: Some(65_536),
        }],
        ..track(id)
    }
}

fn ids(tracks: &[TrackInfo]) -> Vec<&str> {
    tracks.iter().map(|track| track.id().as_str()).collect()
}

#[test]
fn asks_for_a_playlist_by_owner_and_number() {
    match Source::parse("music.yandex.ru/users/ivan/playlists/3") {
        Ok(Source::Playlist(id)) => assert_eq!(
            playlist_path(&id),
            "https://api.music.yandex.net:443/users/ivan/playlists/3?richTracks=false"
        ),
        other => panic!("{other:?}"),
    }
    assert_eq!(account_path(), format!("{}account/status", yandex_music::API_PATH));
}

#[test]
fn the_body_explains_a_refusal() {
    assert_eq!(read_answer("x", 200, "да".as_bytes()), Ok("да".to_owned()));
    assert_eq!(
        read_answer("плейлист не отдан", 403, b"no \xff"),
        Err("плейлист не отдан: HTTP 403 Forbidden, тело: no \u{fffd}".to_owned())
    );
    assert_eq!(
        read_answer("account/status", 500, b""),
        Err("account/status: HTTP 500 Internal Server Error, тело: ".to_owned())
    );
}

#[test]
fn identifiers_come_as_numbers_and_texts() {
    let playlist = Playlist {
        title: Some("t".to_owned()),
        track_count: Some(2),
        tracks: vec![
            PlaylistEntry { id: EntryId::Number(7) },
            PlaylistEntry { id: EntryId::Text("8:1".to_owned()) },
        ],
    };
    let found = playlist_ids(playlist).unwrap();
    assert_eq!(found.ids, vec!["7".to_owned(), "8:1".to_owned()]);
    assert!(!found.short);
    assert_eq!(EntryId::Number(u64::MAX).into_string(), u64::MAX.to_string());
}

#[test]
fn a_playlist_may_be_shorter_than_promised() {
    let playlist = Playlist {
        title: None,
        track_count: Some(2),
        tracks: vec![PlaylistEntry { id: EntryId::Number(7) }],
    };
    assert!(playlist_ids(playlist).unwrap().short);
}

#[test]
fn an_empty_playlist_is_refused() {
    for (track_count, expected) in [
        (None, "в плейлисте нет треков"),
        (Some(0), "в плейлисте нет треков"),
        (
            Some(5),
            "плейлист обещает 5 треков, но не отдал ни одного — \
             похоже, ручка ответила иначе, чем ожидалось",
        ),
    ] {
        let playlist = Playlist {
            title: None,
            track_count,
            tracks: vec![],
        };
        assert_eq!(playlist_ids(playlist).err(), Some(expected.to_owned()));
    }
}

#[test]
fn identifiers_go_in_batches() {
    let all: Vec<String> = (0..250).map(|id| id.to_string()).collect();
    let parted = batches(&all);
    assert_eq!(
        parted.iter().map(Vec::len).collect::<Vec<usize>>(),
        vec![100, 100, 50]
    );
    assert_eq!(parted.concat(), all);
    assert!(batches(&[]).is_empty());
    let hundred = all.get(..100).unwrap();
    assert_eq!(batches(hundred).len(), 1);
}

#[test]
fn tracks_are_taken_all_or_none() {
    assert_eq!(ids(&take_tracks(&[track("1"), track("2")]).unwrap()), vec!["1", "2"]);
    assert_eq!(
        take_tracks(&[track("1"), broken("2"), track("3")]).err(),
        Some(
            "трек 2 отдан в неожиданном виде: число треков в альбоме не похоже на число: 65536"
                .to_owned()
        )
    );
}

#[test]
fn an_album_comes_disc_by_disc() {
    let album = AlbumListing {
        error: None,
        volumes: vec![vec![track("1"), track("2")], vec![], vec![track("3")]],
    };
    assert_eq!(
        ids(&album_tracks(&AlbumId(9), &album).unwrap()),
        vec!["1", "2", "3"]
    );
}

#[test]
fn an_album_may_be_refused() {
    for (album, expected) in [
        (
            AlbumListing {
                error: Some("not-found".to_owned()),
                volumes: vec![vec![track("1")]],
            },
            "альбом 9: not-found",
        ),
        (
            AlbumListing {
                error: None,
                volumes: vec![vec![]],
            },
            "в альбоме 9 нет треков",
        ),
        (
            AlbumListing {
                error: None,
                volumes: vec![vec![track("1")], vec![broken("2")]],
            },
            "альбом 9 отдан в неожиданном виде: число треков в альбоме не похоже на число: 65536",
        ),
    ] {
        assert_eq!(
            album_tracks(&AlbumId(9), &album).err(),
            Some(expected.to_owned())
        );
    }
}

#[test]
fn one_track_is_the_first_of_the_answer() {
    let id = TrackId("5".to_owned());
    assert_eq!(
        track_by_id(&id, &[track("6"), broken("7")]).unwrap().id().as_str(),
        "6"
    );
    assert_eq!(track_by_id(&id, &[]).err(), Some("трек 5 не найден".to_owned()));
    assert_eq!(
        track_by_id(&id, &[broken("7")]).err(),
        Some(
            "трек 5 отдан в неожиданном виде: число треков в альбоме не похоже на число: 65536"
                .to_owned()
        )
    );
}

#[test]
fn an_answer_to_nobody_is_refused() {
    let status = |uid: Option<u64>, plus: Option<Plus>| Status {
        account: Account {
            uid,
            login: None,
            display_name: None,
            region: None,
            service_available: None,
        },
        plus,
    };
    assert_eq!(status(Some(12), None).uid(), Ok(12));
    assert_eq!(
        status(None, None).uid(),
        Err("в ответе account/status нет uid: ответ анонимный, токен не принят — см. README")
    );
    assert_eq!(status(None, None).has_plus(), None);
    let plus = Plus {
        has_plus: Some(true),
    };
    assert_eq!(status(None, Some(plus)).has_plus(), Some(true));
}
