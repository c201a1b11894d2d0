//! Favourite tracks, albums and playlists: what to ask the service for, and what
//! to make of its answers.

use vstd::prelude::*;
use vstd::string::*;

use crate::net::{status_line, status_text, success};
use crate::source::{AlbumId, PlaylistId};
use crate::text::{
    copy_texts, decimal, decimal_digits, flat, lemma_flat_push, lemma_texts_push, lossy, lossy_text,
    texts,
};
use crate::track::{track_of, Malformed, Track, TrackId, TrackInfo, TrackView};

verus! {

/// How many identifiers go into one request.
pub const BATCH: usize = 100;

/// The most bytes of an answer with a playlist in it.
pub const MAX_PLAYLIST_BYTES: usize = 8_388_608;

/// The identifier of a track in a playlist, which comes as a number or as a text.
#[derive(Debug)]
pub enum EntryId {
    Text(String),
    Number(u64),
}

impl EntryId {
    pub open spec fn words(self) -> Seq<char> {
        match self {
            EntryId::Text(id) => id@,
            EntryId::Number(id) => decimal_digits(id as nat),
        }
    }

    /// The identifier as a text.
    pub fn into_string(self) -> (r: String)
        ensures
            r@ == self.words(),
    {
        match self {
            EntryId::Text(id) => id,
            EntryId::Number(id) => decimal(id),
        }
    }
}

/// A track of a playlist.
#[derive(Debug)]
pub struct PlaylistEntry {
    pub id: EntryId,
}

/// A playlist. Of its tracks only the identifiers are taken: the rest comes with
/// the tracks themselves.
#[derive(Debug)]
pub struct Playlist {
    pub title: Option<String>,
    pub track_count: Option<u32>,
    pub tracks: Vec<PlaylistEntry>,
}

/// The constant `API_PATH` of the crate `yandex-music`: where the service is.
#[verifier::external_body]
fn api_path() -> (r: String)
    ensures
        r@ == "https://api.music.yandex.net:443/"@,
{
    yandex_music::API_PATH.to_owned()
}

/// Where to ask for a playlist.
pub open spec fn playlist_address(owner: Seq<char>, number: nat) -> Seq<char> {
    "https://api.music.yandex.net:443/"@ + "users/"@ + owner + "/playlists/"@ + decimal_digits(
        number,
    ) + "?richTracks=false"@
}

/// Where to ask for a playlist. Whole tracks are not asked for.
pub fn playlist_path(playlist: &PlaylistId) -> (r: String)
    ensures
        r@ == playlist_address(playlist.owner_text(), playlist.number() as nat),
        r@ == "https://api.music.yandex.net:443/"@ + "users/"@ + playlist.owner_text()
            + "/playlists/"@ + decimal_digits(playlist.number() as nat) + "?richTracks=false"@,
{
    let mut path = api_path();
    path.append("users/");
    path.append(playlist.owner());
    path.append("/playlists/");
    path.append(decimal(playlist.kind() as u64).as_str());
    path.append("?richTracks=false");
    path
}

/// Where to ask for the state of the account.
pub fn account_path() -> (r: String)
    ensures
        r@ == "https://api.music.yandex.net:443/"@ + "account/status"@,
{
    let mut path = api_path();
    path.append("account/status");
    path
}

/// The words of a refusal: its status, and the body, in which the service explains
/// itself.
pub open spec fn refusal_words(what: Seq<char>, status: u16, body: Seq<u8>) -> Seq<char> {
    what + ": HTTP "@ + status_line(status) + ", тело: "@ + lossy_text(body)
}

/// Reads the body of an answer. Unless the status means success it is a refusal,
/// and `what` says of what.
pub fn read_answer(what: &str, status: u16, body: &[u8]) -> (r: Result<String, String>)
    requires
        100 <= status < 1000,
    ensures
        match r {
            Ok(text) => success(status) && text@ == lossy_text(body@),
            Err(reason) => !success(status) && reason@ == refusal_words(what@, status, body@),
        },
{
    let text = lossy(body);
    if 200 <= status && status < 300 {
        return Ok(text);
    }
    let mut reason = what.to_owned();
    reason.append(": HTTP ");
    reason.append(status_text(status).as_str());
    reason.append(", тело: ");
    reason.append(text.as_str());
    Err(reason)
}

/// The identifiers of a playlist, and whether there are fewer than promised.
#[derive(Debug)]
pub struct PlaylistIds {
    pub ids: Vec<String>,
    pub short: bool,
}

/// The identifiers of a list of entries.
pub open spec fn entry_ids(entries: Seq<PlaylistEntry>) -> Seq<Seq<char>> {
    Seq::new(entries.len(), |i: int| entries[i].id.words())
}

/// What is said of a playlist without tracks: that it is empty, or that the answer
/// was not what it should be.
pub open spec fn empty_words(promised: Option<u32>) -> Seq<char> {
    match promised {
        Some(count) if count > 0 => "плейлист обещает "@ + decimal_digits(count as nat)
            + " треков, но не отдал ни одного — похоже, ручка ответила иначе, чем ожидалось"@,
        _ => "в плейлисте нет треков"@,
    }
}

/// Whether a playlist has fewer tracks than it promised.
pub open spec fn falls_short(promised: Option<u32>, received: int) -> bool {
    promised is Some && promised->Some_0 > received
}

/// Takes the identifiers out of a playlist, in its order.
pub fn playlist_ids(playlist: Playlist) -> (r: Result<PlaylistIds, String>)
    ensures
        r matches Ok(found) ==> found.short == falls_short(
            playlist.track_count,
            playlist.tracks@.len() as int,
        ),
        match r {
            Ok(found) => {
                &&& playlist.tracks@.len() > 0
                &&& texts(found.ids@) == entry_ids(playlist.tracks@)
                &&& found.short == (playlist.track_count matches Some(promised) && promised
                    > playlist.tracks@.len())
            },
            Err(reason) => playlist.tracks@.len() == 0 && reason@ == empty_words(
                playlist.track_count,
            ),
        },
{
    let Playlist { title: _title, track_count, tracks } = playlist;
    if tracks.len() == 0 {
        return Err(
            match track_count {
                Some(count) if count > 0 => {
                    let mut reason = "плейлист обещает ".to_owned();
                    reason.append(decimal(count as u64).as_str());
                    reason.append(
                        " треков, но не отдал ни одного — похоже, ручка ответила иначе, чем ожидалось",
                    );
                    reason
                },
                _ => "в плейлисте нет треков".to_owned(),
            },
        );
    }
    let received: u32 = if tracks.len() > u32::MAX as usize {
        u32::MAX
    } else {
        tracks.len() as u32
    };
    let short = match track_count {
        Some(promised) => promised > received,
        None => false,
    };
    let ghost all = entry_ids(tracks@);
    let mut ids: Vec<String> = Vec::new();
    for entry in it: tracks
        invariant
            it.seq() == playlist.tracks@,
            all == entry_ids(playlist.tracks@),
            texts(ids@) =~= all.take(it.index()),
    {
        let id = entry.id.into_string();
        proof {
            lemma_texts_push(ids@, id);
        }
        ids.push(id);
    }
    proof {
        assert(all.take(all.len() as int) =~= all);
    }
    Ok(PlaylistIds { ids, short })
}

/// A list in batches of [`BATCH`], the last one perhaps smaller.
pub open spec fn batched(ids: Seq<Seq<char>>) -> Seq<Seq<Seq<char>>>
    decreases ids.len(),
{
    if ids.len() == 0 {
        Seq::empty()
    } else if ids.len() <= BATCH {
        seq![ids]
    } else {
        seq![ids.take(BATCH as int)] + batched(ids.skip(BATCH as int))
    }
}

/// The texts of a list of lists.
pub open spec fn text_lists(lists: Seq<Vec<String>>) -> Seq<Seq<Seq<char>>> {
    Seq::new(lists.len(), |i: int| texts(lists[i]@))
}

/// Parts identifiers into batches, one for each request.
pub fn batches(ids: &[String]) -> (r: Vec<Vec<String>>)
    ensures
        text_lists(r@) == batched(texts(ids@)),
{
    let ghost all = texts(ids@);
    let mut lists: Vec<Vec<String>> = Vec::new();
    let mut at: usize = 0;
    proof {
        assert(all.skip(0) =~= all);
        assert(text_lists(lists@) + batched(all) =~= batched(all));
    }
    while at < ids.len()
        invariant
            at <= ids@.len(),
            all == texts(ids@),
            batched(all) == text_lists(lists@) + batched(all.skip(at as int)),
        decreases ids@.len() - at,
    {
        let left: usize = ids.len() - at;
        let size: usize = if left < BATCH {
            left
        } else {
            BATCH
        };
        let list = copy_texts(vstd::slice::slice_subrange(ids, at, at + size));
        let ghost rest = all.skip(at as int);
        let ghost before = text_lists(lists@);
        let ghost one = texts(list@);
        lists.push(list);
        proof {
            assert(one =~= rest.take(size as int));
            assert(text_lists(lists@) =~= before.push(one));
            let tail = batched(all.skip(at + size));
            assert(rest.skip(size as int) =~= all.skip(at + size));
            if rest.len() <= BATCH {
                assert(one =~= rest);
                assert(all.skip(at + size) =~= Seq::empty());
                assert(before + seq![rest] =~= before.push(one) + tail);
            } else {
                assert(before + (seq![rest.take(BATCH as int)] + tail) =~= before.push(one) + tail);
            }
        }
        at += size;
    }
    proof {
        assert(all.skip(at as int) =~= Seq::empty());
        assert(text_lists(lists@) + Seq::<Seq<Seq<char>>>::empty() =~= text_lists(lists@));
    }
    lists
}

/// Batches lose nothing and keep the order: one after another they are the list, none
/// is empty, and none is larger than a request allows.
pub proof fn law_batches(ids: Seq<Seq<char>>)
    ensures
        flat(batched(ids)) == ids,
        forall|i: int|
            0 <= i < batched(ids).len() ==> 0 < (#[trigger] batched(ids)[i]).len() <= BATCH,
        forall|i: int|
            0 <= i < batched(ids).len() - 1 ==> (#[trigger] batched(ids)[i]).len() == BATCH,
    decreases ids.len(),
{
    if ids.len() == 0 {
        assert(flat(batched(ids)) =~= ids);
    } else if ids.len() <= BATCH {
        assert(seq![ids].drop_last() =~= Seq::empty());
        assert(flat(seq![ids].drop_last()) =~= Seq::empty());
        assert(flat(batched(ids)) =~= ids);
    } else {
        let first = ids.take(BATCH as int);
        let rest = ids.skip(BATCH as int);
        law_batches(rest);
        lemma_flat_prepend(first, batched(rest));
        assert(first + rest =~= ids);
        let all = batched(ids);
        assert forall|i: int| 0 <= i < all.len() implies 0 < (#[trigger] all[i]).len() <= BATCH by {
            if i > 0 {
                assert(all[i] == batched(rest)[i - 1]);
            }
        }
        assert forall|i: int| 0 <= i < all.len() - 1 implies (#[trigger] all[i]).len()
            == BATCH by {
            if i > 0 {
                assert(all[i] == batched(rest)[i - 1]);
            }
        }
    }
}

proof fn lemma_flat_prepend<T>(first: Seq<T>, rest: Seq<Seq<T>>)
    ensures
        flat(seq![first] + rest) == first + flat(rest),
    decreases rest.len(),
{
    let all = seq![first] + rest;
    if rest.len() == 0 {
        assert(all.drop_last() =~= Seq::empty());
        assert(flat(all.drop_last()) =~= Seq::empty());
        assert(flat(all) =~= first + flat(rest));
    } else {
        assert(all.drop_last() =~= seq![first] + rest.drop_last());
        lemma_flat_prepend(first, rest.drop_last());
        assert(flat(all) =~= first + flat(rest));
    }
}

/// The tracks that descriptions give, or the first description that makes no sense.
pub open spec fn tracks_of(tracks: Seq<Track>) -> Result<Seq<TrackView>, (int, Malformed)>
    decreases tracks.len(),
{
    if tracks.len() == 0 {
        Ok(Seq::empty())
    } else {
        match tracks_of(tracks.drop_last()) {
            Err(fault) => Err(fault),
            Ok(before) => match track_of(tracks.last()) {
                Ok(track) => Ok(before.push(track)),
                Err(malformed) => Err((tracks.len() - 1, malformed)),
            },
        }
    }
}

/// The views of a list of tracks.
pub open spec fn views(tracks: Seq<TrackInfo>) -> Seq<TrackView> {
    Seq::new(tracks.len(), |i: int| tracks[i]@)
}

/// What is said of something that came in an unexpected form.
fn unexpected(what: &str, name: &str, malformed: &Malformed) -> (r: String)
    ensures
        r@ == what@ + name@ + " отдан в неожиданном виде: "@ + malformed.words(),
{
    let mut reason = what.to_owned();
    reason.append(name);
    reason.append(" отдан в неожиданном виде: ");
    reason.append(malformed.message().as_str());
    reason
}

/// An error in a prefix is the error of the whole.
proof fn lemma_tracks_error(tracks: Seq<Track>, upto: int)
    requires
        0 <= upto <= tracks.len(),
        tracks_of(tracks.take(upto)) is Err,
    ensures
        tracks_of(tracks) == tracks_of(tracks.take(upto)),
    decreases tracks.len(),
{
    if upto == tracks.len() {
        assert(tracks.take(upto) =~= tracks);
    } else {
        assert(tracks.drop_last().take(upto) =~= tracks.take(upto));
        lemma_tracks_error(tracks.drop_last(), upto);
    }
}

/// Takes tracks out of an answer, all of them or none.
pub fn take_tracks(tracks: &[Track]) -> (r: Result<Vec<TrackInfo>, String>)
    ensures
        match (r, tracks_of(tracks@)) {
            (Ok(taken), Ok(all)) => views(taken@) == all,
            (Err(reason), Err((at, malformed))) => reason@ == "трек "@ + tracks@[at].id@
                + " отдан в неожиданном виде: "@ + malformed.words(),
            _ => false,
        },
{
    let mut taken: Vec<TrackInfo> = Vec::new();
    let mut i: usize = 0;
    proof {
        assert(views(taken@) =~= Seq::empty());
    }
    while i < tracks.len()
        invariant
            i <= tracks@.len(),
            tracks_of(tracks@.take(i as int)) == Ok::<Seq<TrackView>, (int, Malformed)>(
                views(taken@),
            ),
        decreases tracks@.len() - i,
    {
        proof {
            assert(tracks@.take(i + 1).drop_last() =~= tracks@.take(i as int));
        }
        match TrackInfo::try_from(&tracks[i]) {
            Ok(track) => {
                let ghost before = taken@;
                taken.push(track);
                proof {
                    assert(views(taken@) =~= views(before).push(track@));
                }
            },
            Err(malformed) => {
                proof {
                    lemma_tracks_error(tracks@, i + 1);
                }
                return Err(unexpected("трек ", tracks[i].id.as_str(), &malformed));
            },
        }
        i += 1;
    }
    proof {
        assert(tracks@.take(i as int) =~= tracks@);
    }
    Ok(taken)
}

/// An album with its tracks, as the service describes it: disc by disc.
#[derive(Debug)]
pub struct AlbumListing {
    pub error: Option<String>,
    pub volumes: Vec<Vec<Track>>,
}

/// The tracks of all discs, one after another.
pub open spec fn discs(volumes: Seq<Vec<Track>>) -> Seq<Track> {
    flat(Seq::new(volumes.len(), |i: int| volumes[i]@))
}

/// What is made of an album: its tracks in order, or why there are none. The service
/// answers with success even for an album that does not exist, and says so inside.
pub open spec fn album_outcome(id: u32, album: AlbumListing) -> Result<
    Seq<TrackView>,
    Seq<char>,
> {
    let number = decimal_digits(id as nat);
    match album.error {
        Some(error) => Err("альбом "@ + number + ": "@ + error@),
        None => match tracks_of(discs(album.volumes@)) {
            Err((_, malformed)) => Err(
                "альбом "@ + number + " отдан в неожиданном виде: "@ + malformed.words(),
            ),
            Ok(tracks) => if tracks.len() == 0 {
                Err("в альбоме "@ + number + " нет треков"@)
            } else {
                Ok(tracks)
            },
        },
    }
}

/// Takes the tracks out of an album, in the order of its discs.
pub fn album_tracks(id: &AlbumId, album: &AlbumListing) -> (r: Result<Vec<TrackInfo>, String>)
    ensures
        match r {
            Ok(tracks) => album_outcome(id.0, *album) == Ok::<Seq<TrackView>, Seq<char>>(
                views(tracks@),
            ),
            Err(reason) => album_outcome(id.0, *album) == Err::<Seq<TrackView>, Seq<char>>(
                reason@,
            ),
        },
{
    let number = decimal(id.value() as u64);
    if let Some(error) = &album.error {
        let mut reason = "альбом ".to_owned();
        reason.append(number.as_str());
        reason.append(": ");
        reason.append(error.as_str());
        return Err(reason);
    }
    let ghost parts = Seq::new(album.volumes@.len(), |i: int| album.volumes@[i]@);
    let ghost all = discs(album.volumes@);
    let mut taken: Vec<TrackInfo> = Vec::new();
    let mut i: usize = 0;
    proof {
        assert(views(taken@) =~= Seq::empty());
        assert(tracks_of(flat(parts.take(0))) == Ok::<Seq<TrackView>, (int, Malformed)>(
            views(taken@),
        ));
    }
    while i < album.volumes.len()
        invariant
            i <= album.volumes@.len(),
            album.error is None,
            number@ == decimal_digits(id.0 as nat),
            parts == Seq::new(album.volumes@.len(), |i: int| album.volumes@[i]@),
            all == flat(parts),
            all == discs(album.volumes@),
            tracks_of(flat(parts.take(i as int))) == Ok::<Seq<TrackView>, (int, Malformed)>(
                views(taken@),
            ),
        decreases album.volumes@.len() - i,
    {
        let ghost before = flat(parts.take(i as int));
        let ghost disc = parts[i as int];
        let mut j: usize = 0;
        proof {
            assert(before + disc.take(0) =~= before);
        }
        while j < album.volumes[i].len()
            invariant
                i < album.volumes@.len(),
                j <= disc.len(),
                album.error is None,
                number@ == decimal_digits(id.0 as nat),
                parts == Seq::new(album.volumes@.len(), |i: int| album.volumes@[i]@),
                all == flat(parts),
                all == discs(album.volumes@),
                disc == parts[i as int],
                before == flat(parts.take(i as int)),
                tracks_of(before + disc.take(j as int)) == Ok::<
                    Seq<TrackView>,
                    (int, Malformed),
                >(views(taken@)),
            decreases disc.len() - j,
        {
            let ghost next = before + disc.take(j + 1);
            proof {
                assert(next.drop_last() =~= before + disc.take(j as int));
                assert(next.last() == disc[j as int]);
            }
            match TrackInfo::try_from(&album.volumes[i][j]) {
                Ok(track) => {
                    let ghost earlier = taken@;
                    taken.push(track);
                    proof {
                        assert(views(taken@) =~= views(earlier).push(track@));
                    }
                },
                Err(malformed) => {
                    proof {
                        lemma_flat_prefix(parts, i as int, j + 1);
                        lemma_tracks_error(all, next.len() as int);
                    }
                    return Err(unexpected("альбом ", number.as_str(), &malformed));
                },
            }
            j += 1;
        }
        proof {
            assert(disc.take(j as int) =~= disc);
            assert(parts.take(i + 1) =~= parts.take(i as int).push(disc));
            lemma_flat_push(parts.take(i as int), disc);
        }
        i += 1;
    }
    proof {
        assert(parts.take(i as int) =~= parts);
    }
    if taken.len() == 0 {
        let mut reason = "в альбоме ".to_owned();
        reason.append(number.as_str());
        reason.append(" нет треков");
        return Err(reason);
    }
    Ok(taken)
}

/// Whole parts and a beginning of the next one are a beginning of all.
proof fn lemma_flat_prefix<T>(parts: Seq<Seq<T>>, i: int, j: int)
    requires
        0 <= i < parts.len(),
        0 <= j <= parts[i].len(),
    ensures
        ({
            let begun = flat(parts.take(i)) + parts[i].take(j);
            begun.len() <= flat(parts).len() && flat(parts).take(begun.len() as int) == begun
        }),
    decreases parts.len(),
{
    let begun = flat(parts.take(i)) + parts[i].take(j);
    if i == parts.len() - 1 {
        assert(parts.take(i) =~= parts.drop_last());
        assert(flat(parts).take(begun.len() as int) =~= begun);
    } else {
        let shorter = parts.drop_last();
        assert(shorter.take(i) =~= parts.take(i));
        lemma_flat_prefix(shorter, i, j);
        assert(flat(parts).take(begun.len() as int) =~= flat(shorter).take(begun.len() as int));
    }
}

/// What is made of the answer to a request for one track: the first one in it.
pub open spec fn single_outcome(id: Seq<char>, tracks: Seq<Track>) -> Result<
    TrackView,
    Seq<char>,
> {
    if tracks.len() == 0 {
        Err("трек "@ + id + " не найден"@)
    } else {
        match track_of(tracks[0]) {
            Ok(track) => Ok(track),
            Err(malformed) => Err(
                "трек "@ + id + " отдан в неожиданном виде: "@ + malformed.words(),
            ),
        }
    }
}

/// Takes one track out of an answer.
pub fn track_by_id(id: &TrackId, tracks: &[Track]) -> (r: Result<TrackInfo, String>)
    ensures
        match r {
            Ok(track) => single_outcome(id@, tracks@) == Ok::<TrackView, Seq<char>>(track@),
            Err(reason) => single_outcome(id@, tracks@) == Err::<TrackView, Seq<char>>(reason@),
        },
{
    if tracks.len() == 0 {
        let mut reason = "трек ".to_owned();
        reason.append(id.as_str());
        reason.append(" не найден");
        return Err(reason);
    }
    match TrackInfo::try_from(&tracks[0]) {
        Ok(track) => Ok(track),
        Err(malformed) => Err(unexpected("трек ", id.as_str(), &malformed)),
    }
}

/// Identifiers are those of the entries, one by one: a text as it is, and a number in
/// decimal.
pub proof fn law_identifiers_of_a_playlist(entries: Seq<PlaylistEntry>)
    ensures
        entry_ids(entries).len() == entries.len(),
        forall|i: int|
            0 <= i < entries.len() && (#[trigger] entries[i]).id is Text ==> entry_ids(entries)[i]
                == entries[i].id->Text_0@,
        forall|i: int|
            0 <= i < entries.len() && (#[trigger] entries[i]).id is Number ==> entry_ids(
                entries,
            )[i] == decimal_digits(entries[i].id->Number_0 as nat),
{
}

/// A playlist without tracks is told from an answer that promises some.
pub proof fn law_empty_playlists_are_told(promised: u32)
    ensures
        empty_words(None) == "в плейлисте нет треков"@,
        empty_words(Some(0)) == "в плейлисте нет треков"@,
        promised > 0 ==> empty_words(Some(promised)) == "плейлист обещает "@ + decimal_digits(
            promised as nat,
        ) + " треков, но не отдал ни одного — похоже, ручка ответила иначе, чем ожидалось"@,
{
}

/// Tracks are taken all or none: where all descriptions make sense, there is a track for
/// each, in their order, and otherwise the first one that makes none is named.
pub proof fn law_tracks_are_taken_all_or_none(tracks: Seq<Track>)
    ensures
        tracks_of(tracks) is Ok <==> forall|i: int|
            0 <= i < tracks.len() ==> track_of(#[trigger] tracks[i]) is Ok,
        tracks_of(tracks) is Ok ==> {
            let taken = tracks_of(tracks)->Ok_0;
            taken.len() == tracks.len() && forall|i: int|
                0 <= i < tracks.len() ==> track_of(#[trigger] tracks[i]) == Ok::<
                    TrackView,
                    Malformed,
                >(taken[i])
        },
        tracks_of(tracks) is Err ==> {
            let (at, malformed) = tracks_of(tracks)->Err_0;
            &&& 0 <= at < tracks.len()
            &&& track_of(tracks[at]) == Err::<TrackView, Malformed>(malformed)
            &&& forall|i: int| 0 <= i < at ==> track_of(#[trigger] tracks[i]) is Ok
        },
    decreases tracks.len(),
{
    if tracks.len() > 0 {
        let before = tracks.drop_last();
        law_tracks_are_taken_all_or_none(before);
        assert(tracks[tracks.len() - 1] == tracks.last());
        if tracks_of(before) is Ok {
            assert forall|i: int| 0 <= i < before.len() implies track_of(
                #[trigger] tracks[i],
            ) is Ok by {
                assert(before[i] == tracks[i]);
            }
            if track_of(tracks.last()) is Ok {
                let taken = tracks_of(tracks)->Ok_0;
                assert forall|i: int| 0 <= i < tracks.len() implies track_of(#[trigger] tracks[i])
                    == Ok::<TrackView, Malformed>(taken[i]) by {
                    if i < before.len() {
                        assert(before[i] == tracks[i]);
                    }
                }
            }
        } else {
            let (at, malformed) = tracks_of(before)->Err_0;
            assert(before[at] == tracks[at]);
            assert forall|i: int| 0 <= i < at implies track_of(#[trigger] tracks[i]) is Ok by {
                assert(before[i] == tracks[i]);
            }
        }
    }
}

/// The tracks of an album are those of its discs, disc by disc.
pub proof fn law_discs_one_after_another(volumes: Seq<Vec<Track>>, next: Vec<Track>)
    ensures
        discs(Seq::<Vec<Track>>::empty()) == Seq::<Track>::empty(),
        discs(volumes.push(next)) == discs(volumes) + next@,
{
    let parts = Seq::new(volumes.len(), |i: int| volumes[i]@);
    let all = Seq::new(volumes.push(next).len(), |i: int| volumes.push(next)[i]@);
    assert(all =~= parts.push(next@));
    lemma_flat_push(parts, next@);
    assert(Seq::new(
        Seq::<Vec<Track>>::empty().len(),
        |i: int| Seq::<Vec<Track>>::empty()[i]@,
    ) =~= Seq::<Seq<Track>>::empty());
}

/// An album is taken exactly if the service reports no error, all its descriptions make
/// sense and there is at least one; then its tracks are those of the discs, and otherwise
/// what is said names the album and the reason.
pub proof fn law_albums(id: u32, album: AlbumListing)
    ensures
        ({
            let outcome = album_outcome(id, album);
            let number = decimal_digits(id as nat);
            let all = discs(album.volumes@);
            &&& album.error is Some ==> outcome == Err::<Seq<TrackView>, Seq<char>>(
                "альбом "@ + number + ": "@ + album.error->Some_0@,
            )
            &&& album.error is None && tracks_of(all) is Err ==> outcome == Err::<
                Seq<TrackView>,
                Seq<char>,
            >(
                "альбом "@ + number + " отдан в неожиданном виде: "@ + tracks_of(
                    all,
                )->Err_0.1.words(),
            )
            &&& album.error is None && all.len() == 0 ==> outcome == Err::<
                Seq<TrackView>,
                Seq<char>,
            >("в альбоме "@ + number + " нет треков"@)
            &&& album.error is None && tracks_of(all) is Ok && all.len() > 0 ==> outcome == Ok::<
                Seq<TrackView>,
                Seq<char>,
            >(tracks_of(all)->Ok_0)
        }),
{
    law_tracks_are_taken_all_or_none(discs(album.volumes@));
}

/// One track is the first one of the answer, if there is one.
pub proof fn law_one_track(id: Seq<char>, tracks: Seq<Track>)
    ensures
        tracks.len() == 0 ==> single_outcome(id, tracks) == Err::<TrackView, Seq<char>>(
            "трек "@ + id + " не найден"@,
        ),
        tracks.len() > 0 && track_of(tracks[0]) is Ok ==> single_outcome(id, tracks) == Ok::<
            TrackView,
            Seq<char>,
        >(track_of(tracks[0])->Ok_0),
        tracks.len() > 0 && track_of(tracks[0]) is Err ==> single_outcome(id, tracks) == Err::<
            TrackView,
            Seq<char>,
        >("трек "@ + id + " отдан в неожиданном виде: "@ + track_of(tracks[0])->Err_0.words()),
{
}

/// A refusal of the service is told with its status and the whole body.
pub proof fn law_refusals_are_told(what: Seq<char>, status: u16, body: Seq<u8>)
    ensures
        refusal_words(what, status, body) == what + ": HTTP "@ + status_line(status) + ", тело: "@
            + lossy_text(body),
{
}

/// The views of a list of tracks are those of its tracks, one by one.
pub proof fn law_views_of_tracks(tracks: Seq<TrackInfo>)
    ensures
        views(tracks).len() == tracks.len(),
        forall|i: int| 0 <= i < tracks.len() ==> #[trigger] views(tracks)[i] == tracks[i]@,
        BATCH == 100,
        MAX_PLAYLIST_BYTES == 8 * 1024 * 1024,
{
}

/// A playlist is asked for by its owner and its number, in this order, at the service's
/// own address.
pub proof fn law_address_of_a_playlist(owner: Seq<char>, number: nat)
    ensures
        ({
            let begun = "https://api.music.yandex.net:443/"@ + "users/"@ + owner + "/playlists/"@
                + decimal_digits(number);
            playlist_address(owner, number) == begun + "?richTracks=false"@
        }),
{
}

/// A playlist falls short exactly if it promised more tracks than came.
pub proof fn law_short_playlists(promised: u32, received: nat)
    ensures
        !falls_short(None, received as int),
        falls_short(Some(promised), received as int) <==> received < promised,
{
}

} // verus!
