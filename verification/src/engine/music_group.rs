//! Music group stage.
//!
//! Tracks are grouped by normalised album artist and album; one year is
//! settled on for the album. A track that lacks either is in no group.

use crate::domain::identity::{norm_of, AlbumId, Norm, NormView};
use crate::domain::provenance::FieldView;
use crate::engine::cluster::{
    clusters, group_keyed, lemma_clusters_have_first, Keyed, KeyedView,
};
use crate::engine::group::copy_numbers;
use crate::engine::music_resolve::{ResolvedTrack, ResolvedTrackView};
use vstd::prelude::*;

verus! {

/// A group of tracks sharing an album identity.
#[derive(Debug, Clone)]
pub struct AlbumGroup {
    pub id: AlbumId,
    /// The numbers of the items.
    pub items: Vec<usize>,
}

/// What a track is grouped by: normalised album artist and album.
pub open spec fn track_key(idx: usize, t: ResolvedTrackView) -> KeyedView {
    KeyedView {
        idx,
        key: match (t.album_artist.ok(), t.album.ok()) {
            (Some(artist), Some(album)) => Some(
                (norm_of(artist, false).key, norm_of(album, false).key),
            ),
            _ => None,
        },
        year: t.year.ok(),
    }
}

/// What tracks are grouped by.
pub open spec fn track_keys(items: Seq<(usize, &ResolvedTrack)>) -> Seq<KeyedView> {
    Seq::new(items.len(), |i: int| track_key(items[i].0, items[i].1.deep_view()))
}

/// Album artist and album of a group of tracks.
pub open spec fn album_names(items: Seq<(usize, &ResolvedTrack)>, first: int) -> (
    NormView,
    NormView,
) {
    let t = items[first].1.deep_view();
    (norm_of(t.album_artist.ok()->0, false), norm_of(t.album.ok()->0, false))
}

/// Group resolved tracks by album identity.
pub fn group_albums(items: &[(usize, &ResolvedTrack)]) -> (r: Vec<AlbumGroup>)
    ensures
        r@.len() == clusters(track_keys(items@)).len(),
        forall|i: int|
            0 <= i < r@.len() ==> ((#[trigger] r@[i]).id.album_artist.deep_view(), r@[i].id.album.deep_view())
                == album_names(items@, clusters(track_keys(items@))[i].first) && r@[i].id.year
                == clusters(track_keys(items@))[i].year && r@[i].items@ == clusters(
                track_keys(items@),
            )[i].members,
{
    let ghost want = track_keys(items@);
    let mut keyed: Vec<Keyed> = Vec::new();
    let mut i: usize = 0;
    while i < items.len()
        invariant
            i <= items@.len(),
            want == track_keys(items@),
            keyed@.len() == i,
            forall|k: int| 0 <= k < i ==> (#[trigger] keyed@[k]).deep_view() == want[k],
        decreases items@.len() - i,
    {
        let (idx, t) = items[i];
        let key = match (t.album_artist.as_value(), t.album.as_value()) {
            (Some(artist), Some(album)) => Some(
                (Norm::from_display(artist).key, Norm::from_display(album).key),
            ),
            _ => None,
        };
        let year = match t.year.as_value() {
            Some(y) => Some(*y),
            None => None,
        };
        keyed.push(Keyed { idx, key, year });
        i = i + 1;
    }
    proof {
        assert(keyed.deep_view() =~= want);
    }
    let found = group_keyed(&keyed);
    let ghost groups = clusters(want);
    let mut out: Vec<AlbumGroup> = Vec::new();
    let mut k: usize = 0;
    while k < found.len()
        invariant
            k <= found@.len(),
            want == track_keys(items@),
            groups == clusters(want),
            found.deep_view() == groups,
            out@.len() == k,
            forall|j: int|
                0 <= j < k ==> ((#[trigger] out@[j]).id.album_artist.deep_view(), out@[j].id.album.deep_view())
                    == album_names(items@, groups[j].first) && out@[j].id.year == groups[j].year
                    && out@[j].items@ == groups[j].members,
        decreases found@.len() - k,
    {
        proof {
            lemma_clusters_have_first(want, want.len() as int, k as int);
            assert(found.deep_view()[k as int] == found@[k as int].deep_view());
        }
        let first: usize = found[k].first;
        let (_, t) = items[first];
        let artist = match t.album_artist.as_value() {
            Some(a) => Norm::from_display(a),
            None => Norm::empty(),
        };
        let album = match t.album.as_value() {
            Some(a) => Norm::from_display(a),
            None => Norm::empty(),
        };
        let mut id = AlbumId::new(artist, album);
        id.year = found[k].year;
        let members = copy_numbers(&found[k].members);
        out.push(AlbumGroup { id, items: members });
        k = k + 1;
    }
    out
}

/// The disc of the first track, from a place on, that has a number; none where
/// there is no such track.
pub open spec fn disc_of(tracks: Seq<(usize, &ResolvedTrack)>, idx: usize, from: int) -> Option<
    FieldView<u16>,
>
    decreases tracks.len() - from,
{
    if from < 0 || from >= tracks.len() {
        None
    } else if tracks[from].0 == idx {
        Some(tracks[from].1.deep_view().disc)
    } else {
        disc_of(tracks, idx, from + 1)
    }
}

/// The place of the first track that has a number.
fn find_track(tracks: &[(usize, &ResolvedTrack)], idx: usize) -> (r: Option<usize>)
    ensures
        match r {
            Some(i) => i < tracks@.len() && disc_of(tracks@, idx, 0) == Some(
                tracks@[i as int].1.deep_view().disc,
            ),
            None => disc_of(tracks@, idx, 0) is None,
        },
{
    let mut i: usize = 0;
    while i < tracks.len()
        invariant
            i <= tracks@.len(),
            disc_of(tracks@, idx, 0) == disc_of(tracks@, idx, i as int),
        decreases tracks@.len() - i,
    {
        let (n, _) = tracks[i];
        if n == idx {
            return Some(i);
        }
        i = i + 1;
    }
    None
}

/// Whether one of the tracks has a known disc, or an unknown one.
pub open spec fn some_disc(
    items: Seq<usize>,
    tracks: Seq<(usize, &ResolvedTrack)>,
    is_known: bool,
) -> bool {
    exists|i: int|
        0 <= i < items.len() && (disc_of(tracks, #[trigger] items[i], 0) matches Some(d)
            && d.is_known() == is_known)
}

/// `true` if some tracks of the group have a disc number and others have none,
/// so that tracks of several discs would fall together.
pub fn has_partial_disc_info(items: &[usize], tracks: &[(usize, &ResolvedTrack)]) -> (r: bool)
    ensures
        r == (some_disc(items@, tracks@, true) && some_disc(items@, tracks@, false)),
{
    let mut any_known = false;
    let mut any_unknown = false;
    let mut i: usize = 0;
    while i < items.len()
        invariant
            i <= items@.len(),
            any_known == some_disc(items@.take(i as int), tracks@, true),
            any_unknown == some_disc(items@.take(i as int), tracks@, false),
        decreases items@.len() - i,
    {
        let found = find_track(tracks, items[i]);
        let ghost disc = disc_of(tracks@, items@[i as int], 0);
        proof {
            lemma_some_disc_grows(items@, tracks@, i as int, true);
            lemma_some_disc_grows(items@, tracks@, i as int, false);
        }
        if let Some(at) = found {
            let (_, t) = tracks[at];
            if t.disc.is_known() {
                any_known = true;
            } else {
                any_unknown = true;
            }
        }
        i = i + 1;
    }
    proof {
        assert(items@.take(i as int) =~= items@);
    }
    any_known && any_unknown
}

/// Whether one of the first tracks has a known disc, or an unknown one, once
/// there is one more.
proof fn lemma_some_disc_grows(
    items: Seq<usize>,
    tracks: Seq<(usize, &ResolvedTrack)>,
    n: int,
    is_known: bool,
)
    requires
        0 <= n < items.len(),
    ensures
        some_disc(items.take(n + 1), tracks, is_known) <==> some_disc(
            items.take(n),
            tracks,
            is_known,
        ) || (disc_of(tracks, items[n], 0) matches Some(d) && d.is_known() == is_known),
{
    let a = items.take(n);
    let b = items.take(n + 1);
    if some_disc(a, tracks, is_known) {
        let i = choose|i: int|
            0 <= i < a.len() && (disc_of(tracks, #[trigger] a[i], 0) matches Some(d)
                && d.is_known() == is_known);
        assert(b[i] == a[i]);
    }
    if some_disc(b, tracks, is_known) {
        let i = choose|i: int|
            0 <= i < b.len() && (disc_of(tracks, #[trigger] b[i], 0) matches Some(d)
                && d.is_known() == is_known);
        if i < n {
            assert(a[i] == b[i]);
        }
    }
    assert(b[n] == items[n]);
}

/// The disc number of a track, if it is there and known.
pub open spec fn disc_number(tracks: Seq<(usize, &ResolvedTrack)>, idx: usize) -> Option<u16> {
    match disc_of(tracks, idx, 0) {
        Some(d) => d.ok(),
        None => None,
    }
}

/// Whether two of the tracks have different disc numbers.
pub open spec fn spans_discs(items: Seq<usize>, tracks: Seq<(usize, &ResolvedTrack)>) -> bool {
    exists|i: int, j: int|
        0 <= i < items.len() && 0 <= j < items.len() && disc_number(tracks, #[trigger] items[i]) is Some
            && disc_number(tracks, #[trigger] items[j]) is Some && disc_number(tracks, items[i])
            != disc_number(tracks, items[j])
}

/// `true` if the group has more than one distinct known disc number.
pub fn is_multi_disc(items: &[usize], tracks: &[(usize, &ResolvedTrack)]) -> (r: bool)
    ensures
        r == spans_discs(items@, tracks@),
{
    let mut seen: Option<u16> = None;
    let ghost mut at: int = 0;
    let mut i: usize = 0;
    while i < items.len()
        invariant
            i <= items@.len(),
            seen matches Some(d) ==> 0 <= at < i && disc_number(tracks@, items@[at]) == Some(d),
            forall|k: int|
                0 <= k < i ==> disc_number(tracks@, #[trigger] items@[k]) is None || disc_number(
                    tracks@,
                    items@[k],
                ) == seen,
        decreases items@.len() - i,
    {
        let number: Option<u16> = match find_track(tracks, items[i]) {
            Some(p) => {
                let (_, t) = tracks[p];
                match t.disc.as_value() {
                    Some(d) => Some(*d),
                    None => None,
                }
            },
            None => None,
        };
        proof {
            assert(number == disc_number(tracks@, items@[i as int]));
        }
        if let Some(d) = number {
            match seen {
                Some(first) => {
                    if first != d {
                        proof {
                            assert(disc_number(tracks@, items@[at]) != disc_number(
                                tracks@,
                                items@[i as int],
                            ));
                        }
                        return true;
                    }
                },
                None => {
                    seen = Some(d);
                    proof {
                        at = i as int;
                    }
                },
            }
        }
        i = i + 1;
    }
    false
}

} // verus!
