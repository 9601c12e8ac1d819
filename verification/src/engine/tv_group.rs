//! TV group stage.
//!
//! Episodes are grouped by the normalised title of their show; one year is
//! settled on for the show. Season and episode numbers take no part in it:
//! every filename names its own.

use crate::domain::identity::{norm_of, Norm, NormView, ShowId};
use crate::engine::cluster::{
    clusters, group_keyed, lemma_clusters_have_first, Keyed, KeyedView,
};
use crate::engine::group::copy_numbers;
use crate::engine::tv_resolve::{ResolvedEpisode, ResolvedEpisodeView};
use vstd::prelude::*;

verus! {

/// All the episodes of one show.
#[derive(Debug, Clone)]
pub struct ShowGroup {
    pub id: ShowId,
    /// The numbers of the items.
    pub items: Vec<usize>,
}

/// What an episode is grouped by: the normalised title of its show.
pub open spec fn episode_key(idx: usize, e: ResolvedEpisodeView) -> KeyedView {
    KeyedView {
        idx,
        key: match e.title.ok() {
            Some(t) => Some((norm_of(t, false).key, Seq::empty())),
            None => None,
        },
        year: e.year.ok(),
    }
}

/// What episodes are grouped by.
pub open spec fn episode_keys(items: Seq<(usize, &ResolvedEpisode)>) -> Seq<KeyedView> {
    Seq::new(items.len(), |i: int| episode_key(items[i].0, items[i].1.deep_view()))
}

/// The title of a group of episodes.
pub open spec fn show_title(items: Seq<(usize, &ResolvedEpisode)>, first: int) -> NormView {
    norm_of(items[first].1.deep_view().title.ok()->0, false)
}

/// Group resolved episodes by show identity.
pub fn group_shows(items: &[(usize, &ResolvedEpisode)]) -> (r: Vec<ShowGroup>)
    ensures
        r@.len() == clusters(episode_keys(items@)).len(),
        forall|i: int|
            0 <= i < r@.len() ==> (#[trigger] r@[i]).id.title.deep_view() == show_title(
                items@,
                clusters(episode_keys(items@))[i].first,
            ) && r@[i].id.year == clusters(episode_keys(items@))[i].year && r@[i].items@
                == clusters(episode_keys(items@))[i].members,
{
    let ghost want = episode_keys(items@);
    let mut keyed: Vec<Keyed> = Vec::new();
    let mut i: usize = 0;
    while i < items.len()
        invariant
            i <= items@.len(),
            want == episode_keys(items@),
            keyed@.len() == i,
            forall|k: int| 0 <= k < i ==> (#[trigger] keyed@[k]).deep_view() == want[k],
        decreases items@.len() - i,
    {
        let (idx, e) = items[i];
        let key = match e.title.as_value() {
            Some(t) => {
                proof {
                    reveal_strlit("");
                    assert(""@ =~= Seq::empty());
                }
                Some((Norm::from_display(t).key, "".to_string()))
            },
            None => None,
        };
        let year = match e.year.as_value() {
            Some(y) => Some(*y),
            None => None,
        };
        keyed.push(Keyed { idx, key, year });
        i = i + 1;
    }
    proof {
        assert(keyed.deep_view() =~= want);
    }
    let found = group_keyed(&keyed);
    let ghost groups = clusters(want);
    let mut out: Vec<ShowGroup> = Vec::new();
    let mut k: usize = 0;
    while k < found.len()
        invariant
            k <= found@.len(),
            want == episode_keys(items@),
            groups == clusters(want),
            found.deep_view() == groups,
            out@.len() == k,
            forall|j: int|
                0 <= j < k ==> (#[trigger] out@[j]).id.title.deep_view() == show_title(
                    items@,
                    groups[j].first,
                ) && out@[j].id.year == groups[j].year && out@[j].items@ == groups[j].members,
        decreases found@.len() - k,
    {
        proof {
            lemma_clusters_have_first(want, want.len() as int, k as int);
            assert(found.deep_view()[k as int] == found@[k as int].deep_view());
        }
        let first: usize = found[k].first;
        let (_, e) = items[first];
        let title = match e.title.as_value() {
            Some(t) => Norm::from_display(t),
            None => Norm::empty(),
        };
        let mut id = ShowId::new(title);
        id.year = found[k].year;
        let members = copy_numbers(&found[k].members);
        out.push(ShowGroup { id, items: members });
        k = k + 1;
    }
    out
}

} // verus!
