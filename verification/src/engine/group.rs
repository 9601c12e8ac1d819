//! Group stage.
//!
//! Movies are grouped by their normalised title; one year is settled on for
//! the whole group and is part of its identity.

use crate::domain::identity::{norm_of, MovieId, MovieIdView, Norm};
use crate::engine::cluster::{
    clusters, group_keyed, lemma_clusters_have_first, ClusterView, Keyed, KeyedView,
};
use crate::engine::resolve::{ResolvedMovie, ResolvedMovieView};
use vstd::prelude::*;

verus! {

/// A group of movies sharing an identity.
#[derive(Debug, Clone)]
pub struct MovieGroup {
    pub id: MovieId,
    /// The numbers of the items.
    pub items: Vec<usize>,
}

/// What a movie is grouped by: its normalised title.
pub open spec fn movie_key(idx: usize, m: ResolvedMovieView) -> KeyedView {
    KeyedView {
        idx,
        key: match m.title.ok() {
            Some(t) => Some((norm_of(t, false).key, Seq::empty())),
            None => None,
        },
        year: m.year.ok(),
    }
}

/// What movies are grouped by.
pub open spec fn movie_keys(items: Seq<(usize, &ResolvedMovie)>) -> Seq<KeyedView> {
    Seq::new(items.len(), |i: int| movie_key(items[i].0, items[i].1.deep_view()))
}

/// The identity of a group of movies.
pub open spec fn movie_group_id(items: Seq<(usize, &ResolvedMovie)>, c: ClusterView) -> MovieIdView {
    MovieIdView {
        title: norm_of(items[c.first].1.deep_view().title.ok()->0, false),
        year: c.year,
        edition: None,
    }
}

/// Group resolved movies by identity.
pub fn group_movies(items: &[(usize, &ResolvedMovie)]) -> (r: Vec<MovieGroup>)
    ensures
        r@.len() == clusters(movie_keys(items@)).len(),
        forall|i: int|
            0 <= i < r@.len() ==> (#[trigger] r@[i]).id.deep_view() == movie_group_id(
                items@,
                clusters(movie_keys(items@))[i],
            ) && r@[i].items@ == clusters(movie_keys(items@))[i].members,
{
    let ghost want = movie_keys(items@);
    let mut keyed: Vec<Keyed> = Vec::new();
    let mut i: usize = 0;
    while i < items.len()
        invariant
            i <= items@.len(),
            want == movie_keys(items@),
            keyed@.len() == i,
            forall|k: int| 0 <= k < i ==> (#[trigger] keyed@[k]).deep_view() == want[k],
        decreases items@.len() - i,
    {
        let (idx, m) = items[i];
        let key = match m.title.as_value() {
            Some(t) => {
                proof {
                    reveal_strlit("");
                    assert(""@ =~= Seq::empty());
                }
                Some((Norm::from_display(t).key, "".to_string()))
            },
            None => None,
        };
        let year = match m.year.as_value() {
            Some(y) => Some(*y),
            None => None,
        };
        keyed.push(Keyed { idx, key, year });
        i = i + 1;
    }
    proof {
        assert(keyed.deep_view() =~= want);
    }
    let found = group_keyed(&keyed);
    let ghost groups = clusters(want);
    let mut out: Vec<MovieGroup> = Vec::new();
    let mut k: usize = 0;
    while k < found.len()
        invariant
            k <= found@.len(),
            want == movie_keys(items@),
            groups == clusters(want),
            found.deep_view() == groups,
            out@.len() == k,
            forall|j: int|
                0 <= j < k ==> (#[trigger] out@[j]).id.deep_view() == movie_group_id(
                    items@,
                    groups[j],
                ) && out@[j].items@ == groups[j].members,
        decreases found@.len() - k,
    {
        proof {
            lemma_clusters_have_first(want, want.len() as int, k as int);
            assert(found.deep_view()[k as int] == found@[k as int].deep_view());
        }
        let first: usize = found[k].first;
        let (_, m) = items[first];
        let title = match m.title.as_value() {
            Some(t) => Norm::from_display(t),
            None => Norm::empty(),
        };
        let mut id = MovieId::new(title);
        id.year = found[k].year;
        let members = copy_numbers(&found[k].members);
        out.push(MovieGroup { id, items: members });
        k = k + 1;
    }
    out
}

/// Copies a list of numbers.
pub fn copy_numbers(list: &Vec<usize>) -> (r: Vec<usize>)
    ensures
        r@ == list@,
{
    let mut out: Vec<usize> = Vec::new();
    let mut i: usize = 0;
    while i < list.len()
        invariant
            i <= list@.len(),
            out@ == list@.take(i as int),
        decreases list@.len() - i,
    {
        out.push(list[i]);
        i = i + 1;
    }
    out
}

} // verus!
