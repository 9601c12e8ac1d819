//! Grouping items by what they are of, with one year for the whole group.
//!
//! A first pass groups by what is always known of an item; a second settles on
//! one year for the group. Groups come in the order in which their first
//! members do.

use crate::domain::duplicate::Duplicate;
use crate::text;
use vstd::prelude::*;

verus! {

/// How often a year occurs.
pub open spec fn occurrences(years: Seq<u16>, y: u16) -> nat
    decreases years.len(),
{
    if years.len() == 0 {
        0
    } else {
        occurrences(years.drop_last(), y) + if years.last() == y {
            1nat
        } else {
            0nat
        }
    }
}

/// The year, among the first so many, that occurs most often in all; the first
/// of them where several do.
pub open spec fn most_common(years: Seq<u16>, upto: int) -> u16
    decreases upto,
{
    if upto <= 1 {
        years[0]
    } else {
        let best = most_common(years, upto - 1);
        let next = years[upto - 1];
        if occurrences(years, next) > occurrences(years, best) {
            next
        } else {
            best
        }
    }
}

/// The year of a group: the one that occurs most often, the first of them
/// where several do.
pub open spec fn canonical_year(years: Seq<u16>) -> Option<u16> {
    if years.len() == 0 {
        None
    } else {
        Some(most_common(years, years.len() as int))
    }
}

/// A year does not occur more often than there are years.
proof fn lemma_occurrences_bounded(years: Seq<u16>, y: u16)
    ensures
        occurrences(years, y) <= years.len(),
    decreases years.len(),
{
    if years.len() > 0 {
        lemma_occurrences_bounded(years.drop_last(), y);
    }
}

/// How often a year occurs.
fn count_year(years: &Vec<u16>, y: u16) -> (r: usize)
    ensures
        r as nat == occurrences(years@, y),
{
    let mut n: usize = 0;
    let mut i: usize = 0;
    proof {
        assert(years@.take(0) =~= Seq::empty());
    }
    while i < years.len()
        invariant
            i <= years@.len(),
            n <= i,
            n as nat == occurrences(years@.take(i as int), y),
        decreases years@.len() - i,
    {
        proof {
            assert(years@.take(i + 1).drop_last() =~= years@.take(i as int));
            assert(years@.take(i + 1).last() == years@[i as int]);
        }
        if years[i] == y {
            n = n + 1;
        }
        i = i + 1;
    }
    proof {
        assert(years@.take(i as int) =~= years@);
    }
    n
}

/// The year of a group: the one that occurs most often, the first of them
/// where several do.
pub fn pick_canonical_year(years: &Vec<u16>) -> (r: Option<u16>)
    ensures
        r == canonical_year(years@),
{
    if years.len() == 0 {
        return None;
    }
    let mut best: u16 = years[0];
    let mut i: usize = 1;
    while i < years.len()
        invariant
            1 <= i <= years@.len(),
            best == most_common(years@, i as int),
        decreases years@.len() - i,
    {
        if count_year(years, years[i]) > count_year(years, best) {
            best = years[i];
        }
        i = i + 1;
    }
    Some(best)
}

/// No year occurs more often than that of the group, and it is one of them.
pub proof fn law_canonical_year_is_majority(years: Seq<u16>, y: u16)
    requires
        years.contains(y),
    ensures
        canonical_year(years) matches Some(c) && years.contains(c) && occurrences(years, y)
            <= occurrences(years, c),
{
    let i = choose|i: int| 0 <= i < years.len() && years[i] == y;
    lemma_most_common(years, years.len() as int, i);
}

/// No year among the first so many occurs more often than the one picked.
proof fn lemma_most_common(years: Seq<u16>, upto: int, i: int)
    requires
        0 <= i < upto <= years.len(),
    ensures
        occurrences(years, years[i]) <= occurrences(years, most_common(years, upto)),
        years.contains(most_common(years, upto)),
    decreases upto,
{
    if upto > 1 {
        if i < upto - 1 {
            lemma_most_common(years, upto - 1, i);
        } else {
            lemma_most_common(years, upto - 1, 0);
        }
        assert(years.contains(years[upto - 1]));
    } else {
        assert(years.contains(years[0]));
    }
}

/// What an item is grouped by: its number, what is always known of it, if it
/// is, and its year.
#[derive(Debug, Clone)]
pub struct Keyed {
    pub idx: usize,
    pub key: Option<(String, String)>,
    pub year: Option<u16>,
}

/// The contents of a [`Keyed`].
#[verifier::ext_equal]
pub struct KeyedView {
    pub idx: usize,
    pub key: Option<(Seq<char>, Seq<char>)>,
    pub year: Option<u16>,
}

impl DeepView for Keyed {
    type V = KeyedView;

    open spec fn deep_view(&self) -> KeyedView {
        KeyedView {
            idx: self.idx,
            key: match self.key {
                Some((a, b)) => Some((a@, b@)),
                None => None,
            },
            year: self.year,
        }
    }
}

/// A group: the place of its first member, the numbers of its members, and its
/// year.
#[derive(Debug, Clone)]
pub struct Cluster {
    pub first: usize,
    pub members: Vec<usize>,
    pub year: Option<u16>,
}

/// The contents of a [`Cluster`].
#[verifier::ext_equal]
pub struct ClusterView {
    pub first: int,
    pub members: Seq<usize>,
    pub year: Option<u16>,
}

impl DeepView for Cluster {
    type V = ClusterView;

    open spec fn deep_view(&self) -> ClusterView {
        ClusterView { first: self.first as int, members: self.members@, year: self.year }
    }
}

/// Whether an item has a key that no earlier one has.
pub open spec fn is_first(items: Seq<KeyedView>, i: int) -> bool {
    items[i].key is Some && forall|j: int| 0 <= j < i ==> (#[trigger] items[j]).key != items[i].key
}

/// The numbers of the items, among the first so many, that have a key.
pub open spec fn members_of(
    items: Seq<KeyedView>,
    key: Option<(Seq<char>, Seq<char>)>,
    n: int,
) -> Seq<usize>
    decreases n,
{
    if n <= 0 {
        Seq::empty()
    } else {
        let rest = members_of(items, key, n - 1);
        if items[n - 1].key == key {
            rest.push(items[n - 1].idx)
        } else {
            rest
        }
    }
}

/// The year of the first item, from a place on, that has a number.
pub open spec fn year_of(items: Seq<KeyedView>, idx: usize, from: int) -> Option<u16>
    decreases items.len() - from,
{
    if from < 0 || from >= items.len() {
        None
    } else if items[from].idx == idx {
        items[from].year
    } else {
        year_of(items, idx, from + 1)
    }
}

/// The years of items with given numbers, of those that have one.
pub open spec fn years_of(items: Seq<KeyedView>, members: Seq<usize>) -> Seq<u16>
    decreases members.len(),
{
    if members.len() == 0 {
        Seq::empty()
    } else {
        let rest = years_of(items, members.drop_last());
        match year_of(items, members.last(), 0) {
            Some(y) => rest.push(y),
            None => rest,
        }
    }
}

/// The group whose first member stands at a place.
pub open spec fn cluster_at(items: Seq<KeyedView>, first: int) -> ClusterView {
    let members = members_of(items, items[first].key, items.len() as int);
    ClusterView { first, members, year: canonical_year(years_of(items, members)) }
}

/// The groups whose first members are among the first so many items.
pub open spec fn clusters_upto(items: Seq<KeyedView>, n: int) -> Seq<ClusterView>
    decreases n,
{
    if n <= 0 {
        Seq::empty()
    } else {
        let rest = clusters_upto(items, n - 1);
        if is_first(items, n - 1) {
            rest.push(cluster_at(items, n - 1))
        } else {
            rest
        }
    }
}

/// The groups of items.
pub open spec fn clusters(items: Seq<KeyedView>) -> Seq<ClusterView> {
    clusters_upto(items, items.len() as int)
}

/// Whether two items have the same key.
fn same_key(a: &Keyed, b: &Keyed) -> (r: bool)
    ensures
        r == (a.deep_view().key == b.deep_view().key),
{
    match (&a.key, &b.key) {
        (Some((a0, a1)), Some((b0, b1))) => text::same_text(a0, b0) && text::same_text(a1, b1),
        (None, None) => true,
        _ => false,
    }
}

/// Whether an item has a key that no earlier one has.
fn opens_group(items: &Vec<Keyed>, i: usize) -> (r: bool)
    requires
        i < items@.len(),
    ensures
        r == is_first(items.deep_view(), i as int),
{
    let ghost v = items.deep_view();
    if items[i].key.is_none() {
        return false;
    }
    let mut j: usize = 0;
    while j < i
        invariant
            j <= i < items@.len(),
            v == items.deep_view(),
            forall|k: int| 0 <= k < j ==> (#[trigger] v[k]).key != v[i as int].key,
        decreases i - j,
    {
        proof {
            assert(v[j as int] == items@[j as int].deep_view());
            assert(v[i as int] == items@[i as int].deep_view());
        }
        if same_key(&items[j], &items[i]) {
            return false;
        }
        j = j + 1;
    }
    true
}

/// The year of the first item that has a number.
fn find_year(items: &Vec<Keyed>, idx: usize) -> (r: Option<u16>)
    ensures
        r == year_of(items.deep_view(), idx, 0),
{
    let ghost v = items.deep_view();
    let mut i: usize = 0;
    while i < items.len()
        invariant
            i <= items@.len(),
            v == items.deep_view(),
            year_of(v, idx, 0) == year_of(v, idx, i as int),
        decreases items@.len() - i,
    {
        proof {
            assert(v[i as int] == items@[i as int].deep_view());
        }
        if items[i].idx == idx {
            return items[i].year;
        }
        i = i + 1;
    }
    None
}

/// The group whose first member stands at a place.
fn collect_group(items: &Vec<Keyed>, first: usize) -> (r: Cluster)
    requires
        first < items@.len(),
    ensures
        r.deep_view() == cluster_at(items.deep_view(), first as int),
{
    let ghost v = items.deep_view();
    let ghost key = v[first as int].key;
    let mut members: Vec<usize> = Vec::new();
    let mut years: Vec<u16> = Vec::new();
    let mut i: usize = 0;
    while i < items.len()
        invariant
            i <= items@.len(),
            first < items@.len(),
            v == items.deep_view(),
            key == v[first as int].key,
            members@ == members_of(v, key, i as int),
            years@ == years_of(v, members@),
        decreases items@.len() - i,
    {
        proof {
            assert(v[i as int] == items@[i as int].deep_view());
            assert(v[first as int] == items@[first as int].deep_view());
        }
        if same_key(&items[i], &items[first]) {
            let idx: usize = items[i].idx;
            let ghost before = members@;
            members.push(idx);
            proof {
                assert(members@.drop_last() =~= before);
            }
            if let Some(y) = find_year(items, idx) {
                years.push(y);
            }
        }
        i = i + 1;
    }
    let year = pick_canonical_year(&years);
    Cluster { first, members, year }
}

/// Groups items.
pub fn group_keyed(items: &Vec<Keyed>) -> (r: Vec<Cluster>)
    ensures
        r.deep_view() == clusters(items.deep_view()),
{
    let ghost v = items.deep_view();
    let mut out: Vec<Cluster> = Vec::new();
    let mut i: usize = 0;
    proof {
        assert(out.deep_view() =~= Seq::empty());
    }
    while i < items.len()
        invariant
            i <= items@.len(),
            v == items.deep_view(),
            out.deep_view() == clusters_upto(v, i as int),
        decreases items@.len() - i,
    {
        let ghost before = out.deep_view();
        if opens_group(items, i) {
            let group = collect_group(items, i);
            let ghost g = group.deep_view();
            out.push(group);
            proof {
                assert(out.deep_view() =~= before.push(g));
            }
        }
        i = i + 1;
    }
    out
}

/// The first member of a group stands among the items, has a key, and no item
/// before it has that key.
pub proof fn lemma_clusters_have_first(items: Seq<KeyedView>, n: int, k: int)
    requires
        0 <= n <= items.len(),
        0 <= k < clusters_upto(items, n).len(),
    ensures
        0 <= clusters_upto(items, n)[k].first < n,
        is_first(items, clusters_upto(items, n)[k].first),
        clusters_upto(items, n)[k] == cluster_at(items, clusters_upto(items, n)[k].first),
    decreases n,
{
    if n > 0 {
        let rest = clusters_upto(items, n - 1);
        if k < rest.len() {
            lemma_clusters_have_first(items, n - 1, k);
        }
    }
}

/// Every item that has a key is in the group of that key: the group is there,
/// and the number of the item is among its members.
pub proof fn law_every_keyed_item_is_grouped(items: Seq<KeyedView>, i: int)
    requires
        0 <= i < items.len(),
        items[i].key is Some,
    ensures
        exists|k: int|
            0 <= k < clusters(items).len() && items[(#[trigger] clusters(items)[k]).first].key
                == items[i].key && clusters(items)[k].members.contains(items[i].idx),
{
    let f = first_with(items, items[i].key, i);
    lemma_first_with(items, i);
    lemma_cluster_is_there(items, items.len() as int, f);
    let k = choose|k: int|
        0 <= k < clusters(items).len() && #[trigger] clusters(items)[k] == cluster_at(items, f);
    lemma_member_is_there(items, items[i].key, items.len() as int, i);
    assert(clusters(items)[k].first == f);
}

/// The first item up to a place that has a key.
spec fn first_with(items: Seq<KeyedView>, key: Option<(Seq<char>, Seq<char>)>, i: int) -> int
    decreases i,
{
    if exists|j: int| 0 <= j < i && (#[trigger] items[j]).key == key {
        first_with(items, key, i - 1)
    } else {
        i
    }
}

/// The first item with the key of an item opens a group.
proof fn lemma_first_with(items: Seq<KeyedView>, i: int)
    requires
        0 <= i < items.len(),
        items[i].key is Some,
    ensures
        0 <= first_with(items, items[i].key, i) <= i,
        is_first(items, first_with(items, items[i].key, i)),
        items[first_with(items, items[i].key, i)].key == items[i].key,
{
    lemma_first_with_key(items, items[i].key, i, i);
}

/// The first item up to a place with a key, where an item at or after it has
/// the key.
proof fn lemma_first_with_key(
    items: Seq<KeyedView>,
    key: Option<(Seq<char>, Seq<char>)>,
    n: int,
    i: int,
)
    requires
        0 <= n <= i < items.len(),
        key is Some,
        exists|j: int| 0 <= j <= n && (#[trigger] items[j]).key == key,
    ensures
        0 <= first_with(items, key, n) <= n,
        is_first(items, first_with(items, key, n)),
        items[first_with(items, key, n)].key == key,
    decreases n,
{
    if exists|j: int| 0 <= j < n && (#[trigger] items[j]).key == key {
        let j = choose|j: int| 0 <= j < n && (#[trigger] items[j]).key == key;
        assert(0 <= j <= n - 1 && items[j].key == key);
        lemma_first_with_key(items, key, n - 1, i);
    } else {
        assert(items[n].key == key);
    }
}

/// A group stands in the list if its first member is among the items.
proof fn lemma_cluster_is_there(items: Seq<KeyedView>, n: int, f: int)
    requires
        0 <= f < n <= items.len(),
        is_first(items, f),
    ensures
        exists|k: int|
            0 <= k < clusters_upto(items, n).len() && #[trigger] clusters_upto(items, n)[k]
                == cluster_at(items, f),
    decreases n,
{
    let rest = clusters_upto(items, n - 1);
    let all = clusters_upto(items, n);
    if f == n - 1 {
        assert(all[all.len() - 1] == cluster_at(items, f));
    } else {
        lemma_cluster_is_there(items, n - 1, f);
        let k = choose|k: int| 0 <= k < rest.len() && #[trigger] rest[k] == cluster_at(items, f);
        assert(all[k] == cluster_at(items, f));
    }
}

/// The number of an item is among those of its key.
proof fn lemma_member_is_there(
    items: Seq<KeyedView>,
    key: Option<(Seq<char>, Seq<char>)>,
    n: int,
    i: int,
)
    requires
        0 <= i < n <= items.len(),
        items[i].key == key,
    ensures
        members_of(items, key, n).contains(items[i].idx),
    decreases n,
{
    let rest = members_of(items, key, n - 1);
    let all = members_of(items, key, n);
    if i == n - 1 {
        assert(all[all.len() - 1] == items[i].idx);
    } else {
        lemma_member_is_there(items, key, n - 1, i);
        let k = choose|k: int| 0 <= k < rest.len() && rest[k] == items[i].idx;
        assert(all[k] == items[i].idx);
    }
}

} // verus!
