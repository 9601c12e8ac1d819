//! What a move asks of the file system, call by call.
//!
//! A source is removed, and a destination replaced, only once a copy of the
//! source has been made and found to be intact.

use crate::domain::config::{Config, VerifyMode};
use crate::domain::fs::{asks, goes_on, is_file, only_asks, Call, IoErrorView, Stamp, Tree};
use crate::domain::path::PathView;
use crate::engine::exec::moves::{
    hash_verdict, size_verdict, NativeAnswer, ReplaceAnswer, ReserveAnswer, Verify, VerifyView,
};
use vstd::prelude::*;

verus! {

/// What was read of a file: its size, and its hash where it was asked for.
pub struct Finding {
    pub size: Option<u64>,
    pub hash: Option<Result<Seq<char>, IoErrorView>>,
}

/// What was read of a source that can be moved.
pub open spec fn finding(len: u64, hash: Option<Seq<char>>) -> Finding {
    Finding {
        size: Some(len),
        hash: match hash {
            Some(h) => Some(Ok(h)),
            None => None,
        },
    }
}

/// Whether a file keeps its time on the way, where it has one and it is to be
/// kept.
pub open spec fn keeps_time(t0: Tree, t1: Tree, cfg: Config, from: PathView, to: PathView) -> bool {
    cfg.moves.preserve_mtime && is_file(t0, from) && t0[from]->modified is Some ==> is_file(t1, to)
        && t1[to]->modified == t0[from]->modified
}

/// Whether files are hashed to verify them.
pub open spec fn hashes(cfg: Config) -> bool {
    cfg.moves.verify == VerifyMode::Hash
}

/// The calls by which a file is read.
pub open spec fn read_calls(p: PathView, found: Finding) -> Seq<Call> {
    let first = seq![Call::Stat { path: p, len: found.size }];
    match found.hash {
        Some(h) => first.push(Call::Hash { path: p, hash: h }),
        None => first,
    }
}

/// The verdict on what was read of a copy. Its hash is asked for only where it
/// counts and the size is right.
pub open spec fn checked_as(
    found: Finding,
    hashing: bool,
    len: u64,
    hash: Option<Seq<char>>,
    v: VerifyView,
) -> bool {
    &&& (found.hash is Some) == (hashing && found.size == Some(len))
    &&& v == if found.size == Some(len) && hashing {
        hash_verdict(found.hash->0, hash)
    } else {
        size_verdict(found.size, len)
    }
}

/// What was learnt in a move: what was read of the source and of the copy, the
/// time that the copy is to have, whether it got it, whether a copy that did
/// not do was removed, how often the directory of the copy could not be made,
/// and whether it was made after that.
pub struct Seen {
    pub source: Finding,
    pub found: Finding,
    pub modified: Option<Stamp>,
    pub stamped: bool,
    pub undone: bool,
    pub failed: nat,
    pub made: bool,
}

impl Seen {
    /// The hash of the source.
    pub open spec fn hash(self) -> Option<Seq<char>> {
        match self.source.hash {
            Some(Ok(h)) => Some(h),
            _ => None,
        }
    }

    /// The time that the copy is to have.
    pub open spec fn stamp(self, cfg: Config) -> Option<Stamp> {
        if cfg.moves.preserve_mtime {
            self.modified
        } else {
            None
        }
    }

    /// Whether as much was learnt of the source as a move needs.
    pub open spec fn knows_source(self, cfg: Config) -> bool {
        &&& self.source.size is Some
        &&& (self.source.hash is Some) == hashes(cfg)
        &&& self.source.hash matches Some(h) ==> h is Ok
    }

    /// Whether the copy got a verdict.
    pub open spec fn gets(self, cfg: Config, v: VerifyView) -> bool {
        checked_as(self.found, hashes(cfg), self.source.size->0, self.hash(), v)
    }
}

/// Whether a file has been carried from one path to another, by a copy or by a
/// rename.
pub open spec fn carries(c: Call, from: PathView, to: PathView) -> bool {
    c == (Call::Copy { from, to, done: true }) || c == (Call::Rename { from, to, done: true })
}

/// The places of the calls by which a file was carried and found to be intact.
pub struct Vetting {
    pub size: int,
    pub hash: int,
    pub carry: int,
    pub size_there: int,
    pub hash_there: int,
}

/// Whether, between two places, a file was read, then carried to a path, and
/// then found there with the same size, and with the same hash where hashes
/// count.
pub open spec fn vetted(
    h: Seq<Call>,
    a: int,
    b: int,
    from: PathView,
    to: PathView,
    hashing: bool,
    w: Vetting,
) -> bool {
    &&& 0 <= a <= w.size < w.carry < w.size_there < b <= h.len()
    &&& h[w.size] matches Call::Stat { path, len } && path == from && len is Some && h[w.size_there]
        == (Call::Stat { path: to, len })
    &&& carries(h[w.carry], from, to)
    &&& hashing ==> {
        &&& a <= w.hash < w.carry < w.hash_there < b
        &&& h[w.hash] matches Call::Hash { path, hash } && path == from && hash is Ok
            && h[w.hash_there] == (Call::Hash { path: to, hash })
    }
}

/// Whether a file was carried somewhere and found to be intact there.
pub open spec fn arrived(h: Seq<Call>, a: int, b: int, from: PathView, hashing: bool) -> bool {
    exists|to: PathView, w: Vetting| #[trigger] vetted(h, a, b, from, to, hashing, w)
}

/// Whether a source is removed, from a place on, only once it has arrived
/// somewhere.
pub open spec fn removes_arrived(h: Seq<Call>, a: int, from: PathView, hashing: bool) -> bool {
    forall|k: int|
        a <= k < h.len() && #[trigger] h[k] == (Call::Remove { path: from, done: true })
            ==> arrived(h, a, k, from, hashing)
}

/// What has arrived between two places has arrived between places further
/// apart, and when more calls have been made.
pub proof fn lemma_arrived_stays(
    h: Seq<Call>,
    a: int,
    b: int,
    more: Seq<Call>,
    c: int,
    d: int,
    from: PathView,
    hashing: bool,
)
    requires
        arrived(h, a, b, from, hashing),
        goes_on(h, more),
        0 <= c <= a,
        b <= d <= more.len(),
    ensures
        arrived(more, c, d, from, hashing),
{
    let (to, w) = choose|to: PathView, w: Vetting| #[trigger]
        vetted(h, a, b, from, to, hashing, w);
    assert(more[w.size] == h[w.size]);
    assert(more[w.carry] == h[w.carry]);
    assert(more[w.size_there] == h[w.size_there]);
    if hashing {
        assert(more[w.hash] == h[w.hash]);
        assert(more[w.hash_there] == h[w.hash_there]);
    }
    assert(vetted(more, c, d, from, to, hashing, w));
}

/// Where a source has been removed only once it had arrived, and what came
/// before changed nothing, it has been so all along.
pub proof fn lemma_asking_before(
    h0: Seq<Call>,
    h1: Seq<Call>,
    h2: Seq<Call>,
    from: PathView,
    hashing: bool,
)
    requires
        goes_on(h0, h1),
        goes_on(h1, h2),
        removes_arrived(h1, h0.len() as int, from, hashing),
        removes_arrived(h2, h1.len() as int, from, hashing),
    ensures
        goes_on(h0, h2),
        removes_arrived(h2, h0.len() as int, from, hashing),
{
    let a = h0.len() as int;
    assert forall|k: int|
        a <= k < h2.len() && #[trigger] h2[k] == (Call::Remove {
            path: from,
            done: true,
        }) implies arrived(h2, a, k, from, hashing) by {
        if k < h1.len() {
            assert(h1[k] == h2[k]);
            lemma_arrived_stays(h1, a, k, h2, a, k, from, hashing);
        } else {
            lemma_arrived_stays(h2, h1.len() as int, k, h2, a, k, from, hashing);
        }
    }
}

/// Calls among which no file is removed keep what was found of a source.
pub proof fn lemma_nothing_removed(
    h0: Seq<Call>,
    h1: Seq<Call>,
    h2: Seq<Call>,
    from: PathView,
    hashing: bool,
)
    requires
        goes_on(h0, h1),
        goes_on(h1, h2),
        removes_arrived(h1, h0.len() as int, from, hashing),
        forall|k: int| h1.len() <= k < h2.len() ==> !(#[trigger] h2[k] is Remove),
    ensures
        goes_on(h0, h2),
        removes_arrived(h2, h0.len() as int, from, hashing),
{
    assert(removes_arrived(h2, h1.len() as int, from, hashing));
    lemma_asking_before(h0, h1, h2, from, hashing);
}

/// Calls that change nothing remove nothing.
pub proof fn lemma_asking_removes_nothing(
    h0: Seq<Call>,
    h1: Seq<Call>,
    from: PathView,
    hashing: bool,
)
    requires
        only_asks(h0, h1),
    ensures
        goes_on(h0, h1),
        removes_arrived(h1, h0.len() as int, from, hashing),
{
    assert forall|k: int| h0.len() <= k < h1.len() implies !(#[trigger] h1[k] is Remove) by {
        assert(asks(h1[k]));
    }
}

/// The calls by which a directory is made, given how often it failed first and
/// whether it was made in the end.
pub open spec fn made_calls(dir: PathView, failed: nat, made: bool) -> Seq<Call> {
    Seq::new(
        failed + if made {
            1nat
        } else {
            0nat
        },
        |i: int| Call::MakeDir { path: dir, done: failed <= i },
    )
}

/// The calls by which room is made for a file.
pub open spec fn room_calls(p: PathView, s: Seen) -> Seq<Call> {
    match p.parent() {
        Some(dir) => made_calls(dir, s.failed, s.made),
        None => Seq::empty(),
    }
}

/// The calls of a move by a rename, given how far it has got.
pub open spec fn native_calls(from: PathView, to: PathView, s: Seen, a: NativeAnswer) -> Seq<Call> {
    match a {
        NativeAnswer::Unseen(_) | NativeAnswer::Unhashed(_) => Seq::empty(),
        NativeAnswer::Refused(_) => seq![Call::Rename { from, to, done: false }],
        NativeAnswer::Checked(_) => seq![Call::Rename { from, to, done: true }] + read_calls(
            to,
            s.found,
        ),
    }
}

/// Whether a move by a rename made these calls: the source is read, then
/// renamed, then read again where it stands now. Where the journal could not
/// be written there is no answer and no call but those that read.
pub open spec fn native_traced(
    h0: Seq<Call>,
    h1: Seq<Call>,
    cfg: Config,
    from: PathView,
    to: PathView,
    s: Seen,
    answer: Option<NativeAnswer>,
) -> bool {
    let read = h0 + read_calls(from, s.source);
    match answer {
        None => s.knows_source(cfg) && h1 == read,
        Some(a) => {
            &&& h1 == read + native_calls(from, to, s, a)
            &&& match a {
                NativeAnswer::Unseen(_) => s.source.size is None && s.source.hash is None,
                NativeAnswer::Unhashed(e) => s.source.size is Some && s.source.hash == Some(
                    Err::<Seq<char>, IoErrorView>(e.deep_view()),
                ),
                NativeAnswer::Refused(_) => s.knows_source(cfg),
                NativeAnswer::Checked(v) => s.knows_source(cfg) && s.gets(cfg, v.deep_view()),
            }
        },
    }
}

/// A move by a rename that succeeds has found the file intact at the
/// destination, and removes nothing.
pub proof fn law_renamed_file_is_verified(
    h0: Seq<Call>,
    h1: Seq<Call>,
    cfg: Config,
    from: PathView,
    to: PathView,
    s: Seen,
    answer: Option<NativeAnswer>,
)
    requires
        native_traced(h0, h1, cfg, from, to, s, answer),
    ensures
        goes_on(h0, h1),
        removes_arrived(h1, h0.len() as int, from, hashes(cfg)),
        answer == Some(NativeAnswer::Checked(Verify::Intact)) ==> arrived(
            h1,
            h0.len() as int,
            h1.len() as int,
            from,
            hashes(cfg),
        ),
{
    let n = h0.len() as int;
    if answer == Some(NativeAnswer::Checked(Verify::Intact)) {
        let w = if hashes(cfg) {
            Vetting { size: n, hash: n + 1, carry: n + 2, size_there: n + 3, hash_there: n + 4 }
        } else {
            Vetting { size: n, hash: 0, carry: n + 1, size_there: n + 2, hash_there: 0 }
        };
        assert(vetted(h1, n, h1.len() as int, from, to, hashes(cfg), w));
    }
}

/// The calls by which a copy is made and read.
pub open spec fn copy_calls(from: PathView, to: PathView, found: Finding) -> Seq<Call> {
    seq![
        Call::Create { path: to, done: true },
        Call::Copy { from, to, done: true },
    ] + read_calls(to, found)
}

/// The calls by which a copy gets its time.
pub open spec fn stamp_calls(to: PathView, at: Option<Stamp>, done: bool) -> Seq<Call> {
    match at {
        Some(at) => seq![Call::Stamp { path: to, at, done }],
        None => Seq::empty(),
    }
}

/// The calls by which a copy is given up before it is whole.
pub open spec fn broken_calls(from: PathView, to: PathView, undone: bool) -> Seq<Call> {
    seq![
        Call::Create { path: to, done: true },
        Call::Copy { from, to, done: false },
        Call::Remove { path: to, done: undone },
    ]
}

/// The calls of a move by a copy once the source has been read, given how far
/// it has got.
pub open spec fn reserve_calls(
    cfg: Config,
    from: PathView,
    to: PathView,
    s: Seen,
    a: ReserveAnswer,
) -> Seq<Call> {
    let copied = copy_calls(from, to, s.found);
    let stamped = copied + stamp_calls(to, s.stamp(cfg), true);
    match a {
        ReserveAnswer::Unseen(_) | ReserveAnswer::Unhashed(_) => Seq::empty(),
        ReserveAnswer::Refused(_) => seq![Call::Create { path: to, done: false }],
        ReserveAnswer::NotCopied(_) => broken_calls(from, to, s.undone),
        ReserveAnswer::Checked(Verify::Intact) => stamped.push(
            Call::Remove { path: from, done: true },
        ),
        ReserveAnswer::Checked(Verify::Cancelled) => copied.push(
            Call::Remove { path: to, done: s.undone },
        ),
        ReserveAnswer::Checked(Verify::Fail(_)) => copied,
        ReserveAnswer::Untimed(_) => copied + stamp_calls(to, s.stamp(cfg), false),
        ReserveAnswer::Stays(_) => stamped.push(Call::Remove { path: from, done: false }),
    }
}

/// Whether what was learnt of a copy accords with how far a move by a copy has
/// got: it goes on from the copy only where that is intact.
pub open spec fn reserve_seen(
    cfg: Config,
    from: PathView,
    to: PathView,
    s: Seen,
    a: ReserveAnswer,
) -> bool {
    match a {
        ReserveAnswer::Unseen(_) | ReserveAnswer::Unhashed(_) | ReserveAnswer::Refused(_) => true,
        ReserveAnswer::NotCopied(_) => from != to,
        ReserveAnswer::Checked(v) => from != to && s.gets(cfg, v.deep_view()),
        ReserveAnswer::Untimed(_) => from != to && s.gets(cfg, VerifyView::Intact) && s.stamp(
            cfg,
        ) is Some,
        ReserveAnswer::Stays(_) => from != to && s.gets(cfg, VerifyView::Intact),
    }
}

/// Whether a move by a copy made these calls: the source is read, the
/// destination is created, the bytes are copied, the copy is read and gets its
/// time, and then the source is removed. Where the journal could not be written
/// there is no answer and no call but those that read.
pub open spec fn reserve_traced(
    h0: Seq<Call>,
    h1: Seq<Call>,
    cfg: Config,
    from: PathView,
    to: PathView,
    s: Seen,
    answer: Option<ReserveAnswer>,
) -> bool {
    let read = h0 + read_calls(from, s.source);
    match answer {
        None => s.knows_source(cfg) && h1 == read,
        Some(a) => {
            &&& h1 == read + reserve_calls(cfg, from, to, s, a)
            &&& reserve_seen(cfg, from, to, s, a)
            &&& match a {
                ReserveAnswer::Unseen(_) => s.source.size is None && s.source.hash is None,
                ReserveAnswer::Unhashed(e) => s.source.size is Some && s.source.hash == Some(
                    Err::<Seq<char>, IoErrorView>(e.deep_view()),
                ),
                _ => s.knows_source(cfg),
            }
        },
    }
}

/// In a move by a copy the source is removed only once its bytes have been
/// copied to the destination and the copy has been found to be intact. A move
/// that succeeds ends with that.
pub proof fn law_source_goes_after_verified_copy(
    h0: Seq<Call>,
    h1: Seq<Call>,
    cfg: Config,
    from: PathView,
    to: PathView,
    s: Seen,
    answer: Option<ReserveAnswer>,
)
    requires
        reserve_traced(h0, h1, cfg, from, to, s, answer),
    ensures
        goes_on(h0, h1),
        removes_arrived(h1, h0.len() as int, from, hashes(cfg)),
        answer == Some(ReserveAnswer::Checked(Verify::Intact)) ==> h1.last() == (Call::Remove {
            path: from,
            done: true,
        }) && arrived(h1, h0.len() as int, h1.len() as int, from, hashes(cfg)),
{
    let n = h0.len() as int;
    let end = h1.len() as int;
    if answer == Some(ReserveAnswer::Checked(Verify::Intact)) {
        let w = if hashes(cfg) {
            Vetting { size: n, hash: n + 1, carry: n + 3, size_there: n + 4, hash_there: n + 5 }
        } else {
            Vetting { size: n, hash: 0, carry: n + 2, size_there: n + 3, hash_there: 0 }
        };
        assert(vetted(h1, n, end - 1, from, to, hashes(cfg), w));
        assert(vetted(h1, n, end, from, to, hashes(cfg), w));
        assert forall|k: int|
            n <= k < h1.len() && #[trigger] h1[k] == (Call::Remove {
                path: from,
                done: true,
            }) implies arrived(h1, n, k, from, hashes(cfg)) by {
            assert(k == end - 1);
        }
    }
}

/// The calls of a replacement once the source has been read, given how far it
/// has got and which sibling of the destination was used.
pub open spec fn replace_calls(
    cfg: Config,
    from: PathView,
    to: PathView,
    temp: PathView,
    s: Seen,
    a: ReplaceAnswer,
) -> Seq<Call> {
    let copied = copy_calls(from, temp, s.found);
    let stamped = copied + stamp_calls(temp, s.stamp(cfg), s.stamped);
    let gone = Call::Remove { path: temp, done: s.undone };
    let placed = stamped.push(Call::Place { from: temp, to, done: true });
    match a {
        ReplaceAnswer::Unseen(_) | ReplaceAnswer::Unhashed(_) => Seq::empty(),
        ReplaceAnswer::Refused(_) => seq![Call::Create { path: temp, done: false }],
        ReplaceAnswer::NotCopied(_) => broken_calls(from, temp, s.undone),
        ReplaceAnswer::Checked(Verify::Intact) => placed.push(
            Call::Remove { path: from, done: true },
        ),
        ReplaceAnswer::Checked(_) => copied.push(gone),
        ReplaceAnswer::NotPlaced(_) => stamped.push(
            Call::Place { from: temp, to, done: false },
        ).push(gone),
        ReplaceAnswer::Stays(_) => placed.push(Call::Remove { path: from, done: false }),
    }
}

/// Whether what was learnt of a copy accords with how far a replacement has
/// got: it goes on from the copy only where that is intact.
pub open spec fn replace_seen(
    cfg: Config,
    from: PathView,
    temp: PathView,
    s: Seen,
    a: ReplaceAnswer,
) -> bool {
    match a {
        ReplaceAnswer::Unseen(_) | ReplaceAnswer::Unhashed(_) | ReplaceAnswer::Refused(_) => true,
        ReplaceAnswer::NotCopied(_) => from != temp,
        ReplaceAnswer::Checked(v) => from != temp && s.gets(cfg, v.deep_view()),
        _ => from != temp && s.gets(cfg, VerifyView::Intact),
    }
}

/// Whether a replacement made these calls: the source is read, the directory is
/// made, a sibling of the destination is created, the bytes are copied, the copy
/// is read and gets its time and takes the place of the destination, and then
/// the source is removed. A sibling that does not do is removed. Where the
/// journal could not be written there is no answer and no call but those that
/// read and that make the directory.
pub open spec fn replace_traced(
    h0: Seq<Call>,
    h1: Seq<Call>,
    cfg: Config,
    from: PathView,
    to: PathView,
    temp: PathView,
    s: Seen,
    answer: Option<ReplaceAnswer>,
) -> bool {
    let read = h0 + read_calls(from, s.source);
    match answer {
        None => s.knows_source(cfg) && h1 == read + room_calls(temp, s),
        Some(a) => {
            &&& h1 == if a is Unseen || a is Unhashed {
                read
            } else {
                read + room_calls(temp, s) + replace_calls(cfg, from, to, temp, s, a)
            }
            &&& replace_seen(cfg, from, temp, s, a)
            &&& match a {
                ReplaceAnswer::Unseen(_) => s.source.size is None && s.source.hash is None,
                ReplaceAnswer::Unhashed(e) => s.source.size is Some && s.source.hash == Some(
                    Err::<Seq<char>, IoErrorView>(e.deep_view()),
                ),
                _ => s.knows_source(cfg),
            }
        },
    }
}

/// In a replacement the copy takes the place of the destination only once it
/// has been found to be intact, and the source is removed only after that. A
/// replacement that succeeds ends with that, and one that fails before it
/// leaves no sibling behind that it did not try to remove.
pub proof fn law_destination_is_replaced_by_verified_copy(
    h0: Seq<Call>,
    h1: Seq<Call>,
    cfg: Config,
    from: PathView,
    to: PathView,
    temp: PathView,
    s: Seen,
    answer: Option<ReplaceAnswer>,
)
    requires
        replace_traced(h0, h1, cfg, from, to, temp, s, answer),
    ensures
        goes_on(h0, h1),
        removes_arrived(h1, h0.len() as int, from, hashes(cfg)),
        forall|k: int|
            h0.len() <= k < h1.len() && #[trigger] h1[k] is Place ==> arrived(
                h1,
                h0.len() as int,
                k,
                from,
                hashes(cfg),
            ),
        forall|k: int|
            h0.len() <= k < h1.len() && #[trigger] h1[k] == (Call::Remove {
                path: from,
                done: true,
            }) ==> h0.len() < k && h1[k - 1] == (Call::Place { from: temp, to, done: true }),
        answer == Some(ReplaceAnswer::Checked(Verify::Intact)) ==> h1.last() == (Call::Remove {
            path: from,
            done: true,
        }) && arrived(h1, h0.len() as int, h1.len() as int, from, hashes(cfg)),
        answer matches Some(a) ==> match a {
            ReplaceAnswer::NotCopied(_) | ReplaceAnswer::NotPlaced(_) => h1.last() == (
            Call::Remove { path: temp, done: s.undone }),
            ReplaceAnswer::Checked(v) => v.deep_view() != VerifyView::Intact ==> h1.last() == (
            Call::Remove { path: temp, done: s.undone }),
            _ => true,
        },
{
    let n = h0.len() as int;
    let end = h1.len() as int;
    let read = h0 + read_calls(from, s.source);
    let room = read + room_calls(temp, s);
    assert forall|k: int| n <= k < room.len() implies asks(#[trigger] room[k])
        || room[k] is MakeDir by {
        if read.len() <= k {
            assert(room[k] == room_calls(temp, s)[k - read.len()]);
        } else {
            assert(room[k] == read_calls(from, s.source)[k - n]);
        }
    }
    if answer is Some && !(answer->0 is Unseen) && !(answer->0 is Unhashed) {
        let calls = replace_calls(cfg, from, to, temp, s, answer->0);
        lemma_replace_calls(cfg, from, to, temp, s, answer->0);
        lemma_replaced_after_room(h0, h1, room, calls, cfg, from, to, temp, s, answer->0);
    } else {
        assert forall|k: int| n <= k < end implies asks(#[trigger] h1[k]) || h1[k] is MakeDir by {
            assert(h1[k] == room[k]);
        }
    }
}

/// Whether a replacement gets as far as putting the copy in place.
spec fn is_placing(a: ReplaceAnswer) -> bool {
    a == ReplaceAnswer::Checked(Verify::Intact) || a is Stays || a is NotPlaced
}

/// Whether calls put a copy in place, and remove the source, at the end only and
/// once the copy has been found to be intact.
spec fn places_last(
    calls: Seq<Call>,
    from: PathView,
    to: PathView,
    temp: PathView,
    hashing: bool,
    s: Seen,
    a: ReplaceAnswer,
) -> bool {
    let last = calls.len() - 1;
    &&& calls.len() > 0
    &&& forall|k: int| 0 <= k <= last && #[trigger] calls[k] is Place ==> is_placing(a) && k == last
        - 1
    &&& forall|k: int|
        0 <= k <= last && #[trigger] calls[k] == (Call::Remove { path: from, done: true })
            ==> is_placing(a) && k == last && calls[last - 1] == (Call::Place {
            from: temp,
            to,
            done: true,
        })
    &&& is_placing(a) ==> {
        &&& calls.len() >= 5
        &&& calls[1] == (Call::Copy { from, to: temp, done: true })
        &&& calls[2] == (Call::Stat { path: temp, len: s.source.size })
        &&& hashing ==> calls.len() >= 6 && calls[3] == (Call::Hash {
            path: temp,
            hash: s.source.hash->0,
        })
    }
    &&& a == ReplaceAnswer::Checked(Verify::Intact) ==> calls[last] == (Call::Remove {
        path: from,
        done: true,
    })
    &&& a is NotCopied || a is NotPlaced || (a matches ReplaceAnswer::Checked(v) && v.deep_view()
        != VerifyView::Intact) ==> calls[last] == (Call::Remove { path: temp, done: s.undone })
}

/// The calls of a replacement do so.
#[verifier::rlimit(40)]
proof fn lemma_replace_calls(
    cfg: Config,
    from: PathView,
    to: PathView,
    temp: PathView,
    s: Seen,
    a: ReplaceAnswer,
)
    requires
        s.knows_source(cfg),
        replace_seen(cfg, from, temp, s, a),
        !(a is Unseen) && !(a is Unhashed),
    ensures
        places_last(
            replace_calls(cfg, from, to, temp, s, a),
            from,
            to,
            temp,
            hashes(cfg),
            s,
            a,
        ),
{
    match a {
        ReplaceAnswer::Checked(v) => match v {
            Verify::Intact => {},
            Verify::Cancelled => {},
            Verify::Fail(_) => {},
        },
        _ => {},
    }
}

/// What calls do that put a copy in place last, they do after calls that make
/// room.
proof fn lemma_replaced_after_room(
    h0: Seq<Call>,
    h1: Seq<Call>,
    room: Seq<Call>,
    calls: Seq<Call>,
    cfg: Config,
    from: PathView,
    to: PathView,
    temp: PathView,
    s: Seen,
    a: ReplaceAnswer,
)
    requires
        s.knows_source(cfg),
        h1 == room + calls,
        goes_on(h0 + read_calls(from, s.source), room),
        forall|k: int|
            h0.len() <= k < room.len() ==> asks(#[trigger] room[k]) || room[k] is MakeDir,
        places_last(calls, from, to, temp, hashes(cfg), s, a),
    ensures
        goes_on(h0, h1),
        h1.last() == calls.last(),
        forall|k: int|
            h0.len() <= k < h1.len() && #[trigger] h1[k] is Place ==> arrived(
                h1,
                h0.len() as int,
                k,
                from,
                hashes(cfg),
            ),
        forall|k: int|
            h0.len() <= k < h1.len() && #[trigger] h1[k] == (Call::Remove {
                path: from,
                done: true,
            }) ==> h0.len() < k && h1[k - 1] == (Call::Place { from: temp, to, done: true })
                && arrived(h1, h0.len() as int, k, from, hashes(cfg)),
        is_placing(a) ==> arrived(h1, h0.len() as int, h1.len() as int, from, hashes(cfg)),
{
    let n = h0.len() as int;
    let m = room.len() as int;
    let end = h1.len() as int;
    let read = h0 + read_calls(from, s.source);
    let w = Vetting { size: n, hash: n + 1, carry: m + 1, size_there: m + 2, hash_there: m + 3 };
    assert forall|k: int| n <= k < end implies #[trigger] h1[k] == if k < m {
        room[k]
    } else {
        calls[k - m]
    } by {}
    assert(goes_on(h0, h1)) by {
        assert(h1.take(n) =~= h0);
    }
    if is_placing(a) {
        assert(read[n] == read_calls(from, s.source)[0]);
        assert(room[n] == read[n]);
        if hashes(cfg) {
            assert(read[n + 1] == read_calls(from, s.source)[1]);
            assert(room[n + 1] == read[n + 1]);
        }
        assert(vetted(h1, n, end - 2, from, temp, hashes(cfg), w));
        assert(vetted(h1, n, end - 1, from, temp, hashes(cfg), w));
        assert(vetted(h1, n, end, from, temp, hashes(cfg), w));
    }
}

} // verus!
