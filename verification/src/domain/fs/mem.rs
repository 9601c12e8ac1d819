//! An in-memory file system, so that planning and execution can be tried
//! without a disk.

use crate::clock;
use crate::domain::duplicate::Duplicate;
use crate::domain::fs::{
    blocked_at, bytes, describes, hash_view, id_call, identifies, is_dir, is_file, lineage,
    list_call, lists_each_once, look_call, obstructed, only_adds_dirs, relocated, stat_call, vacant,
    Call, CancelToken, DirEntry, FileId, FileMeta, FileSystem, IoError, IoErrorView, IoKind,
    NodeView, Stamp, Tree,
};
use crate::domain::path::{FilePath, PathView};
use crate::domain::volume::{conservative_volume, NoReplaceStrategy, VolumeSemantics};
use crate::hashing;
use vstd::prelude::*;

verus! {

/// What stands at a path.
#[derive(Debug)]
enum Node {
    File { data: Vec<u8>, modified: Stamp },
    Dir,
    Symlink { target: FilePath },
}

/// Handle to a file that has just been created: its path.
#[derive(Debug, Clone)]
pub struct MemHandle {
    path: FilePath,
}

/// An in-memory file system: a list of paths and what stands there. The last
/// entry for a path counts. The paths that have been asked for their identity
/// are numbered in the order in which they first were.
pub struct MemFs {
    nodes: Vec<(FilePath, Node)>,
    numbered: Vec<FilePath>,
    volume: VolumeSemantics,
    past: Ghost<Seq<Call>>,
}

/// Whether no path has two numbers.
spec fn numbered_once(paths: Seq<PathView>) -> bool {
    forall|i: int, j: int|
        0 <= i < j < paths.len() ==> #[trigger] paths[i] != #[trigger] paths[j]
}

/// Whether an identity is the number of a path.
spec fn is_numbered(paths: Seq<PathView>, p: PathView, id: FileId) -> bool {
    id.device == 0 && id.inode < paths.len() && paths[id.inode as int] == p
}

/// Whether every identity that was told is that of the path.
spec fn told_rightly(past: Seq<Call>, paths: Seq<PathView>) -> bool {
    forall|k: int|
        0 <= k < past.len() ==> (#[trigger] past[k] matches Call::Identify { path, id: Some(id) }
            ==> is_numbered(paths, path, id))
}

/// The contents of a node.
spec fn node_view(n: Node) -> NodeView {
    match n {
        Node::File { data, modified } => NodeView::File { data: data@, modified: Some(modified) },
        Node::Dir => NodeView::Dir,
        Node::Symlink { target } => NodeView::Symlink { target: target.deep_view() },
    }
}

/// What a list of entries puts where.
spec fn tree_of(s: Seq<(FilePath, Node)>) -> Tree
    decreases s.len(),
{
    if s.len() == 0 {
        Map::empty()
    } else {
        tree_of(s.drop_last()).insert(s.last().0.deep_view(), node_view(s.last().1))
    }
}

/// Copies bytes.
fn copy_bytes(data: &Vec<u8>) -> (r: Vec<u8>)
    ensures
        r@ == data@,
{
    let mut out: Vec<u8> = Vec::new();
    let mut i: usize = 0;
    while i < data.len()
        invariant
            i <= data@.len(),
            out@ == data@.take(i as int),
        decreases data@.len() - i,
    {
        out.push(data[i]);
        i = i + 1;
    }
    out
}

/// Copies a node.
fn copy_node(n: &Node) -> (r: Node)
    ensures
        node_view(r) == node_view(*n),
{
    match n {
        Node::File { data, modified } => Node::File {
            data: copy_bytes(data),
            modified: *modified,
        },
        Node::Dir => Node::Dir,
        Node::Symlink { target } => Node::Symlink { target: target.duplicate() },
    }
}

/// A path holds something only where there is an entry for it.
proof fn lemma_entry_in_tree(s: Seq<(FilePath, Node)>, i: int)
    requires
        0 <= i < s.len(),
    ensures
        tree_of(s).dom().contains(s[i].0.deep_view()),
    decreases s.len(),
{
    if i < s.len() - 1 {
        lemma_entry_in_tree(s.drop_last(), i);
        assert(s.drop_last()[i] == s[i]);
    }
}

/// What stands somewhere has an entry.
proof fn lemma_tree_has_entry(s: Seq<(FilePath, Node)>, p: PathView)
    requires
        tree_of(s).dom().contains(p),
    ensures
        exists|i: int| 0 <= i < s.len() && (#[trigger] s[i]).0.deep_view() == p,
    decreases s.len(),
{
    if s.len() == 0 {
        assert(false);
    } else if s.last().0.deep_view() == p {
        assert(s[s.len() - 1].0.deep_view() == p);
    } else {
        lemma_tree_has_entry(s.drop_last(), p);
        let i = choose|i: int|
            0 <= i < s.drop_last().len() && (#[trigger] s.drop_last()[i]).0.deep_view() == p;
        assert(s[i] == s.drop_last()[i]);
    }
}

/// Replacing a beginning by another and back gives the path again.
proof fn lemma_rebase_back(p: PathView, from: PathView, to: PathView)
    requires
        p.starts_with(from),
    ensures
        p.rebase(from, to).starts_with(to),
        p.rebase(from, to).rebase(to, from) == p,
{
    let q = p.rebase(from, to);
    assert(q.parts.take(to.parts.len() as int) =~= to.parts);
    assert(q.parts.skip(to.parts.len() as int) =~= p.parts.skip(from.parts.len() as int));
    assert(from.parts + p.parts.skip(from.parts.len() as int) =~= p.parts);
}

/// The path of an entry once what stands at `from` has gone to `to`.
spec fn shifted(p: PathView, from: PathView, to: PathView) -> PathView {
    if p.starts_with(from) {
        p.rebase(from, to)
    } else {
        p
    }
}

/// Relocating with one more entry puts that entry at its new path.
proof fn lemma_relocated_insert(t: Tree, k: PathView, v: NodeView, from: PathView, to: PathView)
    requires
        !k.starts_with(to),
    ensures
        relocated(t.insert(k, v), from, to) == relocated(t, from, to).insert(
            shifted(k, from, to),
            v,
        ),
{
    let a = relocated(t.insert(k, v), from, to);
    let b = relocated(t, from, to).insert(shifted(k, from, to), v);
    if k.starts_with(from) {
        lemma_rebase_back(k, from, to);
    }
    assert forall|q: PathView| #[trigger] a.dom().contains(q) == b.dom().contains(q) by {
        if q.starts_with(to) {
            lemma_rebase_back(q, to, from);
        }
    }
    assert(a.dom() =~= b.dom());
    assert forall|q: PathView| #[trigger] a.dom().contains(q) implies a[q] == b[q] by {
        if q.starts_with(to) {
            lemma_rebase_back(q, to, from);
        }
    }
    assert(a =~= b);
}

/// How many components lead to the first thing on the way to a path, from `n`
/// on, that is no directory; one more than there are if there is none.
pub open spec fn first_block(t: Tree, p: PathView, n: int) -> int
    decreases p.parts.len() + 1 - n,
{
    if n > p.parts.len() || blocked_at(t, p, n) {
        n
    } else {
        first_block(t, p, n + 1)
    }
}

/// A tree in which directories stand at the paths made of fewer than `n` of the
/// first components of a path.
pub open spec fn dirs_made(t: Tree, p: PathView, n: int) -> Tree
    decreases n,
{
    if n <= 0 {
        t
    } else {
        let before = dirs_made(t, p, n - 1);
        if before.dom().contains(lineage(p, n - 1)) {
            before
        } else {
            before.insert(lineage(p, n - 1), NodeView::Dir)
        }
    }
}

/// A tree with a directory and those above it, up to the first thing on the
/// way that is no directory.
pub open spec fn with_dirs(t: Tree, p: PathView) -> Tree {
    dirs_made(t, p, first_block(t, p, 0))
}

/// Whether something on the way to a path is no directory.
pub open spec fn blocked(t: Tree, p: PathView) -> bool {
    first_block(t, p, 0) <= p.parts.len()
}

/// A tree with the directories above a path.
pub open spec fn with_parents(t: Tree, p: PathView) -> Tree {
    match p.parent() {
        Some(up) => with_dirs(t, up),
        None => t,
    }
}

/// What is made for a path leads to it.
proof fn lemma_made_dirs_lead_there(t: Tree, p: PathView, n: int, q: PathView)
    requires
        n <= p.parts.len() + 1,
        dirs_made(t, p, n).dom().contains(q),
        !t.dom().contains(q),
    ensures
        p.starts_with(q),
        q.parts.len() <= p.parts.len(),
    decreases n,
{
    if n > 0 {
        if dirs_made(t, p, n - 1).dom().contains(q) {
            lemma_made_dirs_lead_there(t, p, n - 1, q);
        } else {
            assert(q == lineage(p, n - 1));
            assert(p.parts.take(q.parts.len() as int) =~= q.parts);
        }
    }
}

/// The first block from a place on is no earlier than that.
proof fn lemma_first_block(t: Tree, p: PathView, n: int)
    requires
        n <= p.parts.len() + 1,
    ensures
        n <= first_block(t, p, n) <= p.parts.len() + 1,
        first_block(t, p, n) <= p.parts.len() ==> blocked_at(t, p, first_block(t, p, n)),
        forall|m: int| n <= m < first_block(t, p, n) ==> !#[trigger] blocked_at(t, p, m),
    decreases p.parts.len() + 1 - n,
{
    if n <= p.parts.len() && !blocked_at(t, p, n) {
        lemma_first_block(t, p, n + 1);
    }
}

/// A path is blocked where something on the way to it is no directory.
proof fn lemma_blocked(t: Tree, p: PathView)
    ensures
        blocked(t, p) == obstructed(t, p),
{
    lemma_first_block(t, p, 0);
    if obstructed(t, p) {
        let n = choose|n: int| 0 <= n <= p.parts.len() && #[trigger] blocked_at(t, p, n);
        assert(first_block(t, p, 0) <= n);
    }
}

/// Making the directories above a path puts nothing at it or under it.
proof fn lemma_parents_leave_vacant(t: Tree, p: PathView)
    ensures
        vacant(with_parents(t, p), p) == vacant(t, p),
        only_adds_dirs(t, with_parents(t, p)),
{
    if let Some(up) = p.parent() {
        lemma_first_block(t, up, 0);
        lemma_dirs_made_adds(t, up, first_block(t, up, 0));
        assert forall|q: PathView| #[trigger]
            with_dirs(t, up).dom().contains(q) && !t.dom().contains(q) implies !q.starts_with(
            p,
        ) by {
            lemma_made_dirs_lead_there(t, up, first_block(t, up, 0), q);
        }
        if vacant(t, p) {
            assert(vacant(with_dirs(t, up), p));
        }
        if vacant(with_dirs(t, up), p) {
            assert forall|q: PathView| #[trigger] t.dom().contains(q) implies !q.starts_with(
                p,
            ) by {
                assert(with_dirs(t, up).dom().contains(q));
            }
        }
    }
}

/// Making directories adds nothing but directories.
proof fn lemma_dirs_made_adds(t: Tree, p: PathView, n: int)
    ensures
        only_adds_dirs(t, dirs_made(t, p, n)),
    decreases n,
{
    if n > 0 {
        lemma_dirs_made_adds(t, p, n - 1);
    }
}

/// The path made of the first components of another.
fn ancestor(p: &FilePath, n: usize) -> (r: FilePath)
    requires
        n <= p.parts@.len(),
    ensures
        r.deep_view() == lineage(p.deep_view(), n as int),
{
    let ghost v = p.parts.deep_view();
    let mut parts: Vec<String> = Vec::new();
    let mut i: usize = 0;
    proof {
        assert(parts.deep_view() =~= v.take(0));
    }
    while i < n
        invariant
            i <= n <= p.parts@.len(),
            v == p.parts.deep_view(),
            parts.deep_view() == v.take(i as int),
        decreases n - i,
    {
        let ghost before = parts.deep_view();
        parts.push(p.parts[i].clone());
        proof {
            assert(parts.deep_view() =~= before.push(v[i as int]));
            assert(v.take(i + 1) =~= v.take(i as int).push(v[i as int]));
        }
        i = i + 1;
    }
    FilePath { absolute: p.absolute, parts }
}

impl MemFs {
    /// What the volume makes of names.
    pub closed spec fn semantics(&self) -> VolumeSemantics {
        self.volume
    }

    /// An empty file system on a conservative volume.
    pub fn new() -> (r: Self)
        ensures
            r.tree() == Map::<PathView, NodeView>::empty(),
            r.semantics() == conservative_volume(),
            r.is_steady(),
    {
        MemFs {
            nodes: Vec::new(),
            numbered: Vec::new(),
            volume: VolumeSemantics::conservative(),
            past: Ghost(Seq::empty()),
        }
    }

    /// An empty file system on a given volume.
    pub fn with_volume(volume: VolumeSemantics) -> (r: Self)
        ensures
            r.tree() == Map::<PathView, NodeView>::empty(),
            r.semantics() == volume,
            r.is_steady(),
    {
        MemFs {
            nodes: Vec::new(),
            numbered: Vec::new(),
            volume,
            past: Ghost(Seq::empty()),
        }
    }

    /// The paths that have numbers.
    closed spec fn known(&self) -> Seq<PathView> {
        self.numbered.deep_view()
    }

    /// The number of a path, which is given out where it has none.
    fn number_of(&mut self, p: &FilePath) -> (r: u64)
        ensures
            final(self).tree() == old(self).tree(),
            final(self).history() == old(self).history(),
            numbered_once(old(self).known()) ==> numbered_once(final(self).known()),
            old(self).known().is_prefix_of(final(self).known()),
            is_numbered(final(self).known(), p.deep_view(), (FileId { device: 0, inode: r })),
    {
        let ghost paths = self.numbered.deep_view();
        let mut i: usize = 0;
        proof {
            assert(paths =~= paths.subrange(0, paths.len() as int));
        }
        while i < self.numbered.len()
            invariant
                i <= self.numbered@.len(),
                *self == *old(self),
                paths == self.numbered.deep_view(),
                paths.is_prefix_of(paths),
                forall|k: int| 0 <= k < i ==> #[trigger] paths[k] != p.deep_view(),
            decreases self.numbered@.len() - i,
        {
            proof {
                assert(paths[i as int] == self.numbered@[i as int].deep_view());
            }
            if self.numbered[i].same(p) {
                return i as u64;
            }
            i = i + 1;
        }
        self.numbered.push(p.duplicate());
        proof {
            let more = self.numbered.deep_view();
            assert(more =~= paths.push(p.deep_view()));
            assert(paths =~= more.subrange(0, paths.len() as int));
        }
        i as u64
    }

    /// The position of the entry that counts for a path.
    fn find(&self, p: &FilePath) -> (r: Option<usize>)
        ensures
            match r {
                Some(i) => i < self.nodes@.len() && self.tree().dom().contains(p.deep_view())
                    && self.tree()[p.deep_view()] == node_view(self.nodes@[i as int].1),
                None => !self.tree().dom().contains(p.deep_view()),
            },
    {
        let mut i: usize = self.nodes.len();
        proof {
            assert(self.nodes@.take(i as int) =~= self.nodes@);
        }
        while i > 0
            invariant
                i <= self.nodes@.len(),
                self.tree().dom().contains(p.deep_view()) == tree_of(
                    self.nodes@.take(i as int),
                ).dom().contains(p.deep_view()),
                tree_of(self.nodes@.take(i as int)).dom().contains(p.deep_view())
                    ==> self.tree()[p.deep_view()] == tree_of(
                    self.nodes@.take(i as int),
                )[p.deep_view()],
            decreases i,
        {
            proof {
                assert(self.nodes@.take(i as int).drop_last() =~= self.nodes@.take(i - 1));
                assert(self.nodes@.take(i as int).last() == self.nodes@[i - 1]);
            }
            if self.nodes[i - 1].0.same(p) {
                return Some(i - 1);
            }
            i = i - 1;
        }
        proof {
            assert(self.nodes@.take(0) =~= Seq::empty());
        }
        None
    }

    /// Takes away every entry for a path.
    fn delete(&mut self, p: &FilePath)
        ensures
            final(self).tree() == old(self).tree().remove(p.deep_view()),
            final(self).history() == old(self).history(),
            final(self).known() == old(self).known(),
    {
        let ghost all = self.nodes@;
        let mut kept: Vec<(FilePath, Node)> = Vec::new();
        let mut i: usize = 0;
        proof {
            assert(tree_of(all.take(0)).remove(p.deep_view()) =~= tree_of(kept@));
        }
        while i < self.nodes.len()
            invariant
                i <= all.len(),
                self.nodes@ == all,
                self.history() == old(self).history(),
                self.known() == old(self).known(),
                tree_of(kept@) == tree_of(all.take(i as int)).remove(p.deep_view()),
            decreases all.len() - i,
        {
            proof {
                assert(all.take(i + 1).drop_last() =~= all.take(i as int));
                assert(all.take(i + 1).last() == all[i as int]);
            }
            let ghost before = kept@;
            if !self.nodes[i].0.same(p) {
                kept.push((self.nodes[i].0.duplicate(), copy_node(&self.nodes[i].1)));
                proof {
                    assert(kept@.drop_last() =~= before);
                    assert(tree_of(kept@) =~= tree_of(all.take(i + 1)).remove(p.deep_view()));
                }
            } else {
                proof {
                    assert(tree_of(kept@) =~= tree_of(all.take(i + 1)).remove(p.deep_view()));
                }
            }
            i = i + 1;
        }
        proof {
            assert(all.take(i as int) =~= all);
        }
        self.nodes = kept;
    }

    /// Puts a node at a path.
    fn put(&mut self, p: &FilePath, n: Node)
        ensures
            final(self).tree() == old(self).tree().insert(p.deep_view(), node_view(n)),
            final(self).history() == old(self).history(),
            final(self).known() == old(self).known(),
    {
        self.delete(p);
        let ghost before = self.nodes@;
        self.nodes.push((p.duplicate(), n));
        proof {
            assert(self.nodes@.drop_last() =~= before);
            assert(self.tree() =~= old(self).tree().insert(p.deep_view(), node_view(n)));
        }
    }

    /// Whether nothing stands at a path or under it.
    fn is_vacant(&self, p: &FilePath) -> (r: bool)
        ensures
            r == vacant(self.tree(), p.deep_view()),
    {
        let mut i: usize = 0;
        while i < self.nodes.len()
            invariant
                i <= self.nodes@.len(),
                forall|k: int|
                    0 <= k < i ==> !(#[trigger] self.nodes@[k]).0.deep_view().starts_with(
                        p.deep_view(),
                    ),
            decreases self.nodes@.len() - i,
        {
            if self.nodes[i].0.starts_with(p) {
                proof {
                    lemma_entry_in_tree(self.nodes@, i as int);
                }
                return false;
            }
            i = i + 1;
        }
        proof {
            assert forall|q: PathView| #[trigger]
                self.tree().dom().contains(q) implies !q.starts_with(p.deep_view()) by {
                lemma_tree_has_entry(self.nodes@, q);
            }
        }
        true
    }

    /// Whether something stands directly under a path.
    fn has_child(&self, p: &FilePath) -> (r: bool)
        ensures
            r == exists|q: PathView| #[trigger]
                self.tree().dom().contains(q) && q.is_child_of(p.deep_view()),
    {
        let mut i: usize = 0;
        while i < self.nodes.len()
            invariant
                i <= self.nodes@.len(),
                forall|k: int|
                    0 <= k < i ==> !(#[trigger] self.nodes@[k]).0.deep_view().is_child_of(
                        p.deep_view(),
                    ),
            decreases self.nodes@.len() - i,
        {
            if is_child(&self.nodes[i].0, p) {
                proof {
                    lemma_entry_in_tree(self.nodes@, i as int);
                    assert(self.tree().dom().contains(self.nodes@[i as int].0.deep_view()));
                }
                return true;
            }
            i = i + 1;
        }
        proof {
            assert forall|q: PathView| #[trigger]
                self.tree().dom().contains(q) implies !q.is_child_of(p.deep_view()) by {
                lemma_tree_has_entry(self.nodes@, q);
            }
        }
        false
    }

    /// Creates a directory and those above it that are missing.
    fn make_dirs(&mut self, p: &FilePath) -> (r: Result<(), IoError>)
        ensures
            final(self).tree() == with_dirs(old(self).tree(), p.deep_view()),
            only_adds_dirs(old(self).tree(), final(self).tree()),
            r is Ok ==> is_dir(final(self).tree(), p.deep_view()),
            r is Ok == !blocked(old(self).tree(), p.deep_view()),
            r matches Err(e) ==> e.deep_view() == plain(IoKind::NotADirectory),
            final(self).history() == old(self).history(),
            final(self).known() == old(self).known(),
    {
        let ghost t = self.tree();
        let ghost v = p.deep_view();
        let mut n: usize = 0;
        loop
            invariant
                n <= p.parts@.len(),
                t == old(self).tree(),
                v == p.deep_view(),
                self.tree() == dirs_made(t, v, n as int),
                first_block(t, v, 0) == first_block(t, v, n as int),
                only_adds_dirs(t, self.tree()),
                self.history() == old(self).history(),
                self.known() == old(self).known(),
            decreases p.parts@.len() - n,
        {
            proof {
                lemma_dirs_made_adds(t, v, n + 1);
            }
            let dir = ancestor(p, n);
            match self.find(&dir) {
                Some(i) => {
                    match self.nodes[i].1 {
                        Node::Dir => {},
                        _ => {
                            return Err(IoError::of(IoKind::NotADirectory));
                        },
                    }
                },
                None => {
                    self.put(&dir, Node::Dir);
                },
            }
            if n == p.parts.len() {
                proof {
                    assert(v.parts.take(n as int) =~= v.parts);
                    assert(first_block(t, v, n + 1) == n + 1);
                }
                return Ok(());
            }
            n = n + 1;
        }
    }

    /// Metadata of what stands at a path.
    fn stat(&self, p: &FilePath) -> (r: Result<FileMeta, IoError>)
        ensures
            r is Ok == self.tree().dom().contains(p.deep_view()),
            r matches Ok(m) ==> describes(m, self.tree()[p.deep_view()]),
            r matches Err(e) ==> e.deep_view() == not_found(),
    {
        match self.find(p) {
            Some(i) => Ok(
                match &self.nodes[i].1 {
                    Node::File { data, modified } => FileMeta {
                        is_dir: false,
                        is_symlink: false,
                        len: data.len() as u64,
                        modified: Some(*modified),
                        read_only: false,
                    },
                    Node::Dir => FileMeta {
                        is_dir: true,
                        is_symlink: false,
                        len: 0,
                        modified: Some(clock::now()),
                        read_only: false,
                    },
                    Node::Symlink { .. } => FileMeta {
                        is_dir: false,
                        is_symlink: true,
                        len: 0,
                        modified: Some(clock::now()),
                        read_only: false,
                    },
                },
            ),
            None => Err(IoError::of(IoKind::NotFound)),
        }
    }

    /// Seed a file with the given contents at `path`. The directories above it
    /// are there afterwards.
    pub fn seed_file(&mut self, path: &FilePath, data: Vec<u8>)
        ensures
            is_file(final(self).tree(), path.deep_view()),
            bytes(final(self).tree(), path.deep_view()) == data@,
            final(self).tree().remove(path.deep_view()) == with_parents(
                old(self).tree(),
                path.deep_view(),
            ).remove(path.deep_view()),
            final(self).history() == old(self).history(),
            old(self).is_steady() ==> final(self).is_steady(),
    {
        if let Some(parent) = path.parent() {
            let _ = self.make_dirs(&parent);
        }
        let ghost mid = self.tree();
        self.put(path, Node::File { data, modified: clock::now() });
        proof {
            assert(self.tree().remove(path.deep_view()) =~= mid.remove(path.deep_view()));
        }
    }

    /// Seed an empty directory, unless something stands there.
    pub fn seed_dir(&mut self, path: &FilePath)
        ensures
            final(self).tree() == with_dirs(old(self).tree(), path.deep_view()),
            final(self).history() == old(self).history(),
            old(self).is_steady() ==> final(self).is_steady(),
    {
        let _ = self.make_dirs(path);
    }

    /// Seed a symbolic link.
    pub fn seed_symlink(&mut self, path: &FilePath, target: &FilePath)
        ensures
            final(self).tree() == with_parents(old(self).tree(), path.deep_view()).insert(
                path.deep_view(),
                NodeView::Symlink { target: target.deep_view() },
            ),
            final(self).history() == old(self).history(),
            old(self).is_steady() ==> final(self).is_steady(),
    {
        if let Some(parent) = path.parent() {
            let _ = self.make_dirs(&parent);
        }
        self.put(path, Node::Symlink { target: target.duplicate() });
    }

    /// The bytes of the file at a path.
    pub fn read(&self, path: &FilePath) -> (r: Option<Vec<u8>>)
        ensures
            match r {
                Some(data) => is_file(self.tree(), path.deep_view()) && data@ == bytes(
                    self.tree(),
                    path.deep_view(),
                ),
                None => !is_file(self.tree(), path.deep_view()),
            },
    {
        match self.find(path) {
            Some(i) => match &self.nodes[i].1 {
                Node::File { data, .. } => Some(copy_bytes(data)),
                _ => None,
            },
            None => None,
        }
    }
}

/// Whether a path is directly under another.
fn is_child(q: &FilePath, p: &FilePath) -> (r: bool)
    ensures
        r == q.deep_view().is_child_of(p.deep_view()),
{
    match q.parent() {
        Some(up) => up.same(p),
        None => false,
    }
}

/// Whether an entry for a path is in a listing.
spec fn has_entry(list: Seq<Result<DirEntry, IoError>>, p: PathView) -> bool {
    exists|j: int|
        0 <= j < list.len() && (#[trigger] list[j]) is Ok && list[j]->Ok_0.path.deep_view() == p
}

/// Whether an entry for a path is in a listing.
fn is_listed(list: &Vec<Result<DirEntry, IoError>>, p: &FilePath) -> (r: bool)
    ensures
        r == has_entry(list@, p.deep_view()),
{
    let mut j: usize = 0;
    while j < list.len()
        invariant
            j <= list@.len(),
            forall|k: int|
                0 <= k < j ==> !((#[trigger] list@[k]) is Ok && list@[k]->Ok_0.path.deep_view()
                    == p.deep_view()),
        decreases list@.len() - j,
    {
        if let Ok(entry) = &list[j] {
            if entry.path.same(p) {
                proof {
                    assert(list@[j as int] is Ok);
                }
                return true;
            }
        }
        j = j + 1;
    }
    false
}

/// An error that says no more than its kind.
pub open spec fn plain(kind: IoKind) -> IoErrorView {
    IoErrorView { kind, raw_os: None, message: kind.label() }
}

/// That nothing stands at a path.
pub open spec fn not_found() -> IoErrorView {
    plain(IoKind::NotFound)
}

impl FileSystem for MemFs {
    type Handle = MemHandle;

    closed spec fn tree(&self) -> Tree {
        tree_of(self.nodes@)
    }

    closed spec fn target(h: MemHandle) -> PathView {
        h.path.deep_view()
    }

    closed spec fn is_steady(&self) -> bool {
        numbered_once(self.known()) && told_rightly(self.past@, self.known())
    }

    closed spec fn history(&self) -> Seq<Call> {
        self.past@
    }

    open spec fn volume_at(&self, p: PathView) -> VolumeSemantics {
        self.semantics()
    }

    fn metadata(&mut self, p: &FilePath) -> (r: Result<FileMeta, IoError>)
        ensures
            r is Ok == old(self).tree().dom().contains(p.deep_view()),
            r matches Err(e) ==> e.deep_view() == not_found(),
    {
        let r = self.stat(p);
        self.past = Ghost(self.past@.push(stat_call(p.deep_view(), r)));
        r
    }

    fn symlink_metadata(&mut self, p: &FilePath) -> (r: Result<FileMeta, IoError>)
        ensures
            r is Ok == old(self).tree().dom().contains(p.deep_view()),
            r matches Err(e) ==> e.deep_view() == not_found(),
    {
        match self.find(p) {
            Some(i) => match &self.nodes[i].1 {
                Node::Symlink { .. } => Ok(
                    FileMeta {
                        is_dir: false,
                        is_symlink: true,
                        len: 0,
                        modified: Some(clock::now()),
                        read_only: false,
                    },
                ),
                _ => self.stat(p),
            },
            None => Err(IoError::of(IoKind::NotFound)),
        }
    }

    fn read_link(&mut self, p: &FilePath) -> (r: Result<FilePath, IoError>)
        ensures
            r is Ok == (old(self).tree().dom().contains(p.deep_view()) && old(
                self,
            ).tree()[p.deep_view()] is Symlink),
            r matches Err(e) ==> e.deep_view() == plain(IoKind::InvalidInput),
    {
        match self.find(p) {
            Some(i) => match &self.nodes[i].1 {
                Node::Symlink { target } => Ok(target.duplicate()),
                _ => Err(IoError::of(IoKind::InvalidInput)),
            },
            None => Err(IoError::of(IoKind::InvalidInput)),
        }
    }

    fn file_id(&mut self, p: &FilePath) -> (r: Result<FileId, IoError>)
        ensures
            r is Ok == old(self).tree().dom().contains(p.deep_view()),
            r matches Err(e) ==> e.deep_view() == not_found(),
            // No two paths have the same identity.
            old(self).is_steady() ==> (r matches Ok(id) ==> forall|
                k: int,
                q: PathView,
                other: FileId,
            |
                0 <= k < old(self).history().len() && q != p.deep_view() && #[trigger] identifies(
                    old(self).history()[k],
                    q,
                    other,
                ) ==> other != id),
    {
        let r = match self.find(p) {
            Some(_) => Ok(FileId { device: 0, inode: self.number_of(p) }),
            None => Err(IoError::of(IoKind::NotFound)),
        };
        self.past = Ghost(self.past@.push(id_call(p.deep_view(), r)));
        proof {
            let (h, paths) = (old(self).past@, self.known());
            if old(self).is_steady() {
                assert forall|k: int| 0 <= k < h.len() implies (#[trigger] h[k] matches
                    Call::Identify { path, id: Some(id) } ==> is_numbered(paths, path, id)) by {
                    if let Call::Identify { path, id: Some(id) } = h[k] {
                        assert(is_numbered(old(self).known(), path, id));
                        assert(paths[id.inode as int] == old(self).known()[id.inode as int]);
                    }
                }
                if let Ok(id) = r {
                    assert(is_numbered(paths, p.deep_view(), id));
                    assert forall|k: int, q: PathView, other: FileId|
                        0 <= k < h.len() && #[trigger] identifies(h[k], q, other) implies (other
                        == id) == (q == p.deep_view()) by {
                        assert(is_numbered(paths, q, other));
                    }
                }
            }
        }
        r
    }

    fn read_dir(&mut self, p: &FilePath) -> (r: Result<Vec<Result<DirEntry, IoError>>, IoError>)
        ensures
            r is Ok == is_dir(old(self).tree(), p.deep_view()),
            r matches Err(e) ==> e.deep_view() == not_found(),
            r matches Ok(list) ==> forall|i: int|
                0 <= i < list@.len() ==> #[trigger] list@[i] is Ok,
    {
        let here = match self.find(p) {
            Some(i) => match &self.nodes[i].1 {
                Node::Dir => true,
                _ => false,
            },
            None => false,
        };
        if !here {
            let r = Err(IoError::of(IoKind::NotFound));
            self.past = Ghost(self.past@.push(list_call(p.deep_view(), r)));
            return r;
        }
        let mut out: Vec<Result<DirEntry, IoError>> = Vec::new();
        let ghost t = self.tree();
        let mut i: usize = 0;
        while i < self.nodes.len()
            invariant
                i <= self.nodes@.len(),
                t == self.tree(),
                t == tree_of(self.nodes@),
                forall|k: int|
                    0 <= k < out@.len() ==> (#[trigger] out@[k] matches Ok(e) && {
                        &&& t.dom().contains(e.path.deep_view())
                        &&& e.path.deep_view().is_child_of(p.deep_view())
                        &&& e.path.deep_view().parts.last() == e.file_name@
                        &&& (t[e.path.deep_view()] is Dir ==> e.is_dir && !e.is_symlink)
                        &&& (t[e.path.deep_view()] is File ==> !e.is_dir && !e.is_symlink)
                        &&& (t[e.path.deep_view()] is Symlink ==> e.is_symlink)
                    }),
                lists_each_once(out@),
                forall|k: int|
                    0 <= k < i && (#[trigger] self.nodes@[k]).0.deep_view().is_child_of(
                        p.deep_view(),
                    ) ==> has_entry(out@, self.nodes@[k].0.deep_view()),
            decreases self.nodes@.len() - i,
        {
            let ghost before = out@;
            if is_child(&self.nodes[i].0, p) && !is_listed(&out, &self.nodes[i].0) {
                let path = self.nodes[i].0.duplicate();
                let last: usize = path.parts.len() - 1;
                let file_name = path.parts[last].clone();
                proof {
                    lemma_entry_in_tree(self.nodes@, i as int);
                    assert(path.deep_view().parts.last() == path.parts@[last as int]@);
                }
                let (dir, link, len) = match self.find(&path) {
                    Some(k) => match &self.nodes[k].1 {
                        Node::File { data, .. } => (false, false, data.len() as u64),
                        Node::Dir => (true, false, 0u64),
                        Node::Symlink { .. } => (false, true, 0u64),
                    },
                    None => (false, false, 0u64),
                };
                out.push(
                    Ok(DirEntry { path, file_name, is_dir: dir, is_symlink: link, len }),
                );
                proof {
                    assert(out@[before.len() as int] is Ok);
                    assert forall|a: int, b: int| 0 <= a < b < out@.len() implies (
                    #[trigger] out@[a])->Ok_0.path.deep_view() != (
                    #[trigger] out@[b])->Ok_0.path.deep_view() by {
                        assert(out@[a] == before[a]);
                        if b < before.len() {
                            assert(out@[b] == before[b]);
                        } else {
                            assert(before[a] is Ok);
                        }
                    }
                    assert forall|k: int|
                        0 <= k < i + 1 && (
                        #[trigger] self.nodes@[k]).0.deep_view().is_child_of(
                            p.deep_view(),
                        ) implies has_entry(out@, self.nodes@[k].0.deep_view()) by {
                        if k < i {
                            let j = choose|j: int|
                                0 <= j < before.len() && (#[trigger] before[j]) is Ok
                                    && before[j]->Ok_0.path.deep_view()
                                    == self.nodes@[k].0.deep_view();
                            assert(out@[j] == before[j]);
                        }
                    }
                }
            }
            i = i + 1;
        }
        proof {
            assert forall|q: PathView| #[trigger]
                t.dom().contains(q) && q.is_child_of(p.deep_view()) implies exists|j: int|
                0 <= j < out@.len() && (#[trigger] out@[j])->Ok_0.path.deep_view() == q by {
                lemma_tree_has_entry(self.nodes@, q);
                assert(has_entry(out@, q));
            }
        }
        let r = Ok(out);
        self.past = Ghost(self.past@.push(list_call(p.deep_view(), r)));
        r
    }

    fn is_dir_empty(&mut self, p: &FilePath) -> (r: Result<bool, IoError>)
        ensures
            r is Ok == is_dir(old(self).tree(), p.deep_view()),
            r matches Err(e) ==> e.deep_view() == not_found(),
    {
        let r = match self.find(p) {
            Some(i) => match &self.nodes[i].1 {
                Node::Dir => Ok(!self.has_child(p)),
                _ => Err(IoError::of(IoKind::NotFound)),
            },
            None => Err(IoError::of(IoKind::NotFound)),
        };
        self.past = Ghost(self.past@.push(look_call(p.deep_view(), r)));
        r
    }

    fn volume_semantics(&mut self, p: &FilePath) -> (r: Result<VolumeSemantics, IoError>)
        ensures
            r == Ok::<VolumeSemantics, IoError>(old(self).semantics()),
    {
        Ok(self.volume)
    }

    fn create_dir_all(&mut self, p: &FilePath) -> (r: Result<(), IoError>)
        ensures
            final(self).tree() == with_dirs(old(self).tree(), p.deep_view()),
            r is Ok == !blocked(old(self).tree(), p.deep_view()),
            r matches Err(e) ==> e.deep_view() == plain(IoKind::NotADirectory),
    {
        proof {
            let t = self.tree();
            let v = p.deep_view();
            lemma_blocked(t, v);
            lemma_first_block(t, v, 0);
            assert forall|q: PathView| #[trigger]
                with_dirs(t, v).dom().contains(q) && !t.dom().contains(q) implies v.starts_with(
                q,
            ) by {
                lemma_made_dirs_lead_there(t, v, first_block(t, v, 0), q);
            }
        }
        let r = self.make_dirs(p);
        self.past = Ghost(self.past@.push(Call::MakeDir { path: p.deep_view(), done: r is Ok }));
        r
    }

    fn rename_no_replace(&mut self, from: &FilePath, to: &FilePath) -> (r: Result<(), IoError>)
        ensures
            r is Ok == (old(self).tree().dom().contains(from.deep_view()) && vacant(
                old(self).tree(),
                to.deep_view(),
            ) && !to.deep_view().starts_with(from.deep_view())),
            r matches Err(e) ==> e.deep_view() == (if !vacant(
                old(self).tree(),
                to.deep_view(),
            ) {
                plain(IoKind::AlreadyExists)
            } else if !old(self).tree().dom().contains(from.deep_view()) {
                not_found()
            } else {
                plain(IoKind::InvalidInput)
            }),
    {
        if !self.is_vacant(to) {
            let r = Err(IoError::of(IoKind::AlreadyExists));
            self.past = Ghost(self.past@.push(Call::Rename { from: from.deep_view(), to: to.deep_view(), done: r is Ok }));
            return r;
        }
        if self.find(from).is_none() {
            let r = Err(IoError::of(IoKind::NotFound));
            self.past = Ghost(self.past@.push(Call::Rename { from: from.deep_view(), to: to.deep_view(), done: r is Ok }));
            return r;
        }
        if to.starts_with(from) {
            let r = Err(IoError::of(IoKind::InvalidInput));
            self.past = Ghost(self.past@.push(Call::Rename { from: from.deep_view(), to: to.deep_view(), done: r is Ok }));
            return r;
        }
        let ghost all = self.nodes@;
        let ghost f = from.deep_view();
        let ghost g = to.deep_view();
        let mut out: Vec<(FilePath, Node)> = Vec::new();
        let mut i: usize = 0;
        proof {
            assert(all.take(0) =~= Seq::empty());
            assert(tree_of(out@) =~= relocated(tree_of(all.take(0)), f, g));
        }
        while i < self.nodes.len()
            invariant
                i <= all.len(),
                self.nodes@ == all,
                f == from.deep_view(),
                g == to.deep_view(),
                vacant(tree_of(all), g),
                tree_of(out@) == relocated(tree_of(all.take(i as int)), f, g),
            decreases all.len() - i,
        {
            let ghost before = out@;
            let path = match self.nodes[i].0.strip_prefix(from) {
                Some(rest) => to.join(&rest),
                None => self.nodes[i].0.duplicate(),
            };
            proof {
                lemma_entry_in_tree(all, i as int);
                assert(all.take(i + 1).drop_last() =~= all.take(i as int));
                assert(all.take(i + 1).last() == all[i as int]);
                lemma_relocated_insert(
                    tree_of(all.take(i as int)),
                    all[i as int].0.deep_view(),
                    node_view(all[i as int].1),
                    f,
                    g,
                );
                assert(path.deep_view() == shifted(all[i as int].0.deep_view(), f, g));
            }
            out.push((path, copy_node(&self.nodes[i].1)));
            proof {
                assert(out@.drop_last() =~= before);
            }
            i = i + 1;
        }
        proof {
            assert(all.take(i as int) =~= all);
        }
        self.nodes = out;
        let r = Ok(());
        self.past = Ghost(self.past@.push(Call::Rename { from: from.deep_view(), to: to.deep_view(), done: r is Ok }));
        r
    }

    fn rename_replace(&mut self, from: &FilePath, to: &FilePath) -> (r: Result<(), IoError>)
        ensures
            r is Ok == (is_file(old(self).tree(), from.deep_view()) && !is_dir(
                old(self).tree(),
                to.deep_view(),
            ) && from.deep_view() != to.deep_view()),
            r matches Err(e) ==> e.deep_view() == (if !old(self).tree().dom().contains(
                from.deep_view(),
            ) {
                not_found()
            } else if is_file(old(self).tree(), from.deep_view()) && is_dir(
                old(self).tree(),
                to.deep_view(),
            ) {
                plain(IoKind::IsADirectory)
            } else {
                plain(IoKind::InvalidInput)
            }),
    {
        let node = match self.find(from) {
            Some(i) => match &self.nodes[i].1 {
                Node::File { .. } => copy_node(&self.nodes[i].1),
                _ => {
                    let r = Err(IoError::of(IoKind::InvalidInput));
                    self.past = Ghost(self.past@.push(Call::Place { from: from.deep_view(), to: to.deep_view(), done: r is Ok }));
                    return r;
                },
            },
            None => {
                let r = Err(IoError::of(IoKind::NotFound));
                self.past = Ghost(self.past@.push(Call::Place { from: from.deep_view(), to: to.deep_view(), done: r is Ok }));
                return r;
            },
        };
        if let Some(i) = self.find(to) {
            if let Node::Dir = &self.nodes[i].1 {
                let r = Err(IoError::of(IoKind::IsADirectory));
                self.past = Ghost(self.past@.push(Call::Place { from: from.deep_view(), to: to.deep_view(), done: r is Ok }));
                return r;
            }
        }
        if from.same(to) {
            let r = Err(IoError::of(IoKind::InvalidInput));
            self.past = Ghost(self.past@.push(Call::Place { from: from.deep_view(), to: to.deep_view(), done: r is Ok }));
            return r;
        }
        self.delete(from);
        self.put(to, node);
        let r = Ok(());
        self.past = Ghost(self.past@.push(Call::Place { from: from.deep_view(), to: to.deep_view(), done: r is Ok }));
        r
    }

    fn create_new(&mut self, p: &FilePath) -> (r: Result<MemHandle, IoError>)
        ensures
            r is Ok == (vacant(old(self).tree(), p.deep_view()) && !(p.deep_view().parent() matches
                Some(up) && blocked(old(self).tree(), up))),
            r matches Err(e) ==> e.deep_view() == (if p.deep_view().parent() matches Some(up)
                && blocked(old(self).tree(), up) {
                plain(IoKind::NotADirectory)
            } else {
                plain(IoKind::AlreadyExists)
            }),
            final(self).tree().remove(p.deep_view()) == with_parents(
                old(self).tree(),
                p.deep_view(),
            ).remove(p.deep_view()),
    {
        proof {
            lemma_parents_leave_vacant(self.tree(), p.deep_view());
            if let Some(up) = p.deep_view().parent() {
                lemma_blocked(self.tree(), up);
            }
        }
        if let Some(parent) = p.parent() {
            if let Err(e) = self.make_dirs(&parent) {
                let r = Err(e);
                self.past = Ghost(self.past@.push(Call::Create { path: p.deep_view(), done: r is Ok }));
                return r;
            }
        }
        if !self.is_vacant(p) {
            let r = Err(IoError::of(IoKind::AlreadyExists));
            self.past = Ghost(self.past@.push(Call::Create { path: p.deep_view(), done: r is Ok }));
            return r;
        }
        let ghost mid = self.tree();
        self.put(p, Node::File { data: Vec::new(), modified: clock::now() });
        proof {
            let o = old(self).tree();
            assert(!mid.dom().contains(p.deep_view())) by {
                let v = p.deep_view();
                assert(v.parts.take(v.parts.len() as int) =~= v.parts);
                assert(v.starts_with(v));
            }
            assert(self.tree().remove(p.deep_view()) =~= mid);
            assert(vacant(o, p.deep_view())) by {
                assert forall|q: PathView| #[trigger] o.dom().contains(q) implies !q.starts_with(
                    p.deep_view(),
                ) by {
                    assert(mid.dom().contains(q));
                }
            }
        }
        let r = Ok(MemHandle { path: p.duplicate() });
        self.past = Ghost(self.past@.push(Call::Create { path: p.deep_view(), done: r is Ok }));
        r
    }

    fn copy_into(
        &mut self,
        from: &FilePath,
        handle: &mut MemHandle,
        cancel: &CancelToken,
    ) -> (r: Result<u64, IoError>)
        ensures
            r matches Err(e) ==> final(self).tree() == old(self).tree() && e.kind == (if is_file(
                old(self).tree(),
                from.deep_view(),
            ) {
                IoKind::Interrupted
            } else {
                IoKind::NotFound
            }),
    {
        let data = match self.find(from) {
            Some(i) => match &self.nodes[i].1 {
                Node::File { data, .. } => copy_bytes(data),
                _ => {
                    let r = Err(IoError::of(IoKind::NotFound));
                    self.past = Ghost(self.past@.push(Call::Copy { from: from.deep_view(), to: handle.path.deep_view(), done: r is Ok }));
                    return r;
                },
            },
            None => {
                let r = Err(IoError::of(IoKind::NotFound));
                self.past = Ghost(self.past@.push(Call::Copy { from: from.deep_view(), to: handle.path.deep_view(), done: r is Ok }));
                return r;
            },
        };
        match cancel.check() {
            Ok(()) => {},
            Err(e) => {
                let r = Err(e);
                self.past = Ghost(self.past@.push(Call::Copy { from: from.deep_view(), to: handle.path.deep_view(), done: r is Ok }));
                return r;
            },
        }
        let n: u64 = data.len() as u64;
        self.put(&handle.path, Node::File { data, modified: clock::now() });
        let r = Ok(n);
        self.past = Ghost(self.past@.push(Call::Copy { from: from.deep_view(), to: handle.path.deep_view(), done: r is Ok }));
        r
    }

    fn sync_dir(&mut self, p: &FilePath) -> (r: Result<(), IoError>)
        ensures
            r is Ok,
    {
        Ok(())
    }

    fn set_mtime(&mut self, p: &FilePath, t: Stamp) -> (r: Result<(), IoError>)
        ensures
            r is Ok == is_file(old(self).tree(), p.deep_view()),
            r matches Err(e) ==> e.deep_view() == not_found(),
    {
        let data = match self.find(p) {
            Some(i) => match &self.nodes[i].1 {
                Node::File { data, .. } => copy_bytes(data),
                _ => {
                    let r = Err(IoError::of(IoKind::NotFound));
                    self.past = Ghost(self.past@.push(Call::Stamp { path: p.deep_view(), at: t, done: r is Ok }));
                    return r;
                },
            },
            None => {
                let r = Err(IoError::of(IoKind::NotFound));
                self.past = Ghost(self.past@.push(Call::Stamp { path: p.deep_view(), at: t, done: r is Ok }));
                return r;
            },
        };
        self.put(p, Node::File { data, modified: t });
        let r = Ok(());
        self.past = Ghost(self.past@.push(Call::Stamp { path: p.deep_view(), at: t, done: r is Ok }));
        r
    }

    fn remove_file(&mut self, p: &FilePath) -> (r: Result<(), IoError>)
        ensures
            r is Ok == (old(self).tree().dom().contains(p.deep_view()) && !is_dir(
                old(self).tree(),
                p.deep_view(),
            )),
            r matches Err(e) ==> e.deep_view() == (if is_dir(old(self).tree(), p.deep_view()) {
                plain(IoKind::IsADirectory)
            } else {
                not_found()
            }),
    {
        match self.find(p) {
            Some(i) => {
                if let Node::Dir = &self.nodes[i].1 {
                    let r = Err(IoError::of(IoKind::IsADirectory));
                    self.past = Ghost(self.past@.push(Call::Remove { path: p.deep_view(), done: r is Ok }));
                    return r;
                }
            },
            None => {
                let r = Err(IoError::of(IoKind::NotFound));
                self.past = Ghost(self.past@.push(Call::Remove { path: p.deep_view(), done: r is Ok }));
                return r;
            },
        }
        self.delete(p);
        let r = Ok(());
        self.past = Ghost(self.past@.push(Call::Remove { path: p.deep_view(), done: r is Ok }));
        r
    }

    fn remove_dir(&mut self, p: &FilePath) -> (r: Result<(), IoError>)
        ensures
            r is Ok == (is_dir(old(self).tree(), p.deep_view()) && forall|q: PathView| #[trigger]
                old(self).tree().dom().contains(q) ==> !q.is_child_of(p.deep_view())),
            r matches Err(e) ==> e.deep_view() == (if is_dir(old(self).tree(), p.deep_view()) {
                plain(IoKind::DirectoryNotEmpty)
            } else {
                not_found()
            }),
    {
        match self.find(p) {
            Some(i) => match &self.nodes[i].1 {
                Node::Dir => {},
                _ => {
                    let r = Err(IoError::of(IoKind::NotFound));
                    self.past = Ghost(self.past@.push(Call::RemoveDir { path: p.deep_view(), done: r is Ok }));
                    return r;
                },
            },
            None => {
                let r = Err(IoError::of(IoKind::NotFound));
                self.past = Ghost(self.past@.push(Call::RemoveDir { path: p.deep_view(), done: r is Ok }));
                return r;
            },
        }
        if self.has_child(p) {
            let r = Err(IoError::of(IoKind::DirectoryNotEmpty));
            self.past = Ghost(self.past@.push(Call::RemoveDir { path: p.deep_view(), done: r is Ok }));
            return r;
        }
        self.delete(p);
        let r = Ok(());
        self.past = Ghost(self.past@.push(Call::RemoveDir { path: p.deep_view(), done: r is Ok }));
        r
    }

    fn hash(&mut self, p: &FilePath, cancel: &CancelToken) -> (r: Result<
        crate::domain::fs::Hash,
        IoError,
    >)
        ensures
            r matches Err(e) ==> e.kind == (if is_file(old(self).tree(), p.deep_view()) {
                IoKind::Interrupted
            } else {
                IoKind::NotFound
            }),
    {
        let data = match self.find(p) {
            Some(i) => match &self.nodes[i].1 {
                Node::File { data, .. } => copy_bytes(data),
                _ => {
                    let r = Err(IoError::of(IoKind::NotFound));
                    self.past = Ghost(self.past@.push(Call::Hash { path: p.deep_view(), hash: hash_view(r) }));
                    return r;
                },
            },
            None => {
                let r = Err(IoError::of(IoKind::NotFound));
                self.past = Ghost(self.past@.push(Call::Hash { path: p.deep_view(), hash: hash_view(r) }));
                return r;
            },
        };
        match cancel.check() {
            Ok(()) => {},
            Err(e) => {
                let r = Err(e);
                self.past = Ghost(self.past@.push(Call::Hash { path: p.deep_view(), hash: hash_view(r) }));
                return r;
            },
        }
        let r = Ok(crate::domain::fs::Hash(hashing::hash_hex(&data)));
        self.past = Ghost(self.past@.push(Call::Hash { path: p.deep_view(), hash: hash_view(r) }));
        r
    }

    fn no_replace_strategy(&mut self, p: &FilePath) -> (r: NoReplaceStrategy)
        ensures
            r == NoReplaceStrategy::Native,
    {
        let r = NoReplaceStrategy::Native;
        self.past = Ghost(self.past@.push(Call::Advise { path: p.deep_view(), strategy: r }));
        r
    }

    fn pause(&mut self) {
    }
}

} // verus!
