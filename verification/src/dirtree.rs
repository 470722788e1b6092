//! The arena-indexed directory tree that assembles a commit.
//!
//! Nodes live in one owned vector; parent and child links are indices
//! into it, so there is no ownership cycle.  Freed slots go to a pool
//! from which the lowest index is reused first, keeping the arena
//! compact.  A node with an empty name is a recycled (invalid) slot; a
//! leaf stands for a tracked file.  Adding a path that is an ancestor of
//! already-added paths evicts the finer entries: the caller now wants
//! everything beneath it.

use vstd::prelude::*;

verus! {

/// What a tree child serializes as.
#[derive(Debug, Clone, Copy, PartialEq, Eq, Structural)]
pub enum ObjectType {
    Blob,
    Tree,
}

/// One node of the directory tree: its child map (component name to node
/// index), its own component name, and its parent (absent only at the
/// root).
#[derive(Debug)]
pub struct TreeNode {
    children: Vec<(Vec<u8>, usize)>,
    filename: Vec<u8>,
    parent: Option<usize>,
}

/// The mathematical value of a `TreeNode`.
#[verifier::ext_equal]
pub struct TreeNodeV {
    pub children: Seq<(Seq<u8>, int)>,
    pub filename: Seq<u8>,
    pub parent: Option<int>,
}

impl View for TreeNode {
    type V = TreeNodeV;

    closed spec fn view(&self) -> TreeNodeV {
        TreeNodeV {
            children: self.children@.map_values(|e: (Vec<u8>, usize)| (e.0@, e.1 as int)),
            filename: self.filename@,
            parent: match self.parent {
                Some(p) => Some(p as int),
                None => None,
            },
        }
    }
}

impl TreeNode {
    /// The component name this node represents.
    pub fn get_file_name(&self) -> (r: &Vec<u8>)
        ensures
            r@ == self@.filename,
    {
        &self.filename
    }
}

/// The directory tree: the node arena, the count of live nodes (zero
/// doubles as the "whole repository root selected" marker), and the
/// free-slot pool.
#[derive(Debug)]
pub struct Tree {
    nodes: Vec<TreeNode>,
    size: usize,
    next_frees: Vec<usize>,
}

/// The mathematical value of a `Tree`.
#[verifier::ext_equal]
pub struct TreeV {
    pub nodes: Seq<TreeNodeV>,
    pub size: int,
    pub frees: Seq<int>,
}

impl View for Tree {
    type V = TreeV;

    closed spec fn view(&self) -> TreeV {
        TreeV {
            nodes: self.nodes@.map_values(|n: TreeNode| n@),
            size: self.size as int,
            frees: self.next_frees@.map_values(|f: usize| f as int),
        }
    }
}

/// Every index a node or the free pool holds stays inside the arena,
/// and the live count plus the pool never outgrow it.
pub open spec fn node_wf(n: TreeNodeV, len: int) -> bool {
    &&& forall|j: int| 0 <= j < n.children.len() ==> 0 <= (#[trigger] n.children[j]).1 < len
    &&& match n.parent {
        Some(p) => 0 <= p < len,
        None => true,
    }
}

pub open spec fn tree_wf(t: TreeV) -> bool {
    &&& t.nodes.len() >= 1
    &&& forall|i: int| 0 <= i < t.nodes.len() ==> node_wf(#[trigger] t.nodes[i], t.nodes.len() as int)
    &&& forall|j: int| 0 <= j < t.frees.len() ==> 0 <= #[trigger] t.frees[j] < t.nodes.len()
}

/// The first child entry for a component name, front to back.
pub open spec fn find_child(cs: Seq<(Seq<u8>, int)>, name: Seq<u8>) -> Option<int>
    decreases cs.len(),
{
    if cs.len() == 0 {
        None
    } else if cs[0].0 == name {
        Some(cs[0].1)
    } else {
        find_child(cs.skip(1), name)
    }
}

/// The smallest value in a non-empty pool.
pub open spec fn min_val(s: Seq<int>) -> int
    recommends
        s.len() > 0,
    decreases s.len(),
{
    if s.len() <= 1 {
        s[0]
    } else if min_val(s.drop_last()) <= s.last() {
        min_val(s.drop_last())
    } else {
        s.last()
    }
}

/// The position of the first smallest value in a non-empty pool.
pub open spec fn min_idx(s: Seq<int>) -> int
    recommends
        s.len() > 0,
    decreases s.len(),
{
    if s.len() <= 1 {
        0
    } else if min_val(s.drop_last()) <= s.last() {
        min_idx(s.drop_last())
    } else {
        s.len() - 1
    }
}

proof fn lemma_min_idx_in_range(s: Seq<int>)
    requires
        s.len() > 0,
    ensures
        0 <= min_idx(s) < s.len(),
        s[min_idx(s)] == min_val(s),
    decreases s.len(),
{
    if s.len() > 1 {
        lemma_min_idx_in_range(s.drop_last());
    }
}

/// The path components `add_path` and `contains_path` walk: the path
/// split at `/`, with empty and `.` pieces dropped.
pub open spec fn walk_comps_of(ps: Seq<Seq<u8>>) -> Seq<Seq<u8>>
    decreases ps.len(),
{
    if ps.len() == 0 {
        Seq::empty()
    } else {
        let prev = walk_comps_of(ps.drop_last());
        let last = ps.last();
        if last.len() == 0 || last == seq![46u8] {
            prev
        } else {
            prev.push(last)
        }
    }
}

pub open spec fn path_comps(path: Seq<u8>) -> Seq<Seq<u8>> {
    walk_comps_of(crate::bytes::split_spec(path, 47))
}

/// Split a path into the components the walks use.
pub fn comps_of_path(path: &Vec<u8>) -> (r: Vec<Vec<u8>>)
    ensures
        r@.map_values(|p: Vec<u8>| p@) == path_comps(path@),
{
    let pieces = crate::bytes::split(path, 47);
    let ghost ps = pieces@.map_values(|p: Vec<u8>| p@);
    let mut out: Vec<Vec<u8>> = Vec::new();
    let mut i: usize = 0;
    proof {
        assert(ps.take(0) =~= Seq::<Seq<u8>>::empty());
        assert(out@.map_values(|p: Vec<u8>| p@) =~= walk_comps_of(ps.take(0)));
    }
    while i < pieces.len()
        invariant
            i <= pieces.len(),
            ps == pieces@.map_values(|p: Vec<u8>| p@),
            out@.map_values(|p: Vec<u8>| p@) == walk_comps_of(ps.take(i as int)),
        decreases pieces.len() - i,
    {
        proof {
            let t = ps.take(i + 1);
            assert(t.drop_last() =~= ps.take(i as int));
            assert(t.last() == ps[i as int]);
            assert(ps[i as int] == pieces@[i as int]@);
        }
        let piece = &pieces[i];
        let is_empty = piece.len() == 0;
        let is_dot = piece.len() == 1 && piece[0] == 46;
        proof {
            if is_dot {
                assert(ps[i as int] =~= seq![46u8]);
            }
            if !is_empty && !is_dot {
                assert(ps[i as int] != seq![46u8]) by {
                    if ps[i as int] == seq![46u8] {
                        assert(ps[i as int].len() == 1 && ps[i as int][0] == 46);
                    }
                }
            }
        }
        if !is_empty && !is_dot {
            let ghost o0 = out@.map_values(|p: Vec<u8>| p@);
            let c = crate::bytes::copy_bytes(piece);
            out.push(c);
            proof {
                assert(out@.map_values(|p: Vec<u8>| p@) =~= o0.push(ps[i as int]));
            }
        }
        i = i + 1;
    }
    proof {
        assert(ps.take(i as int) =~= ps);
    }
    out
}

/// One walk step of `contains_path`: a leaf covers everything beneath
/// it; a missing component ends the walk; a completed walk succeeds.
pub open spec fn spec_contains_walk(t: TreeV, idx: int, comps: Seq<Seq<u8>>) -> bool
    decreases comps.len(),
{
    if comps.len() == 0 {
        true
    } else if t.nodes[idx].children.len() == 0 {
        true
    } else {
        match find_child(t.nodes[idx].children, comps[0]) {
            None => false,
            Some(c) => spec_contains_walk(t, c, comps.skip(1)),
        }
    }
}

/// What `contains_path` decides: nothing is contained once the tree has
/// collapsed to the whole root; otherwise the components are walked from
/// the root.
pub open spec fn spec_contains_path(t: TreeV, path: Seq<u8>) -> bool {
    if t.size == 0 {
        false
    } else {
        spec_contains_walk(t, 0, path_comps(path))
    }
}

/// The walk of `add_path` over the remaining components, threading the
/// tree being built: descending into an existing leaf fails; a missing
/// component allocates a node, preferring the lowest free slot over
/// growing the arena.  Yields the tree, the final node, whether a node
/// was allocated, and whether the walk completed.
pub open spec fn spec_add_walk(t: TreeV, idx: int, comps: Seq<Seq<u8>>, added: bool) -> (
    TreeV,
    int,
    bool,
    bool,
)
    decreases comps.len(),
{
    if comps.len() == 0 {
        (t, idx, added, true)
    } else {
        let comp = comps[0];
        match find_child(t.nodes[idx].children, comp) {
            Some(c) => {
                if t.nodes[c].children.len() == 0 {
                    (t, c, added, false)
                } else {
                    spec_add_walk(t, c, comps.skip(1), added)
                }
            },
            None => {
                let slot = if t.frees.len() == 0 {
                    t.nodes.len() as int
                } else {
                    min_val(t.frees)
                };
                let frees2 = if t.frees.len() == 0 {
                    t.frees
                } else {
                    t.frees.remove(min_idx(t.frees))
                };
                let fresh = TreeNodeV {
                    children: Seq::empty(),
                    filename: comp,
                    parent: Some(idx),
                };
                let nodes2 = if t.frees.len() == 0 {
                    t.nodes.push(fresh)
                } else {
                    t.nodes.update(slot, fresh)
                };
                let nodes3 = nodes2.update(
                    idx,
                    TreeNodeV {
                        children: nodes2[idx].children.push((comp, slot)),
                        filename: nodes2[idx].filename,
                        parent: nodes2[idx].parent,
                    },
                );
                let size2: int = if t.size < usize::MAX as int {
                    t.size + 1
                } else {
                    t.size
                };
                let t2 = TreeV { nodes: nodes3, size: size2, frees: frees2 };
                spec_add_walk(t2, slot, comps.skip(1), true)
            },
        }
    }
}

/// Clearing the names of the slots an eviction frees, front to back.
pub open spec fn spec_clear_slots(nodes: Seq<TreeNodeV>, cs: Seq<(Seq<u8>, int)>) -> Seq<TreeNodeV>
    decreases cs.len(),
{
    if cs.len() == 0 {
        nodes
    } else {
        let i = cs[0].1;
        spec_clear_slots(
            nodes.update(
                i,
                TreeNodeV {
                    children: nodes[i].children,
                    filename: Seq::empty(),
                    parent: nodes[i].parent,
                },
            ),
            cs.skip(1),
        )
    }
}

/// Evicting the children of the final node of an added path: their
/// slots join the free pool in child order, their names are cleared,
/// the child map empties, and the live count drops by their number
/// (never below zero).
pub open spec fn spec_evict(t: TreeV, idx: int) -> TreeV {
    let cs = t.nodes[idx].children;
    let cleared = spec_clear_slots(t.nodes, cs);
    TreeV {
        nodes: cleared.update(
            idx,
            TreeNodeV {
                children: Seq::empty(),
                filename: cleared[idx].filename,
                parent: cleared[idx].parent,
            },
        ),
        size: if cs.len() <= t.size {
            t.size - cs.len()
        } else {
            0
        },
        frees: t.frees + cs.map_values(|c: (Seq<u8>, int)| c.1),
    }
}

/// What `add_path` does: nothing once the tree has collapsed; a path
/// with no components (the repository root) collapses it; otherwise the
/// components are walked from the root and, if the walk completes, the
/// final node's children are evicted.  The flag reports whether any
/// node was allocated.
pub open spec fn spec_add_path(t: TreeV, path: Seq<u8>) -> (TreeV, bool) {
    if t.size == 0 {
        (t, false)
    } else {
        let comps = path_comps(path);
        if comps.len() == 0 {
            (TreeV { nodes: t.nodes, size: 0, frees: t.frees }, true)
        } else {
            let (t2, idx, added, ok) = spec_add_walk(t, 0, comps, false);
            if ok {
                (spec_evict(t2, idx), added)
            } else {
                (t2, false)
            }
        }
    }
}

/// Copy a child map.
fn clone_children(cs: &Vec<(Vec<u8>, usize)>) -> (r: Vec<(Vec<u8>, usize)>)
    ensures
        r@.map_values(|e: (Vec<u8>, usize)| (e.0@, e.1 as int)) == cs@.map_values(
            |e: (Vec<u8>, usize)| (e.0@, e.1 as int),
        ),
{
    let ghost m = cs@.map_values(|e: (Vec<u8>, usize)| (e.0@, e.1 as int));
    let mut r: Vec<(Vec<u8>, usize)> = Vec::new();
    let mut j: usize = 0;
    proof {
        assert(r@.map_values(|e: (Vec<u8>, usize)| (e.0@, e.1 as int)) =~= m.take(0));
    }
    while j < cs.len()
        invariant
            j <= cs.len(),
            m == cs@.map_values(|e: (Vec<u8>, usize)| (e.0@, e.1 as int)),
            r@.map_values(|e: (Vec<u8>, usize)| (e.0@, e.1 as int)) == m.take(j as int),
        decreases cs.len() - j,
    {
        proof {
            assert(m[j as int] == (cs@[j as int].0@, cs@[j as int].1 as int));
        }
        let key = crate::bytes::copy_bytes(&cs[j].0);
        let val = cs[j].1;
        r.push((key, val));
        proof {
            assert(m.take(j + 1 as int).drop_last() =~= m.take(j as int));
            assert(r@.map_values(|e: (Vec<u8>, usize)| (e.0@, e.1 as int)) =~= m.take(
                j + 1 as int,
            ));
        }
        j = j + 1;
    }
    proof {
        assert(m.take(j as int) =~= m);
    }
    r
}

impl Tree {
    pub open spec fn wf(&self) -> bool {
        tree_wf(self@)
    }

    /// A tree holding only the root node, which stands for the
    /// repository root.
    pub fn new() -> (r: Tree)
        ensures
            r.wf(),
            r@.nodes.len() == 1,
            r@.nodes[0].children.len() == 0,
            r@.nodes[0].filename == seq![46u8],
            r@.nodes[0].parent is None,
            r@.size == 1,
            r@.frees.len() == 0,
    {
        let mut filename: Vec<u8> = Vec::new();
        filename.push(46);
        let root = TreeNode { children: Vec::new(), filename, parent: None };
        let mut nodes: Vec<TreeNode> = Vec::new();
        nodes.push(root);
        let r = Tree { nodes, size: 1, next_frees: Vec::new() };
        proof {
            assert(r@.nodes[0].filename =~= seq![46u8]);
            assert(r@.nodes[0].children.len() == 0);
            assert(r@.frees.len() == 0);
        }
        r
    }

    /// Whether the tree has collapsed to "the whole repository root".
    pub fn only_repo_root(&self) -> (r: bool)
        ensures
            r == (self@.size == 0),
    {
        self.size == 0
    }

    /// Find a node's child by component name.
    fn get_component(&self, idx: usize, comp: &Vec<u8>) -> (r: Option<usize>)
        requires
            self.wf(),
            idx < self@.nodes.len(),
        ensures
            match r {
                Some(c) => find_child(self@.nodes[idx as int].children, comp@) == Some(c as int)
                    && c < self@.nodes.len(),
                None => find_child(self@.nodes[idx as int].children, comp@) is None,
            },
    {
        let cs = &self.nodes[idx].children;
        let ghost cv = self@.nodes[idx as int].children;
        proof {
            assert(cv.skip(0) =~= cv);
        }
        let mut j: usize = 0;
        while j < cs.len()
            invariant
                j <= cs.len(),
                self.wf(),
                idx < self@.nodes.len(),
                cs == &self.nodes@[idx as int].children,
                cv == self@.nodes[idx as int].children,
                cv.len() == cs@.len(),
                find_child(cv, comp@) == find_child(cv.skip(j as int), comp@),
            decreases cs.len() - j,
        {
            proof {
                assert(cv[j as int] == (cs@[j as int].0@, cs@[j as int].1 as int));
                assert(cv.skip(j as int)[0] == cv[j as int]);
                assert(cv.skip(j as int).skip(1) =~= cv.skip(j + 1));
            }
            if crate::bytes::bytes_eq(&cs[j].0, comp) {
                let c = cs[j].1;
                proof {
                    assert(node_wf(self@.nodes[idx as int], self@.nodes.len() as int));
                    assert(0 <= cv[j as int].1 < self@.nodes.len());
                }
                return Some(c);
            }
            j = j + 1;
        }
        proof {
            assert(cv.skip(j as int).len() == 0);
        }
        None
    }

    /// Whether a path is already covered by the tree: the walk succeeds
    /// early at a leaf, which covers everything beneath it.
    pub fn contains_path(&self, path: &Vec<u8>) -> (r: bool)
        requires
            self.wf(),
        ensures
            r == spec_contains_path(self@, path@),
    {
        if self.only_repo_root() {
            return false;
        }
        let comps = comps_of_path(path);
        let ghost cv = comps@.map_values(|p: Vec<u8>| p@);
        let mut idx: usize = 0;
        let mut i: usize = 0;
        proof {
            assert(cv.skip(0) =~= cv);
        }
        while i < comps.len()
            invariant
                i <= comps.len(),
                self.wf(),
                idx < self@.nodes.len(),
                cv == comps@.map_values(|p: Vec<u8>| p@),
                cv == path_comps(path@),
                self@.size != 0,
                spec_contains_walk(self@, 0, cv) == spec_contains_walk(
                    self@,
                    idx as int,
                    cv.skip(i as int),
                ),
            decreases comps.len() - i,
        {
            proof {
                assert(cv.skip(i as int)[0] == cv[i as int]);
                assert(cv[i as int] == comps@[i as int]@);
                assert(cv.skip(i as int).skip(1) =~= cv.skip(i + 1));
            }
            if self.nodes[idx].children.len() == 0 {
                return true;
            }
            match self.get_component(idx, &comps[i]) {
                None => {
                    return false;
                },
                Some(c) => {
                    idx = c;
                },
            }
            i = i + 1;
        }
        proof {
            assert(cv.skip(i as int).len() == 0);
        }
        true
    }

    /// Removal of recorded paths is not offered: the walk always reports
    /// failure and the tree is untouched.
    pub fn remove_path(&self, path: &Vec<u8>) -> (r: bool)
        ensures
            r == false,
    {
        let _ = path.len();
        false
    }

    /// Take the lowest-numbered slot out of the free pool.
    fn pop_min_free(&mut self) -> (r: usize)
        requires
            old(self).wf(),
            old(self)@.frees.len() > 0,
        ensures
            final(self).wf(),
            r as int == min_val(old(self)@.frees),
            final(self)@.frees == old(self)@.frees.remove(min_idx(old(self)@.frees)),
            final(self)@.nodes == old(self)@.nodes,
            final(self)@.size == old(self)@.size,
            r < final(self)@.nodes.len(),
    {
        let ghost fv = old(self)@.frees;
        proof {
            lemma_min_idx_in_range(fv);
        }
        let mut best: usize = 0;
        let mut j: usize = 1;
        while j < self.next_frees.len()
            invariant
                self@ == old(self)@,
                old(self).wf(),
                fv == self@.frees,
                fv.len() > 0,
                1 <= j <= fv.len(),
                best < j,
                best as int == min_idx(fv.take(j as int)),
                self.next_frees@[best as int] as int == min_val(fv.take(j as int)),
            decreases fv.len() - j,
        {
            proof {
                let t = fv.take(j + 1);
                assert(t.drop_last() =~= fv.take(j as int));
                assert(t.last() == fv[j as int]);
                assert(fv[j as int] == self.next_frees@[j as int] as int);
            }
            if self.next_frees[j] < self.next_frees[best] {
                best = j;
            }
            j = j + 1;
        }
        proof {
            assert(fv.take(j as int) =~= fv);
        }
        let r = self.next_frees[best];
        self.next_frees.remove(best);
        proof {
            assert(self@.frees =~= fv.remove(min_idx(fv)));
            assert(forall|k: int|
                0 <= k < self@.frees.len() ==> 0 <= #[trigger] self@.frees[k]
                    < self@.nodes.len());
        }
        r
    }

    /// Record a path to be committed.  Fails without effect once the
    /// tree has collapsed to the whole root, or when the walk meets an
    /// existing leaf.  The repository root itself collapses the tree.
    /// Missing components are allocated from the lowest free slots
    /// first; the final node's previous children are evicted.  Reports
    /// whether any node was allocated.
    pub fn add_path(&mut self, path: &Vec<u8>) -> (r: bool)
        requires
            old(self).wf(),
        ensures
            final(self).wf(),
            (final(self)@, r) == spec_add_path(old(self)@, path@),
    {
        if self.size == 0 {
            return false;
        }
        let comps = comps_of_path(path);
        let ghost cv = comps@.map_values(|p: Vec<u8>| p@);
        if comps.len() == 0 {
            self.size = 0;
            proof {
                assert(self@.nodes == old(self)@.nodes);
                assert(self@.frees == old(self)@.frees);
                assert(self@ =~~= TreeV {
                    nodes: old(self)@.nodes,
                    size: 0,
                    frees: old(self)@.frees,
                });
            }
            return true;
        }
        let ghost t0 = old(self)@;
        let mut idx: usize = 0;
        let mut added = false;
        let mut i: usize = 0;
        proof {
            assert(cv.skip(0) =~= cv);
        }
        while i < comps.len()
            invariant
                i <= comps.len(),
                self.wf(),
                idx < self@.nodes.len(),
                cv == comps@.map_values(|p: Vec<u8>| p@),
                cv == path_comps(path@),
                cv.len() > 0,
                t0.size != 0,
                spec_add_walk(t0, 0, cv, false) == spec_add_walk(
                    self@,
                    idx as int,
                    cv.skip(i as int),
                    added,
                ),
                t0 == old(self)@,
            decreases comps.len() - i,
        {
            proof {
                assert(cv.skip(i as int)[0] == cv[i as int]);
                assert(cv[i as int] == comps@[i as int]@);
                assert(cv.skip(i as int).skip(1) =~= cv.skip(i + 1));
            }
            match self.get_component(idx, &comps[i]) {
                Some(c) => {
                    if self.nodes[c].children.len() == 0 {
                        proof {
                            assert(spec_add_walk(t0, 0, cv, false) == (
                                self@,
                                c as int,
                                added,
                                false,
                            ));
                        }
                        return false;
                    }
                    idx = c;
                },
                None => {
                    let slot: usize;
                    if self.next_frees.len() == 0 {
                        slot = self.nodes.len();
                        let comp = crate::bytes::copy_bytes(&comps[i]);
                        let fresh = TreeNode {
                            children: Vec::new(),
                            filename: comp,
                            parent: Some(idx),
                        };
                        let ghost prev = self@;
                        self.nodes.push(fresh);
                        proof {
                            assert(fresh@.children =~= Seq::<(Seq<u8>, int)>::empty());
                            assert(self@.nodes =~= prev.nodes.push(fresh@));
                            assert forall|k: int| 0 <= k < self@.nodes.len() implies node_wf(
                                #[trigger] self@.nodes[k],
                                self@.nodes.len() as int,
                            ) by {
                                if k < prev.nodes.len() {
                                    assert(self@.nodes[k] == prev.nodes[k]);
                                    assert(node_wf(prev.nodes[k], prev.nodes.len() as int));
                                } else {
                                    assert(self@.nodes[k] == fresh@);
                                }
                            }
                        }
                    } else {
                        slot = self.pop_min_free();
                        let comp = crate::bytes::copy_bytes(&comps[i]);
                        let fresh = TreeNode {
                            children: Vec::new(),
                            filename: comp,
                            parent: Some(idx),
                        };
                        let ghost prev = self@;
                        self.nodes.set(slot, fresh);
                        proof {
                            assert(fresh@.children =~= Seq::<(Seq<u8>, int)>::empty());
                            assert(self@.nodes =~= prev.nodes.update(slot as int, fresh@));
                            assert forall|k: int| 0 <= k < self@.nodes.len() implies node_wf(
                                #[trigger] self@.nodes[k],
                                self@.nodes.len() as int,
                            ) by {
                                if k != slot as int {
                                    assert(self@.nodes[k] == prev.nodes[k]);
                                    assert(node_wf(prev.nodes[k], prev.nodes.len() as int));
                                } else {
                                    assert(self@.nodes[k] == fresh@);
                                }
                            }
                        }
                    }
                    let comp2 = crate::bytes::copy_bytes(&comps[i]);
                    self.add_child_entry(idx, comp2, slot);
                    if self.size < usize::MAX {
                        self.size = self.size + 1;
                    }
                    idx = slot;
                    added = true;
                },
            }
            i = i + 1;
        }
        self.evict_children(idx);
        added
    }

    /// Link a child entry into a node's child map.
    fn add_child_entry(&mut self, idx: usize, comp: Vec<u8>, slot: usize)
        requires
            old(self).wf(),
            idx < old(self)@.nodes.len(),
            slot < old(self)@.nodes.len(),
        ensures
            final(self).wf(),
            final(self)@.nodes == old(self)@.nodes.update(
                idx as int,
                TreeNodeV {
                    children: old(self)@.nodes[idx as int].children.push((comp@, slot as int)),
                    filename: old(self)@.nodes[idx as int].filename,
                    parent: old(self)@.nodes[idx as int].parent,
                },
            ),
            final(self)@.size == old(self)@.size,
            final(self)@.frees == old(self)@.frees,
    {
        let mut children = clone_children(&self.nodes[idx].children);
        children.push((comp, slot));
        let filename = crate::bytes::copy_bytes(&self.nodes[idx].filename);
        let parent = self.nodes[idx].parent;
        let newnode = TreeNode { children, filename, parent };
        proof {
            assert(newnode@.children =~= old(self)@.nodes[idx as int].children.push((
                comp@,
                slot as int,
            )));
        }
        self.nodes.set(idx, newnode);
        proof {
            assert(self@.nodes =~= old(self)@.nodes.update(idx as int, newnode@));
            assert forall|k: int| 0 <= k < self@.nodes.len() implies node_wf(
                #[trigger] self@.nodes[k],
                self@.nodes.len() as int,
            ) by {
                if k == idx as int {
                    let oldn = old(self)@.nodes[idx as int];
                    assert(node_wf(oldn, old(self)@.nodes.len() as int));
                    let nn = self@.nodes[k];
                    assert(nn.children == oldn.children.push((comp@, slot as int)));
                    assert forall|m: int|
                        0 <= m < nn.children.len() implies 0 <= (#[trigger] nn.children[m]).1
                        < self@.nodes.len() as int by {
                        if m < oldn.children.len() {
                            assert(nn.children[m] == oldn.children[m]);
                        } else {
                            assert(nn.children[m] == (comp@, slot as int));
                        }
                    }
                    assert(nn.parent == oldn.parent);
                } else {
                    assert(self@.nodes[k] == old(self)@.nodes[k]);
                    assert(node_wf(old(self)@.nodes[k], old(self)@.nodes.len() as int));
                }
            }
            assert(self@.nodes.len() >= 1);
            assert(self@.frees == old(self)@.frees);
            assert forall|j: int| 0 <= j < self@.frees.len() implies 0 <= (
            #[trigger] self@.frees[j]) < self@.nodes.len() by {
                assert(self@.frees[j] == old(self)@.frees[j]);
            }
            assert(tree_wf(self@));
        }
    }

    /// Evict all children of a node: free their slots, clear their
    /// names, empty the node's child map, and shrink the live count.
    fn evict_children(&mut self, idx: usize)
        requires
            old(self).wf(),
            idx < old(self)@.nodes.len(),
        ensures
            final(self).wf(),
            final(self)@ == spec_evict(old(self)@, idx as int),
    {
        let ghost t0 = old(self)@;
        let ghost cs = t0.nodes[idx as int].children;
        let count = self.nodes[idx].children.len();
        let mut j: usize = 0;
        proof {
            assert(cs.skip(0) =~= cs);
        }
        while j < count
            invariant
                j <= count,
                idx < self@.nodes.len(),
                count == cs.len(),
                cs == t0.nodes[idx as int].children,
                tree_wf(t0),
                self@.nodes.len() == t0.nodes.len(),
                self@.size == t0.size,
                spec_clear_slots(t0.nodes, cs) == spec_clear_slots(
                    self@.nodes,
                    cs.skip(j as int),
                ),
                self@.frees == t0.frees + cs.map_values(|c: (Seq<u8>, int)| c.1).take(j as int),
                self@.nodes[idx as int].children == cs,
                forall|k: int|
                    0 <= k < self@.nodes.len() ==> node_wf(
                        #[trigger] self@.nodes[k],
                        self@.nodes.len() as int,
                    ),
                forall|k: int|
                    0 <= k < self@.frees.len() ==> 0 <= #[trigger] self@.frees[k]
                        < self@.nodes.len(),
            decreases count - j,
        {
            proof {
                assert(cs.skip(j as int)[0] == cs[j as int]);
                assert(cs.skip(j as int).skip(1) =~= cs.skip(j + 1));
                assert(cs[j as int] == (
                    self.nodes@[idx as int].children@[j as int].0@,
                    self.nodes@[idx as int].children@[j as int].1 as int,
                ));
            }
            let child = self.nodes[idx].children[j].1;
            proof {
                assert(cs.map_values(|c: (Seq<u8>, int)| c.1)[j as int] == cs[j as int].1);
            }
            let ghost fprev = self@.frees;
            self.next_frees.push(child);
            proof {
                let mm = cs.map_values(|c: (Seq<u8>, int)| c.1);
                assert(self@.frees =~= fprev.push(child as int));
                assert(fprev.push(child as int) =~= t0.frees + mm.take(j + 1 as int));
                assert(self@.frees =~= t0.frees + mm.take(j + 1 as int));
            }
            let kids = clone_children(&self.nodes[child].children);
            let parent = self.nodes[child].parent;
            let cleared = TreeNode { children: kids, filename: Vec::new(), parent };
            let ghost before = self@.nodes;
            proof {
                assert(cleared@.children =~= before[child as int].children);
                assert(cleared@.filename =~= Seq::<u8>::empty());
            }
            self.nodes.set(child, cleared);
            proof {
                assert(self@.nodes =~= before.update(
                    child as int,
                    TreeNodeV {
                        children: before[child as int].children,
                        filename: Seq::empty(),
                        parent: before[child as int].parent,
                    },
                ));
            }
            j = j + 1;
        }
        proof {
            assert(cs.skip(j as int).len() == 0);
            assert(cs.map_values(|c: (Seq<u8>, int)| c.1).take(j as int) =~= cs.map_values(
                |c: (Seq<u8>, int)| c.1,
            ));
        }
        let node = &self.nodes[idx];
        let filename = crate::bytes::copy_bytes(&node.filename);
        let parent = node.parent;
        let emptied = TreeNode { children: Vec::new(), filename, parent };
        let ghost before2 = self@.nodes;
        self.nodes.set(idx, emptied);
        proof {
            assert(emptied@.children =~= Seq::<(Seq<u8>, int)>::empty());
            assert(self@.nodes =~= before2.update(
                idx as int,
                TreeNodeV {
                    children: Seq::empty(),
                    filename: before2[idx as int].filename,
                    parent: before2[idx as int].parent,
                },
            ));
        }
        if count <= self.size {
            self.size = self.size - count;
        } else {
            self.size = 0;
        }
        proof {
            assert(self@ =~~= spec_evict(t0, idx as int));
        }
    }
}


/// The repo-relative path of a node: component names joined on the walk
/// up the parent links, stopping at the root.  The fuel bounds the walk
/// by the arena size; a longer parent chain would need a link cycle,
/// which no sequence of tree operations creates.
pub open spec fn spec_rel_path(t: TreeV, i: int, fuel: nat) -> Seq<u8>
    decreases fuel,
{
    match t.nodes[i].parent {
        None => t.nodes[i].filename,
        Some(p) => {
            if p == 0 {
                t.nodes[i].filename
            } else if fuel == 0 {
                t.nodes[i].filename
            } else {
                spec_rel_path(t, p, (fuel - 1) as nat) + seq![47u8] + t.nodes[i].filename
            }
        },
    }
}

/// The leaf paths among the first `n` slots, in slot order: every valid
/// leaf node's reconstructed path.
pub open spec fn spec_leaves_upto(t: TreeV, n: int) -> Seq<Seq<u8>>
    decreases n,
{
    if n <= 0 {
        Seq::empty()
    } else {
        let prev = spec_leaves_upto(t, n - 1);
        if t.nodes[n - 1].children.len() == 0 && t.nodes[n - 1].filename.len() > 0 {
            prev.push(spec_rel_path(t, n - 1, t.nodes.len()))
        } else {
            prev
        }
    }
}

/// What `leaves` yields: the paths of all valid leaf nodes.
pub open spec fn spec_leaves(t: TreeV) -> Seq<Seq<u8>> {
    spec_leaves_upto(t, t.nodes.len() as int)
}

impl Tree {
    /// Rebuild one node's path by walking its parent links.
    fn rel_path(&self, i: usize, fuel: usize) -> (r: Vec<u8>)
        requires
            self.wf(),
            i < self@.nodes.len(),
        ensures
            r@ == spec_rel_path(self@, i as int, fuel as nat),
        decreases fuel,
    {
        match self.nodes[i].parent {
            None => crate::bytes::copy_bytes(&self.nodes[i].filename),
            Some(p) => {
                if p == 0 || fuel == 0 {
                    crate::bytes::copy_bytes(&self.nodes[i].filename)
                } else {
                    let mut r = self.rel_path(p, fuel - 1);
                    r.push(47);
                    crate::bytes::append_bytes(&mut r, &self.nodes[i].filename);
                    proof {
                        assert(r@ =~= spec_rel_path(self@, i as int, fuel as nat));
                    }
                    r
                }
            },
        }
    }

    /// The path of every valid leaf node, in slot order.  A fresh tree
    /// reports its root as the one leaf.
    pub fn leaves(&self) -> (r: Vec<Vec<u8>>)
        requires
            self.wf(),
        ensures
            r@.map_values(|p: Vec<u8>| p@) == spec_leaves(self@),
    {
        let mut r: Vec<Vec<u8>> = Vec::new();
        let mut i: usize = 0;
        proof {
            assert(r@.map_values(|p: Vec<u8>| p@) =~= spec_leaves_upto(self@, 0));
        }
        while i < self.nodes.len()
            invariant
                i <= self@.nodes.len(),
                self.wf(),
                r@.map_values(|p: Vec<u8>| p@) == spec_leaves_upto(self@, i as int),
            decreases self@.nodes.len() - i,
        {
            if self.nodes[i].children.len() == 0 && self.nodes[i].filename.len() > 0 {
                let ghost r0 = r@.map_values(|p: Vec<u8>| p@);
                let fuel = self.nodes.len();
                let p = self.rel_path(i, fuel);
                r.push(p);
                proof {
                    assert(r@.map_values(|p: Vec<u8>| p@) =~= r0.push(spec_rel_path(
                        self@,
                        i as int,
                        self@.nodes.len(),
                    )));
                }
            }
            i = i + 1;
        }
        r
    }
}


/// The number of components across all items.
pub open spec fn items_size(items: Seq<Seq<Seq<u8>>>) -> nat
    decreases items.len(),
{
    if items.len() == 0 {
        0
    } else {
        items[0].len() + items_size(items.skip(1))
    }
}

pub proof fn lemma_items_size_append(a: Seq<Seq<Seq<u8>>>, b: Seq<Seq<Seq<u8>>>)
    ensures
        items_size(a + b) == items_size(a) + items_size(b),
    decreases a.len(),
{
    if a.len() == 0 {
        assert(a + b =~= b);
    } else {
        assert((a + b)[0] == a[0]);
        assert((a + b).skip(1) =~= a.skip(1) + b);
        lemma_items_size_append(a.skip(1), b);
    }
}

pub proof fn lemma_items_size_split(items: Seq<Seq<Seq<u8>>>, g: int)
    requires
        0 <= g <= items.len(),
    ensures
        items_size(items) == items_size(items.take(g)) + items_size(items.skip(g)),
{
    assert(items.take(g) + items.skip(g) =~= items);
    lemma_items_size_append(items.take(g), items.skip(g));
}

/// How many consecutive items, from the front, start with `key`.
pub open spec fn run_len(items: Seq<Seq<Seq<u8>>>, key: Seq<u8>) -> int
    decreases items.len(),
{
    if items.len() == 0 {
        0
    } else if items[0].len() == 0 || items[0][0] != key {
        0
    } else {
        1 + run_len(items.skip(1), key)
    }
}

pub proof fn lemma_run_len_bounds(items: Seq<Seq<Seq<u8>>>, key: Seq<u8>)
    ensures
        0 <= run_len(items, key) <= items.len(),
    decreases items.len(),
{
    if items.len() > 0 {
        lemma_run_len_bounds(items.skip(1), key);
    }
}

pub proof fn lemma_run_len_prefix(items: Seq<Seq<Seq<u8>>>, key: Seq<u8>, g: int)
    requires
        0 <= g <= items.len(),
        forall|k: int| 0 <= k < g ==> (#[trigger] items[k]).len() > 0 && items[k][0] == key,
        g == items.len() || items[g].len() == 0 || items[g][0] != key,
    ensures
        run_len(items, key) == g,
    decreases g,
{
    if g == 0 {
        if items.len() > 0 {
        }
    } else {
        assert(items[0].len() > 0 && items[0][0] == key);
        assert(forall|k: int| 0 <= k < g - 1 ==> items.skip(1)[k] == items[k + 1]);
        if g < items.len() {
            assert(items.skip(1)[g - 1] == items[g]);
        }
        lemma_run_len_prefix(items.skip(1), key, g - 1);
    }
}

/// The items of a group with the shared first component stripped;
/// items that end there drop out.
pub open spec fn strip_items(g: Seq<Seq<Seq<u8>>>) -> Seq<Seq<Seq<u8>>>
    decreases g.len(),
{
    if g.len() == 0 {
        Seq::empty()
    } else if g[0].len() > 1 {
        seq![g[0].skip(1)] + strip_items(g.skip(1))
    } else {
        strip_items(g.skip(1))
    }
}

pub proof fn lemma_strip_items_size(g: Seq<Seq<Seq<u8>>>)
    requires
        forall|k: int| 0 <= k < g.len() ==> (#[trigger] g[k]).len() > 0,
    ensures
        items_size(strip_items(g)) + g.len() <= items_size(g),
        forall|k: int|
            0 <= k < strip_items(g).len() ==> (#[trigger] strip_items(g)[k]).len() > 0,
    decreases g.len(),
{
    if g.len() == 0 {
    } else {
        assert(forall|k: int| 0 <= k < g.skip(1).len() ==> g.skip(1)[k] == g[k + 1]);
        lemma_strip_items_size(g.skip(1));
        if g[0].len() > 1 {
            lemma_items_size_append(seq![g[0].skip(1)], strip_items(g.skip(1)));
            assert(items_size(seq![g[0].skip(1)]) == g[0].skip(1).len()) by {
                assert(seq![g[0].skip(1)].skip(1) =~= Seq::<Seq<Seq<u8>>>::empty());
                assert(items_size(Seq::<Seq<Seq<u8>>>::empty()) == 0);
            }
            assert(forall|k: int|
                0 <= k < strip_items(g).len() ==> (#[trigger] strip_items(g)[k]).len() > 0) by {
                assert(strip_items(g)[0] == g[0].skip(1));
                assert(forall|k: int|
                    1 <= k < strip_items(g).len() ==> strip_items(g)[k] == strip_items(
                        g.skip(1),
                    )[k - 1]);
            }
        }
    }
}

/// Serializing one directory level: its item list becomes child
/// records, the canonical encoding is stored as a tree object, and its
/// hash comes back.  The maps thread the blob and tree directories of
/// the store through the walk.
pub open spec fn ser_tree_spec(
    files: Map<Seq<u8>, Seq<u8>>,
    dirs: Map<Seq<u8>, Seq<u8>>,
    snap: Seq<crate::fs::WorkFileV>,
    items: Seq<Seq<Seq<u8>>>,
    prefix: Seq<Seq<u8>>,
) -> Result<(Map<Seq<u8>, Seq<u8>>, Map<Seq<u8>, Seq<u8>>, Seq<u8>), crate::GyatError>
    decreases items_size(items), 1int,
{
    match ser_kids_spec(files, dirs, snap, items, prefix, Seq::empty()) {
        Err(e) => Err(e),
        Ok((f, d, kids)) => {
            let content = crate::objects::encode_tree_spec(kids);
            let key = crate::hash::hex_encode(crate::hash::sha1_of(content));
            let d2 = if d.contains_key(key) {
                d
            } else {
                d.insert(key, content)
            };
            Ok((f, d2, crate::hash::sha1_of(content)))
        },
    }
}

/// Walking an item list group by group: a single one-component group is
/// a file, hashed and stored as a blob; any other group is a
/// subdirectory, serialized recursively under its name.
pub open spec fn ser_kids_spec(
    files: Map<Seq<u8>, Seq<u8>>,
    dirs: Map<Seq<u8>, Seq<u8>>,
    snap: Seq<crate::fs::WorkFileV>,
    items: Seq<Seq<Seq<u8>>>,
    prefix: Seq<Seq<u8>>,
    kids: Seq<crate::objects::FileObjectV>,
) -> Result<
    (Map<Seq<u8>, Seq<u8>>, Map<Seq<u8>, Seq<u8>>, Seq<crate::objects::FileObjectV>),
    crate::GyatError,
>
    decreases items_size(items), 0int,
{
    if items.len() == 0 {
        Ok((files, dirs, kids))
    } else if items[0].len() == 0 {
        Err(crate::GyatError::FormatError)
    } else {
        let name = items[0][0];
        let g = run_len(items, name);
        if g == 1 && items[0].len() == 1 {
            let full = crate::bytes::join_spec(prefix.push(name), 47);
            match crate::fs::wt_find(snap, full) {
                None => Err(crate::GyatError::IoError),
                Some(content) => {
                    let key = crate::hash::hex_encode(crate::hash::sha1_of(content));
                    let f2 = if files.contains_key(key) {
                        files
                    } else {
                        files.insert(key, crate::objects::deflate_of(content))
                    };
                    if items_size(items.skip(1)) < items_size(items) {
                        ser_kids_spec(
                            f2,
                            dirs,
                            snap,
                            items.skip(1),
                            prefix,
                            kids.push(
                                crate::objects::FileObjectV {
                                    ftype: crate::objects::FType::Blob,
                                    hash: crate::hash::sha1_of(content),
                                    component: name,
                                },
                            ),
                        )
                    } else {
                        Err(crate::GyatError::FormatError)
                    }
                },
            }
        } else {
            let sub = strip_items(items.take(g));
            if 0 < g <= items.len() && items_size(sub) < items_size(items) && items_size(
                items.skip(g),
            ) < items_size(items) {
                match ser_tree_spec(files, dirs, snap, sub, prefix.push(name)) {
                    Err(e) => Err(e),
                    Ok((f2, d2, h)) => ser_kids_spec(
                        f2,
                        d2,
                        snap,
                        items.skip(g),
                        prefix,
                        kids.push(
                            crate::objects::FileObjectV {
                                ftype: crate::objects::FType::Tree,
                                hash: h,
                                component: name,
                            },
                        ),
                    ),
                }
            } else {
                Err(crate::GyatError::FormatError)
            }
        }
    }
}

/// The guards inside `ser_kids_spec` that justify its recursion always
/// hold when every item has at least one component.
pub proof fn lemma_ser_guards(items: Seq<Seq<Seq<u8>>>)
    requires
        items.len() > 0,
        forall|k: int| 0 <= k < items.len() ==> (#[trigger] items[k]).len() > 0,
    ensures
        ({
            let g = run_len(items, items[0][0]);
            &&& 0 < g <= items.len()
            &&& items_size(items.skip(1)) < items_size(items)
            &&& items_size(strip_items(items.take(g))) < items_size(items)
            &&& items_size(items.skip(g)) < items_size(items)
        }),
{
    let name = items[0][0];
    let g = run_len(items, name);
    lemma_run_len_bounds(items, name);
    lemma_run_len_bounds(items.skip(1), name);
    assert(g > 0);
    lemma_items_size_split(items, 1);
    assert(items_size(items.take(1)) == items[0].len()) by {
        assert(items.take(1)[0] == items[0]);
        assert(items.take(1).skip(1) =~= Seq::<Seq<Seq<u8>>>::empty());
        assert(items_size(Seq::<Seq<Seq<u8>>>::empty()) == 0);
    }
    lemma_items_size_split(items, g);
    assert(forall|k: int| 0 <= k < g ==> items.take(g)[k] == items[k]);
    lemma_strip_items_size(items.take(g));
    assert(items_size(items.take(g)) >= g) by {
        lemma_items_size_min(items.take(g));
    }
}

pub proof fn lemma_items_size_min(items: Seq<Seq<Seq<u8>>>)
    requires
        forall|k: int| 0 <= k < items.len() ==> (#[trigger] items[k]).len() > 0,
    ensures
        items_size(items) >= items.len(),
    decreases items.len(),
{
    if items.len() > 0 {
        assert(forall|k: int| 0 <= k < items.skip(1).len() ==> items.skip(1)[k] == items[k + 1]);
        lemma_items_size_min(items.skip(1));
    }
}


/// Copy a component list without its first component.
fn copy_item_tail(it: &Vec<Vec<u8>>) -> (r: Vec<Vec<u8>>)
    requires
        it@.len() > 0,
    ensures
        crate::canon::item_view(r) == crate::canon::item_view(*it).skip(1),
{
    let ghost tv = crate::canon::item_view(*it);
    let mut r: Vec<Vec<u8>> = Vec::new();
    let mut i: usize = 1;
    proof {
        assert(crate::canon::item_view(r) =~= tv.skip(1).take(0));
    }
    while i < it.len()
        invariant
            1 <= i <= it.len(),
            tv == crate::canon::item_view(*it),
            crate::canon::item_view(r) == tv.skip(1).take(i - 1),
        decreases it.len() - i,
    {
        proof {
            assert(tv[i as int] == it@[i as int]@);
            assert(tv.skip(1)[i - 1] == tv[i as int]);
        }
        let c = crate::bytes::copy_bytes(&it[i]);
        let ghost prev = crate::canon::item_view(r);
        r.push(c);
        proof {
            assert(crate::canon::item_view(r) =~= prev.push(tv[i as int]));
            assert(prev.push(tv[i as int]) =~= tv.skip(1).take(i as int));
        }
        i = i + 1;
    }
    proof {
        assert(tv.skip(1).take(i - 1) =~= tv.skip(1));
    }
    r
}

/// Serialize one directory level into the store: write a blob object
/// for each file item, recurse for each subdirectory group, then write
/// this level's tree object and return its raw hash.
fn ser_items(
    store: &mut crate::store::ObjectStore,
    worktree: &Vec<crate::fs::WorkFile>,
    items: &Vec<Vec<Vec<u8>>>,
    prefix: &Vec<Vec<u8>>,
) -> (r: Result<Vec<u8>, crate::GyatError>)
    requires
        old(store).wf(),
        forall|k: int| 0 <= k < items@.len() ==> (#[trigger] items@[k])@.len() > 0,
    ensures
        final(store).wf(),
        final(store).commits@ == old(store).commits@,
        ({
            let res = ser_tree_spec(
                old(store).files.as_map(),
                old(store).dirs.as_map(),
                worktree@.map_values(|w: crate::fs::WorkFile| w@),
                crate::canon::items_view(items@),
                crate::canon::item_view(*prefix),
            );
            match r {
                Ok(h) => res matches Ok(out) && final(store).files.as_map() == out.0
                    && final(store).dirs.as_map() == out.1 && h@ == out.2,
                Err(e) => res matches Err(e2) && e == e2,
            }
        }),
    decreases items_size(crate::canon::items_view(items@)),
{
    let ghost iv = crate::canon::items_view(items@);
    let ghost wv = worktree@.map_values(|w: crate::fs::WorkFile| w@);
    let ghost pv = crate::canon::item_view(*prefix);
    let ghost f0 = old(store).files.as_map();
    let ghost d0 = old(store).dirs.as_map();
    proof {
        assert(forall|k: int|
            0 <= k < iv.len() ==> #[trigger] iv[k] == crate::canon::item_view(items@[k]));
        assert(forall|k: int| 0 <= k < iv.len() ==> (#[trigger] iv[k]).len() > 0);
        assert(iv.skip(0) =~= iv);
    }
    let mut kids: Vec<crate::objects::FileObject> = Vec::new();
    let mut i: usize = 0;
    proof {
        assert(kids@.map_values(|c: crate::objects::FileObject| c@) =~= Seq::<
            crate::objects::FileObjectV,
        >::empty());
    }
    while i < items.len()
        invariant
            i <= items.len(),
            iv == crate::canon::items_view(items@),
            wv == worktree@.map_values(|w: crate::fs::WorkFile| w@),
            pv == crate::canon::item_view(*prefix),
            forall|k: int| 0 <= k < iv.len() ==> (#[trigger] iv[k]).len() > 0,
            forall|k: int|
                0 <= k < iv.len() ==> #[trigger] iv[k] == crate::canon::item_view(items@[k]),
            forall|k: int| 0 <= k < items@.len() ==> (#[trigger] items@[k])@.len() > 0,
            store.wf(),
            store.commits@ == old(store).commits@,
            ser_kids_spec(f0, d0, wv, iv, pv, Seq::empty()) == ser_kids_spec(
                store.files.as_map(),
                store.dirs.as_map(),
                wv,
                iv.skip(i as int),
                pv,
                kids@.map_values(|c: crate::objects::FileObject| c@),
            ),
            f0 == old(store).files.as_map(),
            d0 == old(store).dirs.as_map(),
        decreases items.len() - i,
    {
        let ghost rem = iv.skip(i as int);
        let ghost kv = kids@.map_values(|c: crate::objects::FileObject| c@);
        proof {
            assert(rem[0] == iv[i as int]);
            assert(forall|k: int| 0 <= k < rem.len() ==> #[trigger] rem[k] == iv[i + k]);
            lemma_ser_guards(rem);
            assert(rem.skip(1) =~= iv.skip(i + 1));
        }
        let ghost name = iv[i as int][0];
        // measure the group of items sharing the first component
        let mut g: usize = 1;
        while i + g < items.len() && crate::bytes::bytes_eq(&items[i + g][0], &items[i][0])
            invariant
                1 <= g,
                i + g <= items.len(),
                iv == crate::canon::items_view(items@),
                forall|k: int| 0 <= k < iv.len() ==> (#[trigger] iv[k]).len() > 0,
                forall|k: int|
                    0 <= k < iv.len() ==> #[trigger] iv[k] == crate::canon::item_view(
                        items@[k],
                    ),
                forall|k: int| 0 <= k < items@.len() ==> (#[trigger] items@[k])@.len() > 0,
                name == iv[i as int][0],
                forall|k: int| 0 <= k < g ==> (#[trigger] iv[i + k])[0] == name,
            decreases items.len() - i - g,
        {
            proof {
                assert(iv[i + g][0] == items@[i + g as int]@[0]@);
                assert(iv[i as int][0] == items@[i as int]@[0]@);
            }
            g = g + 1;
        }
        proof {
            if i + g < items.len() {
                assert(iv[i + g][0] == items@[i + g as int]@[0]@);
                assert(iv[i as int][0] == items@[i as int]@[0]@);
            }
            assert(forall|k: int|
                0 <= k < g ==> (#[trigger] rem[k]).len() > 0 && rem[k][0] == name);
            if g < rem.len() {
                assert(rem[g as int] == iv[i + g]);
            }
            lemma_run_len_prefix(rem, name, g as int);
        }
        // the full component list of this child
        let mut pv2 = crate::canon::copy_item(prefix);
        proof {
            assert(iv[i as int][0] == items@[i as int]@[0]@);
        }
        let namev = crate::bytes::copy_bytes(&items[i][0]);
        let ghost pv2_target = pv.push(name);
        pv2.push(namev);
        proof {
            assert(crate::canon::item_view(pv2) =~= pv2_target);
        }
        if g == 1 && items[i].len() == 1 {
            // a file: hash and store its content as a blob
            let full = crate::bytes::join(&pv2, 47);
            proof {
                assert(pv2@.map_values(|p: Vec<u8>| p@) == crate::canon::item_view(pv2));
            }
            let content = match crate::fs::find_work_file(worktree, &full) {
                None => {
                    return Err(crate::GyatError::IoError);
                },
                Some(c) => c,
            };
            let h = store.write_blob(&content);
            let name2 = crate::bytes::copy_bytes(&items[i][0]);
            let kid = crate::objects::FileObject {
                ftype: crate::objects::FType::Blob,
                hash: h,
                component: name2,
            };
            let ghost kprev = kids@.map_values(|c: crate::objects::FileObject| c@);
            kids.push(kid);
            proof {
                assert(kids@.map_values(|c: crate::objects::FileObject| c@) =~= kprev.push(
                    crate::objects::FileObjectV {
                        ftype: crate::objects::FType::Blob,
                        hash: crate::hash::sha1_of(content@),
                        component: name,
                    },
                ));
            }
            i = i + 1;
        } else {
            // a subdirectory: strip the shared component and recurse
            let mut sub: Vec<Vec<Vec<u8>>> = Vec::new();
            let ghost group = rem.take(g as int);
            let mut k: usize = 0;
            proof {
                assert(forall|m: int| 0 <= m < g ==> #[trigger] group[m] == rem[m]);
                assert(group.skip(0) =~= group);
                assert(crate::canon::items_view(sub@) =~= Seq::<Seq<Seq<u8>>>::empty());
            }
            while k < g
                invariant
                    k <= g,
                    i + g <= items.len(),
                    iv == crate::canon::items_view(items@),
                    forall|m: int|
                        0 <= m < iv.len() ==> #[trigger] iv[m] == crate::canon::item_view(
                            items@[m],
                        ),
                    forall|m: int| 0 <= m < iv.len() ==> (#[trigger] iv[m]).len() > 0,
                    group == iv.skip(i as int).take(g as int),
                    forall|m: int| 0 <= m < g ==> #[trigger] group[m] == iv[i + m],
                    strip_items(group) == crate::canon::items_view(sub@) + strip_items(
                        group.skip(k as int),
                    ),
                decreases g - k,
            {
                proof {
                    assert(group.skip(k as int)[0] == group[k as int]);
                    assert(group[k as int] == iv[i + k]);
                    assert(iv[i + k] == crate::canon::item_view(items@[i + k as int]));
                    assert(group.skip(k as int).skip(1) =~= group.skip(k + 1));
                }
                if items[i + k].len() > 1 {
                    let t = copy_item_tail(&items[i + k]);
                    let ghost sprev = crate::canon::items_view(sub@);
                    sub.push(t);
                    proof {
                        assert(crate::canon::items_view(sub@) =~= sprev.push(iv[i + k].skip(1)));
                        assert(sprev.push(iv[i + k].skip(1)) + strip_items(group.skip(k + 1))
                            =~= sprev + (seq![iv[i + k].skip(1)] + strip_items(
                            group.skip(k + 1),
                        )));
                    }
                } else {
                    proof {
                        assert(iv[i + k].len() == 1);
                    }
                }
                k = k + 1;
            }
            proof {
                assert(group.skip(k as int).len() == 0);
                assert(strip_items(group.skip(k as int)) =~= Seq::<Seq<Seq<u8>>>::empty());
                assert(crate::canon::items_view(sub@) + Seq::<Seq<Seq<u8>>>::empty()
                    =~= crate::canon::items_view(sub@));
                assert(crate::canon::items_view(sub@) == strip_items(group));
                lemma_strip_items_size(group);
                lemma_items_size_split(iv, i as int);
                lemma_items_size_split(iv.skip(i as int), g as int);
                lemma_items_size_min(group);
                assert forall|m: int| 0 <= m < sub@.len() implies (#[trigger] sub@[m])@.len()
                    > 0 by {
                    assert(crate::canon::items_view(sub@)[m] == crate::canon::item_view(
                        sub@[m],
                    ));
                    assert(crate::canon::items_view(sub@)[m].len() > 0);
                }
            }
            let h = match ser_items(store, worktree, &sub, &pv2) {
                Err(e) => {
                    return Err(e);
                },
                Ok(h) => h,
            };
            let name2 = crate::bytes::copy_bytes(&items[i][0]);
            let kid = crate::objects::FileObject {
                ftype: crate::objects::FType::Tree,
                hash: h,
                component: name2,
            };
            let ghost kprev = kids@.map_values(|c: crate::objects::FileObject| c@);
            kids.push(kid);
            proof {
                assert(rem.skip(g as int) =~= iv.skip(i + g));
                assert(kids@.map_values(|c: crate::objects::FileObject| c@) =~= kprev.push(
                    crate::objects::FileObjectV {
                        ftype: crate::objects::FType::Tree,
                        hash: h@,
                        component: name,
                    },
                ));
            }
            i = i + g;
        }
    }
    proof {
        assert(iv.skip(i as int).len() == 0);
    }
    let h2 = store.write_tree(&kids);
    Ok(h2)
}

impl Tree {
    /// Create object files from the data recorded in this tree: every
    /// leaf's content (taken from the snapshot) is stored as a blob and
    /// every directory level as a tree object, children in canonical
    /// order, depth first.  Returns the raw hash of the root tree.
    pub fn to_object_file(
        &self,
        store: &mut crate::store::ObjectStore,
        worktree: &Vec<crate::fs::WorkFile>,
    ) -> (r: Result<Vec<u8>, crate::GyatError>)
        requires
            self.wf(),
            old(store).wf(),
        ensures
            final(store).wf(),
            final(store).commits@ == old(store).commits@,
            ({
                let items = crate::canon::canon_spec(
                    spec_leaves(self@).map_values(|p: Seq<u8>| crate::bytes::split_spec(p, 47)),
                );
                let res = ser_tree_spec(
                    old(store).files.as_map(),
                    old(store).dirs.as_map(),
                    worktree@.map_values(|w: crate::fs::WorkFile| w@),
                    items,
                    Seq::<Seq<u8>>::empty(),
                );
                match r {
                    Ok(h) => res matches Ok(out) && final(store).files.as_map() == out.0
                        && final(store).dirs.as_map() == out.1 && h@ == out.2,
                    Err(e) => res matches Err(e2) && e == e2,
                }
            }),
    {
        let ps = self.leaves();
        let ghost psv = ps@.map_values(|p: Vec<u8>| p@);
        let mut raw: Vec<Vec<Vec<u8>>> = Vec::new();
        let mut i: usize = 0;
        proof {
            assert(crate::canon::items_view(raw@) =~= psv.map_values(
                |p: Seq<u8>| crate::bytes::split_spec(p, 47),
            ).take(0));
        }
        while i < ps.len()
            invariant
                i <= ps.len(),
                psv == ps@.map_values(|p: Vec<u8>| p@),
                crate::canon::items_view(raw@) == psv.map_values(
                    |p: Seq<u8>| crate::bytes::split_spec(p, 47),
                ).take(i as int),
            decreases ps.len() - i,
        {
            proof {
                assert(psv[i as int] == ps@[i as int]@);
                assert(psv.map_values(|p: Seq<u8>| crate::bytes::split_spec(p, 47))[i as int]
                    == crate::bytes::split_spec(psv[i as int], 47));
            }
            let comps = crate::bytes::split(&ps[i], 47);
            let ghost rprev = crate::canon::items_view(raw@);
            raw.push(comps);
            proof {
                assert(crate::canon::items_view(raw@) =~= rprev.push(crate::bytes::split_spec(
                    psv[i as int],
                    47,
                )));
                assert(rprev.push(crate::bytes::split_spec(psv[i as int], 47)) =~= psv.map_values(
                    |p: Seq<u8>| crate::bytes::split_spec(p, 47),
                ).take(i + 1 as int));
            }
            i = i + 1;
        }
        proof {
            let m = psv.map_values(|p: Seq<u8>| crate::bytes::split_spec(p, 47));
            assert(m.take(i as int) =~= m);
            assert forall|k: int| 0 <= k < m.len() implies (#[trigger] m[k]).len() > 0 by {
                crate::bytes::lemma_split_spec_len(psv[k], 47);
            }
            crate::canon::lemma_canon_nonempty(m);
        }
        let items = crate::canon::canon_items(&raw);
        let prefix: Vec<Vec<u8>> = Vec::new();
        proof {
            assert(crate::canon::item_view(prefix) =~= Seq::<Seq<u8>>::empty());
            let cv = crate::canon::canon_spec(
                psv.map_values(|p: Seq<u8>| crate::bytes::split_spec(p, 47)),
            );
            assert(forall|k: int|
                0 <= k < crate::canon::items_view(items@).len()
                    ==> (#[trigger] crate::canon::items_view(items@)[k]).len() > 0);
            assert forall|k: int| 0 <= k < items@.len() implies (#[trigger] items@[k])@.len()
                > 0 by {
                assert(crate::canon::items_view(items@)[k] == crate::canon::item_view(
                    items@[k],
                ));
                assert(crate::canon::items_view(items@)[k].len() > 0);
            }
        }
        ser_items(store, worktree, &items, &prefix)
    }
}


/// Whether a path occurs in a path list.
pub open spec fn in_paths(ps: Seq<Seq<u8>>, p: Seq<u8>) -> bool {
    exists|i: int| 0 <= i < ps.len() && ps[i] == p
}

/// Law (tree determinism): serialization hashes are a function of the
/// leaf path set and the snapshot contents alone.  Two trees whose leaf
/// lists hold the same paths — in any order, from independently
/// constructed states — serialize to the same root hash over the same
/// snapshot and store.
pub proof fn lemma_tree_determinism(
    files: Map<Seq<u8>, Seq<u8>>,
    dirs: Map<Seq<u8>, Seq<u8>>,
    snap: Seq<crate::fs::WorkFileV>,
    leaves1: Seq<Seq<u8>>,
    leaves2: Seq<Seq<u8>>,
)
    requires
        forall|p: Seq<u8>| #[trigger] in_paths(leaves1, p) <==> in_paths(leaves2, p),
    ensures
        ser_tree_spec(
            files,
            dirs,
            snap,
            crate::canon::canon_spec(leaves1.map_values(|p: Seq<u8>| crate::bytes::split_spec(p, 47))),
            Seq::<Seq<u8>>::empty(),
        ) == ser_tree_spec(
            files,
            dirs,
            snap,
            crate::canon::canon_spec(leaves2.map_values(|p: Seq<u8>| crate::bytes::split_spec(p, 47))),
            Seq::<Seq<u8>>::empty(),
        ),
{
    let m1 = leaves1.map_values(|p: Seq<u8>| crate::bytes::split_spec(p, 47));
    let m2 = leaves2.map_values(|p: Seq<u8>| crate::bytes::split_spec(p, 47));
    assert forall|y: Seq<Seq<u8>>|
        #[trigger] crate::canon::in_items(m1, y) <==> crate::canon::in_items(m2, y) by {
        if crate::canon::in_items(m1, y) {
            let i = choose|i: int| 0 <= i < m1.len() && m1[i] == y;
            assert(in_paths(leaves1, leaves1[i]));
            assert(in_paths(leaves2, leaves1[i]));
            let j = choose|j: int| 0 <= j < leaves2.len() && leaves2[j] == leaves1[i];
            assert(m2[j] == y);
        }
        if crate::canon::in_items(m2, y) {
            let i = choose|i: int| 0 <= i < m2.len() && m2[i] == y;
            assert(in_paths(leaves2, leaves2[i]));
            assert(in_paths(leaves1, leaves2[i]));
            let j = choose|j: int| 0 <= j < leaves1.len() && leaves1[j] == leaves2[i];
            assert(m1[j] == y);
        }
    }
    crate::canon::lemma_canon_same_members(m1, m2);
}


/// Law (arena reuse): when the add walk must allocate and freed slots
/// are pooled, it fills the lowest-numbered freed slot — the arena
/// does not grow.  The freed slot of an evicted child is therefore the
/// next slot a subsequent allocation takes.
pub proof fn lemma_lowest_free_slot_reused(
    t: TreeV,
    idx: int,
    comps: Seq<Seq<u8>>,
    added: bool,
)
    requires
        tree_wf(t),
        0 <= idx < t.nodes.len(),
        comps.len() > 0,
        find_child(t.nodes[idx].children, comps[0]) is None,
        t.frees.len() > 0,
    ensures
        0 <= min_val(t.frees) < t.nodes.len(),
        ({
            let slot = min_val(t.frees);
            let fresh = TreeNodeV {
                children: Seq::empty(),
                filename: comps[0],
                parent: Some(idx),
            };
            let nodes2 = t.nodes.update(slot, fresh);
            let nodes3 = nodes2.update(
                idx,
                TreeNodeV {
                    children: nodes2[idx].children.push((comps[0], slot)),
                    filename: nodes2[idx].filename,
                    parent: nodes2[idx].parent,
                },
            );
            let size2: int = if t.size < usize::MAX as int {
                t.size + 1
            } else {
                t.size
            };
            let t2 = TreeV {
                nodes: nodes3,
                size: size2,
                frees: t.frees.remove(min_idx(t.frees)),
            };
            &&& spec_add_walk(t, idx, comps, added) == spec_add_walk(
                t2,
                slot,
                comps.skip(1),
                true,
            )
            &&& t2.nodes.len() == t.nodes.len()
            &&& t2.frees.len() == t.frees.len() - 1
        }),
{
    lemma_min_idx_in_range(t.frees);
    assert(t.frees[min_idx(t.frees)] == min_val(t.frees));
    assert(0 <= min_val(t.frees) < t.nodes.len());
    let slot = min_val(t.frees);
    let fresh = TreeNodeV { children: Seq::empty(), filename: comps[0], parent: Some(idx) };
    let nodes2 = t.nodes.update(slot, fresh);
    let nodes3 = nodes2.update(
        idx,
        TreeNodeV {
            children: nodes2[idx].children.push((comps[0], slot)),
            filename: nodes2[idx].filename,
            parent: nodes2[idx].parent,
        },
    );
    let size2: int = if t.size < usize::MAX as int {
        t.size + 1
    } else {
        t.size
    };
    let t2 = TreeV { nodes: nodes3, size: size2, frees: t.frees.remove(min_idx(t.frees)) };
    assert(t2.nodes.len() == t.nodes.len());
    assert(t2.frees.len() == t.frees.len() - 1);
    assert(spec_add_walk(t, idx, comps, added) == spec_add_walk(t2, slot, comps.skip(1), true));
}

} // verus!
