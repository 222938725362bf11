//! The structural index of one first-level comment and everything below it.
//!
//! Each first-level comment owns one `CommentIdTree` blob; the node for a
//! comment records the key its flat record is stored under, its level (depth
//! below the first-level comment), and its children.  Parent/child
//! relationships are defined solely by this structure; the path form of a
//! comment id is derived from it.
//!
//! Mutation contracts are phrased pointwise over [`CommentIdTree::node_at`]:
//! which relative paths exist after the operation, and with which key and
//! level.

use vstd::prelude::*;

use crate::ids::{CKeyV, CommentKey, Seg};

verus! {

/// The segment a tree node is addressed by: the last segment of its key.
pub open spec fn seg_of(k: CKeyV) -> Seg {
    match k {
        CKeyV::Full(_writ, segs) => segs.last(),
        CKeyV::Short(s) => s,
    }
}

/// `a` is a prefix of `b`.
pub open spec fn is_prefix_of(a: Seq<Seg>, b: Seq<Seg>) -> bool {
    a.len() <= b.len() && a == b.take(a.len() as int)
}

/// One node of the structural index.
pub struct CommentIdTree {
    pub key: CommentKey,
    pub level: u64,
    pub children: Vec<CommentIdTree>,
}

/// First child of `cs` whose addressing segment is `s`.
pub open spec fn find_child(cs: Seq<CommentIdTree>, s: Seg) -> Option<CommentIdTree>
    decreases cs.len(),
{
    if cs.len() == 0 {
        None
    } else if seg_of(cs[0].key@) == s {
        Some(cs[0])
    } else {
        find_child(cs.drop_first(), s)
    }
}

impl CommentIdTree {
    /// The segment this node is addressed by.
    pub open spec fn seg(self) -> Seg {
        seg_of(self.key@)
    }

    /// The subtree at relative path `p` below this node, if the path exists.
    pub open spec fn sub(self, p: Seq<Seg>) -> Option<CommentIdTree>
        decreases p.len(),
    {
        if p.len() == 0 {
            Some(self)
        } else {
            match find_child(self.children@, p[0]) {
                Some(c) => c.sub(p.drop_first()),
                None => None,
            }
        }
    }

    /// Whether relative path `p` exists below this node.
    pub open spec fn contains_path(self, p: Seq<Seg>) -> bool {
        self.sub(p) is Some
    }

    /// Key and level of the node at relative path `p`, if any: the pointwise
    /// description all mutation contracts are phrased over.
    pub open spec fn node_at(self, p: Seq<Seg>) -> Option<(CKeyV, u64)> {
        match self.sub(p) {
            Some(t) => Some((t.key@, t.level)),
            None => None,
        }
    }

    /// Children are addressed by pairwise distinct segments; every child is
    /// stored under its bare segment, one level deeper than its parent.
    pub open spec fn wf(self) -> bool
        decreases self,
    {
        &&& forall|i: int, j: int|
            0 <= i < j < self.children@.len() ==> (#[trigger] self.children@[i]).seg()
                != (#[trigger] self.children@[j]).seg()
        &&& forall|i: int|
            0 <= i < self.children@.len() ==> {
                let c = #[trigger] self.children@[i];
                &&& c.wf()
                &&& c.level == self.level + 1
                &&& c.key@ is Short
            }
    }

    /// A fresh childless node, as created for a new comment.
    pub fn leaf(key: CommentKey, level: u64) -> (r: CommentIdTree)
        ensures
            r.key == key,
            r.level == level,
            r.children@.len() == 0,
            r.wf(),
            forall|q: Seq<Seg>| #[trigger] r.node_at(q) == if q.len() == 0 {
                Some((key@, level))
            } else {
                None::<(CKeyV, u64)>
            },
    {
        let r = CommentIdTree { key, level, children: Vec::new() };
        proof {
            assert forall|q: Seq<Seg>| q.len() != 0 implies r.node_at(q) is None by {
                assert(find_child(r.children@, q[0]) is None);
            }
        }
        r
    }
}

/// The stripped insertion path `insert_child` derives from its input: an
/// optional trailing segment equal to the new node's own and an optional
/// leading segment equal to the root node's own are dropped; a path that
/// is empty at any step is broken (None).
pub open spec fn insertion_path(p: Seq<Seg>, root_seg: Seg, node_seg: Seg) -> Option<Seq<Seg>> {
    if p.len() == 0 {
        None
    } else {
        let p1 = if p.last() == node_seg {
            p.drop_last()
        } else {
            p
        };
        if p1.len() == 0 {
            None
        } else {
            let p2 = if p1.first() == root_seg {
                p1.drop_first()
            } else {
                p1
            };
            if p2.len() == 0 {
                None
            } else {
                Some(p2)
            }
        }
    }
}

/// Everything `insert_child` changes, stated pointwise: the subtree `node`
/// now hangs at `tgt`, every path outside `tgt` is untouched.
pub open spec fn tree_inserted(
    old_t: CommentIdTree,
    tgt: Seq<Seg>,
    node: CommentIdTree,
    new_t: CommentIdTree,
) -> bool {
    &&& new_t.key == old_t.key
    &&& new_t.level == old_t.level
    &&& forall|q: Seq<Seg>|
        #[trigger] new_t.node_at(q) == if is_prefix_of(tgt, q) {
            node.node_at(q.skip(tgt.len() as int))
        } else {
            old_t.node_at(q)
        }
}

/// Everything `remove_child` changes, stated pointwise: every path at or
/// below `tgt` is gone, every other path is untouched.
pub open spec fn tree_removed(
    old_t: CommentIdTree,
    tgt: Seq<Seg>,
    new_t: CommentIdTree,
) -> bool {
    &&& new_t.key == old_t.key
    &&& new_t.level == old_t.level
    &&& forall|q: Seq<Seg>|
        #[trigger] new_t.node_at(q) == if is_prefix_of(tgt, q) {
            None::<(CKeyV, u64)>
        } else {
            old_t.node_at(q)
        }
}

proof fn lemma_find_child_skip(cs: Seq<CommentIdTree>, s: Seg, i: int)
    requires
        0 <= i <= cs.len(),
        forall|k: int| 0 <= k < i ==> (#[trigger] cs[k]).seg() != s,
    ensures
        find_child(cs, s) == find_child(cs.skip(i), s),
    decreases i,
{
    if i == 0 {
        assert(cs.skip(0) =~= cs);
    } else {
        assert(cs[0].seg() != s);
        lemma_find_child_skip(cs.drop_first(), s, i - 1);
        assert(cs.drop_first().skip(i - 1) =~= cs.skip(i));
    }
}

/// If no segment before index `i` matches and `cs[i]` does, the scan stops
/// exactly at `cs[i]`.
proof fn lemma_find_child_found(cs: Seq<CommentIdTree>, s: Seg, i: int)
    requires
        0 <= i < cs.len(),
        forall|k: int| 0 <= k < i ==> (#[trigger] cs[k]).seg() != s,
        cs[i].seg() == s,
    ensures
        find_child(cs, s) == Some(cs[i]),
{
    lemma_find_child_skip(cs, s, i);
    assert(cs.skip(i)[0] == cs[i]);
}

proof fn lemma_find_child_none(cs: Seq<CommentIdTree>, s: Seg)
    requires
        forall|k: int| 0 <= k < cs.len() ==> (#[trigger] cs[k]).seg() != s,
    ensures
        find_child(cs, s) is None,
{
    lemma_find_child_skip(cs, s, cs.len() as int);
}

/// Replacing the child at `j` by one with the same segment redirects lookups
/// of that segment and leaves every other lookup unchanged.
proof fn lemma_find_child_update(cs: Seq<CommentIdTree>, j: int, c2: CommentIdTree, s: Seg)
    requires
        0 <= j < cs.len(),
        c2.seg() == cs[j].seg(),
        forall|k: int, l: int|
            0 <= k < l < cs.len() ==> (#[trigger] cs[k]).seg() != (#[trigger] cs[l]).seg(),
    ensures
        find_child(cs.update(j, c2), s) == if s == cs[j].seg() {
            Some(c2)
        } else {
            find_child(cs, s)
        },
    decreases cs.len(),
{
    let cs2 = cs.update(j, c2);
    if s == cs[j].seg() {
        assert(forall|k: int| 0 <= k < j ==> (#[trigger] cs2[k]).seg() != s);
        lemma_find_child_found(cs2, s, j);
    } else {
        if cs.len() > 0 {
            if j == 0 {
                assert(cs2.drop_first() =~= cs.drop_first());
            } else {
                if cs[0].seg() == s {
                    assert(cs2[0] == cs[0]);
                } else {
                    assert(cs2.drop_first() =~= cs.drop_first().update(j - 1, c2));
                    lemma_find_child_update(cs.drop_first(), j - 1, c2, s);
                }
            }
        }
    }
}

/// Appending a child with a fresh segment only adds a lookup for that
/// segment.
proof fn lemma_find_child_push(cs: Seq<CommentIdTree>, c: CommentIdTree, s: Seg)
    requires
        forall|k: int| 0 <= k < cs.len() ==> (#[trigger] cs[k]).seg() != c.seg(),
    ensures
        find_child(cs.push(c), s) == if s == c.seg() {
            Some(c)
        } else {
            find_child(cs, s)
        },
    decreases cs.len(),
{
    let cs2 = cs.push(c);
    if cs.len() == 0 {
        assert(cs2.len() == 1);
        assert(cs2[0] == c);
        if s == c.seg() {
            assert(find_child(cs2, s) == Some(c));
        } else {
            assert(cs2.drop_first() =~= Seq::<CommentIdTree>::empty());
            assert(find_child(cs2, s) is None);
            assert(find_child(cs, s) is None);
        }
    } else {
        assert(cs2[0] == cs[0]);
        assert(cs[0].seg() != c.seg());
        if cs[0].seg() == s {
            assert(find_child(cs2, s) == Some(cs2[0]));
            assert(find_child(cs, s) == Some(cs[0]));
        } else {
            assert(cs2.drop_first() =~= cs.drop_first().push(c));
            assert forall|k: int|
                0 <= k < cs.drop_first().len() implies (#[trigger]
            cs.drop_first()[k]).seg() != c.seg() by {
                assert(cs.drop_first()[k] == cs[k + 1]);
            }
            lemma_find_child_push(cs.drop_first(), c, s);
            assert(find_child(cs2, s) == find_child(cs2.drop_first(), s));
            assert(find_child(cs, s) == find_child(cs.drop_first(), s));
        }
    }
}

/// Removing the child at `j` only removes the lookup for its segment.
proof fn lemma_find_child_remove(cs: Seq<CommentIdTree>, j: int, s: Seg)
    requires
        0 <= j < cs.len(),
        forall|k: int, l: int|
            0 <= k < l < cs.len() ==> (#[trigger] cs[k]).seg() != (#[trigger] cs[l]).seg(),
    ensures
        find_child(cs.remove(j), s) == if s == cs[j].seg() {
            None::<CommentIdTree>
        } else {
            find_child(cs, s)
        },
    decreases cs.len(),
{
    let cs2 = cs.remove(j);
    if s == cs[j].seg() {
        assert(forall|k: int| 0 <= k < cs2.len() ==> (#[trigger] cs2[k]).seg() != s) by {
            assert forall|k: int| 0 <= k < cs2.len() implies (#[trigger] cs2[k]).seg() != s by {
                if k < j {
                    assert(cs2[k] == cs[k]);
                } else {
                    assert(cs2[k] == cs[k + 1]);
                }
            }
        }
        lemma_find_child_none(cs2, s);
    } else {
        if j == 0 {
            assert(cs2 =~= cs.drop_first());
        } else {
            if cs[0].seg() == s {
                assert(cs2[0] == cs[0]);
            } else {
                assert(cs2.drop_first() =~= cs.drop_first().remove(j - 1));
                lemma_find_child_remove(cs.drop_first(), j - 1, s);
            }
        }
    }
}

/// Index of the first child of `cs` addressed by `s`, if any.
fn find_idx(cs: &Vec<CommentIdTree>, s: Seg) -> (r: Option<usize>)
    requires
        forall|k: int| 0 <= k < cs@.len() ==> ckey_wf((#[trigger] cs@[k]).key@),
    ensures
        match r {
            Some(j) => {
                &&& j < cs@.len()
                &&& cs@[j as int].seg() == s
                &&& forall|k: int| 0 <= k < j ==> (#[trigger] cs@[k]).seg() != s
                &&& find_child(cs@, s) == Some(cs@[j as int])
            },
            None => find_child(cs@, s) is None,
        },
{
    let n = cs.len();
    let mut j: usize = 0;
    while j < n
        invariant
            n == cs@.len(),
            j <= n,
            forall|k: int| 0 <= k < cs@.len() ==> ckey_wf((#[trigger] cs@[k]).key@),
            forall|k: int| 0 <= k < j ==> (#[trigger] cs@[k]).seg() != s,
        decreases n - j,
    {
        if seg_key(&cs[j].key) == s {
            proof {
                lemma_find_child_found(cs@, s, j as int);
            }
            return Some(j);
        }
        j += 1;
    }
    proof {
        lemma_find_child_none(cs@, s);
    }
    None
}

/// A storage key that can be addressed: a full path has at least one segment.
pub open spec fn ckey_wf(k: CKeyV) -> bool {
    match k {
        CKeyV::Full(_writ, segs) => segs.len() >= 1,
        CKeyV::Short(_s) => true,
    }
}

/// Extracts the addressing segment of a storage key.
pub fn seg_key(k: &CommentKey) -> (s: Seg)
    requires
        ckey_wf(k@),
    ensures
        s == seg_of(k@),
{
    match k {
        CommentKey::Full(id) => id.segs[id.segs.len() - 1],
        CommentKey::Short(s) => *s,
    }
}

impl CommentIdTree {
    /// Puts `node` in as a direct child, replacing any existing child with
    /// the same segment.
    pub fn insert(&mut self, node: CommentIdTree)
        requires
            old(self).wf(),
            node.wf(),
            node.key@ is Short,
            node.level == old(self).level + 1,
        ensures
            final(self).wf(),
            tree_inserted(*old(self), seq![node.seg()], node, *final(self)),
    {
        let s = seg_key(&node.key);
        let ghost old_children = self.children@;
        let ghost nseg = node.seg();
        match find_idx(&self.children, s) {
            Some(j) => {
                self.children[j] = node;
                proof {
                    assert(self.children@ == old_children.update(j as int, node));
                    assert forall|t: Seg|
                        find_child(self.children@, t) == (if t == nseg {
                            Some(node)
                        } else {
                            find_child(old_children, t)
                        }) by {
                        lemma_find_child_update(old_children, j as int, node, t);
                    }
                    // the segment sequence is unchanged, so distinctness carries over
                    assert forall|k: int|
                        0 <= k < self.children@.len() implies (#[trigger]
                    self.children@[k]).seg() == old_children[k].seg() by {}
                }
            },
            None => {
                self.children.push(node);
                proof {
                    assert forall|k: int| 0 <= k < old_children.len() implies (#[trigger]
                    old_children[k]).seg() != nseg by {
                        if old_children[k].seg() == nseg {
                            let kk = choose|kk: int|
                                0 <= kk <= k && old_children[kk].seg() == nseg && forall|l: int|
                                    0 <= l < kk ==> (#[trigger] old_children[l]).seg() != nseg;
                            assert(exists|kk: int|
                                0 <= kk <= k && old_children[kk].seg() == nseg && forall|l: int|
                                    0 <= l < kk ==> (#[trigger] old_children[l]).seg() != nseg)
                                by {
                                first_match_exists(old_children, nseg, k);
                            }
                            lemma_find_child_found(old_children, nseg, kk);
                        }
                    }
                    assert forall|t: Seg|
                        find_child(self.children@, t) == (if t == nseg {
                            Some(node)
                        } else {
                            find_child(old_children, t)
                        }) by {
                        lemma_find_child_push(old_children, node, t);
                    }
                }
            },
        }
        proof {
            let newt = *self;
            let oldt = *old(self);
            assert(oldt.children@ == old_children);
            assert(newt.wf());
            // pointwise description
            assert forall|q: Seq<Seg>|
                #[trigger] newt.node_at(q) == (if is_prefix_of(seq![nseg], q) {
                    node.node_at(q.skip(1))
                } else {
                    oldt.node_at(q)
                }) by {
                if q.len() == 0 {
                    assert(!is_prefix_of(seq![nseg], q));
                } else {
                    assert(q.take(1) =~= seq![q[0]]);
                    if q[0] == nseg {
                        assert(is_prefix_of(seq![nseg], q));
                        assert(find_child(newt.children@, q[0]) == Some(node));
                        assert(q.drop_first() =~= q.skip(1));
                    } else {
                        if is_prefix_of(seq![nseg], q) {
                            assert(seq![nseg] == q.take(1));
                            assert(nseg == q.take(1)[0]);
                            assert(false);
                        }
                        assert(find_child(newt.children@, q[0]) == find_child(
                            oldt.children@,
                            q[0],
                        ));
                    }
                }
            }
        }
    }
}

/// No path changed: the contracts' way of saying a failed operation left the
/// tree as it was (stated pointwise, like every other tree contract).
pub open spec fn tree_unchanged(old_t: CommentIdTree, new_t: CommentIdTree) -> bool {
    &&& new_t.key == old_t.key
    &&& new_t.level == old_t.level
    &&& forall|q: Seq<Seg>| #[trigger] new_t.node_at(q) == old_t.node_at(q)
}

/// A resolved segment points at some index of the child sequence.
proof fn lemma_find_child_some_index(cs: Seq<CommentIdTree>, s: Seg)
    requires
        find_child(cs, s) is Some,
    ensures
        exists|k: int|
            0 <= k < cs.len() && cs[k] == find_child(cs, s)->Some_0 && (#[trigger] cs[k]).seg()
                == s,
    decreases cs.len(),
{
    if cs.len() > 0 {
        if cs[0].seg() == s {
            assert(cs[0] == find_child(cs, s)->Some_0 && cs[0].seg() == s);
        } else {
            lemma_find_child_some_index(cs.drop_first(), s);
            let k = choose|k: int|
                0 <= k < cs.drop_first().len() && cs.drop_first()[k] == find_child(
                    cs.drop_first(),
                    s,
                )->Some_0 && (#[trigger] cs.drop_first()[k]).seg() == s;
            assert(cs[k + 1] == find_child(cs, s)->Some_0 && cs[k + 1].seg() == s);
        }
    }
}

/// Mutable access to one child, with the usual update description.
fn child_mut(cs: &mut Vec<CommentIdTree>, j: usize) -> (c: &mut CommentIdTree)
    requires
        j < old(cs)@.len(),
    ensures
        *c == old(cs)@[j as int],
        final(cs)@ == old(cs)@.update(j as int, *final(c)),
{
    &mut cs[j]
}

impl CommentIdTree {
    /// Read-only descent: the subtree at `path[i..]`, if that path exists.
    pub fn subtree_from(&self, path: &Vec<Seg>, i: usize) -> (r: Option<&CommentIdTree>)
        requires
            self.wf(),
            i <= path@.len(),
        ensures
            match r {
                Some(t) => self.sub(path@.skip(i as int)) == Some(*t),
                None => self.sub(path@.skip(i as int)) is None,
            },
        decreases path@.len() - i,
    {
        if i == path.len() {
            proof {
                assert(path@.skip(i as int) =~= Seq::<Seg>::empty());
            }
            Some(self)
        } else {
            let ghost p = path@.skip(i as int);
            proof {
                assert(p[0] == path@[i as int]);
                assert(p.drop_first() =~= path@.skip(i + 1));
            }
            match find_idx(&self.children, path[i]) {
                Some(j) => self.children[j].subtree_from(path, i + 1),
                None => None,
            }
        }
    }

    /// The subtree at relative `path` below this node, if it exists.
    pub fn subtree(&self, path: &Vec<Seg>) -> (r: Option<&CommentIdTree>)
        requires
            self.wf(),
        ensures
            match r {
                Some(t) => self.sub(path@) == Some(*t),
                None => self.sub(path@) is None,
            },
    {
        proof {
            assert(path@.skip(0) =~= path@);
        }
        self.subtree_from(path, 0)
    }

    /// Descends along `path[i..]` and inserts `node` as a child of the node
    /// found there.  Fails, changing nothing, when an intermediate segment is
    /// missing (a broken path: the caller must abort its transaction).
    pub fn insert_child_from(&mut self, path: &Vec<Seg>, i: usize, node: CommentIdTree) -> (r:
        bool)
        requires
            old(self).wf(),
            i <= path@.len(),
            node.wf(),
            node.key@ is Short,
            node.level == old(self).level + (path@.len() - i) + 1,
        ensures
            final(self).wf(),
            r == old(self).contains_path(path@.skip(i as int)),
            r ==> tree_inserted(
                *old(self),
                path@.skip(i as int).push(node.seg()),
                node,
                *final(self),
            ),
            !r ==> tree_unchanged(*old(self), *final(self)),
        decreases path@.len() - i,
    {
        if i == path.len() {
            self.insert(node);
            proof {
                assert(path@.skip(i as int) =~= Seq::<Seg>::empty());
                assert(path@.skip(i as int).push(node.seg()) =~= seq![node.seg()]);
                assert(old(self).contains_path(path@.skip(i as int)));
            }
            return true;
        }
        let ghost p = path@.skip(i as int);
        let ghost oldt = *old(self);
        proof {
            assert(p[0] == path@[i as int]);
            assert(p.drop_first() =~= path@.skip(i + 1));
        }
        match find_idx(&self.children, path[i]) {
            Some(j) => {
                let ghost old_children = self.children@;
                let ghost oldc = self.children@[j as int];
                let c = child_mut(&mut self.children, j);
                let r = c.insert_child_from(path, i + 1, node);
                proof {
                    let newc = self.children@[j as int];
                    assert(self.children@ == old_children.update(j as int, newc));
                    assert(newc.key == oldc.key && newc.level == oldc.level);
                    assert forall|t: Seg|
                        find_child(self.children@, t) == (if t == oldc.seg() {
                            Some(newc)
                        } else {
                            find_child(old_children, t)
                        }) by {
                        lemma_find_child_update(old_children, j as int, newc, t);
                    }
                    assert forall|k: int|
                        0 <= k < self.children@.len() implies (#[trigger]
                    self.children@[k]).seg() == old_children[k].seg() by {}
                    assert(self.wf());
                    assert(find_child(old_children, p[0]) == Some(oldc));
                    assert(r == oldc.contains_path(path@.skip(i + 1)));
                    assert(r == oldt.contains_path(p));
                    if r {
                        let tgt = p.push(node.seg());
                        let ctgt = path@.skip(i + 1).push(node.seg());
                        assert(tgt.drop_first() =~= ctgt);
                        assert forall|q: Seq<Seg>|
                            #[trigger] self.node_at(q) == (if is_prefix_of(tgt, q) {
                                node.node_at(q.skip(tgt.len() as int))
                            } else {
                                oldt.node_at(q)
                            }) by {
                            if q.len() == 0 {
                                assert(!is_prefix_of(tgt, q));
                            } else if q[0] == p[0] {
                                assert(find_child(self.children@, q[0]) == Some(newc));
                                assert(self.node_at(q) == newc.node_at(q.drop_first()));
                                assert(oldt.node_at(q) == oldc.node_at(q.drop_first()));
                                if is_prefix_of(tgt, q) {
                                    assert(q.take(tgt.len() as int).drop_first() =~= q.drop_first()
                                        .take(ctgt.len() as int));
                                    assert(is_prefix_of(ctgt, q.drop_first()));
                                    assert(q.drop_first().skip(ctgt.len() as int) =~= q.skip(
                                        tgt.len() as int,
                                    ));
                                } else {
                                    if is_prefix_of(ctgt, q.drop_first()) {
                                        assert(q.take(tgt.len() as int) =~= seq![q[0]].add(
                                            q.drop_first().take(ctgt.len() as int),
                                        ));
                                        assert(tgt =~= seq![p[0]].add(ctgt));
                                        assert(is_prefix_of(tgt, q));
                                        assert(false);
                                    }
                                }
                            } else {
                                assert(find_child(self.children@, q[0]) == find_child(
                                    old_children,
                                    q[0],
                                ));
                                if is_prefix_of(tgt, q) {
                                    assert(q.take(tgt.len() as int)[0] == q[0]);
                                    assert(tgt[0] == p[0]);
                                    assert(false);
                                }
                            }
                        }
                    } else {
                        assert forall|q: Seq<Seg>|
                            #[trigger] self.node_at(q) == oldt.node_at(q) by {
                            if q.len() > 0 {
                                if q[0] == p[0] {
                                    assert(find_child(self.children@, q[0]) == Some(newc));
                                    assert(self.node_at(q) == newc.node_at(q.drop_first()));
                                    assert(oldt.node_at(q) == oldc.node_at(q.drop_first()));
                                    assert(newc.node_at(q.drop_first()) == oldc.node_at(
                                        q.drop_first(),
                                    ));
                                } else {
                                    assert(find_child(self.children@, q[0]) == find_child(
                                        old_children,
                                        q[0],
                                    ));
                                }
                            }
                        }
                    }
                }
                r
            },
            None => {
                proof {
                    assert(!oldt.contains_path(p));
                }
                false
            },
        }
    }

    /// Inserts `node` under the node at `path`, read relative to this
    /// node, tolerating affixes: a trailing segment equal to `node`'s own
    /// and a leading segment equal to this node's own are stripped, and
    /// already-stripped input passes through unchanged.  A path that is
    /// empty, strips away to nothing, or names a missing segment is a
    /// broken path: the call fails and nothing changes.
    pub fn insert_child(&mut self, path: &Vec<Seg>, node: CommentIdTree) -> (r: bool)
        requires
            old(self).wf(),
            ckey_wf(old(self).key@),
            node.wf(),
            node.key@ is Short,
            insertion_path(path@, old(self).seg(), node.seg()) matches Some(sp) ==> node.level
                == old(self).level + sp.len() + 1,
        ensures
            final(self).wf(),
            match insertion_path(path@, old(self).seg(), node.seg()) {
                Some(sp) => {
                    &&& r == old(self).contains_path(sp)
                    &&& (r ==> tree_inserted(*old(self), sp.push(node.seg()), node, *final(self)))
                    &&& (!r ==> tree_unchanged(*old(self), *final(self)))
                },
                None => r == false && *final(self) == *old(self),
            },
    {
        if path.len() == 0 {
            return false;
        }
        let nseg = seg_key(&node.key);
        let rseg = seg_key(&self.key);
        let upto: usize = if path[path.len() - 1] == nseg {
            path.len() - 1
        } else {
            path.len()
        };
        if upto == 0 {
            return false;
        }
        let start: usize = if path[0] == rseg {
            1
        } else {
            0
        };
        if start >= upto {
            return false;
        }
        let mut sp: Vec<Seg> = Vec::new();
        let mut j: usize = start;
        while j < upto
            invariant
                start <= j <= upto,
                upto <= path@.len(),
                sp@ =~= path@.subrange(start as int, j as int),
            decreases upto - j,
        {
            sp.push(path[j]);
            proof {
                assert(sp@ =~= path@.subrange(start as int, j + 1));
            }
            j += 1;
        }
        proof {
            let spec_sp = insertion_path(path@, old(self).seg(), node.seg())->Some_0;
            let p1 = if path@.last() == node.seg() {
                path@.drop_last()
            } else {
                path@
            };
            assert(p1 =~= path@.subrange(0, upto as int));
            if p1.first() == old(self).seg() {
                assert(spec_sp =~= p1.drop_first());
            }
            assert(sp@ =~= spec_sp);
            assert(sp@.skip(0) =~= sp@);
        }
        self.insert_child_from(&sp, 0, node)
    }

    /// Descends along `path[i..]` and removes (and returns) the whole
    /// subtree at its end.  Fails, changing nothing, when the path is
    /// missing.
    pub fn remove_child_from(&mut self, path: &Vec<Seg>, i: usize) -> (r: Option<
        CommentIdTree,
    >)
        requires
            old(self).wf(),
            i < path@.len(),
        ensures
            final(self).wf(),
            match r {
                Some(t) => {
                    &&& old(self).sub(path@.skip(i as int)) == Some(t)
                    &&& t.wf()
                    &&& tree_removed(*old(self), path@.skip(i as int), *final(self))
                },
                None => {
                    &&& !old(self).contains_path(path@.skip(i as int))
                    &&& tree_unchanged(*old(self), *final(self))
                },
            },
        decreases path@.len() - i,
    {
        let ghost p = path@.skip(i as int);
        let ghost oldt = *old(self);
        proof {
            assert(p[0] == path@[i as int]);
            assert(p.drop_first() =~= path@.skip(i + 1));
        }
        if i == path.len() - 1 {
            match find_idx(&self.children, path[i]) {
                Some(j) => {
                    let ghost old_children = self.children@;
                    let t = self.children.remove(j);
                    proof {
                        assert(t == old_children[j as int]);
                        assert(self.children@ == old_children.remove(j as int));
                        assert forall|s: Seg|
                            find_child(self.children@, s) == (if s == t.seg() {
                                None::<CommentIdTree>
                            } else {
                                find_child(old_children, s)
                            }) by {
                            lemma_find_child_remove(old_children, j as int, s);
                        }
                        assert forall|k: int, l: int|
                            0 <= k < l < self.children@.len() implies (#[trigger]
                        self.children@[k]).seg() != (#[trigger] self.children@[l]).seg() by {
                            if k < j {
                                assert(self.children@[k] == old_children[k]);
                            } else {
                                assert(self.children@[k] == old_children[k + 1]);
                            }
                            if l < j {
                                assert(self.children@[l] == old_children[l]);
                            } else {
                                assert(self.children@[l] == old_children[l + 1]);
                            }
                        }
                        assert forall|k: int|
                            0 <= k < self.children@.len() implies {
                            let c = #[trigger] self.children@[k];
                            c.wf() && c.level == self.level + 1 && c.key@ is Short
                        } by {
                            if k < j {
                                assert(self.children@[k] == old_children[k]);
                            } else {
                                assert(self.children@[k] == old_children[k + 1]);
                            }
                        }
                        assert(self.wf());
                        assert(p =~= seq![p[0]]);
                        assert(p.drop_first() =~= Seq::<Seg>::empty());
                        assert(oldt.sub(p) == t.sub(p.drop_first()));
                        assert(oldt.sub(p) == Some(t));
                        assert forall|q: Seq<Seg>|
                            #[trigger] self.node_at(q) == (if is_prefix_of(p, q) {
                                None::<(CKeyV, u64)>
                            } else {
                                oldt.node_at(q)
                            }) by {
                            if q.len() == 0 {
                                assert(!is_prefix_of(p, q));
                            } else {
                                assert(q.take(1) =~= seq![q[0]]);
                                if q[0] == t.seg() {
                                    assert(is_prefix_of(p, q));
                                    assert(find_child(self.children@, q[0]) is None);
                                } else {
                                    if is_prefix_of(p, q) {
                                        assert(p == q.take(1));
                                        assert(p[0] == q[0]);
                                        assert(false);
                                    }
                                    assert(find_child(self.children@, q[0]) == find_child(
                                        old_children,
                                        q[0],
                                    ));
                                }
                            }
                        }
                    }
                    Some(t)
                },
                None => {
                    proof {
                        assert(!oldt.contains_path(p));
                    }
                    None
                },
            }
        } else {
            match find_idx(&self.children, path[i]) {
                Some(j) => {
                    let ghost old_children = self.children@;
                    let ghost oldc = self.children@[j as int];
                    let c = child_mut(&mut self.children, j);
                    let r = c.remove_child_from(path, i + 1);
                    proof {
                        let newc = self.children@[j as int];
                        assert(self.children@ == old_children.update(j as int, newc));
                        assert(newc.key == oldc.key && newc.level == oldc.level);
                        assert forall|t: Seg|
                            find_child(self.children@, t) == (if t == oldc.seg() {
                                Some(newc)
                            } else {
                                find_child(old_children, t)
                            }) by {
                            lemma_find_child_update(old_children, j as int, newc, t);
                        }
                        assert forall|k: int|
                            0 <= k < self.children@.len() implies (#[trigger]
                        self.children@[k]).seg() == old_children[k].seg() by {}
                        assert(self.wf());
                        assert(find_child(old_children, p[0]) == Some(oldc));
                        if r is Some {
                            let t = r->Some_0;
                            assert(oldc.sub(path@.skip(i + 1)) == Some(t));
                            assert(oldt.sub(p) == oldc.sub(p.drop_first()));
                            assert(oldc.sub(p.drop_first()) == oldc.sub(path@.skip(i + 1)));
                            assert(oldt.sub(p) == Some(t));
                            let ctgt = path@.skip(i + 1);
                            assert(p.drop_first() =~= ctgt);
                            assert forall|q: Seq<Seg>|
                                #[trigger] self.node_at(q) == (if is_prefix_of(p, q) {
                                    None::<(CKeyV, u64)>
                                } else {
                                    oldt.node_at(q)
                                }) by {
                                if q.len() == 0 {
                                    assert(!is_prefix_of(p, q));
                                } else if q[0] == p[0] {
                                    assert(find_child(self.children@, q[0]) == Some(newc));
                                    assert(self.node_at(q) == newc.node_at(q.drop_first()));
                                    assert(oldt.node_at(q) == oldc.node_at(q.drop_first()));
                                    if is_prefix_of(p, q) {
                                        assert(q.take(p.len() as int).drop_first()
                                            =~= q.drop_first().take(ctgt.len() as int));
                                        assert(is_prefix_of(ctgt, q.drop_first()));
                                    } else {
                                        if is_prefix_of(ctgt, q.drop_first()) {
                                            assert(q.take(p.len() as int) =~= seq![q[0]].add(
                                                q.drop_first().take(ctgt.len() as int),
                                            ));
                                            assert(p =~= seq![p[0]].add(ctgt));
                                            assert(is_prefix_of(p, q));
                                            assert(false);
                                        }
                                    }
                                } else {
                                    assert(find_child(self.children@, q[0]) == find_child(
                                        old_children,
                                        q[0],
                                    ));
                                    if is_prefix_of(p, q) {
                                        assert(q.take(p.len() as int)[0] == q[0]);
                                        assert(p[0] == q[0]);
                                        assert(false);
                                    }
                                }
                            }
                        } else {
                            assert(oldt.sub(p) == oldc.sub(p.drop_first()));
                            assert(!oldt.contains_path(p));
                            assert forall|q: Seq<Seg>|
                                #[trigger] self.node_at(q) == oldt.node_at(q) by {
                                if q.len() > 0 {
                                    if q[0] == p[0] {
                                        assert(find_child(self.children@, q[0]) == Some(newc));
                                        assert(self.node_at(q) == newc.node_at(q.drop_first()));
                                        assert(oldt.node_at(q) == oldc.node_at(q.drop_first()));
                                        assert(newc.node_at(q.drop_first()) == oldc.node_at(
                                            q.drop_first(),
                                        ));
                                    } else {
                                        assert(find_child(self.children@, q[0]) == find_child(
                                            old_children,
                                            q[0],
                                        ));
                                    }
                                }
                            }
                        }
                    }
                    r
                },
                None => {
                    proof {
                        assert(!oldt.contains_path(p));
                    }
                    None
                },
            }
        }
    }

    /// Removes and returns the whole subtree at relative `path`.
    pub fn remove_child(&mut self, path: &Vec<Seg>) -> (r: Option<CommentIdTree>)
        requires
            old(self).wf(),
            path@.len() >= 1,
        ensures
            final(self).wf(),
            match r {
                Some(t) => {
                    &&& old(self).sub(path@) == Some(t)
                    &&& t.wf()
                    &&& tree_removed(*old(self), path@, *final(self))
                },
                None => {
                    &&& !old(self).contains_path(path@)
                    &&& tree_unchanged(*old(self), *final(self))
                },
            },
    {
        proof {
            assert(path@.skip(0) =~= path@);
        }
        self.remove_child_from(path, 0)
    }
}

/// Subtrees of a well-formed tree are well-formed; below the root they are
/// stored under their bare segment.
pub proof fn lemma_sub_wf(t: CommentIdTree, p: Seq<Seg>)
    requires
        t.wf(),
        t.sub(p) is Some,
    ensures
        t.sub(p)->Some_0.wf(),
        p.len() > 0 ==> t.sub(p)->Some_0.key@ is Short,
    decreases p.len(),
{
    if p.len() > 0 {
        lemma_find_child_some_index(t.children@, p[0]);
        let k = choose|k: int|
            0 <= k < t.children@.len() && t.children@[k] == find_child(t.children@, p[0])->Some_0
                && (#[trigger] t.children@[k]).seg() == p[0];
        let c = t.children@[k];
        assert(c.wf() && c.key@ is Short);
        lemma_sub_wf(c, p.drop_first());
    }
}

/// Descending a concatenated path descends each part in turn.
pub proof fn lemma_sub_concat(t: CommentIdTree, a: Seq<Seg>, b: Seq<Seg>)
    ensures
        t.sub(a.add(b)) == (match t.sub(a) {
            Some(u) => u.sub(b),
            None => None::<CommentIdTree>,
        }),
    decreases a.len(),
{
    if a.len() == 0 {
        assert(a.add(b) =~= b);
    } else {
        assert(a.add(b)[0] == a[0]);
        assert(a.add(b).drop_first() =~= a.drop_first().add(b));
        match find_child(t.children@, a[0]) {
            Some(c) => {
                lemma_sub_concat(c, a.drop_first(), b);
            },
            None => {},
        }
    }
}

/// A path through child `k` reaches exactly what that child reaches.
proof fn lemma_node_at_child(t: CommentIdTree, k: int, q: Seq<Seg>)
    requires
        t.wf(),
        0 <= k < t.children@.len(),
    ensures
        t.node_at(seq![t.children@[k].seg()].add(q)) == t.children@[k].node_at(q),
{
    let s = t.children@[k].seg();
    let full = seq![s].add(q);
    assert(full.len() == 1 + q.len());
    assert(full[0] == s);
    let kk = choose|kk: int|
        0 <= kk <= k && t.children@[kk].seg() == s && forall|l: int|
            0 <= l < kk ==> (#[trigger] t.children@[l]).seg() != s;
    assert(exists|kk: int|
        0 <= kk <= k && t.children@[kk].seg() == s && forall|l: int|
            0 <= l < kk ==> (#[trigger] t.children@[l]).seg() != s) by {
        first_match_exists(t.children@, s, k);
    }
    lemma_find_child_found(t.children@, s, kk);
    // distinctness: the first match is child k itself
    assert(kk == k);
    assert(full.drop_first() =~= q);
    assert(t.sub(full) == t.children@[k].sub(q));
}

impl CommentIdTree {
    /// Appends the storage key of every node of this subtree (itself
    /// included) to `acc`: exactly the rows a cascade delete must clear.
    /// The returned ghost sequence holds, for each appended key, the
    /// relative path of the node it came from.
    #[verifier::rlimit(50)]
    pub fn collect_keys(&self, acc: &mut Vec<CommentKey>) -> (gp: Ghost<Seq<Seq<Seg>>>)
        requires
            self.wf(),
            ckey_wf(self.key@),
        ensures
            final(acc)@.len() == old(acc)@.len() + gp@.len(),
            gp@.len() >= 1,
            forall|i: int| 0 <= i < old(acc)@.len() ==> final(acc)@[i] == old(acc)@[i],
            forall|i: int|
                0 <= i < gp@.len() ==> (#[trigger] self.node_at(gp@[i])) is Some
                    && self.node_at(gp@[i])->Some_0.0 == final(acc)@[old(acc)@.len() + i]@,
            forall|q: Seq<Seg>| (#[trigger] self.node_at(q)) is Some ==> gp@.contains(q),
        decreases *self,
    {
        let ghost len0 = acc@.len();
        let ghost mut gp: Seq<Seq<Seg>> = seq![Seq::<Seg>::empty()];
        acc.push(self.key.dup());
        proof {
            assert(acc@[len0 as int]@ == self.key@);
            assert(self.node_at(gp[0]) == Some((self.key@, self.level)));
        }
        let n = self.children.len();
        let mut j: usize = 0;
        while j < n
            invariant
                self.wf(),
                ckey_wf(self.key@),
                n == self.children@.len(),
                j <= n,
                acc@.len() == len0 + gp.len(),
                gp.len() >= 1,
                gp[0] == Seq::<Seg>::empty(),
                forall|i: int| 0 <= i < len0 ==> acc@[i] == old(acc)@[i],
                forall|i: int|
                    0 <= i < gp.len() ==> (#[trigger] self.node_at(gp[i])) is Some
                        && self.node_at(gp[i])->Some_0.0 == acc@[len0 + i]@,
                forall|k: int, q: Seq<Seg>|
                    0 <= k < j && (#[trigger] self.children@[k].node_at(q)) is Some
                        ==> gp.contains(seq![self.children@[k].seg()].add(q)),
            decreases n - j,
        {
            let ghost pre_gp = gp;
            let ghost pre = acc@;
            let ghost kj = j as int;
            let gchild = self.children[j].collect_keys(acc);
            proof {
                let c = self.children@[kj];
                gp = pre_gp + gchild@.map_values(|q: Seq<Seg>| seq![c.seg()].add(q));
                assert(gp.len() == pre_gp.len() + gchild@.len());
                assert forall|i: int|
                    0 <= i < gp.len() implies (#[trigger] self.node_at(gp[i])) is Some
                        && self.node_at(gp[i])->Some_0.0 == acc@[len0 + i]@ by {
                    if i < pre_gp.len() {
                        assert(gp[i] == pre_gp[i]);
                        assert(acc@[len0 + i] == pre[len0 + i]);
                    } else {
                        let ii = i - pre_gp.len();
                        assert(gp[i] == seq![c.seg()].add(gchild@[ii]));
                        lemma_node_at_child(*self, kj, gchild@[ii]);
                        assert(c.node_at(gchild@[ii]) is Some);
                        assert(acc@[pre.len() + ii]@ == c.node_at(gchild@[ii])->Some_0.0);
                    }
                }
                assert forall|k: int, q: Seq<Seg>|
                    0 <= k < j + 1 && (#[trigger] self.children@[k].node_at(q)) is Some
                        implies gp.contains(seq![self.children@[k].seg()].add(q)) by {
                    if k < kj {
                        let w = choose|w: int|
                            0 <= w < pre_gp.len() && pre_gp[w] == seq![self.children@[k].seg()].add(
                                q,
                            );
                        assert(gp[w] == seq![self.children@[k].seg()].add(q));
                    } else {
                        assert(gchild@.contains(q));
                        let w = choose|w: int| 0 <= w < gchild@.len() && gchild@[w] == q;
                        assert(gp[pre_gp.len() + w] == seq![c.seg()].add(q));
                    }
                }
            }
            j += 1;
        }
        proof {
            assert forall|q: Seq<Seg>| (#[trigger] self.node_at(q)) is Some implies gp.contains(
                q,
            ) by {
                if q.len() == 0 {
                    assert(gp[0] == q);
                } else {
                    lemma_find_child_some_index(self.children@, q[0]);
                    let k = choose|k: int|
                        0 <= k < self.children@.len() && self.children@[k] == find_child(
                            self.children@,
                            q[0],
                        )->Some_0 && (#[trigger] self.children@[k]).seg() == q[0];
                    assert(self.node_at(q) == self.children@[k].node_at(q.drop_first()));
                    assert(gp.contains(seq![self.children@[k].seg()].add(q.drop_first())));
                    assert(seq![self.children@[k].seg()].add(q.drop_first()) =~= q);
                    let w = choose|w: int|
                        0 <= w < gp.len() && gp[w] == seq![self.children@[k].seg()].add(
                            q.drop_first(),
                        );
                    assert(gp[w] == q);
                }
            }
        }
        Ghost(gp)
    }
}

/// There is a first index at or before `k` whose segment is `cs[k]`'s.
proof fn first_match_exists(cs: Seq<CommentIdTree>, s: Seg, k: int)
    requires
        0 <= k < cs.len(),
        cs[k].seg() == s,
    ensures
        exists|kk: int|
            0 <= kk <= k && cs[kk].seg() == s && forall|l: int|
                0 <= l < kk ==> (#[trigger] cs[l]).seg() != s,
    decreases k,
{
    if forall|l: int| 0 <= l < k ==> (#[trigger] cs[l]).seg() != s {
        assert(0 <= k <= k && cs[k].seg() == s && forall|l: int|
            0 <= l < k ==> (#[trigger] cs[l]).seg() != s);
    } else {
        let k2 = choose|k2: int| 0 <= k2 < k && (#[trigger] cs[k2]).seg() == s;
        first_match_exists(cs, s, k2);
    }
}

} // verus!
