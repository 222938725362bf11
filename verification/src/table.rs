//! In-memory image of one named tree of the backing store: an association
//! table viewed as a map from key views to values.
//!
//! Every table the engine owns is one of these; an operation that touches
//! several tables mutates them all or none, which is what the store's
//! transactions guarantee on disk.

use vstd::prelude::*;

use crate::ids::{CKeyV, CommentId, CommentKey, Seg, WritId};

verus! {

/// Key types usable in a [`Table`]: comparable for equality at view level.
pub trait TableKey: View + Sized {
    fn key_eq(&self, other: &Self) -> (r: bool)
        ensures
            r == (self@ == other@),
    ;
}

/// An association table with pairwise distinct key views.
pub struct Table<K: TableKey, V> {
    pub entries: Vec<(K, V)>,
}

/// The map an entry sequence denotes (later entries win; with distinct keys
/// the order is immaterial).
pub open spec fn entries_map<K: TableKey, V>(s: Seq<(K, V)>) -> Map<<K as View>::V, V>
    decreases s.len(),
{
    if s.len() == 0 {
        Map::empty()
    } else {
        entries_map(s.drop_last()).insert(s.last().0@, s.last().1)
    }
}

impl<K: TableKey, V> View for Table<K, V> {
    type V = Map<<K as View>::V, V>;

    open spec fn view(&self) -> Map<<K as View>::V, V> {
        entries_map(self.entries@)
    }
}

/// Every key view occurs at most once.
pub open spec fn distinct_keys<K: TableKey, V>(s: Seq<(K, V)>) -> bool {
    forall|i: int, j: int|
        0 <= i < j < s.len() ==> (#[trigger] s[i]).0@ != (#[trigger] s[j]).0@
}

/// An entry's key is in the denoted map, bound to that entry's value.
pub proof fn lemma_entries_map_get<K: TableKey, V>(s: Seq<(K, V)>, i: int)
    requires
        distinct_keys(s),
        0 <= i < s.len(),
    ensures
        entries_map(s).contains_key(s[i].0@),
        entries_map(s)[s[i].0@] == s[i].1,
    decreases s.len(),
{
    if i == s.len() - 1 {
    } else {
        assert(distinct_keys(s.drop_last())) by {
            assert forall|k: int, l: int|
                0 <= k < l < s.drop_last().len() implies (#[trigger] s.drop_last()[k]).0@
                != (#[trigger] s.drop_last()[l]).0@ by {
                assert(s.drop_last()[k] == s[k] && s.drop_last()[l] == s[l]);
            }
        }
        lemma_entries_map_get(s.drop_last(), i);
        assert(s.drop_last()[i] == s[i]);
        assert(s[i].0@ != s.last().0@);
    }
}

/// A key view matching no entry is not in the denoted map.
pub proof fn lemma_entries_map_absent<K: TableKey, V>(s: Seq<(K, V)>, k: <K as View>::V)
    requires
        forall|i: int| 0 <= i < s.len() ==> (#[trigger] s[i]).0@ != k,
    ensures
        !entries_map(s).contains_key(k),
    decreases s.len(),
{
    if s.len() > 0 {
        assert forall|i: int|
            0 <= i < s.drop_last().len() implies (#[trigger] s.drop_last()[i]).0@ != k by {
            assert(s.drop_last()[i] == s[i]);
        }
        lemma_entries_map_absent(s.drop_last(), k);
    }
}

pub proof fn lemma_entries_map_update<K: TableKey, V>(s: Seq<(K, V)>, i: int, e: (K, V))
    requires
        distinct_keys(s),
        0 <= i < s.len(),
        e.0@ == s[i].0@,
    ensures
        entries_map(s.update(i, e)) =~= entries_map(s).insert(e.0@, e.1),
    decreases s.len(),
{
    let s2 = s.update(i, e);
    if i == s.len() - 1 {
        assert(s2.drop_last() =~= s.drop_last());
        assert(s2.last() == e);
    } else {
        assert(distinct_keys(s.drop_last())) by {
            assert forall|k: int, l: int|
                0 <= k < l < s.drop_last().len() implies (#[trigger] s.drop_last()[k]).0@
                != (#[trigger] s.drop_last()[l]).0@ by {
                assert(s.drop_last()[k] == s[k] && s.drop_last()[l] == s[l]);
            }
        }
        assert(s.drop_last()[i] == s[i]);
        lemma_entries_map_update(s.drop_last(), i, e);
        assert(s2.drop_last() =~= s.drop_last().update(i, e));
        assert(s2.last() == s.last());
        assert(s.last().0@ != e.0@);
    }
}

pub proof fn lemma_entries_map_remove<K: TableKey, V>(s: Seq<(K, V)>, i: int)
    requires
        distinct_keys(s),
        0 <= i < s.len(),
    ensures
        entries_map(s.remove(i)) =~= entries_map(s).remove(s[i].0@),
    decreases s.len(),
{
    let s2 = s.remove(i);
    assert(distinct_keys(s.drop_last())) by {
        assert forall|k: int, l: int|
            0 <= k < l < s.drop_last().len() implies (#[trigger] s.drop_last()[k]).0@
            != (#[trigger] s.drop_last()[l]).0@ by {
            assert(s.drop_last()[k] == s[k] && s.drop_last()[l] == s[l]);
        }
    }
    if i == s.len() - 1 {
        assert(s2 =~= s.drop_last());
        assert forall|j: int|
            0 <= j < s.drop_last().len() implies (#[trigger] s.drop_last()[j]).0@
            != s.last().0@ by {
            assert(s.drop_last()[j] == s[j]);
        }
        lemma_entries_map_absent(s.drop_last(), s.last().0@);
    } else {
        assert(s.drop_last()[i] == s[i]);
        lemma_entries_map_remove(s.drop_last(), i);
        assert(s2.drop_last() =~= s.drop_last().remove(i));
        assert(s2.last() == s.last());
        assert(s.last().0@ != s[i].0@);
    }
}

/// A key in the denoted map is some entry's key.
pub proof fn lemma_entries_map_covered<K: TableKey, V>(s: Seq<(K, V)>, k: <K as View>::V)
    requires
        entries_map(s).contains_key(k),
    ensures
        exists|i: int| 0 <= i < s.len() && (#[trigger] s[i]).0@ == k,
    decreases s.len(),
{
    if s.len() > 0 {
        if s.last().0@ == k {
            assert(s[s.len() - 1].0@ == k);
        } else {
            lemma_entries_map_covered(s.drop_last(), k);
            let i = choose|i: int|
                0 <= i < s.drop_last().len() && (#[trigger] s.drop_last()[i]).0@ == k;
            assert(s[i].0@ == k);
        }
    }
}

impl<K: TableKey, V> Table<K, V> {
    pub open spec fn wf(self) -> bool {
        distinct_keys(self.entries@)
    }

    /// An empty table.
    pub fn new() -> (r: Table<K, V>)
        ensures
            r.wf(),
            r@ == Map::<<K as View>::V, V>::empty(),
            r.entries@.len() == 0,
    {
        Table { entries: Vec::new() }
    }

    /// Index of the entry holding `k`, if any.
    fn idx_of(&self, k: &K) -> (r: Option<usize>)
        requires
            self.wf(),
        ensures
            match r {
                Some(i) => {
                    &&& i < self.entries@.len()
                    &&& self.entries@[i as int].0@ == k@
                    &&& self@.contains_key(k@)
                    &&& self@[k@] == self.entries@[i as int].1
                },
                None => !self@.contains_key(k@),
            },
    {
        let n = self.entries.len();
        let mut i: usize = 0;
        while i < n
            invariant
                self.wf(),
                n == self.entries@.len(),
                i <= n,
                forall|j: int| 0 <= j < i ==> (#[trigger] self.entries@[j]).0@ != k@,
            decreases n - i,
        {
            if self.entries[i].0.key_eq(k) {
                proof {
                    lemma_entries_map_get(self.entries@, i as int);
                }
                return Some(i);
            }
            i += 1;
        }
        proof {
            lemma_entries_map_absent(self.entries@, k@);
        }
        None
    }

    /// The value bound to `k`, if any.
    pub fn get(&self, k: &K) -> (r: Option<&V>)
        requires
            self.wf(),
        ensures
            match r {
                Some(v) => self@.contains_key(k@) && *v == self@[k@],
                None => !self@.contains_key(k@),
            },
    {
        match self.idx_of(k) {
            Some(i) => Some(&self.entries[i].1),
            None => None,
        }
    }

    /// Whether `k` is bound.
    pub fn contains(&self, k: &K) -> (r: bool)
        requires
            self.wf(),
        ensures
            r == self@.contains_key(k@),
    {
        self.idx_of(k).is_some()
    }

    /// Binds `k` to `v`, replacing any previous binding.
    pub fn insert(&mut self, k: K, v: V)
        requires
            old(self).wf(),
        ensures
            final(self).wf(),
            final(self)@ == old(self)@.insert(k@, v),
    {
        let ghost olds = self.entries@;
        match self.idx_of(&k) {
            Some(i) => {
                let ghost kv = k@;
                self.entries[i] = (k, v);
                proof {
                    lemma_entries_map_update(olds, i as int, self.entries@[i as int]);
                    assert forall|a: int, b: int|
                        0 <= a < b < self.entries@.len() implies (#[trigger]
                    self.entries@[a]).0@ != (#[trigger] self.entries@[b]).0@ by {
                        if a != i {
                            assert(self.entries@[a] == olds[a]);
                        }
                        if b != i {
                            assert(self.entries@[b] == olds[b]);
                        }
                    }
                }
            },
            None => {
                let ghost kv = k@;
                self.entries.push((k, v));
                proof {
                    assert(self.entries@.drop_last() =~= olds);
                    assert forall|a: int, b: int|
                        0 <= a < b < self.entries@.len() implies (#[trigger]
                    self.entries@[a]).0@ != (#[trigger] self.entries@[b]).0@ by {
                        if b == olds.len() {
                            assert(self.entries@[a] == olds[a]);
                            if self.entries@[a].0@ == kv {
                                lemma_entries_map_get(olds, a);
                            }
                        } else {
                            assert(self.entries@[a] == olds[a]);
                            assert(self.entries@[b] == olds[b]);
                        }
                    }
                }
            },
        }
    }

    /// Unbinds `k`, returning the value it was bound to.
    pub fn remove(&mut self, k: &K) -> (r: Option<V>)
        requires
            old(self).wf(),
        ensures
            final(self).wf(),
            final(self)@ == old(self)@.remove(k@),
            match r {
                Some(v) => old(self)@.contains_key(k@) && v == old(self)@[k@],
                None => !old(self)@.contains_key(k@),
            },
    {
        let ghost olds = self.entries@;
        match self.idx_of(k) {
            Some(i) => {
                let (_oldk, v) = self.entries.remove(i);
                proof {
                    lemma_entries_map_remove(olds, i as int);
                    assert forall|a: int, b: int|
                        0 <= a < b < self.entries@.len() implies (#[trigger]
                    self.entries@[a]).0@ != (#[trigger] self.entries@[b]).0@ by {
                        if a < i {
                            assert(self.entries@[a] == olds[a]);
                        } else {
                            assert(self.entries@[a] == olds[a + 1]);
                        }
                        if b < i {
                            assert(self.entries@[b] == olds[b]);
                        } else {
                            assert(self.entries@[b] == olds[b + 1]);
                        }
                    }
                }
                Some(v)
            },
            None => {
                proof {
                    assert(entries_map(olds).remove(k@) =~= entries_map(olds));
                }
                None
            },
        }
    }

    /// Number of bindings.
    pub fn len(&self) -> (r: usize)
        ensures
            r == self.entries@.len(),
    {
        self.entries.len()
    }
}

impl View for Seg {
    type V = Seg;

    open spec fn view(&self) -> Seg {
        *self
    }
}

impl TableKey for Seg {
    fn key_eq(&self, other: &Self) -> (r: bool) {
        self == other
    }
}

impl View for WritId {
    type V = WritId;

    open spec fn view(&self) -> WritId {
        *self
    }
}

impl TableKey for WritId {
    fn key_eq(&self, other: &Self) -> (r: bool) {
        self == other
    }
}

/// Key of one first-level comment's tree blob: the post and the first-level
/// comment's segment.
#[derive(Clone, Copy, PartialEq, Eq, Structural, Debug)]
pub struct RootId {
    pub writ: WritId,
    pub seg: Seg,
}

impl View for RootId {
    type V = RootId;

    open spec fn view(&self) -> RootId {
        *self
    }
}

impl TableKey for RootId {
    fn key_eq(&self, other: &Self) -> (r: bool) {
        self == other
    }
}

impl TableKey for CommentId {
    fn key_eq(&self, other: &Self) -> (r: bool) {
        self.eq_id(other)
    }
}

impl TableKey for CommentKey {
    fn key_eq(&self, other: &Self) -> (r: bool) {
        CommentKey::eq_key(self, other)
    }
}

/// Key of a voter row: one comment, one voter.
pub struct VoterKey {
    pub comment: CommentKey,
    pub voter: u64,
}

impl View for VoterKey {
    type V = (CKeyV, u64);

    open spec fn view(&self) -> (CKeyV, u64) {
        (self.comment@, self.voter)
    }
}

impl TableKey for VoterKey {
    fn key_eq(&self, other: &Self) -> (r: bool) {
        self.comment.eq_key(&other.comment) && self.voter == other.voter
    }
}

impl TableKey for u64 {
    fn key_eq(&self, other: &Self) -> (r: bool) {
        *self == *other
    }
}

impl TableKey for i64 {
    fn key_eq(&self, other: &Self) -> (r: bool) {
        *self == *other
    }
}

impl TableKey for String {
    fn key_eq(&self, other: &Self) -> (r: bool) {
        *self == *other
    }
}

impl TableKey for Vec<u8> {
    fn key_eq(&self, other: &Self) -> (r: bool) {
        let n = self.len();
        if n != other.len() {
            proof {
                assert(self@ != other@);
            }
            return false;
        }
        let mut i: usize = 0;
        while i < n
            invariant
                n == self@.len() == other@.len(),
                i <= n,
                forall|j: int| 0 <= j < i ==> self@[j] == other@[j],
            decreases n - i,
        {
            if self[i] != other[i] {
                return false;
            }
            i += 1;
        }
        proof {
            assert(self@ =~= other@);
        }
        true
    }
}

} // verus!
