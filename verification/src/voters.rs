//! Voter rows: one row per (comment, voter) pair, recording the direction
//! and time of the vote.
//!
//! The table's contract tracks, besides the map of rows, the signed tally of
//! each comment's rows (+1 per up vote, -1 per down vote): the vote-count
//! table is kept equal to that tally, which is the vote-count invariant.

use vstd::prelude::*;

use crate::ids::CKeyV;
use crate::table::{distinct_keys, entries_map, lemma_entries_map_absent, lemma_entries_map_get,
    TableKey, VoterKey};

verus! {

/// One voter row: direction and time.
#[derive(Clone, Copy, PartialEq, Eq, Structural, Debug)]
pub struct Vote {
    pub up: bool,
    pub when: i64,
}

/// What a row with key view `kv` and direction `up` adds to the tally of
/// comment `c`.
pub open spec fn weight_of(kv: (CKeyV, u64), up: bool, c: CKeyV) -> int {
    if kv.0 == c {
        if up {
            1int
        } else {
            -1int
        }
    } else {
        0int
    }
}

/// What one row adds to the tally of comment `c`.
pub open spec fn row_weight(e: (VoterKey, Vote), c: CKeyV) -> int {
    weight_of(e.0@, e.1.up, c)
}

/// Signed sum of all rows for comment `c`.
pub open spec fn tally(s: Seq<(VoterKey, Vote)>, c: CKeyV) -> int
    decreases s.len(),
{
    if s.len() == 0 {
        0int
    } else {
        tally(s.drop_last(), c) + row_weight(s.last(), c)
    }
}

proof fn lemma_tally_update(s: Seq<(VoterKey, Vote)>, i: int, e: (VoterKey, Vote), c: CKeyV)
    requires
        0 <= i < s.len(),
    ensures
        tally(s.update(i, e), c) == tally(s, c) - row_weight(s[i], c) + row_weight(e, c),
    decreases s.len(),
{
    let s2 = s.update(i, e);
    if i == s.len() - 1 {
        assert(s2.drop_last() =~= s.drop_last());
        assert(s2.last() == e);
    } else {
        assert(s2.drop_last() =~= s.drop_last().update(i, e));
        assert(s.drop_last()[i] == s[i]);
        lemma_tally_update(s.drop_last(), i, e, c);
        assert(s2.last() == s.last());
    }
}

proof fn lemma_tally_remove(s: Seq<(VoterKey, Vote)>, i: int, c: CKeyV)
    requires
        0 <= i < s.len(),
    ensures
        tally(s.remove(i), c) == tally(s, c) - row_weight(s[i], c),
    decreases s.len(),
{
    let s2 = s.remove(i);
    if i == s.len() - 1 {
        assert(s2 =~= s.drop_last());
    } else {
        assert(s2.drop_last() =~= s.drop_last().remove(i));
        assert(s.drop_last()[i] == s[i]);
        lemma_tally_remove(s.drop_last(), i, c);
        assert(s2.last() == s.last());
    }
}

/// A comment with no rows has tally zero.
pub proof fn lemma_tally_zero(s: Seq<(VoterKey, Vote)>, c: CKeyV)
    requires
        forall|i: int| 0 <= i < s.len() ==> (#[trigger] s[i]).0@.0 != c,
    ensures
        tally(s, c) == 0,
    decreases s.len(),
{
    if s.len() > 0 {
        assert forall|i: int|
            0 <= i < s.drop_last().len() implies (#[trigger] s.drop_last()[i]).0@.0 != c by {
            assert(s.drop_last()[i] == s[i]);
        }
        lemma_tally_zero(s.drop_last(), c);
    }
}

/// The voter-row table.
pub struct VoterTable {
    pub entries: Vec<(VoterKey, Vote)>,
}

impl View for VoterTable {
    type V = Map<(CKeyV, u64), Vote>;

    open spec fn view(&self) -> Map<(CKeyV, u64), Vote> {
        entries_map(self.entries@)
    }
}

impl VoterTable {
    pub open spec fn wf(self) -> bool {
        distinct_keys(self.entries@)
    }

    /// Tally of comment `c` over the current rows.
    pub open spec fn count_of(self, c: CKeyV) -> int {
        tally(self.entries@, c)
    }

    pub fn new() -> (r: VoterTable)
        ensures
            r.wf(),
            r@ == Map::<(CKeyV, u64), Vote>::empty(),
            forall|c: CKeyV| #[trigger] r.count_of(c) == 0,
    {
        VoterTable { entries: Vec::new() }
    }

    fn idx_of(&self, k: &VoterKey) -> (r: Option<usize>)
        requires
            self.wf(),
        ensures
            match r {
                Some(i) => {
                    &&& i < self.entries@.len()
                    &&& self.entries@[i as int].0@ == k@
                    &&& self@.contains_key(k@)
                    &&& self@[k@] == self.entries@[i as int].1
                },
                None => !self@.contains_key(k@),
            },
    {
        let n = self.entries.len();
        let mut i: usize = 0;
        while i < n
            invariant
                self.wf(),
                n == self.entries@.len(),
                i <= n,
                forall|j: int| 0 <= j < i ==> (#[trigger] self.entries@[j]).0@ != k@,
            decreases n - i,
        {
            if self.entries[i].0.key_eq(k) {
                proof {
                    lemma_entries_map_get(self.entries@, i as int);
                }
                return Some(i);
            }
            i += 1;
        }
        proof {
            lemma_entries_map_absent(self.entries@, k@);
        }
        None
    }

    /// The row for `k`, if any.
    pub fn get(&self, k: &VoterKey) -> (r: Option<Vote>)
        requires
            self.wf(),
        ensures
            match r {
                Some(v) => self@.contains_key(k@) && v == self@[k@],
                None => !self@.contains_key(k@),
            },
    {
        match self.idx_of(k) {
            Some(i) => Some(self.entries[i].1),
            None => None,
        }
    }

    /// Writes the row for `k`, new or replacing, and states the tally shift.
    pub fn set(&mut self, k: VoterKey, v: Vote)
        requires
            old(self).wf(),
        ensures
            final(self).wf(),
            final(self)@ == old(self)@.insert(k@, v),
            forall|c: CKeyV|
                #[trigger] final(self).count_of(c) == old(self).count_of(c) + weight_of(
                    k@,
                    v.up,
                    c,
                ) - (if old(self)@.contains_key(k@) {
                    weight_of(k@, old(self)@[k@].up, c)
                } else {
                    0int
                }),
    {
        let ghost olds = self.entries@;
        match self.idx_of(&k) {
            Some(i) => {
                let ghost olde = self.entries@[i as int];
                self.entries[i] = (k, v);
                proof {
                    crate::table::lemma_entries_map_update(olds, i as int, (k, v));
                    assert forall|a: int, b: int|
                        0 <= a < b < self.entries@.len() implies (#[trigger]
                    self.entries@[a]).0@ != (#[trigger] self.entries@[b]).0@ by {
                        if a != i {
                            assert(self.entries@[a] == olds[a]);
                        }
                        if b != i {
                            assert(self.entries@[b] == olds[b]);
                        }
                    }
                    assert forall|c: CKeyV|
                        #[trigger] tally(self.entries@, c) == tally(olds, c) - row_weight(olde, c)
                            + row_weight((k, v), c) by {
                        lemma_tally_update(olds, i as int, (k, v), c);
                    }
                }
            },
            None => {
                self.entries.push((k, v));
                proof {
                    assert(self.entries@.drop_last() =~= olds);
                    assert forall|a: int, b: int|
                        0 <= a < b < self.entries@.len() implies (#[trigger]
                    self.entries@[a]).0@ != (#[trigger] self.entries@[b]).0@ by {
                        if b == olds.len() {
                            assert(self.entries@[a] == olds[a]);
                            if self.entries@[a].0@ == k@ {
                                lemma_entries_map_get(olds, a);
                            }
                        } else {
                            assert(self.entries@[a] == olds[a]);
                            assert(self.entries@[b] == olds[b]);
                        }
                    }
                    assert forall|c: CKeyV|
                        #[trigger] tally(self.entries@, c) == tally(olds, c) + row_weight(
                            (k, v),
                            c,
                        ) by {}
                }
            },
        }
    }

    /// Removes the row for `k`, stating the tally shift.
    pub fn remove(&mut self, k: &VoterKey) -> (r: Option<Vote>)
        requires
            old(self).wf(),
        ensures
            final(self).wf(),
            final(self)@ == old(self)@.remove(k@),
            match r {
                Some(v) => old(self)@.contains_key(k@) && v == old(self)@[k@],
                None => !old(self)@.contains_key(k@),
            },
            forall|c: CKeyV|
                #[trigger] final(self).count_of(c) == old(self).count_of(c) - (if old(
                    self,
                )@.contains_key(k@) {
                    weight_of(k@, old(self)@[k@].up, c)
                } else {
                    0int
                }),
    {
        let ghost olds = self.entries@;
        match self.idx_of(k) {
            Some(i) => {
                let ghost olde = self.entries@[i as int];
                let (_k2, v) = self.entries.remove(i);
                proof {
                    crate::table::lemma_entries_map_remove(olds, i as int);
                    assert forall|a: int, b: int|
                        0 <= a < b < self.entries@.len() implies (#[trigger]
                    self.entries@[a]).0@ != (#[trigger] self.entries@[b]).0@ by {
                        if a < i {
                            assert(self.entries@[a] == olds[a]);
                        } else {
                            assert(self.entries@[a] == olds[a + 1]);
                        }
                        if b < i {
                            assert(self.entries@[b] == olds[b]);
                        } else {
                            assert(self.entries@[b] == olds[b + 1]);
                        }
                    }
                    assert forall|c: CKeyV|
                        #[trigger] tally(self.entries@, c) == tally(olds, c) - row_weight(
                            olde,
                            c,
                        ) by {
                        lemma_tally_remove(olds, i as int, c);
                    }
                }
                Some(v)
            },
            None => {
                proof {
                    assert(entries_map(olds).remove(k@) =~= entries_map(olds));
                }
                None
            },
        }
    }

    /// Index of some row of comment `ck`, if one exists.
    fn idx_of_comment(&self, ck: &crate::ids::CommentKey) -> (r: Option<usize>)
        ensures
            match r {
                Some(j) => j < self.entries@.len() && self.entries@[j as int].0@.0 == ck@,
                None => forall|j: int|
                    0 <= j < self.entries@.len() ==> (#[trigger] self.entries@[j]).0@.0 != ck@,
            },
    {
        let n = self.entries.len();
        let mut i: usize = 0;
        while i < n
            invariant
                n == self.entries@.len(),
                i <= n,
                forall|j: int| 0 <= j < i ==> (#[trigger] self.entries@[j]).0@.0 != ck@,
            decreases n - i,
        {
            if self.entries[i].0.comment.eq_key(ck) {
                return Some(i);
            }
            i += 1;
        }
        None
    }

    /// Removes every row of comment `c`: its tally drops to zero, no other
    /// comment's rows or tally change.
    pub fn remove_comment(&mut self, ck: &crate::ids::CommentKey)
        requires
            old(self).wf(),
        ensures
            final(self).wf(),
            forall|k: (CKeyV, u64)|
                #[trigger] final(self)@.contains_key(k) == (old(self)@.contains_key(k) && k.0
                    != ck@),
            forall|k: (CKeyV, u64)|
                final(self)@.contains_key(k) ==> #[trigger] final(self)@[k] == old(self)@[k],
            final(self).count_of(ck@) == 0,
            forall|c: CKeyV| c != ck@ ==> #[trigger] final(self).count_of(c) == old(
                self,
            ).count_of(c),
    {
        loop
            invariant
                self.wf(),
                forall|k: (CKeyV, u64)|
                    #[trigger] entries_map(self.entries@).contains_key(k) ==> entries_map(
                        old(self).entries@,
                    ).contains_key(k) && entries_map(self.entries@)[k] == entries_map(
                        old(self).entries@,
                    )[k],
                forall|k: (CKeyV, u64)|
                    entries_map(old(self).entries@).contains_key(k) && k.0 != ck@
                        ==> #[trigger] entries_map(self.entries@).contains_key(k),
                forall|c: CKeyV|
                    c != ck@ ==> #[trigger] tally(self.entries@, c) == tally(
                        old(self).entries@,
                        c,
                    ),
            decreases self.entries@.len(),
        {
            let found = self.idx_of_comment(ck);
            match found {
                Some(j) => {
                    let ghost olds = self.entries@;
                    let ghost olde = self.entries@[j as int];
                    let _ = self.entries.remove(j);
                    proof {
                        crate::table::lemma_entries_map_remove(olds, j as int);
                        assert(entries_map(self.entries@) =~= entries_map(olds).remove(
                            olde.0@,
                        ));
                        assert(olde.0@.0 == ck@);
                        assert forall|a: int, b: int|
                            0 <= a < b < self.entries@.len() implies (#[trigger]
                        self.entries@[a]).0@ != (#[trigger] self.entries@[b]).0@ by {
                            if a < j {
                                assert(self.entries@[a] == olds[a]);
                            } else {
                                assert(self.entries@[a] == olds[a + 1]);
                            }
                            if b < j {
                                assert(self.entries@[b] == olds[b]);
                            } else {
                                assert(self.entries@[b] == olds[b + 1]);
                            }
                        }
                        assert forall|c: CKeyV|
                            c != ck@ implies #[trigger] tally(self.entries@, c) == tally(
                            old(self).entries@,
                            c,
                        ) by {
                            lemma_tally_remove(olds, j as int, c);
                            assert(row_weight(olde, c) == 0);
                        }
                        assert forall|k: (CKeyV, u64)|
                            #[trigger] entries_map(self.entries@).contains_key(k)
                            implies entries_map(old(self).entries@).contains_key(k)
                            && entries_map(self.entries@)[k] == entries_map(
                            old(self).entries@,
                        )[k] by {
                            assert(entries_map(olds).contains_key(k));
                        }
                        assert forall|k: (CKeyV, u64)|
                            entries_map(old(self).entries@).contains_key(k) && k.0 != ck@
                            implies #[trigger] entries_map(self.entries@).contains_key(k) by {
                            assert(k != olde.0@);
                            assert(entries_map(olds).contains_key(k));
                        }
                    }
                },
                None => {
                    proof {
                        assert forall|k: (CKeyV, u64)|
                            #[trigger] self@.contains_key(k) == (old(self)@.contains_key(k)
                                && k.0 != ck@) by {
                            if k.0 == ck@ {
                                if self@.contains_key(k) {
                                    lemma_entries_map_some_index(self.entries@, k);
                                }
                            }
                        }
                        lemma_tally_zero(self.entries@, ck@);
                    }
                    return ;
                },
            }
        }
    }
}

/// A key in the denoted map is some entry's key.
proof fn lemma_entries_map_some_index<K: TableKey, V>(s: Seq<(K, V)>, k: <K as View>::V)
    requires
        entries_map(s).contains_key(k),
    ensures
        exists|i: int| 0 <= i < s.len() && (#[trigger] s[i]).0@ == k,
    decreases s.len(),
{
    if s.len() > 0 {
        if s.last().0@ == k {
            assert(s[s.len() - 1].0@ == k);
        } else {
            lemma_entries_map_some_index(s.drop_last(), k);
            let i = choose|i: int| 0 <= i < s.drop_last().len() && (#[trigger] s.drop_last()[i]).0@ == k;
            assert(s[i].0@ == k);
        }
    }
}

} // verus!
