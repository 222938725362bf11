//! Delayed cleanup: "delete these keys after this many seconds, unless the
//! cancellation handle is used first".
//!
//! Entries are bucketed by absolute expiry second; a secondary index maps a
//! caller-supplied cancellation handle back to its bucket.  A sweep executes
//! every due bucket against a generic table store.

use vstd::prelude::*;

use crate::table::{Table, TableKey};

verus! {

/// What to delete when an entry expires.
pub enum ExpirableData {
    /// One key from one tree.
    Single { tree: String, key: Vec<u8> },
    /// Several keys from one tree.
    MultiKey { tree: String, keys: Vec<Vec<u8>> },
    /// Several keys from several trees, keyed by tree name.
    MultiTree(Vec<(String, Vec<Vec<u8>>)>),
}

/// One scheduled entry: the action and its optional cancellation handle.
pub struct ExpDataContainer {
    pub unexpire_key: Option<Vec<u8>>,
    pub data: ExpirableData,
}

/// Whether expiring `data` deletes key `k` of tree `t`.
pub open spec fn action_removes(data: ExpirableData, t: Seq<char>, k: Seq<u8>) -> bool {
    match data {
        ExpirableData::Single { tree, key } => t == tree@ && k == key@,
        ExpirableData::MultiKey { tree, keys } => t == tree@ && (exists|i: int|
            0 <= i < keys@.len() && (#[trigger] keys@[i])@ == k),
        ExpirableData::MultiTree(m) => exists|i: int|
            0 <= i < m@.len() && (#[trigger] m@[i]).0@ == t && (exists|j: int|
                0 <= j < m@[i].1@.len() && (#[trigger] m@[i].1@[j])@ == k),
    }
}

/// A generic named-tree byte store: the model of the tables expiring data
/// is deleted from.
pub struct Kv {
    pub tables: Table<String, Table<Vec<u8>, Vec<u8>>>,
}

impl Kv {
    pub open spec fn wf(self) -> bool {
        &&& self.tables.wf()
        &&& forall|t: Seq<char>|
            #[trigger] self.tables@.contains_key(t) ==> self.tables@[t].wf()
    }

    /// An empty store.
    pub fn new() -> (r: Kv)
        ensures
            r.wf(),
            r.tables@ == Map::<Seq<char>, Table<Vec<u8>, Vec<u8>>>::empty(),
    {
        Kv { tables: Table::new() }
    }

    /// Whether tree `t` currently holds key `k`.
    pub open spec fn holds(self, t: Seq<char>, k: Seq<u8>) -> bool {
        self.tables@.contains_key(t) && self.tables@[t]@.contains_key(k)
    }

    /// Binds `k` to `v` in tree `t`, creating the tree if needed.
    pub fn put(&mut self, t: String, k: Vec<u8>, v: Vec<u8>)
        requires
            old(self).wf(),
        ensures
            final(self).wf(),
            final(self).tables@.dom() =~= old(self).tables@.dom().insert(t@),
            forall|t2: Seq<char>, k2: Seq<u8>|
                #[trigger] final(self).holds(t2, k2) == (old(self).holds(t2, k2) || (t2 == t@
                    && k2 == k@)),
    {
        let mut inner = match self.tables.remove(&t) {
            Some(i) => i,
            None => Table::new(),
        };
        inner.insert(k, v);
        self.tables.insert(t, inner);
    }

    /// Removes `k` from tree `t`, if both exist.
    pub fn delete(&mut self, t: &String, k: &Vec<u8>)
        requires
            old(self).wf(),
        ensures
            final(self).wf(),
            final(self).tables@.dom() =~= old(self).tables@.dom(),
            forall|t2: Seq<char>, k2: Seq<u8>|
                #[trigger] final(self).holds(t2, k2) == (old(self).holds(t2, k2) && !(t2 == t@
                    && k2 == k@)),
    {
        let inner = match self.tables.remove(t) {
            Some(mut i) => {
                let _ = i.remove(k);
                i
            },
            None => {
                return ;
            },
        };
        self.tables.insert(t.clone(), inner);
    }
}

impl ExpiryRegistry {
    /// Whether executing every bucket due at `now` deletes key `k` of tree
    /// `t`.
    pub open spec fn swept_removes(self, now: i64, t: Seq<char>, k: Seq<u8>) -> bool {
        exists|b: i64, i: int|
            self.buckets@.contains_key(b) && b <= now && 0 <= i < self.buckets@[b]@.len()
                && action_removes((#[trigger] self.buckets@[b]@[i]).data, t, k)
    }

    /// One sweep pass: executes the action of every entry in every bucket
    /// due at `now` against `kv`, drops those entries' handles from the
    /// index, and drops the due buckets.
    #[verifier::rlimit(100)]
    pub fn sweep(&mut self, kv: &mut Kv, now: i64)
        requires
            old(self).wf(),
            old(kv).wf(),
        ensures
            final(self).wf(),
            final(kv).wf(),
            forall|b: i64|
                #[trigger] final(self).buckets@.contains_key(b) == (old(self).buckets@.contains_key(b) && b > now),
            forall|b: i64|
                final(self).buckets@.contains_key(b) ==> #[trigger] final(self).buckets@[b]
                    == old(self).buckets@[b],
            forall|uk: Seq<u8>|
                #[trigger] final(self).unexpire_keys@.contains_key(uk) == (old(self).unexpire_keys@.contains_key(uk) && old(self).unexpire_keys@[uk] > now),
            forall|uk: Seq<u8>|
                final(self).unexpire_keys@.contains_key(uk) ==> #[trigger] final(self).unexpire_keys@[uk] == old(self).unexpire_keys@[uk],
            final(kv).tables@.dom() =~= old(kv).tables@.dom(),
            forall|t: Seq<char>, k: Seq<u8>|
                #[trigger] final(kv).holds(t, k) == (old(kv).holds(t, k) && !old(self).swept_removes(now, t, k)),
    {
        let ghost prev = *old(self);
        // collect the due bucket timestamps
        let mut due: Vec<i64> = Vec::new();
        let n = self.buckets.entries.len();
        let mut i: usize = 0;
        while i < n
            invariant
                self == old(self),
                n == self.buckets.entries@.len(),
                i <= n,
                self.buckets.wf(),
                forall|j: int|
                    0 <= j < due@.len() ==> self.buckets@.contains_key(#[trigger] due@[j])
                        && due@[j] <= now,
                forall|j1: int, j2: int|
                    0 <= j1 < j2 < due@.len() ==> #[trigger] due@[j1] != #[trigger] due@[j2],
                forall|jd: int|
                    0 <= jd < due@.len() ==> exists|e: int|
                        0 <= e < i && (#[trigger] due@[jd]) == self.buckets.entries@[e].0,
                forall|j: int|
                    0 <= j < i && (#[trigger] self.buckets.entries@[j]).0 <= now ==> due@.contains(
                        self.buckets.entries@[j].0,
                    ),
            decreases n - i,
        {
            let b = self.buckets.entries[i].0;
            if b <= now {
                let ghost pre_due = due@;
                due.push(b);
                proof {
                    crate::table::lemma_entries_map_get(self.buckets.entries@, i as int);
                    assert forall|j1: int, j2: int|
                        0 <= j1 < j2 < due@.len() implies #[trigger] due@[j1] != #[trigger]
                    due@[j2] by {
                        if j2 == due@.len() - 1 {
                            if due@[j1] == b {
                                assert(pre_due[j1] == b);
                                let e = choose|e: int|
                                    0 <= e < i && (#[trigger] pre_due[j1])
                                        == self.buckets.entries@[e].0;
                                assert(self.buckets.entries@[e].0@
                                    == self.buckets.entries@[i as int].0@);
                                assert(false);
                            }
                        }
                    }
                    assert forall|jd: int|
                        0 <= jd < due@.len() implies exists|e: int|
                        0 <= e < i + 1 && (#[trigger] due@[jd])
                            == self.buckets.entries@[e].0 by {
                        if jd < due@.len() - 1 {
                            assert(due@[jd] == pre_due[jd]);
                            let e = choose|e: int|
                                0 <= e < i && (#[trigger] pre_due[jd])
                                    == self.buckets.entries@[e].0;
                            assert(due@[jd] == self.buckets.entries@[e].0);
                        } else {
                            assert(due@[jd] == self.buckets.entries@[i as int].0);
                        }
                    }
                    assert forall|j: int|
                        0 <= j < i + 1 && (#[trigger] self.buckets.entries@[j]).0 <= now
                        implies due@.contains(self.buckets.entries@[j].0) by {
                        if j < i {
                            let w = choose|w: int|
                                0 <= w < pre_due.len() && pre_due[w]
                                    == self.buckets.entries@[j].0;
                            assert(due@[w] == self.buckets.entries@[j].0);
                        } else {
                            assert(due@[due@.len() - 1] == b);
                        }
                    }
                }
            }
            i += 1;
        }
        let ghost due_s = due@;
        proof {
            assert forall|b: i64|
                prev.buckets@.contains_key(b) && b <= now implies due_s.contains(b) by {
                crate::table::lemma_entries_map_covered(self.buckets.entries@, b);
                let w = choose|w: int|
                    0 <= w < self.buckets.entries@.len() && (#[trigger]
                    self.buckets.entries@[w]).0@ == b;
                assert(self.buckets.entries@[w].0 <= now);
            }
        }
        // execute each due bucket
        let dn = due.len();
        let mut j: usize = 0;
        while j < dn
            invariant
                dn == due_s.len(),
                due@ == due_s,
                j <= dn,
                self.buckets.wf(),
                self.unexpire_keys.wf(),
                kv.wf(),
                prev == *old(self),
                prev.wf(),
                forall|jj: int|
                    0 <= jj < due_s.len() ==> prev.buckets@.contains_key(#[trigger] due_s[jj])
                        && due_s[jj] <= now,
                forall|j1: int, j2: int|
                    0 <= j1 < j2 < due_s.len() ==> #[trigger] due_s[j1] != #[trigger]
                    due_s[j2],
                forall|b: i64|
                    #[trigger] self.buckets@.contains_key(b) == (prev.buckets@.contains_key(b)
                        && !due_s.take(j as int).contains(b)),
                forall|b: i64|
                    self.buckets@.contains_key(b) ==> #[trigger] self.buckets@[b]
                        == prev.buckets@[b],
                forall|uk: Seq<u8>|
                    #[trigger] self.unexpire_keys@.contains_key(uk) == (
                    prev.unexpire_keys@.contains_key(uk) && !due_s.take(j as int).contains(
                        prev.unexpire_keys@[uk],
                    )),
                forall|uk: Seq<u8>|
                    self.unexpire_keys@.contains_key(uk) ==> #[trigger] self.unexpire_keys@[uk]
                        == prev.unexpire_keys@[uk],
                kv.tables@.dom() =~= old(kv).tables@.dom(),
                forall|t: Seq<char>, k: Seq<u8>|
                    #[trigger] kv.holds(t, k) == (old(kv).holds(t, k) && !(exists|
                        jj: int,
                        ci: int,
                    |
                        0 <= jj < j && 0 <= ci < prev.buckets@[due_s[jj]]@.len()
                            && action_removes(
                            (#[trigger] prev.buckets@[due_s[jj]]@[ci]).data,
                            t,
                            k,
                        ))),
            decreases dn - j,
        {
            let b = due[j];
            let ghost round_pre = *self;
            let ghost kv_pre = *kv;
            let list = match self.buckets.remove(&b) {
                Some(l) => l,
                None => {
                    proof {
                        assert(!due_s.take(j as int).contains(b)) by {
                            if due_s.take(j as int).contains(b) {
                                let w = choose|w: int|
                                    0 <= w < j && #[trigger] due_s.take(j as int)[w] == b;
                                assert(due_s[w] == due_s[j as int]);
                            }
                        }
                        assert(false);
                    }
                    return ;
                },
            };
            let ghost blist = list@;
            let cn = list.len();
            let mut ci: usize = 0;
            while ci < cn
                invariant
                    cn == blist.len(),
                    list@ == blist,
                    ci <= cn,
                    self.buckets.wf(),
                    self.buckets@ =~= round_pre.buckets@.remove(b),
                    self.unexpire_keys.wf(),
                    kv.wf(),
                    prev.wf(),
                    prev.buckets@.contains_key(b),
                    blist == prev.buckets@[b]@,
                    forall|uk: Seq<u8>|
                        #[trigger] self.unexpire_keys@.contains_key(uk) == (
                        round_pre.unexpire_keys@.contains_key(uk) && !(
                        prev.unexpire_keys@.contains_key(uk) && prev.unexpire_keys@[uk] == b
                            && (exists|cc: int|
                            0 <= cc < ci && (#[trigger] blist[cc]).unexpire_key is Some
                                && blist[cc].unexpire_key->Some_0@ == uk))),
                    forall|uk: Seq<u8>|
                        self.unexpire_keys@.contains_key(uk) ==> #[trigger]
                    self.unexpire_keys@[uk] == round_pre.unexpire_keys@[uk],
                    kv.tables@.dom() =~= kv_pre.tables@.dom(),
                    forall|t: Seq<char>, k: Seq<u8>|
                        #[trigger] kv.holds(t, k) == (kv_pre.holds(t, k) && !(exists|cc: int|
                            0 <= cc < ci && action_removes(
                                (#[trigger] blist[cc]).data,
                                t,
                                k,
                            ))),
                    forall|uk2: Seq<u8>|
                        prev.unexpire_keys@.contains_key(uk2)
                            && round_pre.unexpire_keys@.contains_key(uk2) ==> #[trigger]
                    round_pre.unexpire_keys@[uk2] == prev.unexpire_keys@[uk2],
                decreases cn - ci,
            {
                let ghost istate = *self;
                let ghost ikv = *kv;
                match &list[ci].unexpire_key {
                    Some(uk) => {
                        let _ = self.unexpire_keys.remove(uk);
                    },
                    None => {},
                }
                apply_action(kv, &list[ci].data);
                proof {
                    assert forall|uk: Seq<u8>|
                        #[trigger] self.unexpire_keys@.contains_key(uk) == (
                        round_pre.unexpire_keys@.contains_key(uk) && !(
                        prev.unexpire_keys@.contains_key(uk) && prev.unexpire_keys@[uk] == b
                            && (exists|cc: int|
                            0 <= cc < ci + 1 && (#[trigger] blist[cc]).unexpire_key is Some
                                && blist[cc].unexpire_key->Some_0@ == uk))) by {
                        if blist[ci as int].unexpire_key is Some {
                            let cuk = blist[ci as int].unexpire_key->Some_0@;
                            assert(prev.unexpire_keys@.contains_key(cuk)
                                && prev.unexpire_keys@[cuk] == b);
                            if uk == cuk {
                                assert(0 <= ci < ci + 1 && (#[trigger]
                                blist[ci as int]).unexpire_key is Some
                                    && blist[ci as int].unexpire_key->Some_0@ == uk);
                            } else {
                                if exists|cc: int|
                                    0 <= cc < ci + 1 && (#[trigger] blist[cc]).unexpire_key
                                        is Some && blist[cc].unexpire_key->Some_0@ == uk {
                                    let cc = choose|cc: int|
                                        0 <= cc < ci + 1 && (#[trigger]
                                        blist[cc]).unexpire_key is Some
                                            && blist[cc].unexpire_key->Some_0@ == uk;
                                    assert(cc < ci || cc == ci);
                                }
                            }
                        } else {
                            if exists|cc: int|
                                0 <= cc < ci + 1 && (#[trigger] blist[cc]).unexpire_key
                                    is Some && blist[cc].unexpire_key->Some_0@ == uk {
                                let cc = choose|cc: int|
                                    0 <= cc < ci + 1 && (#[trigger] blist[cc]).unexpire_key
                                        is Some && blist[cc].unexpire_key->Some_0@ == uk;
                                assert(cc < ci);
                            }
                        }
                    }
                    assert forall|t: Seq<char>, k: Seq<u8>|
                        #[trigger] kv.holds(t, k) == (kv_pre.holds(t, k) && !(exists|cc: int|
                            0 <= cc < ci + 1 && action_removes(
                                (#[trigger] blist[cc]).data,
                                t,
                                k,
                            ))) by {
                        if exists|cc: int|
                            0 <= cc < ci + 1 && action_removes(
                                (#[trigger] blist[cc]).data,
                                t,
                                k,
                            ) {
                            let cc = choose|cc: int|
                                0 <= cc < ci + 1 && action_removes(
                                    (#[trigger] blist[cc]).data,
                                    t,
                                    k,
                                );
                            if cc < ci {
                                assert(!ikv.holds(t, k));
                            } else {
                                assert(!kv.holds(t, k));
                            }
                        }
                    }
                }
                ci += 1;
            }
            proof {
                assert(due_s.take(j + 1).drop_last() =~= due_s.take(j as int));
                assert(due_s.take(j + 1).last() == b);
                assert forall|b2: i64|
                    #[trigger] self.buckets@.contains_key(b2) == (prev.buckets@.contains_key(
                        b2,
                    ) && !due_s.take(j + 1).contains(b2)) by {
                    if due_s.take(j + 1).contains(b2) {
                        let w = choose|w: int| 0 <= w < j + 1 && #[trigger] due_s.take(j + 1)[w] == b2;
                        if w < j {
                            assert(due_s.take(j as int)[w] == b2);
                            assert(due_s.take(j as int).contains(b2));
                        }
                    } else {
                        if prev.buckets@.contains_key(b2) {
                            assert(!due_s.take(j as int).contains(b2)) by {
                                if due_s.take(j as int).contains(b2) {
                                    let w = choose|w: int|
                                        0 <= w < j && #[trigger] due_s.take(j as int)[w] == b2;
                                    assert(due_s.take(j + 1)[w] == b2);
                                }
                            }
                            assert(b2 != b) by {
                                if b2 == b {
                                    assert(due_s.take(j + 1)[j as int] == b2);
                                }
                            }
                        }
                    }
                }
                assert forall|uk: Seq<u8>|
                    #[trigger] self.unexpire_keys@.contains_key(uk) == (
                    prev.unexpire_keys@.contains_key(uk) && !due_s.take(j + 1).contains(
                        prev.unexpire_keys@[uk],
                    )) by {
                    if prev.unexpire_keys@.contains_key(uk) {
                        let ub = prev.unexpire_keys@[uk];
                        if due_s.take(j + 1).contains(ub) {
                            let w = choose|w: int| 0 <= w < j + 1 && #[trigger] due_s.take(j + 1)[w] == ub;
                            if w < j {
                                assert(due_s.take(j as int)[w] == ub);
                                assert(due_s.take(j as int).contains(ub));
                                assert(!round_pre.unexpire_keys@.contains_key(uk));
                            } else {
                                assert(ub == b);
                                if self.unexpire_keys@.contains_key(uk) {
                                    assert(round_pre.unexpire_keys@.contains_key(uk));
                                    let wi = choose|wi: int|
                                        0 <= wi < prev.buckets@[b]@.len() && (#[trigger]
                                        prev.buckets@[b]@[wi]).unexpire_key is Some
                                            && prev.buckets@[b]@[wi].unexpire_key->Some_0@
                                            == uk;
                                    assert(false);
                                }
                            }
                        } else {
                            assert(!due_s.take(j as int).contains(ub)) by {
                                if due_s.take(j as int).contains(ub) {
                                    let w = choose|w: int|
                                        0 <= w < j && #[trigger] due_s.take(j as int)[w] == ub;
                                    assert(due_s.take(j + 1)[w] == ub);
                                }
                            }
                            assert(ub != b) by {
                                if ub == b {
                                    assert(due_s.take(j + 1)[j as int] == ub);
                                }
                            }
                            assert(round_pre.unexpire_keys@.contains_key(uk));
                            assert(self.unexpire_keys@.contains_key(uk));
                        }
                    }
                }
                assert forall|t: Seq<char>, k: Seq<u8>|
                    #[trigger] kv.holds(t, k) == (old(kv).holds(t, k) && !(exists|
                        jj: int,
                        ci2: int,
                    |
                        0 <= jj < j + 1 && 0 <= ci2 < prev.buckets@[due_s[jj]]@.len()
                            && action_removes(
                            (#[trigger] prev.buckets@[due_s[jj]]@[ci2]).data,
                            t,
                            k,
                        ))) by {
                    if exists|jj: int, ci2: int|
                        0 <= jj < j + 1 && 0 <= ci2 < prev.buckets@[due_s[jj]]@.len()
                            && action_removes(
                            (#[trigger] prev.buckets@[due_s[jj]]@[ci2]).data,
                            t,
                            k,
                        ) {
                        let (jj, ci2) = choose|jj: int, ci2: int|
                            0 <= jj < j + 1 && 0 <= ci2 < prev.buckets@[due_s[jj]]@.len()
                                && action_removes(
                                (#[trigger] prev.buckets@[due_s[jj]]@[ci2]).data,
                                t,
                                k,
                            );
                        if jj < j {
                            assert(!kv_pre.holds(t, k));
                        } else {
                            assert(due_s[jj] == b);
                            assert(!kv.holds(t, k));
                        }
                    }
                }
            }
            j += 1;
        }
        proof {
            assert(due_s.take(dn as int) =~= due_s);
            assert forall|b: i64|
                #[trigger] self.buckets@.contains_key(b) == (prev.buckets@.contains_key(b) && b
                    > now) by {
                if prev.buckets@.contains_key(b) {
                    if b <= now {
                        assert(due_s.contains(b));
                    } else {
                        if due_s.contains(b) {
                            let w = choose|w: int| 0 <= w < due_s.len() && #[trigger] due_s[w] == b;
                        }
                    }
                }
            }
            assert forall|uk: Seq<u8>|
                #[trigger] self.unexpire_keys@.contains_key(uk) == (
                prev.unexpire_keys@.contains_key(uk) && prev.unexpire_keys@[uk] > now) by {
                if prev.unexpire_keys@.contains_key(uk) {
                    let ub = prev.unexpire_keys@[uk];
                    assert(prev.buckets@.contains_key(ub));
                    if ub <= now {
                        assert(due_s.contains(ub));
                    } else {
                        if due_s.contains(ub) {
                            let w = choose|w: int| 0 <= w < due_s.len() && #[trigger] due_s[w] == ub;
                        }
                    }
                }
            }
            assert forall|t: Seq<char>, k: Seq<u8>|
                #[trigger] kv.holds(t, k) == (old(kv).holds(t, k) && !prev.swept_removes(
                    now,
                    t,
                    k,
                )) by {
                if prev.swept_removes(now, t, k) {
                    let (b, ci2) = choose|b: i64, ci2: int|
                        prev.buckets@.contains_key(b) && b <= now && 0 <= ci2
                            < prev.buckets@[b]@.len() && action_removes(
                            (#[trigger] prev.buckets@[b]@[ci2]).data,
                            t,
                            k,
                        );
                    assert(due_s.contains(b));
                    let jj = choose|jj: int| 0 <= jj < due_s.len() && #[trigger] due_s[jj] == b;
                    assert(0 <= jj < dn && 0 <= ci2 < prev.buckets@[due_s[jj]]@.len()
                        && action_removes(prev.buckets@[due_s[jj]]@[ci2].data, t, k));
                } else {
                    if exists|jj: int, ci2: int|
                        0 <= jj < dn && 0 <= ci2 < prev.buckets@[due_s[jj]]@.len()
                            && action_removes(
                            (#[trigger] prev.buckets@[due_s[jj]]@[ci2]).data,
                            t,
                            k,
                        ) {
                        let (jj, ci2) = choose|jj: int, ci2: int|
                            0 <= jj < dn && 0 <= ci2 < prev.buckets@[due_s[jj]]@.len()
                                && action_removes(
                                (#[trigger] prev.buckets@[due_s[jj]]@[ci2]).data,
                                t,
                                k,
                            );
                        assert(prev.buckets@.contains_key(due_s[jj]) && due_s[jj] <= now);
                        assert(false);
                    }
                }
            }
            // well-formedness of what survives
            assert forall|b2: i64, i2: int|
                self.buckets@.contains_key(b2) && 0 <= i2 < self.buckets@[b2]@.len() && (
                #[trigger] self.buckets@[b2]@[i2]).unexpire_key is Some
                implies self.unexpire_keys@.contains_key(
                self.buckets@[b2]@[i2].unexpire_key->Some_0@,
            ) && self.unexpire_keys@[self.buckets@[b2]@[i2].unexpire_key->Some_0@] == b2 by {
                assert(self.buckets@[b2] == prev.buckets@[b2]);
                let uk = self.buckets@[b2]@[i2].unexpire_key->Some_0@;
                assert(prev.unexpire_keys@.contains_key(uk) && prev.unexpire_keys@[uk] == b2);
            }
            assert forall|uk: Seq<u8>| #[trigger] self.unexpire_keys@.contains_key(uk)
                implies self.buckets@.contains_key(self.unexpire_keys@[uk]) && (exists|i2: int|
                0 <= i2 < self.buckets@[self.unexpire_keys@[uk]]@.len() && (#[trigger]
                self.buckets@[self.unexpire_keys@[uk]]@[i2]).unexpire_key is Some
                    && self.buckets@[self.unexpire_keys@[uk]]@[i2].unexpire_key->Some_0@
                    == uk) by {
                let ub = prev.unexpire_keys@[uk];
                assert(self.unexpire_keys@[uk] == ub);
                assert(self.buckets@.contains_key(ub));
                assert(self.buckets@[ub] == prev.buckets@[ub]);
                let i2 = choose|i2: int|
                    0 <= i2 < prev.buckets@[ub]@.len() && (#[trigger]
                    prev.buckets@[ub]@[i2]).unexpire_key is Some && prev.buckets@[ub]@[i2].unexpire_key->Some_0@ == uk;
                assert((#[trigger] self.buckets@[ub]@[i2]).unexpire_key is Some
                    && self.buckets@[ub]@[i2].unexpire_key->Some_0@ == uk);
            }
            assert forall|b2: i64, i2: int, j2: int|
                self.buckets@.contains_key(b2) && 0 <= i2 < j2 < self.buckets@[b2]@.len() && (
                #[trigger] self.buckets@[b2]@[i2]).unexpire_key is Some && (#[trigger]
                self.buckets@[b2]@[j2]).unexpire_key is Some
                implies self.buckets@[b2]@[i2].unexpire_key->Some_0@
                != self.buckets@[b2]@[j2].unexpire_key->Some_0@ by {
                assert(self.buckets@[b2] == prev.buckets@[b2]);
            }
        }
    }
}

/// An owned copy of a byte string.
fn copy_bytes(v: &Vec<u8>) -> (r: Vec<u8>)
    ensures
        r@ == v@,
{
    let mut r: Vec<u8> = Vec::new();
    let n = v.len();
    let mut i: usize = 0;
    while i < n
        invariant
            n == v@.len(),
            i <= n,
            r@ =~= v@.take(i as int),
        decreases n - i,
    {
        r.push(v[i]);
        proof {
            assert(r@ =~= v@.take(i + 1));
        }
        i += 1;
    }
    proof {
        assert(v@.take(n as int) =~= v@);
    }
    r
}

/// The expiry registry: time-second buckets of entries, and the index from
/// cancellation handles to their buckets.
pub struct ExpiryRegistry {
    pub buckets: Table<i64, Vec<ExpDataContainer>>,
    pub unexpire_keys: Table<Vec<u8>, i64>,
}

impl ExpiryRegistry {
    /// Buckets are nonempty; every handled entry is indexed at its bucket;
    /// every index entry points at a bucket holding its handle, exactly
    /// once.
    pub open spec fn wf(self) -> bool {
        &&& self.buckets.wf()
        &&& self.unexpire_keys.wf()
        &&& forall|b: i64|
            #[trigger] self.buckets@.contains_key(b) ==> self.buckets@[b]@.len() >= 1
        &&& forall|b: i64, i: int|
            self.buckets@.contains_key(b) && 0 <= i < self.buckets@[b]@.len() && (#[trigger]
            self.buckets@[b]@[i]).unexpire_key is Some
                ==> self.unexpire_keys@.contains_key(
                self.buckets@[b]@[i].unexpire_key->Some_0@,
            ) && self.unexpire_keys@[self.buckets@[b]@[i].unexpire_key->Some_0@] == b
        &&& forall|uk: Seq<u8>|
            #[trigger] self.unexpire_keys@.contains_key(uk) ==> self.buckets@.contains_key(
                self.unexpire_keys@[uk],
            ) && (exists|i: int|
                0 <= i < self.buckets@[self.unexpire_keys@[uk]]@.len() && (#[trigger]
                self.buckets@[self.unexpire_keys@[uk]]@[i]).unexpire_key is Some
                    && self.buckets@[self.unexpire_keys@[uk]]@[i].unexpire_key->Some_0@ == uk)
        &&& forall|b: i64, i: int, j: int|
            self.buckets@.contains_key(b) && 0 <= i < j < self.buckets@[b]@.len() && (#[trigger]
            self.buckets@[b]@[i]).unexpire_key is Some && (#[trigger]
            self.buckets@[b]@[j]).unexpire_key is Some
                ==> self.buckets@[b]@[i].unexpire_key->Some_0@
                != self.buckets@[b]@[j].unexpire_key->Some_0@
    }

    /// An empty registry.
    pub fn new() -> (r: ExpiryRegistry)
        ensures
            r.wf(),
            r.buckets@ == Map::<i64, Vec<ExpDataContainer>>::empty(),
            r.unexpire_keys@ == Map::<Seq<u8>, i64>::empty(),
    {
        ExpiryRegistry { buckets: Table::new(), unexpire_keys: Table::new() }
    }

    /// Schedules `data` to expire `from_now` seconds after `now`.  With a
    /// cancellation handle, registration is replace-or-fail: a handle
    /// already registered rejects the call and changes nothing.
    pub fn schedule(
        &mut self,
        now: i64,
        from_now: i64,
        data: ExpirableData,
        unexpire_key: Option<Vec<u8>>,
    ) -> (r: bool)
        requires
            old(self).wf(),
            -400_000_000_000 <= now <= 400_000_000_000,
            0 <= from_now <= 400_000_000_000,
        ensures
            final(self).wf(),
            ({
                let exp = (now + from_now) as i64;
                if r {
                    &&& (unexpire_key matches Some(uk) ==> !old(self).unexpire_keys@.contains_key(uk@))
                    &&& final(self).unexpire_keys@ =~= (match unexpire_key {
                        Some(uk) => old(self).unexpire_keys@.insert(uk@, exp),
                        None => old(self).unexpire_keys@,
                    })
                    &&& final(self).buckets@.dom() =~= old(self).buckets@.dom().insert(exp)
                    &&& forall|b: i64|
                        b != exp && old(self).buckets@.contains_key(b) ==> #[trigger] final(self).buckets@[b] == old(self).buckets@[b]
                    &&& ({
                        let newb = final(self).buckets@[exp]@;
                        let oldlen: int = if old(self).buckets@.contains_key(exp) {
                            old(self).buckets@[exp]@.len() as int
                        } else {
                            0
                        };
                        &&& newb.len() == oldlen + 1
                        &&& (forall|i: int|
                            0 <= i < oldlen ==> #[trigger] newb[i] == old(self).buckets@[exp]@[i])
                        &&& newb.last().data == data
                        &&& (match (newb.last().unexpire_key, unexpire_key) {
                            (Some(a), Some(bk)) => a@ == bk@,
                            (None, None) => true,
                            _ => false,
                        })
                    })
                } else {
                    &&& *final(self) == *old(self)
                    &&& unexpire_key matches Some(uk)
                    &&& old(self).unexpire_keys@.contains_key(uk@)
                }
            }),
    {
        let exp = now + from_now;
        let container = match unexpire_key {
            Some(uk) => {
                if self.unexpire_keys.contains(&uk) {
                    return false;
                }
                let ghost ukv = uk@;
                let handle_copy = copy_bytes(&uk);
                self.unexpire_keys.insert(uk, exp);
                ExpDataContainer { unexpire_key: Some(handle_copy), data }
            },
            None => ExpDataContainer { unexpire_key: None, data },
        };
        let mut list = match self.buckets.remove(&exp) {
            Some(l) => l,
            None => Vec::new(),
        };
        list.push(container);
        self.buckets.insert(exp, list);
        proof {
            let prev = *old(self);
            let newb = self.buckets@[exp]@;
            assert forall|b: i64, i: int|
                self.buckets@.contains_key(b) && 0 <= i < self.buckets@[b]@.len() && (#[trigger]
                self.buckets@[b]@[i]).unexpire_key is Some
                implies self.unexpire_keys@.contains_key(
                self.buckets@[b]@[i].unexpire_key->Some_0@,
            ) && self.unexpire_keys@[self.buckets@[b]@[i].unexpire_key->Some_0@] == b by {
                if b == exp && i == self.buckets@[b]@.len() - 1 {
                } else {
                    assert(prev.buckets@.contains_key(b));
                    assert(self.buckets@[b]@[i] == prev.buckets@[b]@[i]);
                }
            }
            assert forall|uk: Seq<u8>| #[trigger] self.unexpire_keys@.contains_key(uk)
                implies self.buckets@.contains_key(self.unexpire_keys@[uk]) && (exists|i: int|
                0 <= i < self.buckets@[self.unexpire_keys@[uk]]@.len() && (#[trigger]
                self.buckets@[self.unexpire_keys@[uk]]@[i]).unexpire_key is Some
                    && self.buckets@[self.unexpire_keys@[uk]]@[i].unexpire_key->Some_0@
                    == uk) by {
                if unexpire_key is Some && uk == unexpire_key->Some_0@ {
                    assert(self.unexpire_keys@[uk] == exp);
                    let i = self.buckets@[exp]@.len() - 1;
                    assert((#[trigger] self.buckets@[exp]@[i]).unexpire_key
                        is Some && self.buckets@[exp]@[i].unexpire_key->Some_0@
                        == uk);
                } else {
                    assert(prev.unexpire_keys@.contains_key(uk));
                    let b = prev.unexpire_keys@[uk];
                    let i = choose|i: int|
                        0 <= i < prev.buckets@[b]@.len() && (#[trigger]
                        prev.buckets@[b]@[i]).unexpire_key is Some
                            && prev.buckets@[b]@[i].unexpire_key->Some_0@ == uk;
                    if b == exp {
                        assert(self.buckets@[b]@[i] == prev.buckets@[b]@[i]);
                    } else {
                        assert(self.buckets@[b] == prev.buckets@[b]);
                    }
                    assert((#[trigger] self.buckets@[b]@[i]).unexpire_key is Some
                        && self.buckets@[b]@[i].unexpire_key->Some_0@ == uk);
                }
            }
            assert forall|b: i64, i: int, j: int|
                self.buckets@.contains_key(b) && 0 <= i < j < self.buckets@[b]@.len() && (
                #[trigger] self.buckets@[b]@[i]).unexpire_key is Some && (#[trigger]
                self.buckets@[b]@[j]).unexpire_key is Some
                implies self.buckets@[b]@[i].unexpire_key->Some_0@
                != self.buckets@[b]@[j].unexpire_key->Some_0@ by {
                if b == exp && j == self.buckets@[b]@.len() - 1 && prev.buckets@.contains_key(
                    b,
                ) {
                    assert(self.buckets@[b]@[i] == prev.buckets@[b]@[i]);
                    if self.buckets@[b]@[i].unexpire_key->Some_0@
                        == self.buckets@[b]@[j].unexpire_key->Some_0@ {
                        assert(prev.unexpire_keys@.contains_key(
                            prev.buckets@[b]@[i].unexpire_key->Some_0@,
                        ));
                        assert(false);
                    }
                } else if b == exp {
                    if prev.buckets@.contains_key(b) {
                        assert(self.buckets@[b]@[i] == prev.buckets@[b]@[i]);
                        assert(self.buckets@[b]@[j] == prev.buckets@[b]@[j]);
                    }
                } else {
                    assert(self.buckets@[b] == prev.buckets@[b]);
                }
            }
        }
        true
    }

    /// Cancels the entry registered under `unexpire_key`: the handle
    /// leaves the index and its entry leaves its bucket (the bucket itself
    /// is dropped when that empties it).  Returns false, changing nothing,
    /// when the handle is unknown or already fired.
    pub fn cancel(&mut self, unexpire_key: &Vec<u8>) -> (r: bool)
        requires
            old(self).wf(),
        ensures
            final(self).wf(),
            if r {
                let b = old(self).unexpire_keys@[unexpire_key@];
                &&& old(self).unexpire_keys@.contains_key(unexpire_key@)
                &&& final(self).unexpire_keys@ =~= old(self).unexpire_keys@.remove(
                    unexpire_key@,
                )
                &&& exists|idx: int|
                    {
                        &&& 0 <= idx < old(self).buckets@[b]@.len()
                        &&& (#[trigger] old(self).buckets@[b]@[idx]).unexpire_key is Some
                        &&& old(self).buckets@[b]@[idx].unexpire_key->Some_0@ == unexpire_key@
                        &&& (old(self).buckets@[b]@.len() == 1 ==> final(self).buckets@.dom()
                            =~= old(self).buckets@.dom().remove(b))
                        &&& (old(self).buckets@[b]@.len() > 1 ==> final(self).buckets@.dom()
                            =~= old(self).buckets@.dom() && final(self).buckets@[b]@ =~= old(self).buckets@[b]@.remove(idx))
                    }
                &&& forall|b2: i64|
                    b2 != b && old(self).buckets@.contains_key(b2) ==> #[trigger] final(self).buckets@[b2] == old(self).buckets@[b2]
            } else {
                &&& *final(self) == *old(self)
                &&& !old(self).unexpire_keys@.contains_key(unexpire_key@)
            },
    {
        let ghost prev = *old(self);
        let b = match self.unexpire_keys.get(unexpire_key) {
            Some(b) => *b,
            None => {
                return false;
            },
        };
        let _ = self.unexpire_keys.remove(unexpire_key);
        let mut list = match self.buckets.remove(&b) {
            Some(l) => l,
            None => {
                proof {
                    assert(false);
                }
                return false;
            },
        };
        let ghost orig = list@;
        let n = list.len();
        let mut found: Option<usize> = None;
        let mut i: usize = 0;
        while i < n
            invariant
                n == list@.len(),
                i <= n,
                match found {
                    Some(j) => j < n && list@[j as int].unexpire_key is Some
                        && list@[j as int].unexpire_key->Some_0@ == unexpire_key@,
                    None => forall|j: int|
                        0 <= j < i ==> !((#[trigger] list@[j]).unexpire_key is Some
                            && list@[j].unexpire_key->Some_0@ == unexpire_key@),
                },
            decreases n - i,
        {
            if found.is_none() {
                let hit = match &list[i].unexpire_key {
                    Some(k) => k.key_eq(unexpire_key),
                    None => false,
                };
                if hit {
                    found = Some(i);
                }
            }
            i += 1;
        }
        let idx = match found {
            Some(j) => j,
            None => {
                proof {
                    assert(prev.buckets@[b]@ == list@);
                    let wi = choose|wi: int|
                        0 <= wi < prev.buckets@[b]@.len() && (#[trigger]
                        prev.buckets@[b]@[wi]).unexpire_key is Some
                            && prev.buckets@[b]@[wi].unexpire_key->Some_0@ == unexpire_key@;
                    assert(false);
                }
                return false;
            },
        };
        let _ = list.remove(idx);
        if list.len() > 0 {
            self.buckets.insert(b, list);
        }
        proof {
            self.lemma_wf_after_cancel(prev, unexpire_key@, b, idx as int, orig);
        }
        true
    }

    /// Invariant restoration after `cancel` removed one handled entry.
    proof fn lemma_wf_after_cancel(
        self,
        prev: ExpiryRegistry,
        uk: Seq<u8>,
        b: i64,
        idx: int,
        orig: Seq<ExpDataContainer>,
    )
        requires
            prev.wf(),
            prev.unexpire_keys@.contains_key(uk),
            prev.unexpire_keys@[uk] == b,
            prev.buckets@.contains_key(b),
            orig == prev.buckets@[b]@,
            0 <= idx < orig.len(),
            orig[idx].unexpire_key is Some,
            orig[idx].unexpire_key->Some_0@ == uk,
            self.unexpire_keys.wf(),
            self.buckets.wf(),
            self.unexpire_keys@ =~= prev.unexpire_keys@.remove(uk),
            orig.len() == 1 ==> self.buckets@.dom() =~= prev.buckets@.dom().remove(b),
            orig.len() > 1 ==> self.buckets@.dom() =~= prev.buckets@.dom()
                && self.buckets@[b]@ =~= orig.remove(idx),
            forall|b2: i64|
                b2 != b && prev.buckets@.contains_key(b2) ==> #[trigger] self.buckets@[b2]
                    == prev.buckets@[b2],
        ensures
            self.wf(),
    {
        assert forall|b2: i64| #[trigger] self.buckets@.contains_key(b2)
            implies self.buckets@[b2]@.len() >= 1 by {
            if b2 != b {
                assert(self.buckets@[b2] == prev.buckets@[b2]);
            }
        }
        assert forall|b2: i64, i: int|
            self.buckets@.contains_key(b2) && 0 <= i < self.buckets@[b2]@.len() && (#[trigger]
            self.buckets@[b2]@[i]).unexpire_key is Some
            implies self.unexpire_keys@.contains_key(
            self.buckets@[b2]@[i].unexpire_key->Some_0@,
        ) && self.unexpire_keys@[self.buckets@[b2]@[i].unexpire_key->Some_0@] == b2 by {
            if b2 == b {
                assert(orig.len() > 1);
                let oi = if i < idx {
                    i
                } else {
                    i + 1
                };
                assert(self.buckets@[b]@[i] == orig[oi]);
                let k2 = orig[oi].unexpire_key->Some_0@;
                assert(prev.unexpire_keys@.contains_key(k2) && prev.unexpire_keys@[k2] == b);
                assert(k2 != uk) by {
                    if k2 == uk {
                        if oi < idx {
                            assert(orig[oi].unexpire_key->Some_0@
                                != orig[idx].unexpire_key->Some_0@);
                        } else {
                            assert(orig[idx].unexpire_key->Some_0@
                                != orig[oi].unexpire_key->Some_0@);
                        }
                    }
                }
            } else {
                assert(self.buckets@[b2] == prev.buckets@[b2]);
                let k2 = self.buckets@[b2]@[i].unexpire_key->Some_0@;
                assert(prev.unexpire_keys@.contains_key(k2) && prev.unexpire_keys@[k2] == b2);
                assert(k2 != uk);
            }
        }
        assert forall|uk2: Seq<u8>| #[trigger] self.unexpire_keys@.contains_key(uk2)
            implies self.buckets@.contains_key(self.unexpire_keys@[uk2]) && (exists|i: int|
            0 <= i < self.buckets@[self.unexpire_keys@[uk2]]@.len() && (#[trigger]
            self.buckets@[self.unexpire_keys@[uk2]]@[i]).unexpire_key is Some
                && self.buckets@[self.unexpire_keys@[uk2]]@[i].unexpire_key->Some_0@
                == uk2) by {
            assert(prev.unexpire_keys@.contains_key(uk2) && uk2 != uk);
            let b2 = prev.unexpire_keys@[uk2];
            let i = choose|i: int|
                0 <= i < prev.buckets@[b2]@.len() && (#[trigger]
                prev.buckets@[b2]@[i]).unexpire_key is Some && prev.buckets@[b2]@[i].unexpire_key->Some_0@ == uk2;
            if b2 == b {
                assert(i != idx);
                assert(orig.len() > 1);
                let ni = if i < idx {
                    i
                } else {
                    i - 1
                };
                assert(self.buckets@[b]@[ni] == orig[i]);
                assert((#[trigger] self.buckets@[b]@[ni]).unexpire_key is Some
                    && self.buckets@[b]@[ni].unexpire_key->Some_0@ == uk2);
            } else {
                assert(self.buckets@[b2] == prev.buckets@[b2]);
                assert((#[trigger] self.buckets@[b2]@[i]).unexpire_key is Some
                    && self.buckets@[b2]@[i].unexpire_key->Some_0@ == uk2);
            }
        }
        assert forall|b2: i64, i: int, j: int|
            self.buckets@.contains_key(b2) && 0 <= i < j < self.buckets@[b2]@.len() && (
            #[trigger] self.buckets@[b2]@[i]).unexpire_key is Some && (#[trigger]
            self.buckets@[b2]@[j]).unexpire_key is Some
            implies self.buckets@[b2]@[i].unexpire_key->Some_0@
            != self.buckets@[b2]@[j].unexpire_key->Some_0@ by {
            if b2 == b {
                assert(orig.len() > 1);
                let oi = if i < idx {
                    i
                } else {
                    i + 1
                };
                let oj = if j < idx {
                    j
                } else {
                    j + 1
                };
                assert(self.buckets@[b]@[i] == orig[oi]);
                assert(self.buckets@[b]@[j] == orig[oj]);
            } else {
                assert(self.buckets@[b2] == prev.buckets@[b2]);
            }
        }
    }
}

/// Applies one expiring action to the store: exactly the keys the action
/// names disappear.
pub fn apply_action(kv: &mut Kv, data: &ExpirableData)
    requires
        old(kv).wf(),
    ensures
        final(kv).wf(),
        final(kv).tables@.dom() =~= old(kv).tables@.dom(),
        forall|t: Seq<char>, k: Seq<u8>|
            #[trigger] final(kv).holds(t, k) == (old(kv).holds(t, k) && !action_removes(
                *data,
                t,
                k,
            )),
{
    match data {
        ExpirableData::Single { tree, key } => {
            kv.delete(tree, key);
        },
        ExpirableData::MultiKey { tree, keys } => {
            let n = keys.len();
            let mut i: usize = 0;
            while i < n
                invariant
                    kv.wf(),
                    n == keys@.len(),
                    i <= n,
                    kv.tables@.dom() =~= old(kv).tables@.dom(),
                    forall|t: Seq<char>, k: Seq<u8>|
                        #[trigger] kv.holds(t, k) == (old(kv).holds(t, k) && !(t == tree@ && (
                        exists|j: int| 0 <= j < i && (#[trigger] keys@[j])@ == k))),
                decreases n - i,
            {
                let ghost pre = *kv;
                kv.delete(tree, &keys[i]);
                proof {
                    assert forall|t: Seq<char>, k: Seq<u8>|
                        #[trigger] kv.holds(t, k) == (old(kv).holds(t, k) && !(t == tree@ && (
                        exists|j: int| 0 <= j < i + 1 && (#[trigger] keys@[j])@ == k))) by {
                        if t == tree@ {
                            if exists|j: int| 0 <= j < i + 1 && (#[trigger] keys@[j])@ == k {
                                let j = choose|j: int|
                                    0 <= j < i + 1 && (#[trigger] keys@[j])@ == k;
                                if j < i {
                                    assert(!pre.holds(t, k));
                                } else {
                                    assert(k == keys@[i as int]@);
                                }
                            }
                        }
                    }
                }
                i += 1;
            }
        },
        ExpirableData::MultiTree(m) => {
            let n = m.len();
            let mut i: usize = 0;
            while i < n
                invariant
                    kv.wf(),
                    n == m@.len(),
                    i <= n,
                    kv.tables@.dom() =~= old(kv).tables@.dom(),
                    forall|t: Seq<char>, k: Seq<u8>|
                        #[trigger] kv.holds(t, k) == (old(kv).holds(t, k) && !(exists|ii: int|
                            0 <= ii < i && (#[trigger] m@[ii]).0@ == t && (exists|j: int|
                                0 <= j < m@[ii].1@.len() && (#[trigger] m@[ii].1@[j])@ == k))),
                decreases n - i,
            {
                let ghost pre = *kv;
                let (tree, keys) = &m[i];
                let kn = keys.len();
                let mut jj: usize = 0;
                while jj < kn
                    invariant
                        kv.wf(),
                        kn == keys@.len(),
                        jj <= kn,
                        tree@ == m@[i as int].0@,
                        keys@ == m@[i as int].1@,
                        kv.tables@.dom() =~= pre.tables@.dom(),
                        forall|t: Seq<char>, k: Seq<u8>|
                            #[trigger] kv.holds(t, k) == (pre.holds(t, k) && !(t == tree@ && (
                            exists|j: int| 0 <= j < jj && (#[trigger] keys@[j])@ == k))),
                    decreases kn - jj,
                {
                    let ghost mid = *kv;
                    kv.delete(tree, &keys[jj]);
                    proof {
                        assert forall|t: Seq<char>, k: Seq<u8>|
                            #[trigger] kv.holds(t, k) == (pre.holds(t, k) && !(t == tree@ && (
                            exists|j: int| 0 <= j < jj + 1 && (#[trigger] keys@[j])@ == k)))
                            by {
                            if t == tree@ {
                                if exists|j: int|
                                    0 <= j < jj + 1 && (#[trigger] keys@[j])@ == k {
                                    let j = choose|j: int|
                                        0 <= j < jj + 1 && (#[trigger] keys@[j])@ == k;
                                    if j < jj {
                                        assert(!mid.holds(t, k));
                                    } else {
                                        assert(k == keys@[jj as int]@);
                                    }
                                }
                            }
                        }
                    }
                    jj += 1;
                }
                proof {
                    assert forall|t: Seq<char>, k: Seq<u8>|
                        #[trigger] kv.holds(t, k) == (old(kv).holds(t, k) && !(exists|ii: int|
                            0 <= ii < i + 1 && (#[trigger] m@[ii]).0@ == t && (exists|j: int|
                                0 <= j < m@[ii].1@.len() && (#[trigger] m@[ii].1@[j])@ == k)))
                        by {
                        if exists|ii: int|
                            0 <= ii < i + 1 && (#[trigger] m@[ii]).0@ == t && (exists|j: int|
                                0 <= j < m@[ii].1@.len() && (#[trigger] m@[ii].1@[j])@ == k) {
                            let ii = choose|ii: int|
                                0 <= ii < i + 1 && (#[trigger] m@[ii]).0@ == t && (exists|
                                    j: int,
                                |
                                    0 <= j < m@[ii].1@.len() && (#[trigger] m@[ii].1@[j])@
                                        == k);
                            if ii < i {
                                assert(!pre.holds(t, k));
                            } else {
                                assert(t == tree@);
                                assert(!kv.holds(t, k));
                            }
                        }
                    }
                }
                i += 1;
            }
        },
    }
}

} // verus!
