//! The comment store: every table of the engine as owned state, with the
//! transactional mutations over them.
//!
//! Each operation validates first and mutates after, so it changes either
//! every table it names or none: the atomicity that multi-table
//! transactions provide on disk holds here by construction.

use vstd::prelude::*;

use crate::ids::{CKeyV, CommentId, CommentKey, Seg, WritId};
use crate::render::{render_md, rendered_md};
use crate::table::{RootId, Table, VoterKey};
use crate::tree::CommentIdTree;
use crate::utils::byte_len;
use crate::voters::{Vote, VoterTable};

verus! {

/// Why a store operation was refused.
#[derive(Clone, Copy, PartialEq, Eq, Structural, Debug)]
pub enum StoreError {
    /// Input rejected before any table was touched (content length).
    Validation,
    /// An id or path did not resolve.
    NotFound,
    /// The caller is not the author of the comment.
    Unauthorized,
    /// A double vote, a retraction without a vote, or a duplicate key.
    Conflict,
    /// The store itself cannot carry the operation out.
    Storage,
}

/// One comment record, as persisted in the flat comment table.
#[derive(Debug)]
pub struct Comment {
    /// The key the record is stored under (full path for first-level
    /// comments, bare segment for deeper ones).
    pub key: CommentKey,
    pub author_name: String,
    /// Rendered content.
    pub content: String,
    pub posted: i64,
    pub edited: Option<i64>,
    pub public: bool,
    pub author_only: bool,
}

impl Comment {
    /// An owned copy with the same field views.
    pub fn dup(&self) -> (r: Comment)
        ensures
            r.key@ == self.key@,
            r.author_name@ == self.author_name@,
            r.content@ == self.content@,
            r.posted == self.posted,
            r.edited == self.edited,
            r.public == self.public,
            r.author_only == self.author_only,
    {
        Comment {
            key: self.key.dup(),
            author_name: self.author_name.clone(),
            content: self.content.clone(),
            posted: self.posted,
            edited: self.edited,
            public: self.public,
            author_only: self.author_only,
        }
    }
}

/// Per-post comment policy.
pub struct CommentSettings {
    pub public: bool,
    pub visible_to: Option<Vec<u64>>,
    pub min_comment_length: Option<u64>,
    pub max_comment_length: Option<u64>,
    pub disqualified_strs: Option<Vec<String>>,
    pub hide_when_vote_below: Option<i64>,
    pub max_level: Option<u64>,
    pub notify_author: bool,
    pub notifying_stops_beyond_level: Option<u64>,
}

impl CommentSettings {
    /// The stock policy for a post: 5..=8000 bytes, at most 32 levels.
    pub fn default(public: bool) -> (r: CommentSettings)
        ensures
            r.public == public,
            r.visible_to is None,
            r.min_comment_length == Some(5u64),
            r.max_comment_length == Some(8000u64),
            r.disqualified_strs is None,
            r.hide_when_vote_below == Some(10i64),
            r.max_level == Some(32u64),
            r.notify_author,
            r.notifying_stops_beyond_level is None,
    {
        CommentSettings {
            public,
            visible_to: None,
            min_comment_length: Some(5),
            max_comment_length: Some(8000),
            disqualified_strs: None,
            hide_when_vote_below: Some(10),
            max_level: Some(32),
            notify_author: true,
            notifying_stops_beyond_level: None,
        }
    }
}

/// Two comment records with the same field views.
pub open spec fn same_comment(a: Comment, b: Comment) -> bool {
    &&& a.key@ == b.key@
    &&& a.author_name@ == b.author_name@
    &&& a.content@ == b.content@
    &&& a.posted == b.posted
    &&& a.edited == b.edited
    &&& a.public == b.public
    &&& a.author_only == b.author_only
}

/// Whether a raw content of `len` bytes is within the policy's bounds.
pub open spec fn len_ok(min: Option<u64>, max: Option<u64>, len: nat) -> bool {
    &&& (max is Some ==> len <= max->Some_0)
    &&& (min is Some ==> len >= min->Some_0)
}

/// The storage key of the node at relative path `q` of the tree rooted at
/// `rk`: the first-level comment under its full path, deeper ones under
/// their last segment.
pub open spec fn key_at(rk: RootId, q: Seq<Seg>) -> CKeyV {
    if q.len() == 0 {
        CKeyV::Full(rk.writ, seq![rk.seg])
    } else {
        CKeyV::Short(q.last())
    }
}

/// Whether some key of `ks` has view `k`.
pub open spec fn in_keys(ks: Seq<CommentKey>, k: CKeyV) -> bool {
    exists|j: int| 0 <= j < ks.len() && (#[trigger] ks[j])@ == k
}

/// The signed adjustment a vote call applies to the count: two for a
/// flip, one for a fresh vote, the reverse of the stored direction for a
/// retraction.
pub open spec fn vote_delta(had: bool, stored_up: bool, direction: Option<bool>) -> int {
    match direction {
        Some(up) => if had {
            if up {
                2int
            } else {
                -2int
            }
        } else {
            if up {
                1int
            } else {
                -1int
            }
        },
        None => if stored_up {
            -1int
        } else {
            1int
        },
    }
}

/// The sequence number the next allocation on post `w` yields.
pub open spec fn next_seq_of(seqs: Map<WritId, u64>, w: WritId) -> u64 {
    if seqs.contains_key(w) {
        (seqs[w] + 1) as u64
    } else {
        0u64
    }
}

/// The whole engine state: one field per table of the backing store.
pub struct CommentDb {
    /// Per-post last allocated sequence number.
    pub seqs: Table<WritId, u64>,
    /// One structural index blob per first-level comment.
    pub trees: Table<RootId, CommentIdTree>,
    /// Flat comment records.
    pub comments: Table<CommentKey, Comment>,
    /// Raw (unrendered) content.
    pub raw_contents: Table<CommentKey, String>,
    /// Vote counts, maintained incrementally.
    pub votes: Table<CommentKey, i64>,
    /// One row per (comment, voter) pair.
    pub voters: VoterTable,
    /// Short id to full path.
    pub kpi: Table<Seg, CommentId>,
}

impl CommentDb {
    /// A comment record's key leads back to the structural index: a
    /// first-level key names its tree blob directly, a short key goes
    /// through the key-path index.
    pub open spec fn comment_reachable(self, k: CKeyV) -> bool {
        match k {
            CKeyV::Full(w, segs) => segs.len() == 1 && self.trees@.contains_key(
                RootId { writ: w, seg: segs.last() },
            ),
            CKeyV::Short(s) => self.kpi@.contains_key(s),
        }
    }

    /// The store invariant: tree, record, vote and index tables agree.
    pub open spec fn wf(self) -> bool {
        &&& self.seqs.wf()
        &&& self.trees.wf()
        &&& self.comments.wf()
        &&& self.raw_contents.wf()
        &&& self.votes.wf()
        &&& self.voters.wf()
        &&& self.kpi.wf()
        // each blob is a well-formed tree rooted at level zero
        &&& forall|rk: RootId|
            #[trigger] self.trees@.contains_key(rk) ==> self.trees@[rk].wf()
                && self.trees@[rk].level == 0
        // a node's key and level are determined by its position; its record
        // exists; its sequence number was allocated
        &&& forall|rk: RootId, q: Seq<Seg>|
            self.trees@.contains_key(rk) && (#[trigger] self.trees@[rk].node_at(q)) is Some
                ==> {
                let kl = self.trees@[rk].node_at(q)->Some_0;
                &&& kl.0 == key_at(rk, q)
                &&& kl.1 == q.len()
                &&& self.comments@.contains_key(kl.0)
                &&& self.seqs@.contains_key(rk.writ)
                &&& rk.seg.seq <= self.seqs@[rk.writ]
                &&& (q.len() > 0 ==> q.last().seq <= self.seqs@[rk.writ])
            }
        // every deeper node is resolvable through the key-path index
        &&& forall|rk: RootId, q: Seq<Seg>|
            self.trees@.contains_key(rk) && (#[trigger] self.trees@[rk].node_at(q)) is Some
                && q.len() >= 1 ==> self.kpi@.contains_key(q.last())
                && self.kpi@[q.last()]@ == (rk.writ, seq![rk.seg].add(q))
        // every key-path entry points at an existing deeper node
        &&& forall|s: Seg|
            #[trigger] self.kpi@.contains_key(s) ==> {
                let cid = self.kpi@[s]@;
                &&& cid.1.len() >= 2
                &&& cid.1.last() == s
                &&& self.trees@.contains_key(RootId { writ: cid.0, seg: cid.1[0] })
                &&& self.trees@[RootId { writ: cid.0, seg: cid.1[0] }].contains_path(
                    cid.1.drop_first(),
                )
            }
        // every comment record is reachable from the structural index
        &&& forall|k: CKeyV|
            #[trigger] self.comments@.contains_key(k) ==> self.comment_reachable(k)
        // a record knows its own key
        &&& forall|k: CKeyV|
            #[trigger] self.comments@.contains_key(k) ==> self.comments@[k].key@ == k
        // raw content and vote counts exist only for stored comments, voter
        // rows only for counted comments
        &&& forall|k: CKeyV|
            #[trigger] self.raw_contents@.contains_key(k) ==> self.comments@.contains_key(k)
        &&& forall|k: CKeyV|
            #[trigger] self.votes@.contains_key(k) ==> self.comments@.contains_key(k)
        &&& forall|vk: (CKeyV, u64)|
            #[trigger] self.voters@.contains_key(vk) ==> self.votes@.contains_key(vk.0)
        // the vote-count invariant: every count equals the signed tally of
        // its voter rows
        &&& forall|k: CKeyV|
            #[trigger] self.votes@.contains_key(k) ==> self.votes@[k] == self.voters.count_of(
                k,
            )
    }

    /// Creates a first-level comment on post `writ`: allocates the next
    /// sequence number, creates the tree blob, the record, the raw content
    /// and a zero vote count, all or nothing.
    ///
    /// Succeeds exactly when the raw content is within the policy's length
    /// bounds and the post's counter is not exhausted.
    pub fn create_first_level(
        &mut self,
        writ: WritId,
        author: u64,
        author_name: &String,
        raw_content: String,
        settings: &CommentSettings,
        author_only: bool,
        now: i64,
    ) -> (r: Result<Comment, StoreError>)
        requires
            old(self).wf(),
        ensures
            final(self).wf(),
            match r {
                Ok(c) => {
                    let seg = Seg { author, seq: next_seq_of(old(self).seqs@, writ) };
                    let rk = RootId { writ, seg };
                    let ck = CKeyV::Full(writ, seq![seg]);
                    &&& len_ok(
                        settings.min_comment_length,
                        settings.max_comment_length,
                        byte_len(raw_content@),
                    )
                    &&& !old(self).trees@.contains_key(rk)
                    &&& c.key@ == ck
                    &&& c.author_name@ == author_name@
                    &&& c.content@ == rendered_md(raw_content@)
                    &&& c.posted == now
                    &&& c.edited is None
                    &&& !c.public
                    &&& c.author_only == author_only
                    &&& final(self).seqs@ == old(self).seqs@.insert(writ, seg.seq)
                    &&& final(self).trees@.dom() =~= old(self).trees@.dom().insert(rk)
                    &&& forall|rk2: RootId|
                        rk2 != rk && old(self).trees@.contains_key(rk2) ==> #[trigger] final(self).trees@[rk2] == old(self).trees@[rk2]
                    &&& forall|q: Seq<Seg>|
                        #[trigger] final(self).trees@[rk].node_at(q) == (if q.len() == 0 {
                            Some((ck, 0u64))
                        } else {
                            None::<(CKeyV, u64)>
                        })
                    &&& final(self).comments@.dom() =~= old(self).comments@.dom().insert(ck)
                    &&& forall|k2: CKeyV|
                        k2 != ck && old(self).comments@.contains_key(k2) ==> #[trigger] final(self).comments@[k2]
                            == old(self).comments@[k2]
                    &&& same_comment(final(self).comments@[ck], c)
                    &&& final(self).raw_contents@ =~= old(self).raw_contents@.insert(
                        ck,
                        raw_content,
                    )
                    &&& final(self).votes@ =~= old(self).votes@.insert(ck, 0i64)
                    &&& final(self).voters == old(self).voters
                    &&& final(self).kpi == old(self).kpi
                },
                Err(e) => {
                    &&& *final(self) == *old(self)
                    &&& (e == StoreError::Validation <==> !len_ok(
                        settings.min_comment_length,
                        settings.max_comment_length,
                        byte_len(raw_content@),
                    ))
                    &&& (e == StoreError::Validation || e == StoreError::Storage)
                    &&& (e == StoreError::Storage ==> old(self).seqs@.contains_key(writ)
                        && old(self).seqs@[writ] == u64::MAX)
                },
            },
    {
        let len = raw_content.as_str().len();
        if let Some(max) = settings.max_comment_length {
            if len as u64 > max {
                return Err(StoreError::Validation);
            }
        }
        if let Some(min) = settings.min_comment_length {
            if (len as u64) < min {
                return Err(StoreError::Validation);
            }
        }
        let seq_no: u64 = match self.seqs.get(&writ) {
            Some(l) => {
                if *l == u64::MAX {
                    return Err(StoreError::Storage);
                }
                *l + 1
            },
            None => 0,
        };
        let seg = Seg { author, seq: seq_no };
        let rk = RootId { writ, seg };
        let ghost ck = CKeyV::Full(writ, seq![seg]);
        proof {
            if self.trees@.contains_key(rk) {
                let e: Seq<Seg> = Seq::empty();
                assert(self.trees@[rk].node_at(e) is Some);
                assert(rk.seg.seq <= self.seqs@[writ]);
                assert(false);
            }
            if self.comments@.contains_key(ck) {
                assert(self.comment_reachable(ck));
                assert(seq![seg].last() == seg);
                assert(false);
            }
            if self.raw_contents@.contains_key(ck) {
                assert(false);
            }
            if self.votes@.contains_key(ck) {
                assert(false);
            }
        }
        let mut segs_v: Vec<Seg> = Vec::new();
        segs_v.push(seg);
        proof {
            assert(segs_v@ =~= seq![seg]);
        }
        let ck_key = CommentKey::Full(CommentId { writ, segs: segs_v });
        proof {
            assert(ck_key@ == ck);
        }
        let node = CommentIdTree::leaf(ck_key.dup(), 0);
        let content = render_md(raw_content.as_str());
        let c = Comment {
            key: ck_key.dup(),
            author_name: author_name.clone(),
            content,
            posted: now,
            edited: None,
            public: false,
            author_only,
        };
        let ret = c.dup();
        self.trees.insert(rk, node);
        self.comments.insert(ck_key.dup(), c);
        self.raw_contents.insert(ck_key.dup(), raw_content);
        self.votes.insert(ck_key, 0);
        self.seqs.insert(writ, seq_no);
        proof {
            self.lemma_wf_after_create(*old(self), writ, seg, rk, ck);
        }
        Ok(ret)
    }

    /// Invariant restoration after `create_first_level`'s table writes.
    proof fn lemma_wf_after_create(
        self,
        prev: CommentDb,
        writ: WritId,
        seg: Seg,
        rk: RootId,
        ck: CKeyV,
    )
        requires
            prev.wf(),
            seg == (Seg { author: seg.author, seq: next_seq_of(prev.seqs@, writ) }),
            prev.seqs@.contains_key(writ) ==> prev.seqs@[writ] < u64::MAX,
            rk == (RootId { writ, seg }),
            ck == CKeyV::Full(writ, seq![seg]),
            !prev.trees@.contains_key(rk),
            !prev.comments@.contains_key(ck),
            self.seqs@ == prev.seqs@.insert(writ, seg.seq),
            self.seqs.wf(),
            self.trees.wf(),
            self.comments.wf(),
            self.raw_contents.wf(),
            self.votes.wf(),
            self.voters.wf(),
            self.kpi.wf(),
            self.trees@.dom() =~= prev.trees@.dom().insert(rk),
            forall|rk2: RootId|
                rk2 != rk && prev.trees@.contains_key(rk2) ==> #[trigger] self.trees@[rk2]
                    == prev.trees@[rk2],
            self.trees@[rk].wf(),
            self.trees@[rk].level == 0,
            forall|q: Seq<Seg>|
                #[trigger] self.trees@[rk].node_at(q) == (if q.len() == 0 {
                    Some((ck, 0u64))
                } else {
                    None::<(CKeyV, u64)>
                }),
            self.comments@ =~= prev.comments@.insert(ck, self.comments@[ck]),
            self.comments@[ck].key@ == ck,
            self.raw_contents@ =~= prev.raw_contents@.insert(ck, self.raw_contents@[ck]),
            self.votes@ =~= prev.votes@.insert(ck, 0i64),
            self.voters == prev.voters,
            self.kpi == prev.kpi,
        ensures
            self.wf(),
    {
        assert forall|rk2: RootId| #[trigger] self.trees@.contains_key(rk2)
            implies self.trees@[rk2].wf() && self.trees@[rk2].level == 0 by {
            if rk2 != rk {
                assert(self.trees@[rk2] == prev.trees@[rk2]);
            }
        }
        assert forall|rk2: RootId, q: Seq<Seg>|
            self.trees@.contains_key(rk2) && (#[trigger] self.trees@[rk2].node_at(q)) is Some
            implies {
            let kl = self.trees@[rk2].node_at(q)->Some_0;
            &&& kl.0 == key_at(rk2, q)
            &&& kl.1 == q.len()
            &&& self.comments@.contains_key(kl.0)
            &&& self.seqs@.contains_key(rk2.writ)
            &&& rk2.seg.seq <= self.seqs@[rk2.writ]
            &&& (q.len() > 0 ==> q.last().seq <= self.seqs@[rk2.writ])
        } by {
            if rk2 == rk {
                assert(q.len() == 0);
                assert(key_at(rk, q) == ck);
            } else {
                assert(self.trees@[rk2] == prev.trees@[rk2]);
                assert(prev.trees@[rk2].node_at(q) is Some);
                if rk2.writ == writ {
                    assert(prev.seqs@.contains_key(writ));
                    assert(self.seqs@[writ] == seg.seq);
                    assert(prev.seqs@[writ] < seg.seq);
                }
            }
        }
        assert forall|rk2: RootId, q: Seq<Seg>|
            self.trees@.contains_key(rk2) && (#[trigger] self.trees@[rk2].node_at(q)) is Some
                && q.len() >= 1 implies self.kpi@.contains_key(q.last()) && self.kpi@[q.last()]@
            == (rk2.writ, seq![rk2.seg].add(q)) by {
            if rk2 == rk {
                assert(false);
            } else {
                assert(self.trees@[rk2] == prev.trees@[rk2]);
                assert(prev.trees@[rk2].node_at(q) is Some);
            }
        }
        assert forall|s: Seg| #[trigger] self.kpi@.contains_key(s) implies {
            let cid = self.kpi@[s]@;
            &&& cid.1.len() >= 2
            &&& cid.1.last() == s
            &&& self.trees@.contains_key(RootId { writ: cid.0, seg: cid.1[0] })
            &&& self.trees@[RootId { writ: cid.0, seg: cid.1[0] }].contains_path(
                cid.1.drop_first(),
            )
        } by {
            let cid = self.kpi@[s]@;
            let rk2 = RootId { writ: cid.0, seg: cid.1[0] };
            assert(prev.kpi@.contains_key(s));
            assert(rk2 != rk) by {
                if rk2 == rk {
                    assert(prev.trees@.contains_key(rk));
                }
            }
            assert(self.trees@[rk2] == prev.trees@[rk2]);
        }
        assert forall|k: CKeyV| #[trigger] self.comments@.contains_key(k)
            implies self.comment_reachable(k) by {
            if k == ck {
                assert(seq![seg].last() == seg);
                assert(self.trees@.contains_key(rk));
            } else {
                assert(prev.comments@.contains_key(k));
                assert(prev.comment_reachable(k));
                match k {
                    CKeyV::Full(w, segs) => {
                        assert(self.trees@.contains_key(RootId { writ: w, seg: segs.last() }));
                    },
                    CKeyV::Short(s) => {},
                }
            }
        }
        assert forall|k: CKeyV| #[trigger] self.comments@.contains_key(k)
            implies self.comments@[k].key@ == k by {
            if k != ck {
                assert(prev.comments@.contains_key(k));
            }
        }
        assert forall|k: CKeyV| #[trigger] self.votes@.contains_key(k) implies self.votes@[k]
            == self.voters.count_of(k) by {
            if k == ck {
                assert forall|i: int|
                    0 <= i < self.voters.entries@.len() implies (#[trigger]
                self.voters.entries@[i]).0@.0 != ck by {
                    crate::table::lemma_entries_map_get(self.voters.entries@, i);
                    assert(prev.voters@.contains_key(self.voters.entries@[i].0@));
                    assert(prev.votes@.contains_key(self.voters.entries@[i].0@.0));
                }
                crate::voters::lemma_tally_zero(self.voters.entries@, ck);
            } else {
                assert(prev.votes@.contains_key(k));
            }
        }
    }

    /// The full path a reply's parent key resolves to: a full key carries
    /// its path, a short key goes through the key-path index.
    pub open spec fn resolved_parent(self, parent: CKeyV) -> Option<(WritId, Seq<Seg>)> {
        match parent {
            CKeyV::Full(w, segs) => if segs.len() >= 1 {
                Some((w, segs))
            } else {
                None::<(WritId, Seq<Seg>)>
            },
            CKeyV::Short(s) => if self.kpi@.contains_key(s) {
                Some(self.kpi@[s]@)
            } else {
                None::<(WritId, Seq<Seg>)>
            },
        }
    }

    /// A reply under a parent with `plen` segments is allowed by the
    /// policy: the new comment's level must stay below the cutoff.
    pub open spec fn reply_level_ok(max_level: Option<u64>, plen: nat) -> bool {
        max_level is Some ==> plen < max_level->Some_0
    }

    /// The parent's path leads to a node of its tree blob.
    pub open spec fn reply_tree_ok(self, w: WritId, psegs: Seq<Seg>) -> bool {
        &&& self.trees@.contains_key(RootId { writ: w, seg: psegs[0] })
        &&& self.trees@[RootId { writ: w, seg: psegs[0] }].contains_path(psegs.drop_first())
    }

    /// Creates a reply under `parent`: allocates the next sequence number of
    /// the parent's post, hangs a fresh node under the parent in the tree
    /// blob, records the short-to-full path mapping, and creates the record,
    /// raw content and zero vote count, all or nothing.
    #[verifier::rlimit(80)]
    pub fn create_reply(
        &mut self,
        parent: &CommentKey,
        author: u64,
        author_name: &String,
        raw_content: String,
        settings: &CommentSettings,
        author_only: bool,
        now: i64,
    ) -> (r: Result<Comment, StoreError>)
        requires
            old(self).wf(),
        ensures
            final(self).wf(),
            match r {
                Ok(c) => {
                    let wp = old(self).resolved_parent(parent@)->Some_0;
                    let w = wp.0;
                    let psegs = wp.1;
                    let seg = Seg { author, seq: next_seq_of(old(self).seqs@, w) };
                    let rk = RootId { writ: w, seg: psegs[0] };
                    let ck = CKeyV::Short(seg);
                    let tgt = psegs.drop_first().push(seg);
                    &&& len_ok(
                        settings.min_comment_length,
                        settings.max_comment_length,
                        byte_len(raw_content@),
                    )
                    &&& old(self).resolved_parent(parent@) is Some
                    &&& Self::reply_level_ok(settings.max_level, psegs.len())
                    &&& old(self).reply_tree_ok(w, psegs)
                    &&& !old(self).kpi@.contains_key(seg)
                    &&& c.key@ == ck
                    &&& c.author_name@ == author_name@
                    &&& c.content@ == rendered_md(raw_content@)
                    &&& c.posted == now
                    &&& c.edited is None
                    &&& !c.public
                    &&& c.author_only == author_only
                    &&& final(self).seqs@ =~= old(self).seqs@.insert(w, seg.seq)
                    &&& final(self).trees@.dom() =~= old(self).trees@.dom()
                    &&& forall|rk2: RootId|
                        rk2 != rk && old(self).trees@.contains_key(rk2) ==> #[trigger] final(self).trees@[rk2]
                            == old(self).trees@[rk2]
                    &&& forall|q: Seq<Seg>|
                        #[trigger] final(self).trees@[rk].node_at(q) == (if q == tgt {
                            Some((ck, psegs.len() as u64))
                        } else {
                            old(self).trees@[rk].node_at(q)
                        })
                    &&& final(self).kpi@.dom() =~= old(self).kpi@.dom().insert(seg)
                    &&& forall|s2: Seg|
                        s2 != seg && old(self).kpi@.contains_key(s2) ==> #[trigger] final(self).kpi@[s2]
                            == old(self).kpi@[s2]
                    &&& final(self).kpi@[seg]@ == (w, psegs.push(seg))
                    &&& final(self).comments@.dom() =~= old(self).comments@.dom().insert(ck)
                    &&& forall|k2: CKeyV|
                        k2 != ck && old(self).comments@.contains_key(k2) ==> #[trigger] final(self).comments@[k2]
                            == old(self).comments@[k2]
                    &&& same_comment(final(self).comments@[ck], c)
                    &&& final(self).raw_contents@ =~= old(self).raw_contents@.insert(
                        ck,
                        raw_content,
                    )
                    &&& final(self).votes@ =~= old(self).votes@.insert(ck, 0i64)
                    &&& final(self).voters == old(self).voters
                },
                Err(e) => {
                    &&& *final(self) == *old(self)
                    &&& {
                        let lok = len_ok(
                            settings.min_comment_length,
                            settings.max_comment_length,
                            byte_len(raw_content@),
                        );
                        let rp = old(self).resolved_parent(parent@);
                        if !lok {
                            e == StoreError::Validation
                        } else if rp is None {
                            e == StoreError::NotFound
                        } else if !Self::reply_level_ok(settings.max_level, rp->Some_0.1.len()) {
                            e == StoreError::Validation
                        } else if !old(self).reply_tree_ok(rp->Some_0.0, rp->Some_0.1) {
                            e == StoreError::NotFound
                        } else if old(self).seqs@.contains_key(rp->Some_0.0) && old(self).seqs@[rp->Some_0.0] == u64::MAX {
                            e == StoreError::Storage
                        } else {
                            e == StoreError::Conflict && old(self).kpi@.contains_key(
                                Seg { author, seq: next_seq_of(old(self).seqs@, rp->Some_0.0) },
                            )
                        }
                    }
                },
            },
    {
        let len = raw_content.as_str().len();
        if let Some(max) = settings.max_comment_length {
            if len as u64 > max {
                return Err(StoreError::Validation);
            }
        }
        if let Some(min) = settings.min_comment_length {
            if (len as u64) < min {
                return Err(StoreError::Validation);
            }
        }
        // resolve the parent's full path
        let (w, psegs): (WritId, Vec<Seg>) = match parent {
            CommentKey::Full(id) => {
                if id.segs.len() == 0 {
                    return Err(StoreError::NotFound);
                }
                (id.writ, id.dup().segs)
            },
            CommentKey::Short(s) => {
                match self.kpi.get(s) {
                    Some(full) => (full.writ, full.dup().segs),
                    None => {
                        return Err(StoreError::NotFound);
                    },
                }
            },
        };
        proof {
            assert(self.resolved_parent(parent@) == Some((w, psegs@)));
            assert(psegs@.len() >= 1);
        }
        if let Some(ml) = settings.max_level {
            if psegs.len() as u64 >= ml {
                return Err(StoreError::Validation);
            }
        }
        let rk = RootId { writ: w, seg: psegs[0] };
        // the parent's relative path below its tree blob's root
        let mut parent_rel: Vec<Seg> = Vec::new();
        let mut i: usize = 1;
        while i < psegs.len()
            invariant
                1 <= i <= psegs@.len(),
                parent_rel@ =~= psegs@.subrange(1, i as int),
            decreases psegs@.len() - i,
        {
            parent_rel.push(psegs[i]);
            i += 1;
        }
        proof {
            assert(parent_rel@ =~= psegs@.drop_first());
        }
        let parent_ok = match self.trees.get(&rk) {
            Some(t) => t.subtree(&parent_rel).is_some(),
            None => false,
        };
        if !parent_ok {
            return Err(StoreError::NotFound);
        }
        let seq_no: u64 = match self.seqs.get(&w) {
            Some(l) => {
                if *l == u64::MAX {
                    return Err(StoreError::Storage);
                }
                *l + 1
            },
            None => 0,
        };
        let seg = Seg { author, seq: seq_no };
        if self.kpi.contains(&seg) {
            return Err(StoreError::Conflict);
        }
        let ghost ck = CKeyV::Short(seg);
        let ghost tgt = psegs@.drop_first().push(seg);
        let ghost prev = *self;
        proof {
            // the new record key is fresh in every flat table
            if self.comments@.contains_key(ck) {
                assert(self.comment_reachable(ck));
                assert(false);
            }
            if self.raw_contents@.contains_key(ck) {
                assert(false);
            }
            if self.votes@.contains_key(ck) {
                assert(false);
            }
        }
        // hang the new node under the parent
        let mut tree = match self.trees.remove(&rk) {
            Some(t) => t,
            None => {
                return Err(StoreError::Storage);
            },
        };
        let lvl = psegs.len() as u64;
        let node = CommentIdTree::leaf(CommentKey::Short(seg), lvl);
        let ok = tree.insert_child_from(&parent_rel, 0, node);
        proof {
            assert(parent_rel@.skip(0) =~= parent_rel@);
        }
        if !ok {
            // the parent path was checked above; re-insert untouched
            self.trees.insert(rk, tree);
            return Err(StoreError::Storage);
        }
        self.trees.insert(rk, tree);
        let mut full_segs = psegs;
        full_segs.push(seg);
        self.kpi.insert(seg, CommentId { writ: w, segs: full_segs });
        let ck_key = CommentKey::Short(seg);
        let content = render_md(raw_content.as_str());
        let c = Comment {
            key: ck_key.dup(),
            author_name: author_name.clone(),
            content,
            posted: now,
            edited: None,
            public: false,
            author_only,
        };
        let ret = c.dup();
        self.comments.insert(ck_key.dup(), c);
        self.raw_contents.insert(ck_key.dup(), raw_content);
        self.votes.insert(ck_key, 0);
        self.seqs.insert(w, seq_no);
        proof {
            assert forall|q: Seq<Seg>|
                #[trigger] self.trees@[rk].node_at(q) == (if crate::tree::is_prefix_of(
                    tgt,
                    q,
                ) {
                    if q.len() == tgt.len() {
                        Some((ck, psegs@.len() as u64))
                    } else {
                        None::<(CKeyV, u64)>
                    }
                } else {
                    prev.trees@[rk].node_at(q)
                }) by {
                if crate::tree::is_prefix_of(tgt, q) {
                    assert(q.skip(tgt.len() as int).len() == q.len() - tgt.len());
                }
            }
            self.lemma_wf_after_reply(prev, w, psegs@, seg, rk, ck, tgt);
        }
        Ok(ret)
    }

    /// Invariant restoration after `create_reply`'s table writes.
    #[verifier::rlimit(100)]
    proof fn lemma_wf_after_reply(
        self,
        prev: CommentDb,
        w: WritId,
        psegs: Seq<Seg>,
        seg: Seg,
        rk: RootId,
        ck: CKeyV,
        tgt: Seq<Seg>,
    )
        requires
            prev.wf(),
            1 <= psegs.len() <= u64::MAX,
            seg == (Seg { author: seg.author, seq: next_seq_of(prev.seqs@, w) }),
            prev.seqs@.contains_key(w) ==> prev.seqs@[w] < u64::MAX,
            rk == (RootId { writ: w, seg: psegs[0] }),
            ck == CKeyV::Short(seg),
            tgt == psegs.drop_first().push(seg),
            prev.trees@.contains_key(rk),
            prev.trees@[rk].contains_path(psegs.drop_first()),
            !prev.kpi@.contains_key(seg),
            !prev.comments@.contains_key(ck),
            self.seqs@ =~= prev.seqs@.insert(w, seg.seq),
            self.seqs.wf(),
            self.trees.wf(),
            self.comments.wf(),
            self.raw_contents.wf(),
            self.votes.wf(),
            self.voters.wf(),
            self.kpi.wf(),
            self.trees@.dom() =~= prev.trees@.dom(),
            forall|rk2: RootId|
                rk2 != rk && prev.trees@.contains_key(rk2) ==> #[trigger] self.trees@[rk2]
                    == prev.trees@[rk2],
            self.trees@[rk].wf(),
            self.trees@[rk].level == prev.trees@[rk].level,
            forall|q: Seq<Seg>|
                #[trigger] self.trees@[rk].node_at(q) == (if crate::tree::is_prefix_of(tgt, q) {
                    if q.len() == tgt.len() {
                        Some((ck, psegs.len() as u64))
                    } else {
                        None::<(CKeyV, u64)>
                    }
                } else {
                    prev.trees@[rk].node_at(q)
                }),
            self.kpi@.dom() =~= prev.kpi@.dom().insert(seg),
            forall|s2: Seg|
                s2 != seg && prev.kpi@.contains_key(s2) ==> #[trigger] self.kpi@[s2]
                    == prev.kpi@[s2],
            self.kpi@[seg]@ == (w, psegs.push(seg)),
            self.comments@.dom() =~= prev.comments@.dom().insert(ck),
            forall|k2: CKeyV|
                k2 != ck && prev.comments@.contains_key(k2) ==> #[trigger] self.comments@[k2]
                    == prev.comments@[k2],
            self.comments@[ck].key@ == ck,
            self.raw_contents@ =~= prev.raw_contents@.insert(ck, self.raw_contents@[ck]),
            self.votes@ =~= prev.votes@.insert(ck, 0i64),
            self.voters == prev.voters,
        ensures
            self.wf(),
            forall|q: Seq<Seg>|
                #[trigger] self.trees@[rk].node_at(q) == (if q == tgt {
                    Some((ck, psegs.len() as u64))
                } else {
                    prev.trees@[rk].node_at(q)
                }),
    {
        // no old node anywhere is addressed by the fresh segment
        assert forall|rk2: RootId, q: Seq<Seg>|
            prev.trees@.contains_key(rk2) && (#[trigger] prev.trees@[rk2].node_at(q)) is Some
                && q.len() >= 1 implies q.last() != seg by {
            if q.last() == seg {
                assert(prev.kpi@.contains_key(seg));
            }
        }
        // paths extending the fresh target did not exist before
        assert forall|q: Seq<Seg>|
            q != tgt && tgt.len() <= q.len() && q.take(tgt.len() as int) == tgt implies (
        #[trigger] prev.trees@[rk].node_at(q)) is None by {
            if prev.trees@[rk].node_at(q) is Some {
                crate::tree::lemma_sub_concat(
                    prev.trees@[rk],
                    tgt,
                    q.skip(tgt.len() as int),
                );
                assert(q =~= q.take(tgt.len() as int).add(q.skip(tgt.len() as int)));
                assert(prev.trees@[rk].sub(tgt) is Some);
                assert(prev.trees@[rk].node_at(tgt) is Some);
                assert(tgt.last() == seg);
                assert(false);
            }
        }
        assert(tgt.last() == seg);
        assert forall|q: Seq<Seg>|
            #[trigger] self.trees@[rk].node_at(q) == (if q == tgt {
                Some((ck, psegs.len() as u64))
            } else {
                prev.trees@[rk].node_at(q)
            }) by {
            if crate::tree::is_prefix_of(tgt, q) {
                if q.len() == tgt.len() {
                    assert(q.take(tgt.len() as int) =~= q);
                    assert(q == tgt);
                } else {
                    assert(q != tgt);
                    assert(prev.trees@[rk].node_at(q) is None);
                }
            } else {
                if q == tgt {
                    assert(tgt.take(tgt.len() as int) =~= tgt);
                    assert(crate::tree::is_prefix_of(tgt, q));
                }
            }
        }
        assert forall|rk2: RootId| #[trigger] self.trees@.contains_key(rk2)
            implies self.trees@[rk2].wf() && self.trees@[rk2].level == 0 by {
            if rk2 != rk {
                assert(self.trees@[rk2] == prev.trees@[rk2]);
            }
        }
        assert forall|rk2: RootId, q: Seq<Seg>|
            self.trees@.contains_key(rk2) && (#[trigger] self.trees@[rk2].node_at(q)) is Some
            implies {
            let kl = self.trees@[rk2].node_at(q)->Some_0;
            &&& kl.0 == key_at(rk2, q)
            &&& kl.1 == q.len()
            &&& self.comments@.contains_key(kl.0)
            &&& self.seqs@.contains_key(rk2.writ)
            &&& rk2.seg.seq <= self.seqs@[rk2.writ]
            &&& (q.len() > 0 ==> q.last().seq <= self.seqs@[rk2.writ])
        } by {
            if rk2 == rk && q == tgt {
                assert(key_at(rk2, q) == CKeyV::Short(seg));
                assert(tgt.len() == psegs.len());
                assert(self.seqs@[w] == seg.seq);
                assert(prev.trees@[rk].node_at(Seq::<Seg>::empty()) is Some);
            } else {
                assert(self.trees@[rk2].node_at(q) == prev.trees@[rk2].node_at(q));
                assert(prev.trees@[rk2].node_at(q) is Some);
                if rk2.writ == w {
                    if prev.seqs@.contains_key(w) {
                        assert(prev.seqs@[w] < seg.seq);
                    }
                    assert(self.seqs@[w] == seg.seq);
                }
            }
        }
        assert forall|rk2: RootId, q: Seq<Seg>|
            self.trees@.contains_key(rk2) && (#[trigger] self.trees@[rk2].node_at(q)) is Some
                && q.len() >= 1 implies self.kpi@.contains_key(q.last()) && self.kpi@[q.last()]@
            == (rk2.writ, seq![rk2.seg].add(q)) by {
            if rk2 == rk && q == tgt {
                assert(self.kpi@.contains_key(seg));
                assert(seq![rk.seg].add(tgt) =~= psegs.push(seg));
            } else {
                assert(self.trees@[rk2].node_at(q) == prev.trees@[rk2].node_at(q));
                assert(prev.trees@[rk2].node_at(q) is Some);
                assert(q.last() != seg);
                assert(self.kpi@[q.last()] == prev.kpi@[q.last()]);
            }
        }
        assert forall|s: Seg| #[trigger] self.kpi@.contains_key(s) implies {
            let cid = self.kpi@[s]@;
            &&& cid.1.len() >= 2
            &&& cid.1.last() == s
            &&& self.trees@.contains_key(RootId { writ: cid.0, seg: cid.1[0] })
            &&& self.trees@[RootId { writ: cid.0, seg: cid.1[0] }].contains_path(
                cid.1.drop_first(),
            )
        } by {
            if s == seg {
                let cid = self.kpi@[seg]@;
                assert(cid == (w, psegs.push(seg)));
                assert(cid.1.len() == psegs.len() + 1);
                assert(cid.1[0] == psegs[0]);
                assert(cid.1.drop_first() =~= tgt);
                assert(self.trees@[rk].node_at(tgt) is Some);
            } else {
                assert(prev.kpi@.contains_key(s));
                assert(self.kpi@[s] == prev.kpi@[s]);
                let cid = prev.kpi@[s]@;
                let rk2 = RootId { writ: cid.0, seg: cid.1[0] };
                assert(prev.trees@[rk2].contains_path(cid.1.drop_first()));
                if rk2 == rk {
                    let q = cid.1.drop_first();
                    assert(prev.trees@[rk].node_at(q) is Some);
                    if q == tgt {
                        assert(false);
                    }
                    assert(self.trees@[rk].node_at(q) == prev.trees@[rk].node_at(q));
                } else {
                    assert(self.trees@[rk2] == prev.trees@[rk2]);
                }
            }
        }
        assert forall|k: CKeyV| #[trigger] self.comments@.contains_key(k)
            implies self.comment_reachable(k) by {
            if k == ck {
                assert(self.kpi@.contains_key(seg));
            } else {
                assert(prev.comments@.contains_key(k));
                assert(prev.comment_reachable(k));
            }
        }
        assert forall|k: CKeyV| #[trigger] self.comments@.contains_key(k)
            implies self.comments@[k].key@ == k by {
            if k != ck {
                assert(prev.comments@.contains_key(k));
            }
        }
        assert forall|k: CKeyV| #[trigger] self.votes@.contains_key(k) implies self.votes@[k]
            == self.voters.count_of(k) by {
            if k == ck {
                assert forall|i: int|
                    0 <= i < self.voters.entries@.len() implies (#[trigger]
                self.voters.entries@[i]).0@.0 != ck by {
                    crate::table::lemma_entries_map_get(self.voters.entries@, i);
                    assert(prev.voters@.contains_key(self.voters.entries@[i].0@));
                    assert(prev.votes@.contains_key(self.voters.entries@[i].0@.0));
                }
                crate::voters::lemma_tally_zero(self.voters.entries@, ck);
            } else {
                assert(prev.votes@.contains_key(k));
            }
        }
    }

    /// Edits a comment: re-renders the content, stamps the edit time and
    /// sets the author-only flag; record and raw content change together.
    pub fn edit_comment(
        &mut self,
        key: &CommentKey,
        new_raw: String,
        new_author_only: bool,
        settings: &CommentSettings,
        now: i64,
    ) -> (r: Result<Comment, StoreError>)
        requires
            old(self).wf(),
        ensures
            final(self).wf(),
            match r {
                Ok(c) => {
                    let k = key@;
                    let prev_rec = old(self).comments@[k];
                    &&& len_ok(
                        settings.min_comment_length,
                        settings.max_comment_length,
                        byte_len(new_raw@),
                    )
                    &&& old(self).comments@.contains_key(k)
                    &&& c.key@ == k
                    &&& c.author_name@ == prev_rec.author_name@
                    &&& c.content@ == rendered_md(new_raw@)
                    &&& c.posted == prev_rec.posted
                    &&& c.edited == Some(now)
                    &&& c.public == prev_rec.public
                    &&& c.author_only == new_author_only
                    &&& final(self).comments@.dom() =~= old(self).comments@.dom()
                    &&& forall|k2: CKeyV|
                        k2 != k && old(self).comments@.contains_key(k2) ==> #[trigger] final(self).comments@[k2]
                            == old(self).comments@[k2]
                    &&& same_comment(final(self).comments@[k], c)
                    &&& final(self).raw_contents@ =~= old(self).raw_contents@.insert(k, new_raw)
                    &&& final(self).trees == old(self).trees
                    &&& final(self).votes == old(self).votes
                    &&& final(self).voters == old(self).voters
                    &&& final(self).kpi == old(self).kpi
                    &&& final(self).seqs == old(self).seqs
                },
                Err(e) => {
                    &&& *final(self) == *old(self)
                    &&& if !len_ok(
                        settings.min_comment_length,
                        settings.max_comment_length,
                        byte_len(new_raw@),
                    ) {
                        e == StoreError::Validation
                    } else {
                        e == StoreError::NotFound && !old(self).comments@.contains_key(key@)
                    }
                },
            },
    {
        let len = new_raw.as_str().len();
        if let Some(max) = settings.max_comment_length {
            if len as u64 > max {
                return Err(StoreError::Validation);
            }
        }
        if let Some(min) = settings.min_comment_length {
            if (len as u64) < min {
                return Err(StoreError::Validation);
            }
        }
        let prev_rec = match self.comments.get(key) {
            Some(c) => c.dup(),
            None => {
                return Err(StoreError::NotFound);
            },
        };
        let content = render_md(new_raw.as_str());
        let c = Comment {
            key: key.dup(),
            author_name: prev_rec.author_name,
            content,
            posted: prev_rec.posted,
            edited: Some(now),
            public: prev_rec.public,
            author_only: new_author_only,
        };
        let ret = c.dup();
        self.comments.insert(key.dup(), c);
        self.raw_contents.insert(key.dup(), new_raw);
        proof {
            let prev = *old(self);
            let k = key@;
            assert(self.comments@.dom() =~= prev.comments@.dom());
            assert forall|rk2: RootId, q: Seq<Seg>|
                self.trees@.contains_key(rk2) && (#[trigger] self.trees@[rk2].node_at(q))
                    is Some implies self.comments@.contains_key(
                self.trees@[rk2].node_at(q)->Some_0.0,
            ) by {
                assert(prev.comments@.contains_key(self.trees@[rk2].node_at(q)->Some_0.0));
            }
            assert forall|k2: CKeyV| #[trigger] self.comments@.contains_key(k2)
                implies self.comment_reachable(k2) && self.comments@[k2].key@ == k2 by {
                assert(prev.comments@.contains_key(k2));
                assert(prev.comment_reachable(k2));
                if k2 != k {
                    assert(self.comments@[k2] == prev.comments@[k2]);
                }
            }
            assert forall|k2: CKeyV| #[trigger] self.raw_contents@.contains_key(k2)
                implies self.comments@.contains_key(k2) by {
                if k2 != k {
                    assert(prev.raw_contents@.contains_key(k2));
                }
            }
        }
        Ok(ret)
    }

    /// Soft delete ("tombstone"): the record's content is replaced by a
    /// placeholder and its author display name cleared; its raw content,
    /// vote count and voter rows are removed.  Children and tree structure
    /// stay untouched.  Only the comment's author may do this.
    pub fn soft_delete(&mut self, key: &CommentKey, requestor_name: &String) -> (r: Result<
        (),
        StoreError,
    >)
        requires
            old(self).wf(),
        ensures
            final(self).wf(),
            match r {
                Ok(_) => {
                    let k = key@;
                    let prev_rec = old(self).comments@[k];
                    &&& old(self).comments@.contains_key(k)
                    &&& prev_rec.author_name@ == requestor_name@
                    &&& final(self).comments@.dom() =~= old(self).comments@.dom()
                    &&& forall|k2: CKeyV|
                        k2 != k && old(self).comments@.contains_key(k2) ==> #[trigger] final(self).comments@[k2]
                            == old(self).comments@[k2]
                    &&& {
                        let t = final(self).comments@[k];
                        &&& t.key@ == k
                        &&& t.author_name@ == "_"@
                        &&& t.content@ == "[deleted]"@
                        &&& t.posted == prev_rec.posted
                        &&& t.edited is None
                        &&& t.public == prev_rec.public
                        &&& t.author_only == prev_rec.author_only
                    }
                    &&& final(self).raw_contents@ =~= old(self).raw_contents@.remove(k)
                    &&& final(self).votes@ =~= old(self).votes@.remove(k)
                    &&& forall|vk: (CKeyV, u64)|
                        #[trigger] final(self).voters@.contains_key(vk) == (old(self).voters@.contains_key(vk) && vk.0 != k)
                    &&& forall|vk: (CKeyV, u64)|
                        final(self).voters@.contains_key(vk) ==> #[trigger] final(self).voters@[vk]
                            == old(self).voters@[vk]
                    &&& final(self).trees == old(self).trees
                    &&& final(self).kpi == old(self).kpi
                    &&& final(self).seqs == old(self).seqs
                },
                Err(e) => {
                    &&& *final(self) == *old(self)
                    &&& if !old(self).comments@.contains_key(key@) {
                        e == StoreError::NotFound
                    } else {
                        e == StoreError::Unauthorized && old(self).comments@[key@].author_name@
                            != requestor_name@
                    }
                },
            },
    {
        let author_matches = match self.comments.get(key) {
            Some(c) => *requestor_name == c.author_name,
            None => {
                return Err(StoreError::NotFound);
            },
        };
        if !author_matches {
            return Err(StoreError::Unauthorized);
        }
        let prev_rec = match self.comments.get(key) {
            Some(c) => c.dup(),
            None => {
                return Err(StoreError::Storage);
            },
        };
        let tomb = Comment {
            key: key.dup(),
            author_name: "_".to_owned(),
            content: "[deleted]".to_owned(),
            posted: prev_rec.posted,
            edited: None,
            public: prev_rec.public,
            author_only: prev_rec.author_only,
        };
        self.comments.insert(key.dup(), tomb);
        let _ = self.raw_contents.remove(key);
        let _ = self.votes.remove(key);
        self.voters.remove_comment(key);
        proof {
            let prev = *old(self);
            let k = key@;
            assert(self.comments@.dom() =~= prev.comments@.dom());
            assert forall|rk2: RootId, q: Seq<Seg>|
                self.trees@.contains_key(rk2) && (#[trigger] self.trees@[rk2].node_at(q))
                    is Some implies self.comments@.contains_key(
                self.trees@[rk2].node_at(q)->Some_0.0,
            ) by {
                assert(prev.comments@.contains_key(self.trees@[rk2].node_at(q)->Some_0.0));
            }
            assert forall|k2: CKeyV| #[trigger] self.comments@.contains_key(k2)
                implies self.comment_reachable(k2) && self.comments@[k2].key@ == k2 by {
                assert(prev.comments@.contains_key(k2));
                assert(prev.comment_reachable(k2));
                if k2 != k {
                    assert(self.comments@[k2] == prev.comments@[k2]);
                }
            }
            assert forall|k2: CKeyV| #[trigger] self.raw_contents@.contains_key(k2)
                implies self.comments@.contains_key(k2) by {
                assert(prev.raw_contents@.contains_key(k2));
            }
            assert forall|k2: CKeyV| #[trigger] self.votes@.contains_key(k2)
                implies self.comments@.contains_key(k2) by {
                assert(prev.votes@.contains_key(k2));
            }
            assert forall|vk: (CKeyV, u64)| #[trigger] self.voters@.contains_key(vk)
                implies self.votes@.contains_key(vk.0) by {
                assert(prev.voters@.contains_key(vk));
                assert(vk.0 != k);
            }
            assert forall|k2: CKeyV| #[trigger] self.votes@.contains_key(k2)
                implies self.votes@[k2] == self.voters.count_of(k2) by {
                assert(k2 != k);
                assert(prev.votes@.contains_key(k2));
                assert(self.voters.count_of(k2) == prev.voters.count_of(k2));
            }
        }
        Ok(())
    }

    /// Registers, flips or retracts a vote by `voter` on the comment stored
    /// under `key`, adjusting the count so it stays equal to the signed
    /// tally of the voter rows.  A repeated vote in the same direction and a
    /// retraction without a standing vote are conflicts; both leave the
    /// store unchanged.
    pub fn vote(&mut self, key: &CommentKey, voter: u64, direction: Option<bool>, now: i64) -> (
        r: Result<i64, StoreError>)
        requires
            old(self).wf(),
        ensures
            final(self).wf(),
            match r {
                Ok(count) => {
                    let k = key@;
                    let vk = (k, voter);
                    let had = old(self).voters@.contains_key(vk);
                    &&& old(self).votes@.contains_key(k)
                    &&& count == final(self).votes@[k]
                    &&& final(self).votes@ =~= old(self).votes@.insert(k, count)
                    &&& match direction {
                        Some(up) => {
                            &&& (had ==> old(self).voters@[vk].up != up
                                && count == old(self).votes@[k] + (if up {
                                2int
                            } else {
                                -2int
                            }))
                            &&& (!had ==> count == old(self).votes@[k] + (if up {
                                1int
                            } else {
                                -1int
                            }))
                            &&& final(self).voters@ =~= old(self).voters@.insert(
                                vk,
                                Vote { up, when: now },
                            )
                        },
                        None => {
                            &&& had
                            &&& count == old(self).votes@[k] + (if old(self).voters@[vk].up {
                                -1int
                            } else {
                                1int
                            })
                            &&& final(self).voters@ =~= old(self).voters@.remove(vk)
                        },
                    }
                    &&& final(self).comments == old(self).comments
                    &&& final(self).trees == old(self).trees
                    &&& final(self).raw_contents == old(self).raw_contents
                    &&& final(self).kpi == old(self).kpi
                    &&& final(self).seqs == old(self).seqs
                },
                Err(e) => {
                    let k = key@;
                    let vk = (k, voter);
                    let had = old(self).voters@.contains_key(vk);
                    &&& *final(self) == *old(self)
                    &&& if !old(self).votes@.contains_key(k) {
                        e == StoreError::NotFound
                    } else if had && direction is Some && old(self).voters@[vk].up
                        == direction->Some_0 {
                        e == StoreError::Conflict
                    } else if !had && direction is None {
                        e == StoreError::Conflict
                    } else {
                        let stored_up = had && old(self).voters@[vk].up;
                        &&& e == StoreError::Storage
                        &&& !(i64::MIN <= old(self).votes@[k] + vote_delta(
                            had,
                            stored_up,
                            direction,
                        ) <= i64::MAX)
                    }
                },
            },
    {
        let vk = VoterKey { comment: key.dup(), voter };
        let count0: i64 = match self.votes.get(key) {
            Some(c) => *c,
            None => {
                return Err(StoreError::NotFound);
            },
        };
        let existing = self.voters.get(&vk);
        match (existing, direction) {
            (Some(old_vote), Some(up)) => {
                if old_vote.up == up {
                    return Err(StoreError::Conflict);
                }
                let delta: i64 = if up {
                    2
                } else {
                    -2
                };
                let count = match count0.checked_add(delta) {
                    Some(c) => c,
                    None => {
                        return Err(StoreError::Storage);
                    },
                };
                self.voters.set(vk, Vote { up, when: now });
                self.votes.insert(key.dup(), count);
                proof {
                    self.lemma_wf_after_vote(*old(self), key@);
                }
                Ok(count)
            },
            (Some(old_vote), None) => {
                let delta: i64 = if old_vote.up {
                    -1
                } else {
                    1
                };
                let count = match count0.checked_add(delta) {
                    Some(c) => c,
                    None => {
                        return Err(StoreError::Storage);
                    },
                };
                let _ = self.voters.remove(&vk);
                self.votes.insert(key.dup(), count);
                proof {
                    self.lemma_wf_after_vote(*old(self), key@);
                }
                Ok(count)
            },
            (None, None) => Err(StoreError::Conflict),
            (None, Some(up)) => {
                let delta: i64 = if up {
                    1
                } else {
                    -1
                };
                let count = match count0.checked_add(delta) {
                    Some(c) => c,
                    None => {
                        return Err(StoreError::Storage);
                    },
                };
                self.voters.set(vk, Vote { up, when: now });
                self.votes.insert(key.dup(), count);
                proof {
                    self.lemma_wf_after_vote(*old(self), key@);
                }
                Ok(count)
            },
        }
    }

    /// Invariant restoration after `vote`: only the voter rows and the
    /// count of one comment changed, and they changed together.
    proof fn lemma_wf_after_vote(self, prev: CommentDb, k: CKeyV)
        requires
            prev.wf(),
            self.seqs == prev.seqs,
            self.trees == prev.trees,
            self.comments == prev.comments,
            self.raw_contents == prev.raw_contents,
            self.kpi == prev.kpi,
            self.votes.wf(),
            self.voters.wf(),
            prev.votes@.contains_key(k),
            self.votes@ =~= prev.votes@.insert(k, self.votes@[k]),
            self.votes@[k] == self.voters.count_of(k),
            forall|c: CKeyV| c != k ==> #[trigger] self.voters.count_of(c) == prev.voters.count_of(c),
            forall|vk: (CKeyV, u64)|
                #[trigger] self.voters@.contains_key(vk) ==> prev.voters@.contains_key(vk)
                    || vk.0 == k,
        ensures
            self.wf(),
    {
        assert(self.votes@.dom() =~= prev.votes@.dom());
        assert forall|k2: CKeyV| #[trigger] self.votes@.contains_key(k2)
            implies self.comments@.contains_key(k2) by {
            assert(prev.votes@.contains_key(k2));
        }
        assert forall|vk: (CKeyV, u64)| #[trigger] self.voters@.contains_key(vk)
            implies self.votes@.contains_key(vk.0) by {
            if vk.0 != k {
                assert(prev.voters@.contains_key(vk));
            }
        }
        assert forall|k2: CKeyV| #[trigger] self.votes@.contains_key(k2) implies self.votes@[k2]
            == self.voters.count_of(k2) by {
            if k2 != k {
                assert(prev.votes@.contains_key(k2));
                assert(self.votes@[k2] == prev.votes@[k2]);
            }
        }
    }

    /// Removes every flat row (record, raw content, vote count, voter rows,
    /// key-path entry) of each key in `keys`.  The structural index and the
    /// counters are untouched.
    fn purge_keys(&mut self, keys: &Vec<CommentKey>)
        requires
            old(self).comments.wf(),
            old(self).raw_contents.wf(),
            old(self).votes.wf(),
            old(self).voters.wf(),
            old(self).kpi.wf(),
        ensures
            final(self).comments.wf(),
            final(self).raw_contents.wf(),
            final(self).votes.wf(),
            final(self).voters.wf(),
            final(self).kpi.wf(),
            final(self).trees == old(self).trees,
            final(self).seqs == old(self).seqs,
            forall|k: CKeyV|
                #[trigger] final(self).comments@.contains_key(k) == (old(self).comments@.contains_key(k) && !in_keys(keys@, k)),
            forall|k: CKeyV|
                final(self).comments@.contains_key(k) ==> #[trigger] final(self).comments@[k]
                    == old(self).comments@[k],
            forall|k: CKeyV|
                #[trigger] final(self).raw_contents@.contains_key(k) == (old(self).raw_contents@.contains_key(k) && !in_keys(keys@, k)),
            forall|k: CKeyV|
                final(self).raw_contents@.contains_key(k) ==> #[trigger] final(self).raw_contents@[k] == old(self).raw_contents@[k],
            forall|k: CKeyV|
                #[trigger] final(self).votes@.contains_key(k) == (old(self).votes@.contains_key(k) && !in_keys(keys@, k)),
            forall|k: CKeyV|
                final(self).votes@.contains_key(k) ==> #[trigger] final(self).votes@[k] == old(self).votes@[k],
            forall|s: Seg|
                #[trigger] final(self).kpi@.contains_key(s) == (old(self).kpi@.contains_key(s)
                    && !in_keys(keys@, CKeyV::Short(s))),
            forall|s: Seg|
                final(self).kpi@.contains_key(s) ==> #[trigger] final(self).kpi@[s] == old(self).kpi@[s],
            forall|vk: (CKeyV, u64)|
                #[trigger] final(self).voters@.contains_key(vk) == (old(self).voters@.contains_key(vk) && !in_keys(keys@, vk.0)),
            forall|vk: (CKeyV, u64)|
                final(self).voters@.contains_key(vk) ==> #[trigger] final(self).voters@[vk]
                    == old(self).voters@[vk],
            forall|c: CKeyV|
                !in_keys(keys@, c) ==> #[trigger] final(self).voters.count_of(c) == old(self).voters.count_of(c),
    {
        let n = keys.len();
        let mut i: usize = 0;
        while i < n
            invariant
                n == keys@.len(),
                i <= n,
                self.comments.wf(),
                self.raw_contents.wf(),
                self.votes.wf(),
                self.voters.wf(),
                self.kpi.wf(),
                self.trees == old(self).trees,
                self.seqs == old(self).seqs,
                forall|k: CKeyV|
                    #[trigger] self.comments@.contains_key(k) == (old(self).comments@.contains_key(k) && !in_keys(keys@.take(i as int), k)),
                forall|k: CKeyV|
                    self.comments@.contains_key(k) ==> #[trigger] self.comments@[k] == old(self).comments@[k],
                forall|k: CKeyV|
                    #[trigger] self.raw_contents@.contains_key(k) == (old(self).raw_contents@.contains_key(k) && !in_keys(keys@.take(i as int), k)),
                forall|k: CKeyV|
                    self.raw_contents@.contains_key(k) ==> #[trigger] self.raw_contents@[k]
                        == old(self).raw_contents@[k],
                forall|k: CKeyV|
                    #[trigger] self.votes@.contains_key(k) == (old(self).votes@.contains_key(k)
                        && !in_keys(keys@.take(i as int), k)),
                forall|k: CKeyV|
                    self.votes@.contains_key(k) ==> #[trigger] self.votes@[k] == old(self).votes@[k],
                forall|s: Seg|
                    #[trigger] self.kpi@.contains_key(s) == (old(self).kpi@.contains_key(s)
                        && !in_keys(keys@.take(i as int), CKeyV::Short(s))),
                forall|s: Seg|
                    self.kpi@.contains_key(s) ==> #[trigger] self.kpi@[s] == old(self).kpi@[s],
                forall|vk: (CKeyV, u64)|
                    #[trigger] self.voters@.contains_key(vk) == (old(self).voters@.contains_key(vk) && !in_keys(keys@.take(i as int), vk.0)),
                forall|vk: (CKeyV, u64)|
                    self.voters@.contains_key(vk) ==> #[trigger] self.voters@[vk] == old(self).voters@[vk],
                forall|c: CKeyV|
                    !in_keys(keys@.take(i as int), c) ==> #[trigger] self.voters.count_of(c)
                        == old(self).voters.count_of(c),
            decreases n - i,
        {
            let ghost pre_voters = self.voters;
            let k = &keys[i];
            let _ = self.comments.remove(k);
            let _ = self.raw_contents.remove(k);
            let _ = self.votes.remove(k);
            self.voters.remove_comment(k);
            match k {
                CommentKey::Short(s) => {
                    let _ = self.kpi.remove(s);
                },
                CommentKey::Full(_id) => {},
            }
            proof {
                let kv = keys@[i as int]@;
                assert forall|c: CKeyV| #![trigger in_keys(keys@.take(i + 1), c)]
                    in_keys(keys@.take(i + 1), c) == (in_keys(keys@.take(i as int), c) || c
                        == kv) by {
                    if in_keys(keys@.take(i + 1), c) {
                        let j = choose|j: int|
                            0 <= j < keys@.take(i + 1).len() && (#[trigger] keys@.take(
                                i + 1,
                            )[j])@ == c;
                        if j < i {
                            assert(keys@.take(i as int)[j]@ == c);
                        } else {
                            assert(keys@.take(i + 1)[j] == keys@[i as int]);
                        }
                    }
                    if in_keys(keys@.take(i as int), c) {
                        let j = choose|j: int|
                            0 <= j < keys@.take(i as int).len() && (#[trigger] keys@.take(
                                i as int,
                            )[j])@ == c;
                        assert(keys@.take(i + 1)[j]@ == c);
                    }
                    if c == kv {
                        assert(keys@.take(i + 1)[i as int]@ == c);
                    }
                }
                assert forall|s: Seg|
                    #[trigger] self.kpi@.contains_key(s) == (old(self).kpi@.contains_key(s)
                        && !in_keys(keys@.take(i + 1), CKeyV::Short(s))) by {
                    if kv is Full {
                        assert(CKeyV::Short(s) != kv);
                    }
                }
                assert forall|vk: (CKeyV, u64)|
                    #[trigger] self.voters@.contains_key(vk) == (old(self).voters@.contains_key(vk) && !in_keys(keys@.take(i + 1), vk.0)) by {
                    assert(in_keys(keys@.take(i + 1), vk.0) == (in_keys(
                        keys@.take(i as int),
                        vk.0,
                    ) || vk.0 == kv));
                }
                assert forall|c: CKeyV|
                    !in_keys(keys@.take(i + 1), c) implies #[trigger] self.voters.count_of(c)
                        == old(self).voters.count_of(c) by {
                    assert(c != kv);
                    assert(!in_keys(keys@.take(i as int), c));
                    assert(self.voters.count_of(c) == pre_voters.count_of(c));
                    assert(pre_voters.count_of(c) == old(self).voters.count_of(c));
                }
            }
            i += 1;
        }
        proof {
            assert(keys@.take(n as int) =~= keys@);
        }
    }

    /// Whether `k` is the storage key of some node at or below relative
    /// path `rel` of the tree blob `rk`: exactly the records a cascade
    /// delete of that subtree removes.
    pub open spec fn subtree_key(self, rk: RootId, rel: Seq<Seg>, k: CKeyV) -> bool {
        exists|q: Seq<Seg>|
            crate::tree::is_prefix_of(rel, q) && (#[trigger] self.trees@[rk].node_at(q))
                is Some && self.trees@[rk].node_at(q)->Some_0.0 == k
    }

    /// The tree blob and relative path a stored comment key sits at.
    pub open spec fn cascade_target(self, k: CKeyV) -> (RootId, Seq<Seg>) {
        match k {
            CKeyV::Full(w, segs) => (RootId { writ: w, seg: segs[0] }, Seq::<Seg>::empty()),
            CKeyV::Short(s) => (
                RootId { writ: self.kpi@[s]@.0, seg: self.kpi@[s]@.1[0] },
                self.kpi@[s]@.1.drop_first(),
            ),
        }
    }

    /// Two tree positions holding the same storage key are the same
    /// position: keys pin their node down.
    proof fn lemma_key_determines_path(
        self,
        rk1: RootId,
        q1: Seq<Seg>,
        rk2: RootId,
        q2: Seq<Seg>,
    )
        requires
            self.wf(),
            self.trees@.contains_key(rk1),
            self.trees@.contains_key(rk2),
            self.trees@[rk1].node_at(q1) is Some,
            self.trees@[rk2].node_at(q2) is Some,
            self.trees@[rk1].node_at(q1)->Some_0.0 == self.trees@[rk2].node_at(q2)->Some_0.0,
        ensures
            rk1 == rk2,
            q1 == q2,
    {
        let k = self.trees@[rk1].node_at(q1)->Some_0.0;
        assert(k == key_at(rk1, q1));
        assert(k == key_at(rk2, q2));
        match k {
            CKeyV::Full(w, segs) => {
                assert(q1.len() == 0 && q2.len() == 0);
                assert(seq![rk1.seg] == segs && seq![rk2.seg] == segs);
                assert(rk1.seg == segs[0] && rk2.seg == segs[0]);
                assert(q1 =~= q2);
            },
            CKeyV::Short(s) => {
                assert(q1.len() >= 1 && q2.len() >= 1);
                assert(self.kpi@[s]@ == (rk1.writ, seq![rk1.seg].add(q1)));
                assert(self.kpi@[s]@ == (rk2.writ, seq![rk2.seg].add(q2)));
                let p1 = seq![rk1.seg].add(q1);
                let p2 = seq![rk2.seg].add(q2);
                assert(p1 == p2);
                assert(rk1.seg == p1[0] && rk2.seg == p2[0]);
                assert(q1 =~= p1.drop_first());
                assert(q2 =~= p2.drop_first());
            },
        }
    }

    /// Hard cascade delete: removes the whole subtree rooted at the comment
    /// stored under `key` from the structural index, and every removed
    /// node's record, raw content, vote count, voter rows and key-path
    /// entry, all in one step.  Only the comment's author may do this.
    #[verifier::rlimit(100)]
    pub fn remove_cascade(&mut self, key: &CommentKey, requestor_name: &String) -> (r: Result<
        (),
        StoreError,
    >)
        requires
            old(self).wf(),
        ensures
            final(self).wf(),
            match r {
                Ok(_) => {
                    let rkrel = old(self).cascade_target(key@);
                    let rk = rkrel.0;
                    let rel = rkrel.1;
                    &&& old(self).comments@.contains_key(key@)
                    &&& old(self).comments@[key@].author_name@ == requestor_name@
                    &&& old(self).subtree_key(rk, rel, key@)
                    &&& forall|k: CKeyV|
                        #[trigger] final(self).comments@.contains_key(k) == (old(self).comments@.contains_key(k) && !old(self).subtree_key(rk, rel, k))
                    &&& forall|k: CKeyV|
                        final(self).comments@.contains_key(k) ==> #[trigger] final(self).comments@[k]
                            == old(self).comments@[k]
                    &&& forall|k: CKeyV|
                        #[trigger] final(self).raw_contents@.contains_key(k) == (old(self).raw_contents@.contains_key(k) && !old(self).subtree_key(rk, rel, k))
                    &&& forall|k: CKeyV|
                        #[trigger] final(self).votes@.contains_key(k) == (old(self).votes@.contains_key(k) && !old(self).subtree_key(rk, rel, k))
                    &&& forall|vk: (CKeyV, u64)|
                        #[trigger] final(self).voters@.contains_key(vk) == (old(self).voters@.contains_key(vk) && !old(self).subtree_key(rk, rel, vk.0))
                    &&& forall|s: Seg|
                        #[trigger] final(self).kpi@.contains_key(s) == (old(self).kpi@.contains_key(s) && !old(self).subtree_key(
                            rk,
                            rel,
                            CKeyV::Short(s),
                        ))
                    &&& (key@ is Full ==> final(self).trees@ =~= old(self).trees@.remove(rk))
                    &&& (key@ is Short ==> {
                        &&& final(self).trees@.dom() =~= old(self).trees@.dom()
                        &&& forall|rk2: RootId|
                            rk2 != rk && old(self).trees@.contains_key(rk2)
                                ==> #[trigger] final(self).trees@[rk2] == old(self).trees@[rk2]
                        &&& forall|q: Seq<Seg>|
                            #[trigger] final(self).trees@[rk].node_at(q) == (
                            if crate::tree::is_prefix_of(rel, q) {
                                None::<(CKeyV, u64)>
                            } else {
                                old(self).trees@[rk].node_at(q)
                            })
                    })
                    &&& final(self).seqs == old(self).seqs
                },
                Err(e) => {
                    &&& *final(self) == *old(self)
                    &&& if !old(self).comments@.contains_key(key@) {
                        e == StoreError::NotFound
                    } else {
                        e == StoreError::Unauthorized && old(self).comments@[key@].author_name@
                            != requestor_name@
                    }
                },
            },
    {
        let author_matches = match self.comments.get(key) {
            Some(c) => *requestor_name == c.author_name,
            None => {
                return Err(StoreError::NotFound);
            },
        };
        if !author_matches {
            return Err(StoreError::Unauthorized);
        }
        let ghost prev = *old(self);
        let mut keys: Vec<CommentKey> = Vec::new();
        match key {
            CommentKey::Full(id) => {
                proof {
                    assert(prev.comment_reachable(key@));
                }
                let rk = RootId { writ: id.writ, seg: id.segs[0] };
                let ghost rel = Seq::<Seg>::empty();
                let tree = match self.trees.remove(&rk) {
                    Some(t) => t,
                    None => {
                        proof {
                            assert(false);
                        }
                        return Err(StoreError::Storage);
                    },
                };
                let gp = tree.collect_keys(&mut keys);
                self.purge_keys(&keys);
                proof {
                    assert(tree == prev.trees@[rk]);
                    assert forall|k: CKeyV|
                        in_keys(keys@, k) == prev.subtree_key(rk, rel, k) by {
                        if in_keys(keys@, k) {
                            let j = choose|j: int|
                                0 <= j < keys@.len() && (#[trigger] keys@[j])@ == k;
                            assert(tree.node_at(gp@[j]) is Some && tree.node_at(gp@[j])->Some_0.0 == k);
                            assert(gp@[j].take(0) =~= rel);
                            assert(crate::tree::is_prefix_of(rel, gp@[j]));
                        }
                        if prev.subtree_key(rk, rel, k) {
                            let q = choose|q: Seq<Seg>|
                                crate::tree::is_prefix_of(rel, q) && (#[trigger] prev.trees@[rk].node_at(q)) is Some && prev.trees@[rk].node_at(q)->Some_0.0
                                    == k;
                            assert(gp@.contains(q));
                            let w = choose|w: int| 0 <= w < gp@.len() && gp@[w] == q;
                            assert(keys@[w]@ == k);
                        }
                    }
                    assert(prev.trees@[rk].node_at(rel) is Some);
                    assert(prev.subtree_key(rk, rel, key@)) by {
                        assert(id.segs@ =~= seq![id.segs@[0]]);
                        assert(key_at(rk, rel) == key@);
                        assert(crate::tree::is_prefix_of(rel, rel)) by {
                            assert(rel.take(0) =~= rel);
                        }
                    }
                    assert(self.trees@ =~= prev.trees@.remove(rk));
                    self.lemma_wf_after_cascade(prev, rk, rel);
                    assert(prev.cascade_target(key@) == (rk, rel));
                }
                Ok(())
            },
            CommentKey::Short(s) => {
                proof {
                    assert(prev.comment_reachable(key@));
                    assert(prev.kpi@.contains_key(*s));
                }
                let full = match self.kpi.get(s) {
                    Some(f) => f.dup(),
                    None => {
                        proof {
                            assert(false);
                        }
                        return Err(StoreError::Storage);
                    },
                };
                let rk = RootId { writ: full.writ, seg: full.segs[0] };
                let mut rel_v: Vec<Seg> = Vec::new();
                let mut i: usize = 1;
                while i < full.segs.len()
                    invariant
                        1 <= i <= full.segs@.len(),
                        rel_v@ =~= full.segs@.subrange(1, i as int),
                    decreases full.segs@.len() - i,
                {
                    rel_v.push(full.segs[i]);
                    i += 1;
                }
                let ghost rel = full.segs@.drop_first();
                proof {
                    assert(rel_v@ =~= rel);
                    assert(rel.len() >= 1);
                }
                let mut tree = match self.trees.remove(&rk) {
                    Some(t) => t,
                    None => {
                        proof {
                            assert(false);
                        }
                        return Err(StoreError::Storage);
                    },
                };
                let sub = match tree.remove_child(&rel_v) {
                    Some(t) => t,
                    None => {
                        proof {
                            assert(prev.trees@[rk].contains_path(rel));
                            assert(false);
                        }
                        self.trees.insert(rk, tree);
                        return Err(StoreError::Storage);
                    },
                };
                self.trees.insert(rk, tree);
                let gp = sub.collect_keys(&mut keys);
                self.purge_keys(&keys);
                proof {
                    assert(prev.trees@[rk].sub(rel) == Some(sub));
                    assert forall|qs: Seq<Seg>|
                        #[trigger] sub.node_at(qs) == prev.trees@[rk].node_at(rel.add(qs)) by {
                        crate::tree::lemma_sub_concat(prev.trees@[rk], rel, qs);
                    }
                    assert forall|k: CKeyV|
                        in_keys(keys@, k) == prev.subtree_key(rk, rel, k) by {
                        if in_keys(keys@, k) {
                            let j = choose|j: int|
                                0 <= j < keys@.len() && (#[trigger] keys@[j])@ == k;
                            assert(sub.node_at(gp@[j]) is Some && sub.node_at(gp@[j])->Some_0.0
                                == k);
                            let q = rel.add(gp@[j]);
                            assert(q.take(rel.len() as int) =~= rel);
                            assert(crate::tree::is_prefix_of(rel, q));
                            assert(prev.trees@[rk].node_at(q) is Some && prev.trees@[rk].node_at(q)->Some_0.0 == k);
                        }
                        if prev.subtree_key(rk, rel, k) {
                            let q = choose|q: Seq<Seg>|
                                crate::tree::is_prefix_of(rel, q) && (#[trigger] prev.trees@[rk].node_at(q)) is Some && prev.trees@[rk].node_at(q)->Some_0.0
                                    == k;
                            let qs = q.skip(rel.len() as int);
                            assert(rel.add(qs) =~= q);
                            assert(sub.node_at(qs) is Some && sub.node_at(qs)->Some_0.0 == k);
                            assert(gp@.contains(qs));
                            let w = choose|w: int| 0 <= w < gp@.len() && gp@[w] == qs;
                            assert(keys@[w]@ == k);
                        }
                    }
                    assert(prev.subtree_key(rk, rel, key@)) by {
                        assert(rel.take(rel.len() as int) =~= rel);
                        assert(crate::tree::is_prefix_of(rel, rel));
                        assert(prev.trees@[rk].node_at(rel) is Some);
                        assert(rel.last() == *s);
                        assert(key_at(rk, rel) == key@);
                    }
                    self.lemma_wf_after_cascade(prev, rk, rel);
                    assert(prev.cascade_target(key@) == (rk, rel));
                }
                Ok(())
            },
        }
    }

    /// Invariant restoration after a cascade delete: every surviving node's
    /// rows survive, every surviving row's node survives.
    #[verifier::rlimit(100)]
    proof fn lemma_wf_after_cascade(self, prev: CommentDb, rk: RootId, rel: Seq<Seg>)
        requires
            prev.wf(),
            prev.trees@.contains_key(rk),
            self.seqs == prev.seqs,
            self.comments.wf(),
            self.raw_contents.wf(),
            self.votes.wf(),
            self.voters.wf(),
            self.kpi.wf(),
            self.trees.wf(),
            rel.len() == 0 ==> self.trees@ =~= prev.trees@.remove(rk),
            rel.len() >= 1 ==> {
                &&& self.trees@.dom() =~= prev.trees@.dom()
                &&& (forall|rk2: RootId|
                    rk2 != rk && prev.trees@.contains_key(rk2) ==> #[trigger] self.trees@[rk2]
                        == prev.trees@[rk2])
                &&& self.trees@[rk].wf()
                &&& self.trees@[rk].level == prev.trees@[rk].level
                &&& (forall|q: Seq<Seg>|
                    #[trigger] self.trees@[rk].node_at(q) == (if crate::tree::is_prefix_of(
                        rel,
                        q,
                    ) {
                        None::<(CKeyV, u64)>
                    } else {
                        prev.trees@[rk].node_at(q)
                    }))
            },
            forall|k: CKeyV|
                #[trigger] self.comments@.contains_key(k) == (prev.comments@.contains_key(k)
                    && !prev.subtree_key(rk, rel, k)),
            forall|k: CKeyV|
                self.comments@.contains_key(k) ==> #[trigger] self.comments@[k]
                    == prev.comments@[k],
            forall|k: CKeyV|
                #[trigger] self.raw_contents@.contains_key(k) == (
                prev.raw_contents@.contains_key(k) && !prev.subtree_key(rk, rel, k)),
            forall|k: CKeyV|
                #[trigger] self.votes@.contains_key(k) == (prev.votes@.contains_key(k)
                    && !prev.subtree_key(rk, rel, k)),
            forall|k: CKeyV|
                self.votes@.contains_key(k) ==> #[trigger] self.votes@[k] == prev.votes@[k],
            forall|vk: (CKeyV, u64)|
                #[trigger] self.voters@.contains_key(vk) == (prev.voters@.contains_key(vk)
                    && !prev.subtree_key(rk, rel, vk.0)),
            forall|s: Seg|
                #[trigger] self.kpi@.contains_key(s) == (prev.kpi@.contains_key(s)
                    && !prev.subtree_key(rk, rel, CKeyV::Short(s))),
            forall|s: Seg|
                self.kpi@.contains_key(s) ==> #[trigger] self.kpi@[s] == prev.kpi@[s],
            forall|c: CKeyV|
                !prev.subtree_key(rk, rel, c) ==> #[trigger] self.voters.count_of(c)
                    == prev.voters.count_of(c),
        ensures
            self.wf(),
    {
        // a surviving node is never a removed position
        assert forall|rk2: RootId, q: Seq<Seg>|
            self.trees@.contains_key(rk2) && (#[trigger] self.trees@[rk2].node_at(q)) is Some
            implies prev.trees@.contains_key(rk2) && prev.trees@[rk2].node_at(q)
                == self.trees@[rk2].node_at(q) && !prev.subtree_key(
            rk,
            rel,
            self.trees@[rk2].node_at(q)->Some_0.0,
        ) by {
            if rk2 != rk {
                assert(self.trees@[rk2] == prev.trees@[rk2]);
            }
            assert(prev.trees@[rk2].node_at(q) == self.trees@[rk2].node_at(q));
            let k = self.trees@[rk2].node_at(q)->Some_0.0;
            if prev.subtree_key(rk, rel, k) {
                let qr = choose|qr: Seq<Seg>|
                    crate::tree::is_prefix_of(rel, qr) && (#[trigger] prev.trees@[rk].node_at(qr)) is Some && prev.trees@[rk].node_at(qr)->Some_0.0 == k;
                prev.lemma_key_determines_path(rk, qr, rk2, q);
                if rel.len() == 0 {
                    assert(!self.trees@.contains_key(rk));
                } else {
                    assert(self.trees@[rk].node_at(q) is None);
                }
                assert(false);
            }
        }
        assert forall|rk2: RootId| #[trigger] self.trees@.contains_key(rk2)
            implies self.trees@[rk2].wf() && self.trees@[rk2].level == 0 by {
            if rk2 != rk {
                assert(self.trees@[rk2] == prev.trees@[rk2]);
            }
        }
        assert forall|rk2: RootId, q: Seq<Seg>|
            self.trees@.contains_key(rk2) && (#[trigger] self.trees@[rk2].node_at(q)) is Some
            implies {
            let kl = self.trees@[rk2].node_at(q)->Some_0;
            &&& kl.0 == key_at(rk2, q)
            &&& kl.1 == q.len()
            &&& self.comments@.contains_key(kl.0)
            &&& self.seqs@.contains_key(rk2.writ)
            &&& rk2.seg.seq <= self.seqs@[rk2.writ]
            &&& (q.len() > 0 ==> q.last().seq <= self.seqs@[rk2.writ])
        } by {
            assert(prev.trees@[rk2].node_at(q) is Some);
        }
        assert forall|rk2: RootId, q: Seq<Seg>|
            self.trees@.contains_key(rk2) && (#[trigger] self.trees@[rk2].node_at(q)) is Some
                && q.len() >= 1 implies self.kpi@.contains_key(q.last()) && self.kpi@[q.last()]@
            == (rk2.writ, seq![rk2.seg].add(q)) by {
            assert(prev.trees@[rk2].node_at(q) is Some);
            assert(self.trees@[rk2].node_at(q)->Some_0.0 == CKeyV::Short(q.last()));
            assert(!prev.subtree_key(rk, rel, CKeyV::Short(q.last())));
            assert(self.kpi@.contains_key(q.last()));
            assert(self.kpi@[q.last()] == prev.kpi@[q.last()]);
        }
        assert forall|s: Seg| #[trigger] self.kpi@.contains_key(s) implies {
            let cid = self.kpi@[s]@;
            &&& cid.1.len() >= 2
            &&& cid.1.last() == s
            &&& self.trees@.contains_key(RootId { writ: cid.0, seg: cid.1[0] })
            &&& self.trees@[RootId { writ: cid.0, seg: cid.1[0] }].contains_path(
                cid.1.drop_first(),
            )
        } by {
            assert(prev.kpi@.contains_key(s));
            assert(self.kpi@[s] == prev.kpi@[s]);
            let cid = prev.kpi@[s]@;
            let rk2 = RootId { writ: cid.0, seg: cid.1[0] };
            let q = cid.1.drop_first();
            assert(prev.trees@[rk2].contains_path(q));
            assert(prev.trees@[rk2].node_at(q) is Some);
            assert(q.len() >= 1);
            assert(prev.trees@[rk2].node_at(q)->Some_0.0 == key_at(rk2, q));
            assert(key_at(rk2, q) == CKeyV::Short(s));
            assert(!prev.subtree_key(rk, rel, CKeyV::Short(s)));
            if rk2 == rk {
                if rel.len() == 0 {
                    assert(q.take(0) =~= rel);
                    assert(crate::tree::is_prefix_of(rel, q));
                    assert(prev.subtree_key(rk, rel, CKeyV::Short(s)));
                    assert(false);
                } else {
                    if crate::tree::is_prefix_of(rel, q) {
                        assert(prev.subtree_key(rk, rel, CKeyV::Short(s)));
                        assert(false);
                    }
                    assert(self.trees@[rk].node_at(q) == prev.trees@[rk].node_at(q));
                }
            } else {
                assert(self.trees@[rk2] == prev.trees@[rk2]);
            }
        }
        assert forall|k: CKeyV| #[trigger] self.comments@.contains_key(k)
            implies self.comment_reachable(k) && self.comments@[k].key@ == k by {
            assert(prev.comments@.contains_key(k));
            assert(prev.comment_reachable(k));
            assert(!prev.subtree_key(rk, rel, k));
            match k {
                CKeyV::Full(w, segs) => {
                    let rk2 = RootId { writ: w, seg: segs.last() };
                    if rk2 == rk && rel.len() == 0 {
                        let e: Seq<Seg> = Seq::empty();
                        assert(prev.trees@[rk].node_at(e) is Some);
                        assert(segs =~= seq![segs.last()]);
                        assert(prev.trees@[rk].node_at(e)->Some_0.0 == k);
                        assert(e.take(0) =~= rel);
                        assert(crate::tree::is_prefix_of(rel, e));
                        assert(prev.subtree_key(rk, rel, k));
                        assert(false);
                    }
                    assert(self.trees@.contains_key(rk2));
                },
                CKeyV::Short(s) => {
                    assert(self.kpi@.contains_key(s));
                },
            }
        }
        assert forall|k: CKeyV| #[trigger] self.raw_contents@.contains_key(k)
            implies self.comments@.contains_key(k) by {
            assert(prev.raw_contents@.contains_key(k));
        }
        assert forall|k: CKeyV| #[trigger] self.votes@.contains_key(k)
            implies self.comments@.contains_key(k) by {
            assert(prev.votes@.contains_key(k));
        }
        assert forall|vk: (CKeyV, u64)| #[trigger] self.voters@.contains_key(vk)
            implies self.votes@.contains_key(vk.0) by {
            assert(prev.voters@.contains_key(vk));
        }
        assert forall|k: CKeyV| #[trigger] self.votes@.contains_key(k) implies self.votes@[k]
            == self.voters.count_of(k) by {
            assert(prev.votes@.contains_key(k));
            assert(!prev.subtree_key(rk, rel, k));
        }
    }

    /// Sequence monotonicity: allocations on one post are strictly
    /// increasing with no gaps.  Creating a comment records its freshly
    /// allocated number as the post's counter, so the next allocation on
    /// that post yields exactly one more.
    pub proof fn lemma_sequence_monotonic(seqs: Map<WritId, u64>, w: WritId, n1: u64)
        requires
            n1 == next_seq_of(seqs, w),
            n1 < u64::MAX,
        ensures
            next_seq_of(seqs.insert(w, n1), w) == n1 + 1,
    {
    }

    /// Sequence monotonicity over a whole run: any chain of successful
    /// creations on one post (each allocating the next number and
    /// recording it, as the creation contracts state) yields consecutive,
    /// strictly increasing sequence numbers with no gaps or duplicates.
    /// `counters[i]` is the post's counter table before allocation `i`.
    pub proof fn lemma_sequence_monotonic_run(
        counters: Seq<Map<WritId, u64>>,
        w: WritId,
        allocs: Seq<u64>,
    )
        requires
            counters.len() == allocs.len() + 1,
            forall|i: int|
                0 <= i < allocs.len() ==> #[trigger] allocs[i] == next_seq_of(counters[i], w)
                    && counters[i + 1] == counters[i].insert(w, allocs[i]),
            forall|i: int|
                0 <= i < allocs.len() ==> (#[trigger] counters[i]).contains_key(w)
                    ==> counters[i][w] < u64::MAX,
        ensures
            forall|i: int| 0 <= i < allocs.len() - 1 ==> #[trigger] allocs[i + 1] == allocs[i]
                + 1,
            forall|i: int, j: int| 0 <= i < j < allocs.len() ==> allocs[i] < allocs[j],
        decreases allocs.len(),
    {
        assert forall|i: int|
            0 <= i < allocs.len() - 1 implies #[trigger] allocs[i + 1] == allocs[i] + 1 by {
            assert(allocs[i] == next_seq_of(counters[i], w));
            assert(counters[i + 1] == counters[i].insert(w, allocs[i]));
            assert(allocs[i + 1] == next_seq_of(counters[i + 1], w));
            assert(counters[i + 1].contains_key(w) && counters[i + 1][w] == allocs[i]);
            assert(counters[i + 1][w] < u64::MAX);
        }
        assert forall|i: int, j: int| 0 <= i < j < allocs.len() implies allocs[i]
            < allocs[j] by {
            Self::lemma_alloc_offset(allocs, i, j);
        }
    }

    /// In a consecutive run, a later allocation exceeds an earlier one by
    /// exactly their distance.
    proof fn lemma_alloc_offset(allocs: Seq<u64>, i: int, j: int)
        requires
            0 <= i <= j < allocs.len(),
            forall|k: int| 0 <= k < allocs.len() - 1 ==> #[trigger] allocs[k + 1] == allocs[k]
                + 1,
        ensures
            allocs[j] == allocs[i] + (j - i),
        decreases j - i,
    {
        if i < j {
            Self::lemma_alloc_offset(allocs, i, j - 1);
            assert(allocs[(j - 1) + 1] == allocs[j - 1] + 1);
        }
    }

    /// Tree/record consistency: in a well-formed store, every comment id
    /// reachable from a tree blob has a comment record, and every comment
    /// record leads back to the structural index.
    pub proof fn lemma_tree_record_consistency(db: CommentDb)
        requires
            db.wf(),
        ensures
            forall|rk: RootId, q: Seq<Seg>|
                db.trees@.contains_key(rk) && (#[trigger] db.trees@[rk].node_at(q)) is Some
                    ==> db.comments@.contains_key(db.trees@[rk].node_at(q)->Some_0.0),
            forall|k: CKeyV| #[trigger] db.comments@.contains_key(k) ==> db.comment_reachable(k),
    {
    }

    /// Vote-count invariant: in a well-formed store, every maintained vote
    /// count equals the signed tally (+1 per up, -1 per down) of the voter
    /// rows of its comment.
    pub proof fn lemma_vote_count_invariant(db: CommentDb)
        requires
            db.wf(),
        ensures
            forall|k: CKeyV|
                #[trigger] db.votes@.contains_key(k) ==> db.votes@[k] == db.voters.count_of(k),
    {
    }

    /// An empty store.
    pub fn new() -> (r: CommentDb)
        ensures
            r.wf(),
            r.seqs@ == Map::<WritId, u64>::empty(),
            r.trees@ == Map::<RootId, CommentIdTree>::empty(),
            r.comments@ == Map::<CKeyV, Comment>::empty(),
            r.raw_contents@ == Map::<CKeyV, String>::empty(),
            r.votes@ == Map::<CKeyV, i64>::empty(),
            r.voters@ == Map::<(CKeyV, u64), Vote>::empty(),
            r.kpi@ == Map::<Seg, CommentId>::empty(),
    {
        CommentDb {
            seqs: Table::new(),
            trees: Table::new(),
            comments: Table::new(),
            raw_contents: Table::new(),
            votes: Table::new(),
            voters: VoterTable::new(),
            kpi: Table::new(),
        }
    }
}

} // verus!
