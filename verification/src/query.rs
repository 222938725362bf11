//! Read side: depth-, author-, time- and visibility-filtered traversal of
//! comment trees.
//!
//! The level cutoff bounds the walk itself; every other filter applies
//! node by node without pruning: a node that fails its own filter drops
//! out alone, and its surviving descendants rise into its place — a
//! hidden parent does not hide its children.

use vstd::prelude::*;

use crate::clock::{calendar_of, utc_calendar};
use crate::ids::{CKeyV, CommentId, CommentKey, Seg, WritId};
use crate::store::{same_comment, Comment, CommentDb, CommentSettings};
use crate::table::{RootId, Table};
use crate::tree::{seg_of, CommentIdTree};

verus! {

/// A comment query: filters, visibility context, and the path selecting
/// the root or subtree to read.
pub struct CommentQuery {
    /// Explicit id allowlist.
    pub ids: Option<Vec<CommentKey>>,
    /// Explicit id denylist.
    pub skip_ids: Option<Vec<CommentKey>>,
    /// Author allowlist (resolved ids).
    pub author_ids: Option<Vec<u64>>,
    /// Single-author filter; takes precedence over `author_ids`.
    pub author_id: Option<u64>,
    /// Author denylist (the field name's spelling is load-bearing).
    pub exluded_author_ids: Option<Vec<u64>>,
    pub public: Option<bool>,
    pub is_admin: Option<bool>,
    pub requestor_id: Option<u64>,
    pub posted_before: Option<i64>,
    pub posted_after: Option<i64>,
    pub year: Option<i32>,
    pub month: Option<u8>,
    pub day: Option<u8>,
    pub hour: Option<u8>,
    /// The walk stops at this level: nodes at or beyond it are cut off
    /// with everything below them.
    pub max_level: Option<u64>,
}

/// One node of a query response: the record plus its filtered children.
pub struct CommentTree {
    pub comment: Comment,
    pub children: Vec<CommentTree>,
}

/// Whether `k` is the view of some key in `ks`.
pub open spec fn key_listed(ks: Seq<CommentKey>, k: CKeyV) -> bool {
    exists|i: int| 0 <= i < ks.len() && (#[trigger] ks[i])@ == k
}

/// The record-level filters: visibility, time range and calendar parts.
/// A non-public comment is visible only to its own author or an admin;
/// an author-only comment only to `root_author`, the author of the post
/// it hangs off.
pub open spec fn conditions_hold(
    q: CommentQuery,
    c: Comment,
    author_id: u64,
    root_author: u64,
) -> bool {
    let is_admin = q.is_admin == Some(true);
    &&& (q.public matches Some(p) ==> c.public == p)
    &&& (!c.public ==> is_admin || (q.requestor_id matches Some(req) && author_id == req))
    &&& (c.author_only ==> (q.requestor_id matches Some(req) && root_author == req))
    &&& (q.posted_before matches Some(t) ==> c.posted <= t)
    &&& (q.posted_after matches Some(t) ==> c.posted >= t)
    &&& ((q.year is Some || q.month is Some || q.day is Some || q.hour is Some) ==> {
        match calendar_of(c.posted) {
            Some(cal) => {
                &&& (q.year matches Some(y) ==> cal.0 == y)
                &&& (q.month matches Some(m) ==> cal.1 == m)
                &&& (q.day matches Some(d) ==> cal.2 == d)
                &&& (q.hour matches Some(h) ==> cal.3 == h)
            },
            None => false,
        }
    })
}

/// Whether the walk stops at node `t`: the traversal-depth cutoff.
pub open spec fn level_cut(q: CommentQuery, t: CommentIdTree) -> bool {
    q.max_level matches Some(ml) && t.level >= ml
}

/// Whether the node `t` itself passes every per-node filter of `q`.
pub open spec fn node_kept(
    cm: Map<CKeyV, Comment>,
    q: CommentQuery,
    root_author: u64,
    t: CommentIdTree,
) -> bool {
    let author = seg_of(t.key@).author;
    &&& (q.ids matches Some(ks) ==> key_listed(ks@, t.key@))
    &&& (q.skip_ids matches Some(ks) ==> !key_listed(ks@, t.key@))
    &&& (q.exluded_author_ids matches Some(xs) ==> !xs@.contains(author))
    &&& (match q.author_id {
        Some(a) => author == a,
        None => q.author_ids matches Some(aus) ==> aus@.contains(author),
    })
    &&& cm.contains_key(t.key@)
    &&& conditions_hold(q, cm[t.key@], author, root_author)
}

/// The public projection of a comment, as serialized for readers.
pub struct PublicComment {
    pub id: CommentKey,
    pub content: String,
    pub author_name: String,
    pub posted: i64,
    pub vote: i64,
    pub edited: Option<i64>,
    pub you_voted: Option<bool>,
    pub author_only: Option<bool>,
}

/// The query with the stock level cutoff filled in where none was given.
pub open spec fn with_default_level(q: CommentQuery) -> CommentQuery {
    if q.max_level is None {
        CommentQuery { max_level: Some(6u64), ..q }
    } else {
        q
    }
}

/// The settings value behind an optional reference.
pub open spec fn settings_view(s: Option<&CommentSettings>) -> Option<CommentSettings> {
    match s {
        Some(s) => Some(*s),
        None => None,
    }
}

/// The ids that a name list resolves to, in order, skipping unknown names.
pub open spec fn resolved_ids(m: Map<Seq<char>, u64>, names: Seq<String>) -> Seq<u64>
    decreases names.len(),
{
    if names.len() == 0 {
        Seq::empty()
    } else {
        resolved_ids(m, names.drop_last()) + (if m.contains_key(names.last()@) {
            seq![m[names.last()@]]
        } else {
            Seq::empty()
        })
    }
}

/// The page-size cap: posts serve at most 50 trees per page to readers
/// and 500 to admins.
pub open spec fn amount_ok(is_admin: bool, amount: u64) -> bool {
    if is_admin {
        amount <= 500
    } else {
        amount <= 50
    }
}

/// How many matching tree blobs a page request skips: one page worth,
/// saturating at the counter's width.
pub open spec fn sat_skip(amount: u64, page: u64) -> int {
    if amount * page > u64::MAX {
        u64::MAX as int
    } else {
        amount * page
    }
}

/// What a downward scan of the post's tree table yields.  With `i`
/// entries still unscanned (the scan runs from the table's end, the
/// newest blob, down), `skip` matching blobs still to be skipped and
/// `from` results already produced, `ts[from..]` is exactly the
/// concatenation of the matching blobs' filtered forests, in scan order,
/// stopping once at least `amount` results exist.
pub open spec fn scan_ok(
    cm: Map<CKeyV, Comment>,
    q: CommentQuery,
    writ: WritId,
    entries: Seq<(RootId, CommentIdTree)>,
    i: int,
    skip: int,
    amount: int,
    ts: Seq<CommentTree>,
    from: int,
) -> bool
    decreases i when i >= 0
{
    if from == ts.len() && ts.len() >= amount {
        true
    } else if i <= 0 {
        from == ts.len()
    } else {
        let k = i - 1;
        if entries[k].0.writ == writ {
            if skip > 0 {
                scan_ok(cm, q, writ, entries, k, skip - 1, amount, ts, from)
            } else {
                exists|m: int|
                    {
                        &&& #[trigger] scan_cut(m)
                        &&& from <= m <= ts.len()
                        &&& is_forest(cm, q, writ.author, entries[k].1, ts.subrange(from, m))
                        &&& scan_ok(cm, q, writ, entries, k, skip, amount, ts, m)
                    }
            }
        } else {
            scan_ok(cm, q, writ, entries, k, skip, amount, ts, from)
        }
    }
}

/// Marker giving the scan's per-blob cut point a stable trigger.
pub open spec fn scan_cut(m: int) -> bool {
    true
}

/// One unfolding step of the scan, in the shape the query loop takes it:
/// below the page limit, the scan of `i0` entries is the classification
/// of the next entry followed by the scan of the rest.
proof fn lemma_scan_unfold(
    cm: Map<CKeyV, Comment>,
    q: CommentQuery,
    writ: WritId,
    entries: Seq<(RootId, CommentIdTree)>,
    i0: int,
    skip0: int,
    amount: int,
    ts: Seq<CommentTree>,
    len0: int,
)
    requires
        0 < i0,
        0 <= len0 < amount,
    ensures
        scan_ok(cm, q, writ, entries, i0, skip0, amount, ts, len0) == ({
            let k = i0 - 1;
            if entries[k].0.writ == writ {
                if skip0 > 0 {
                    scan_ok(cm, q, writ, entries, k, skip0 - 1, amount, ts, len0)
                } else {
                    exists|m: int|
                        {
                            &&& #[trigger] scan_cut(m)
                            &&& len0 <= m <= ts.len()
                            &&& is_forest(
                                cm,
                                q,
                                writ.author,
                                entries[k].1,
                                ts.subrange(len0, m),
                            )
                            &&& scan_ok(cm, q, writ, entries, k, skip0, amount, ts, m)
                        }
                }
            } else {
                scan_ok(cm, q, writ, entries, k, skip0, amount, ts, len0)
            }
        }),
{
    assert(!(len0 == ts.len() && ts.len() >= amount));
}

/// Marker giving the forest witness a stable quantifier trigger.
pub open spec fn forest_tag(fs: Seq<Seq<CommentTree>>) -> bool {
    true
}

/// `f` is exactly the filtered forest of the subtree rooted at `t`.  The
/// walk stops at the level cutoff; below it, a node that passes its
/// filters yields one tree carrying its children's forests, and a node
/// that fails dissolves, its children's forests rising in its place.
pub open spec fn is_forest(
    cm: Map<CKeyV, Comment>,
    q: CommentQuery,
    root_author: u64,
    t: CommentIdTree,
    f: Seq<CommentTree>,
) -> bool
    decreases t,
{
    if level_cut(q, t) {
        f == Seq::<CommentTree>::empty()
    } else {
        exists|fs: Seq<Seq<CommentTree>>|
            {
                &&& #[trigger] forest_tag(fs)
                &&& fs.len() == t.children@.len()
                &&& (forall|j: int|
                    0 <= j < fs.len() ==> is_forest(
                        cm,
                        q,
                        root_author,
                        t.children@[j],
                        #[trigger] fs[j],
                    ))
                &&& if node_kept(cm, q, root_author, t) {
                    &&& f.len() == 1
                    &&& same_comment(f[0].comment, cm[t.key@])
                    &&& f[0].children@ == fs.flatten()
                } else {
                    f == fs.flatten()
                }
            }
    }
}

/// Folds a proven per-child witness into the forest predicate.
proof fn lemma_forest_intro(
    cm: Map<CKeyV, Comment>,
    q: CommentQuery,
    root_author: u64,
    t: CommentIdTree,
    f: Seq<CommentTree>,
    fs: Seq<Seq<CommentTree>>,
)
    requires
        !level_cut(q, t),
        fs.len() == t.children@.len(),
        forall|j: int|
            0 <= j < fs.len() ==> is_forest(cm, q, root_author, t.children@[j], #[trigger] fs[j]),
        if node_kept(cm, q, root_author, t) {
            &&& f.len() == 1
            &&& same_comment(f[0].comment, cm[t.key@])
            &&& f[0].children@ == fs.flatten()
        } else {
            f == fs.flatten()
        },
    ensures
        is_forest(cm, q, root_author, t, f),
{
    assert(forest_tag(fs));
}

impl CommentDb {
    /// Whether the record-level filters accept `c`; `author_id` is the
    /// comment author extracted from the id, `root_author` the author of
    /// the post it hangs off.
    pub fn check_query_conditions(
        q: &CommentQuery,
        c: &Comment,
        author_id: u64,
        root_author: u64,
    ) -> (r: bool)
        ensures
            r == conditions_hold(*q, *c, author_id, root_author),
    {
        let is_admin = match q.is_admin {
            Some(a) => a,
            None => false,
        };
        if let Some(p) = q.public {
            if c.public != p {
                return false;
            }
        }
        if !c.public && !is_admin {
            match q.requestor_id {
                Some(req) => {
                    if author_id != req {
                        return false;
                    }
                },
                None => {
                    return false;
                },
            }
        }
        if c.author_only {
            match q.requestor_id {
                Some(req) => {
                    if root_author != req {
                        return false;
                    }
                },
                None => {
                    return false;
                },
            }
        }
        if let Some(t) = q.posted_before {
            if c.posted > t {
                return false;
            }
        }
        if let Some(t) = q.posted_after {
            if c.posted < t {
                return false;
            }
        }
        if q.year.is_some() || q.month.is_some() || q.day.is_some() || q.hour.is_some() {
            match utc_calendar(c.posted) {
                Some(cal) => {
                    if let Some(y) = q.year {
                        if cal.0 != y {
                            return false;
                        }
                    }
                    if let Some(m) = q.month {
                        if cal.1 != m {
                            return false;
                        }
                    }
                    if let Some(d) = q.day {
                        if cal.2 != d {
                            return false;
                        }
                    }
                    if let Some(h) = q.hour {
                        if cal.3 != h {
                            return false;
                        }
                    }
                },
                None => {
                    return false;
                },
            }
        }
        true
    }

    /// Whether a key's view occurs in a list.
    fn key_in_list(ks: &Vec<CommentKey>, k: &CommentKey) -> (r: bool)
        ensures
            r == key_listed(ks@, k@),
    {
        let n = ks.len();
        let mut i: usize = 0;
        while i < n
            invariant
                n == ks@.len(),
                i <= n,
                forall|j: int| 0 <= j < i ==> (#[trigger] ks@[j])@ != k@,
            decreases n - i,
        {
            if ks[i].eq_key(k) {
                return true;
            }
            i += 1;
        }
        false
    }

    /// Whether an id occurs in a list.
    fn id_in_list(xs: &Vec<u64>, x: u64) -> (r: bool)
        ensures
            r == xs@.contains(x),
    {
        let n = xs.len();
        let mut i: usize = 0;
        while i < n
            invariant
                n == xs@.len(),
                i <= n,
                forall|j: int| 0 <= j < i ==> (#[trigger] xs@[j]) != x,
            decreases n - i,
        {
            if xs[i] == x {
                return true;
            }
            i += 1;
        }
        false
    }

    /// Whether node `t` itself passes every per-node filter.
    fn node_passes(&self, q: &CommentQuery, root_author: u64, t: &CommentIdTree) -> (r: Option<
        Comment,
    >)
        requires
            self.comments.wf(),
            crate::tree::ckey_wf(t.key@),
        ensures
            match r {
                Some(c) => node_kept(self.comments@, *q, root_author, *t) && same_comment(
                    c,
                    self.comments@[t.key@],
                ),
                None => !node_kept(self.comments@, *q, root_author, *t),
            },
    {
        if let Some(ks) = &q.ids {
            if !Self::key_in_list(ks, &t.key) {
                return None;
            }
        }
        if let Some(ks) = &q.skip_ids {
            if Self::key_in_list(ks, &t.key) {
                return None;
            }
        }
        let author = crate::tree::seg_key(&t.key).author;
        if let Some(xs) = &q.exluded_author_ids {
            if Self::id_in_list(xs, author) {
                return None;
            }
        }
        match q.author_id {
            Some(a) => {
                if author != a {
                    return None;
                }
            },
            None => {
                if let Some(aus) = &q.author_ids {
                    if !Self::id_in_list(aus, author) {
                        return None;
                    }
                }
            },
        }
        let c = match self.comments.get(&t.key) {
            Some(c) => c.dup(),
            None => {
                return None;
            },
        };
        if !Self::check_query_conditions(q, &c, author, root_author) {
            return None;
        }
        Some(c)
    }

    /// The filtered forest of the subtree rooted at `t`.  The walk stops
    /// at the level cutoff; below it, a node that passes its filters
    /// yields one tree carrying its children's forests, and a node that
    /// fails dissolves — its surviving descendants rise into its place,
    /// so a hidden parent does not hide its children.
    pub fn to_comment_tree(&self, q: &CommentQuery, root_author: u64, t: &CommentIdTree) -> (
        r: Vec<CommentTree>)
        requires
            self.comments.wf(),
            t.wf(),
            crate::tree::ckey_wf(t.key@),
        ensures
            is_forest(self.comments@, *q, root_author, *t, r@),
        decreases *t,
    {
        if let Some(ml) = q.max_level {
            if t.level >= ml {
                return Vec::new();
            }
        }
        let mut gathered: Vec<CommentTree> = Vec::new();
        let ghost mut fs: Seq<Seq<CommentTree>> = Seq::empty();
        let n = t.children.len();
        let mut i: usize = 0;
        while i < n
            invariant
                self.comments.wf(),
                t.wf(),
                n == t.children@.len(),
                i <= n,
                fs.len() == i,
                forall|j: int|
                    0 <= j < fs.len() ==> is_forest(
                        self.comments@,
                        *q,
                        root_author,
                        t.children@[j],
                        #[trigger] fs[j],
                    ),
                gathered@ == fs.flatten_alt(),
            decreases n - i,
        {
            let ghost pre_fs = fs;
            let mut cf = self.to_comment_tree(q, root_author, &t.children[i]);
            let ghost cfv = cf@;
            gathered.append(&mut cf);
            proof {
                fs = pre_fs.push(cfv);
                assert(fs.drop_last() =~= pre_fs);
                assert(fs.flatten_alt() == pre_fs.flatten_alt().add(cfv));
            }
            i += 1;
        }
        proof {
            fs.lemma_flatten_and_flatten_alt_are_equivalent();
            assert(gathered@ == fs.flatten());
        }
        match self.node_passes(q, root_author, t) {
            Some(c) => {
                let mut one: Vec<CommentTree> = Vec::new();
                one.push(CommentTree { comment: c, children: gathered });
                proof {
                    lemma_forest_intro(self.comments@, *q, root_author, *t, one@, fs);
                }
                one
            },
            None => {
                proof {
                    lemma_forest_intro(self.comments@, *q, root_author, *t, gathered@, fs);
                }
                gathered
            },
        }
    }

    /// Answers a query against one root or subtree: resolves a short path
    /// through the key-path index, descends to the selected subtree, and
    /// returns its filtered forest (an unresolvable path yields nothing).
    pub fn query_at(&self, q: &CommentQuery, path: &CommentKey) -> (r: Vec<CommentTree>)
        requires
            self.wf(),
        ensures
            match self.query_target(path@) {
                Some(sel) => is_forest(self.comments@, *q, sel.0.author, sel.1, r@),
                None => r@ == Seq::<CommentTree>::empty(),
            },
    {
        let full: CommentId = match path {
            CommentKey::Full(id) => id.dup(),
            CommentKey::Short(s) => {
                match self.kpi.get(s) {
                    Some(f) => f.dup(),
                    None => {
                        return Vec::new();
                    },
                }
            },
        };
        if full.segs.len() == 0 {
            return Vec::new();
        }
        let rk = RootId { writ: full.writ, seg: full.segs[0] };
        let tree = match self.trees.get(&rk) {
            Some(t) => t,
            None => {
                return Vec::new();
            },
        };
        let mut rel: Vec<Seg> = Vec::new();
        let mut i: usize = 1;
        while i < full.segs.len()
            invariant
                1 <= i <= full.segs@.len(),
                rel@ =~= full.segs@.subrange(1, i as int),
            decreases full.segs@.len() - i,
        {
            rel.push(full.segs[i]);
            i += 1;
        }
        proof {
            assert(rel@ =~= full.segs@.drop_first());
        }
        let sub = match tree.subtree(&rel) {
            Some(s) => s,
            None => {
                return Vec::new();
            },
        };
        proof {
            assert(tree.sub(rel@) == Some(*sub));
            assert(full.segs@[0] == full.segs[0]);
            assert(self.query_target(path@) == Some((full.writ, *sub)));
            crate::tree::lemma_sub_wf(*tree, rel@);
            if rel@.len() == 0 {
                let e: Seq<Seg> = Seq::empty();
                assert(self.trees@[rk].node_at(e) is Some);
                assert(sub.key@ == crate::store::key_at(rk, e));
                assert(crate::tree::ckey_wf(sub.key@));
            }
        }
        self.to_comment_tree(q, full.writ.author, sub)
    }

    /// Answers a query over every comment tree of one post, newest first:
    /// the settings gate and the page-size cap are checked, the level
    /// cutoff defaults to six, then the post's tree blobs are scanned from
    /// the newest down, skipping one page worth of blobs and appending
    /// each remaining blob's filtered forest until the page holds at least
    /// `amount` results (the last forest may carry it past).  Yields
    /// nothing exactly when the cap is exceeded or the post's comment
    /// section is closed to the caller.
    pub fn comment_query(
        &self,
        q: CommentQuery,
        writ: WritId,
        amount: u64,
        page: u64,
        is_admin: bool,
        settings: Option<&CommentSettings>,
    ) -> (r: Option<Vec<CommentTree>>)
        requires
            self.wf(),
        ensures
            ({
                let q2 = with_default_level(q);
                match r {
                    Some(ts) => {
                        &&& amount_ok(is_admin, amount)
                        &&& Self::section_open(
                            settings_view(settings),
                            writ,
                            q.requestor_id,
                            is_admin,
                        )
                        &&& scan_ok(
                            self.comments@,
                            q2,
                            writ,
                            self.trees.entries@,
                            self.trees.entries@.len() as int,
                            sat_skip(amount, page),
                            amount as int,
                            ts@,
                            0,
                        )
                    },
                    None => !amount_ok(is_admin, amount) || !Self::section_open(
                        settings_view(settings),
                        writ,
                        q.requestor_id,
                        is_admin,
                    ),
                }
            }),
    {
        if (is_admin && amount > 500) || (!is_admin && amount > 50) {
            return None;
        }
        if let Some(s) = settings {
            if !s.public {
                match q.requestor_id {
                    Some(req) => {
                        if writ.author != req {
                            return None;
                        }
                    },
                    None => {
                        if !is_admin {
                            return None;
                        }
                    },
                }
            }
            if let Some(req) = q.requestor_id {
                if let Some(vis) = &s.visible_to {
                    if !Self::id_in_list(vis, req) {
                        return None;
                    }
                }
            }
        }
        let mut q2 = q;
        if q2.max_level.is_none() {
            q2.max_level = Some(6);
        }
        let mut out: Vec<CommentTree> = Vec::new();
        let n = self.trees.entries.len();
        let mut i: usize = n;
        let to_skip: u64 = match amount.checked_mul(page) {
            Some(v) => v,
            None => u64::MAX,
        };
        let mut skip_left: u64 = to_skip;
        proof {
            assert(to_skip as int == sat_skip(amount, page));
        }
        while i > 0 && (out.len() as u64) < amount
            invariant
                self.wf(),
                n == self.trees.entries@.len(),
                i <= n,
                q2.max_level is Some,
                q2 == with_default_level(q),
                to_skip as int == sat_skip(amount, page),
                forall|rest: Seq<CommentTree>| #![trigger out@.add(rest)]
                    scan_ok(
                        self.comments@,
                        q2,
                        writ,
                        self.trees.entries@,
                        i as int,
                        skip_left as int,
                        amount as int,
                        out@.add(rest),
                        out@.len() as int,
                    ) ==> scan_ok(
                        self.comments@,
                        q2,
                        writ,
                        self.trees.entries@,
                        n as int,
                        to_skip as int,
                        amount as int,
                        out@.add(rest),
                        0,
                    ),
            decreases i,
        {
            let ghost entries = self.trees.entries@;
            let ghost i0 = i as int;
            let ghost skip0 = skip_left as int;
            let ghost out0 = out@;
            let ghost len0 = out@.len() as int;
            i -= 1;
            let rk = self.trees.entries[i].0;
            let matching = rk.writ.kind == writ.kind && rk.writ.author == writ.author
                && rk.writ.seq == writ.seq;
            if matching && skip_left > 0 {
                skip_left -= 1;
                proof {
                    assert(rk.writ == writ);
                    assert forall|rest: Seq<CommentTree>| #![trigger out@.add(rest)]
                        scan_ok(
                            self.comments@,
                            q2,
                            writ,
                            entries,
                            i as int,
                            skip_left as int,
                            amount as int,
                            out@.add(rest),
                            out@.len() as int,
                        ) implies scan_ok(
                        self.comments@,
                        q2,
                        writ,
                        entries,
                        n as int,
                        to_skip as int,
                        amount as int,
                        out@.add(rest),
                        0,
                    ) by {
                        lemma_scan_unfold(
                            self.comments@,
                            q2,
                            writ,
                            entries,
                            i0,
                            skip0,
                            amount as int,
                            out@.add(rest),
                            len0,
                        );
                        assert(out0.add(rest) == out@.add(rest));
                    }
                }
            } else if matching {
                proof {
                    crate::table::lemma_entries_map_get(self.trees.entries@, i as int);
                    let e: Seq<Seg> = Seq::empty();
                    assert(self.trees@[rk].node_at(e) is Some);
                    assert(crate::tree::ckey_wf(self.trees@[rk].key@)) by {
                        assert(self.trees@[rk].node_at(e)->Some_0.0 == crate::store::key_at(
                            rk,
                            e,
                        ));
                    }
                }
                let entry_tree = &self.trees.entries[i].1;
                let mut forest = self.to_comment_tree(&q2, writ.author, entry_tree);
                let ghost fseq = forest@;
                out.append(&mut forest);
                proof {
                    assert(rk.writ == writ);
                    assert(out@ == out0.add(fseq));
                    assert forall|rest: Seq<CommentTree>| #![trigger out@.add(rest)]
                        scan_ok(
                            self.comments@,
                            q2,
                            writ,
                            entries,
                            i as int,
                            skip_left as int,
                            amount as int,
                            out@.add(rest),
                            out@.len() as int,
                        ) implies scan_ok(
                        self.comments@,
                        q2,
                        writ,
                        entries,
                        n as int,
                        to_skip as int,
                        amount as int,
                        out@.add(rest),
                        0,
                    ) by {
                        let rest0 = fseq.add(rest);
                        assert(out0.add(rest0) =~= out@.add(rest));
                        let ts = out0.add(rest0);
                        lemma_scan_unfold(
                            self.comments@,
                            q2,
                            writ,
                            entries,
                            i0,
                            skip0,
                            amount as int,
                            ts,
                            len0,
                        );
                        let m = len0 + fseq.len() as int;
                        assert(ts.subrange(len0, m) =~= fseq);
                        assert(scan_cut(m));
                        assert(scan_ok(
                            self.comments@,
                            q2,
                            writ,
                            entries,
                            i as int,
                            skip0,
                            amount as int,
                            ts,
                            m,
                        ));
                        assert(scan_ok(
                            self.comments@,
                            q2,
                            writ,
                            entries,
                            i0,
                            skip0,
                            amount as int,
                            ts,
                            len0,
                        ));
                    }
                }
            } else {
                proof {
                    assert(rk.writ != writ);
                    assert forall|rest: Seq<CommentTree>| #![trigger out@.add(rest)]
                        scan_ok(
                            self.comments@,
                            q2,
                            writ,
                            entries,
                            i as int,
                            skip_left as int,
                            amount as int,
                            out@.add(rest),
                            out@.len() as int,
                        ) implies scan_ok(
                        self.comments@,
                        q2,
                        writ,
                        entries,
                        n as int,
                        to_skip as int,
                        amount as int,
                        out@.add(rest),
                        0,
                    ) by {
                        lemma_scan_unfold(
                            self.comments@,
                            q2,
                            writ,
                            entries,
                            i0,
                            skip0,
                            amount as int,
                            out@.add(rest),
                            len0,
                        );
                        assert(out0.add(rest) == out@.add(rest));
                    }
                }
            }
        }
        proof {
            let e: Seq<CommentTree> = Seq::empty();
            assert(out@.add(e) =~= out@);
            assert(scan_ok(
                self.comments@,
                q2,
                writ,
                self.trees.entries@,
                i as int,
                skip_left as int,
                amount as int,
                out@.add(e),
                out@.len() as int,
            ));
            assert(scan_ok(
                self.comments@,
                q2,
                writ,
                self.trees.entries@,
                self.trees.entries@.len() as int,
                to_skip as int,
                amount as int,
                out@.add(e),
                0,
            ));
        }
        Some(out)
    }

    /// Whether the post's comment section is open to the caller under its
    /// settings: a private section admits its post's author and admins
    /// only, and a visibility list admits only listed callers.
    pub open spec fn section_open(
        s: Option<CommentSettings>,
        writ: WritId,
        requestor: Option<u64>,
        is_admin: bool,
    ) -> bool {
        match s {
            Some(s) => {
                &&& (!s.public ==> match requestor {
                    Some(req) => writ.author == req,
                    None => is_admin,
                })
                &&& (match (requestor, s.visible_to) {
                    (Some(req), Some(vis)) => vis@.contains(req),
                    _ => true,
                })
            },
            None => true,
        }
    }

    /// The post's name-to-id resolution for author filters: each name that
    /// the username table resolves contributes its id, in order.
    pub fn resolve_authors(usernames: &Table<String, u64>, names: &Vec<String>) -> (r: Vec<
        u64,
    >)
        requires
            usernames.wf(),
        ensures
            r@ == resolved_ids(usernames@, names@),
    {
        let mut out: Vec<u64> = Vec::new();
        let n = names.len();
        let mut i: usize = 0;
        while i < n
            invariant
                usernames.wf(),
                n == names@.len(),
                i <= n,
                out@ =~= resolved_ids(usernames@, names@.take(i as int)),
            decreases n - i,
        {
            match usernames.get(&names[i]) {
                Some(id) => {
                    out.push(*id);
                },
                None => {},
            }
            proof {
                assert(names@.take(i + 1).drop_last() =~= names@.take(i as int));
                assert(names@.take(i + 1).last() == names@[i as int]);
            }
            i += 1;
        }
        proof {
            assert(names@.take(n as int) =~= names@);
        }
        out
    }

    /// The public projection of one stored comment, as handed to a reader:
    /// the record's fields, its maintained vote count, and whether (and
    /// how) the reader voted on it.  A comment without a vote-count row
    /// (soft-deleted) yields nothing.
    pub fn public_comment(&self, key: &CommentKey, requestor: Option<u64>) -> (r: Option<
        PublicComment,
    >)
        requires
            self.wf(),
        ensures
            match r {
                Some(pc) => {
                    let c = self.comments@[key@];
                    &&& self.comments@.contains_key(key@)
                    &&& self.votes@.contains_key(key@)
                    &&& pc.id@ == key@
                    &&& pc.content@ == c.content@
                    &&& pc.author_name@ == c.author_name@
                    &&& pc.posted == c.posted
                    &&& pc.edited == c.edited
                    &&& pc.vote == self.votes@[key@]
                    &&& pc.author_only == (if c.author_only {
                        Some(true)
                    } else {
                        None::<bool>
                    })
                    &&& pc.you_voted == (match requestor {
                        Some(u) => if self.voters@.contains_key((key@, u)) {
                            Some(self.voters@[(key@, u)].up)
                        } else {
                            None::<bool>
                        },
                        None => None::<bool>,
                    })
                },
                None => !self.comments@.contains_key(key@) || !self.votes@.contains_key(key@),
            },
    {
        let c = match self.comments.get(key) {
            Some(c) => c.dup(),
            None => {
                return None;
            },
        };
        let vote = match self.votes.get(key) {
            Some(v) => *v,
            None => {
                return None;
            },
        };
        let you_voted = match requestor {
            Some(u) => {
                let vk = crate::table::VoterKey { comment: key.dup(), voter: u };
                match self.voters.get(&vk) {
                    Some(v) => Some(v.up),
                    None => None,
                }
            },
            None => None,
        };
        Some(
            PublicComment {
                id: key.dup(),
                content: c.content,
                author_name: c.author_name,
                posted: c.posted,
                vote,
                edited: c.edited,
                you_voted,
                author_only: if c.author_only {
                    Some(true)
                } else {
                    None
                },
            },
        )
    }

    /// The post and subtree a query path selects: the full path (resolved
    /// through the key-path index for a short one) names a tree blob and a
    /// relative path into it.
    pub open spec fn query_target(self, path: CKeyV) -> Option<(WritId, CommentIdTree)> {
        let full = match path {
            CKeyV::Full(w, segs) => Some((w, segs)),
            CKeyV::Short(s) => if self.kpi@.contains_key(s) {
                Some(self.kpi@[s]@)
            } else {
                None::<(WritId, Seq<Seg>)>
            },
        };
        match full {
            Some((w, segs)) => {
                if segs.len() >= 1 && self.trees@.contains_key(
                    RootId { writ: w, seg: segs[0] },
                ) {
                    match self.trees@[RootId { writ: w, seg: segs[0] }].sub(
                        segs.drop_first(),
                    ) {
                        Some(t) => Some((w, t)),
                        None => None::<(WritId, CommentIdTree)>,
                    }
                } else {
                    None::<(WritId, CommentIdTree)>
                }
            },
            None => None::<(WritId, CommentIdTree)>,
        }
    }
}

} // verus!
