//! Identifiers for posts ("writs") and comments.
//!
//! A comment is addressed by the post it belongs to plus a path of segments,
//! one per tree level; each segment is an `{author}:{sequence}` pair whose
//! sequence number comes from a per-post monotonic counter.  A first-level
//! comment is stored under its full path; a deeper comment is stored under its
//! last segment alone, with a key-path index resolving that short form back to
//! the full path.

use vstd::prelude::*;

verus! {

/// One path segment: the commenting author and the per-post sequence number
/// that was allocated when the comment was created.
#[derive(Clone, Copy, PartialEq, Eq, Structural, Debug)]
pub struct Seg {
    pub author: u64,
    pub seq: u64,
}

/// Identifier of a post: a four-byte kind tag (packed big-endian), the
/// author's id and the post's own sequence number.
#[derive(Clone, Copy, PartialEq, Eq, Structural, Debug)]
pub struct WritId {
    pub kind: u32,
    pub author: u64,
    pub seq: u64,
}

/// Full path of a comment: the post it hangs off plus one segment per level.
/// `segs` is never empty; `segs.len() - 1` is the comment's depth.
#[derive(Clone, Debug)]
pub struct CommentId {
    pub writ: WritId,
    pub segs: Vec<Seg>,
}

impl View for CommentId {
    type V = (WritId, Seq<Seg>);

    open spec fn view(&self) -> (WritId, Seq<Seg>) {
        (self.writ, self.segs@)
    }
}

impl CommentId {
    /// A full path must have at least one segment.
    pub open spec fn wf(self) -> bool {
        self.segs@.len() >= 1
    }

    /// The author of the comment: the author field of the last segment.
    pub open spec fn spec_author(self) -> u64
        recommends
            self.wf(),
    {
        self.segs@.last().author
    }

    /// Extracts the author id from the last path segment.
    pub fn author_id(&self) -> (r: u64)
        requires
            self.wf(),
        ensures
            r == self.spec_author(),
    {
        self.segs[self.segs.len() - 1].author
    }

    /// The storage key this comment lives under: first-level comments are
    /// stored under their full path, deeper ones under their last segment.
    pub open spec fn spec_stored_key(self) -> CKeyV
        recommends
            self.wf(),
    {
        if self.segs@.len() == 1 {
            CKeyV::Full(self.writ, self.segs@)
        } else {
            CKeyV::Short(self.segs@.last())
        }
    }

    /// An owned copy with the same view.
    pub fn dup(&self) -> (r: CommentId)
        ensures
            r@ == self@,
    {
        let mut segs: Vec<Seg> = Vec::new();
        let n = self.segs.len();
        let mut i: usize = 0;
        while i < n
            invariant
                n == self.segs@.len(),
                i <= n,
                segs@ == self.segs@.take(i as int),
            decreases n - i,
        {
            segs.push(self.segs[i]);
            proof {
                assert(segs@ =~= self.segs@.take(i + 1));
            }
            i += 1;
        }
        proof {
            assert(segs@ =~= self.segs@);
        }
        CommentId { writ: self.writ, segs }
    }

    pub fn eq_id(&self, other: &CommentId) -> (r: bool)
        ensures
            r == (self@ == other@),
    {
        if self.writ != other.writ {
            proof {
                assert(self@ != other@);
            }
            return false;
        }
        if self.segs.len() != other.segs.len() {
            proof {
                assert(self.segs@ != other.segs@);
            }
            return false;
        }
        let n = self.segs.len();
        let mut i: usize = 0;
        while i < n
            invariant
                n == self.segs@.len() == other.segs@.len(),
                i <= n,
                self.writ == other.writ,
                forall|j: int| 0 <= j < i ==> self.segs@[j] == other.segs@[j],
            decreases n - i,
        {
            if self.segs[i] != other.segs[i] {
                proof {
                    assert(self.segs@[i as int] != other.segs@[i as int]);
                }
                return false;
            }
            i += 1;
        }
        proof {
            assert(self.segs@ =~= other.segs@);
        }
        true
    }
}

/// Mathematical form of a comment's storage key.
pub enum CKeyV {
    Full(WritId, Seq<Seg>),
    Short(Seg),
}

/// Storage key of a comment record: the full path for first-level comments,
/// the bare last segment for deeper ones.
#[derive(Clone, Debug)]
pub enum CommentKey {
    Full(CommentId),
    Short(Seg),
}

impl View for CommentKey {
    type V = CKeyV;

    open spec fn view(&self) -> CKeyV {
        match self {
            CommentKey::Full(id) => CKeyV::Full(id.writ, id.segs@),
            CommentKey::Short(s) => CKeyV::Short(*s),
        }
    }
}

impl CommentKey {
    /// An owned copy with the same view.
    pub fn dup(&self) -> (r: CommentKey)
        ensures
            r@ == self@,
    {
        match self {
            CommentKey::Full(id) => CommentKey::Full(id.dup()),
            CommentKey::Short(s) => CommentKey::Short(*s),
        }
    }

    pub fn eq_key(&self, other: &CommentKey) -> (r: bool)
        ensures
            r == (self@ == other@),
    {
        match (self, other) {
            (CommentKey::Full(a), CommentKey::Full(b)) => a.eq_id(b),
            (CommentKey::Short(a), CommentKey::Short(b)) => a == b,
            _ => false,
        }
    }
}

} // verus!
