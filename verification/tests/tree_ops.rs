use writkit::ids::{CommentId, CommentKey, Seg, WritId};
use writkit::tree::CommentIdTree;

fn root_tree() -> (CommentIdTree, Seg) {
    let w = WritId { kind: 1, author: 7, seq: 1 };
    let rs = Seg { author: 3, seq: 0 };
    let root_key = CommentKey::Full(CommentId { writ: w, segs: vec![rs] });
    (CommentIdTree::leaf(root_key, 0), rs)
}

#[test]
fn insert_child_tolerates_affixes() {
    let (mut t, rs) = root_tree();
    let c1s = Seg { author: 4, seq: 1 };
    t.insert(CommentIdTree::leaf(CommentKey::Short(c1s), 1));
    // a leading root segment and a trailing own segment are stripped
    let gs = Seg { author: 5, seq: 2 };
    assert!(t.insert_child(&vec![rs, c1s, gs], CommentIdTree::leaf(CommentKey::Short(gs), 2)));
    // already-stripped input is accepted unchanged
    let gs2 = Seg { author: 5, seq: 3 };
    assert!(t.insert_child(&vec![c1s], CommentIdTree::leaf(CommentKey::Short(gs2), 2)));
    // both grandchildren hang under the child
    let sub = t.subtree(&vec![c1s]).unwrap();
    assert_eq!(sub.children.len(), 2);
}

#[test]
fn broken_paths_fail_the_insert() {
    let (mut t, rs) = root_tree();
    let c1s = Seg { author: 4, seq: 1 };
    t.insert(CommentIdTree::leaf(CommentKey::Short(c1s), 1));
    // a path that strips away to nothing is broken
    let x = Seg { author: 9, seq: 9 };
    assert!(!t.insert_child(&vec![rs], CommentIdTree::leaf(CommentKey::Short(x), 1)));
    // so is an empty path, and one naming a missing segment
    assert!(!t.insert_child(&Vec::new(), CommentIdTree::leaf(CommentKey::Short(x), 1)));
    let missing = Seg { author: 8, seq: 8 };
    assert!(!t.insert_child(&vec![missing, x], CommentIdTree::leaf(CommentKey::Short(x), 2)));
    assert_eq!(t.children.len(), 1);
}

#[test]
fn remove_child_returns_the_subtree() {
    let (mut t, _rs) = root_tree();
    let c1s = Seg { author: 4, seq: 1 };
    let gs = Seg { author: 5, seq: 2 };
    t.insert(CommentIdTree::leaf(CommentKey::Short(c1s), 1));
    assert!(t.insert_child(&vec![c1s], CommentIdTree::leaf(CommentKey::Short(gs), 2)));
    let removed = t.remove_child(&vec![c1s]).unwrap();
    assert_eq!(removed.children.len(), 1);
    assert_eq!(t.children.len(), 0);
    assert!(t.subtree(&vec![c1s]).is_none());
}
