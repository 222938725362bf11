use writkit::ids::{CommentKey, WritId};
use writkit::store::{CommentDb, CommentSettings, StoreError};

fn writ() -> WritId {
    WritId { kind: 0x706f7374, author: 7, seq: 1 }
}

fn open_settings() -> CommentSettings {
    let mut s = CommentSettings::default(true);
    s.min_comment_length = None;
    s.max_comment_length = None;
    s
}

#[test]
fn cascade_removes_two_levels_of_descendants() {
    // the post by author 7 gets a first-level comment by author 3, which
    // gets a reply by author 3; hard-deleting the first-level comment
    // removes both rows everywhere and the post keeps no tree
    let mut db = CommentDb::new();
    let s = open_settings();
    let name = String::from("ann");
    let root = db
        .create_first_level(writ(), 3, &name, String::from("root"), &s, false, 1)
        .unwrap();
    let r1 = db
        .create_reply(&root.key, 3, &name, String::from("one"), &s, false, 2)
        .unwrap();
    let r2 = db
        .create_reply(&r1.key, 3, &name, String::from("two"), &s, false, 3)
        .unwrap();
    db.vote(&r1.key, 42, Some(true), 4).unwrap();
    db.vote(&r2.key, 42, Some(false), 5).unwrap();

    db.remove_cascade(&root.key, &name).unwrap();

    assert_eq!(db.comments.len(), 0);
    assert_eq!(db.raw_contents.len(), 0);
    assert_eq!(db.votes.len(), 0);
    assert_eq!(db.voters.entries.len(), 0);
    assert_eq!(db.kpi.len(), 0);
    assert_eq!(db.trees.len(), 0);
}

#[test]
fn cascade_of_a_middle_comment_spares_the_root() {
    let mut db = CommentDb::new();
    let s = open_settings();
    let name = String::from("ann");
    let root = db
        .create_first_level(writ(), 3, &name, String::from("root"), &s, false, 1)
        .unwrap();
    let r1 = db
        .create_reply(&root.key, 3, &name, String::from("one"), &s, false, 2)
        .unwrap();
    let _r2 = db
        .create_reply(&r1.key, 3, &name, String::from("two"), &s, false, 3)
        .unwrap();

    db.remove_cascade(&r1.key, &name).unwrap();

    // the root comment survives with an empty tree below it
    assert_eq!(db.comments.len(), 1);
    assert!(db.comments.get(&root.key).is_some());
    assert_eq!(db.kpi.len(), 0);
    assert_eq!(db.trees.len(), 1);
}

#[test]
fn cascade_requires_the_author() {
    let mut db = CommentDb::new();
    let s = open_settings();
    let name = String::from("ann");
    let other = String::from("bob");
    let root = db
        .create_first_level(writ(), 3, &name, String::from("root"), &s, false, 1)
        .unwrap();
    assert_eq!(db.remove_cascade(&root.key, &other).unwrap_err(), StoreError::Unauthorized);
    assert!(db.comments.get(&root.key).is_some());
    let missing = CommentKey::Short(writkit::ids::Seg { author: 9, seq: 9 });
    assert_eq!(db.remove_cascade(&missing, &name).unwrap_err(), StoreError::NotFound);
}

#[test]
fn soft_delete_preserves_children_and_their_votes() {
    let mut db = CommentDb::new();
    let s = open_settings();
    let name = String::from("ann");
    let root = db
        .create_first_level(writ(), 3, &name, String::from("root"), &s, false, 1)
        .unwrap();
    let child = db
        .create_reply(&root.key, 3, &name, String::from("child"), &s, false, 2)
        .unwrap();
    db.vote(&root.key, 41, Some(true), 3).unwrap();
    db.vote(&child.key, 42, Some(true), 4).unwrap();

    db.soft_delete(&root.key, &name).unwrap();

    // the target is tombstoned in place
    let tomb = db.comments.get(&root.key).unwrap();
    assert_eq!(tomb.content, "[deleted]");
    assert_eq!(tomb.author_name, "_");
    assert_eq!(tomb.posted, root.posted);
    assert!(db.raw_contents.get(&root.key).is_none());
    assert!(db.votes.get(&root.key).is_none());
    // the child keeps its content, position and votes
    assert_eq!(db.comments.get(&child.key).unwrap().content, child.content);
    assert_eq!(*db.votes.get(&child.key).unwrap(), 1);
    assert_eq!(db.voters.entries.len(), 1);
    assert_eq!(db.trees.len(), 1);
    assert_eq!(db.kpi.len(), 1);
}

#[test]
fn soft_delete_requires_the_author() {
    let mut db = CommentDb::new();
    let s = open_settings();
    let name = String::from("ann");
    let other = String::from("bob");
    let root = db
        .create_first_level(writ(), 3, &name, String::from("root"), &s, false, 1)
        .unwrap();
    assert_eq!(db.soft_delete(&root.key, &other).unwrap_err(), StoreError::Unauthorized);
    assert_eq!(db.comments.get(&root.key).unwrap().content, root.content);
}
