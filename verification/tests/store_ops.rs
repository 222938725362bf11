use writkit::ids::{CommentKey, Seg, WritId};
use writkit::store::{CommentDb, CommentSettings, StoreError};

fn writ() -> WritId {
    WritId { kind: 0x706f7374, author: 7, seq: 1 }
}

fn open_settings() -> CommentSettings {
    let mut s = CommentSettings::default(true);
    s.min_comment_length = None;
    s.max_comment_length = None;
    s
}

#[test]
fn sequence_numbers_are_consecutive() {
    let mut db = CommentDb::new();
    let s = open_settings();
    let name = String::from("ann");
    let mut seqs: Vec<u64> = Vec::new();
    let mut i = 0u64;
    while i < 4 {
        let c = db
            .create_first_level(writ(), 3, &name, String::from("hello there"), &s, false, 100)
            .unwrap();
        match &c.key {
            CommentKey::Full(id) => seqs.push(id.segs[0].seq),
            CommentKey::Short(_) => panic!("first-level comments use full keys"),
        }
        i += 1;
    }
    assert_eq!(seqs, vec![0, 1, 2, 3]);
}

#[test]
fn reply_shares_the_posts_counter() {
    let mut db = CommentDb::new();
    let s = open_settings();
    let name = String::from("ann");
    let root = db
        .create_first_level(writ(), 3, &name, String::from("root"), &s, false, 100)
        .unwrap();
    let reply = db
        .create_reply(&root.key, 4, &name, String::from("reply"), &s, false, 101)
        .unwrap();
    match &reply.key {
        CommentKey::Short(seg) => {
            assert_eq!(seg.author, 4);
            assert_eq!(seg.seq, 1);
        },
        CommentKey::Full(_) => panic!("replies use short keys"),
    }
}

#[test]
fn creation_validates_length_bounds() {
    let mut db = CommentDb::new();
    let s = CommentSettings::default(true);
    let name = String::from("ann");
    let too_short = db.create_first_level(writ(), 3, &name, String::from("hi"), &s, false, 1);
    assert_eq!(too_short.unwrap_err(), StoreError::Validation);
    let mut long = String::new();
    let mut i = 0;
    while i < 8001 {
        long.push('x');
        i += 1;
    }
    let too_long = db.create_first_level(writ(), 3, &name, long, &s, false, 1);
    assert_eq!(too_long.unwrap_err(), StoreError::Validation);
    assert_eq!(db.comments.len(), 0);
}

#[test]
fn reply_to_missing_parent_is_not_found() {
    let mut db = CommentDb::new();
    let s = open_settings();
    let name = String::from("ann");
    let ghost_parent = CommentKey::Short(Seg { author: 9, seq: 9 });
    let r = db.create_reply(&ghost_parent, 4, &name, String::from("hi"), &s, false, 1);
    assert_eq!(r.unwrap_err(), StoreError::NotFound);
}

#[test]
fn reply_rejects_the_max_level() {
    let mut db = CommentDb::new();
    let mut s = open_settings();
    s.max_level = Some(2);
    let name = String::from("ann");
    let root = db
        .create_first_level(writ(), 3, &name, String::from("root"), &s, false, 1)
        .unwrap();
    let reply = db
        .create_reply(&root.key, 3, &name, String::from("one"), &s, false, 2)
        .unwrap();
    // the parent path now holds two segments, which hits max_level exactly
    let blocked = db.create_reply(&reply.key, 3, &name, String::from("two"), &s, false, 3);
    assert_eq!(blocked.unwrap_err(), StoreError::Validation);
    // a parent already past a lowered cutoff is rejected as well
    let mut tight = open_settings();
    tight.max_level = Some(1);
    let deeper = db.create_reply(&reply.key, 3, &name, String::from("deep"), &tight, false, 4);
    assert_eq!(deeper.unwrap_err(), StoreError::Validation);
}

#[test]
fn double_vote_is_a_conflict_and_count_unchanged() {
    let mut db = CommentDb::new();
    let s = open_settings();
    let name = String::from("ann");
    let c = db
        .create_first_level(writ(), 3, &name, String::from("root"), &s, false, 1)
        .unwrap();
    assert_eq!(db.vote(&c.key, 42, Some(true), 10).unwrap(), 1);
    let again = db.vote(&c.key, 42, Some(true), 11);
    assert_eq!(again.unwrap_err(), StoreError::Conflict);
    assert_eq!(*db.votes.get(&c.key).unwrap(), 1);
}

#[test]
fn vote_flip_and_retract_scenario() {
    // voter A: up (0 -> 1), flip down (1 -> -1), retract (-1 -> 0)
    let mut db = CommentDb::new();
    let s = open_settings();
    let name = String::from("ann");
    let c = db
        .create_first_level(writ(), 3, &name, String::from("root"), &s, false, 1)
        .unwrap();
    assert_eq!(*db.votes.get(&c.key).unwrap(), 0);
    assert_eq!(db.vote(&c.key, 42, Some(true), 10).unwrap(), 1);
    assert_eq!(db.vote(&c.key, 42, Some(false), 11).unwrap(), -1);
    assert_eq!(db.vote(&c.key, 42, None, 12).unwrap(), 0);
    // retracting with no standing vote is a conflict
    assert_eq!(db.vote(&c.key, 42, None, 13).unwrap_err(), StoreError::Conflict);
}

#[test]
fn counts_stay_equal_to_the_tally_across_voters() {
    let mut db = CommentDb::new();
    let s = open_settings();
    let name = String::from("ann");
    let c = db
        .create_first_level(writ(), 3, &name, String::from("root"), &s, false, 1)
        .unwrap();
    db.vote(&c.key, 1, Some(true), 10).unwrap();
    db.vote(&c.key, 2, Some(true), 11).unwrap();
    db.vote(&c.key, 3, Some(false), 12).unwrap();
    assert_eq!(*db.votes.get(&c.key).unwrap(), 1);
    let mut tally = 0i64;
    for (vk, v) in db.voters.entries.iter() {
        if vk.comment.eq_key(&c.key) {
            tally += if v.up { 1 } else { -1 };
        }
    }
    assert_eq!(tally, 1);
}

#[test]
fn vote_on_missing_comment_is_not_found() {
    let mut db = CommentDb::new();
    let ghost_key = CommentKey::Short(Seg { author: 1, seq: 1 });
    assert_eq!(db.vote(&ghost_key, 42, Some(true), 1).unwrap_err(), StoreError::NotFound);
}

#[test]
fn edit_rerenders_and_stamps_the_time() {
    let mut db = CommentDb::new();
    let s = open_settings();
    let name = String::from("ann");
    let c = db
        .create_first_level(writ(), 3, &name, String::from("first words"), &s, false, 1)
        .unwrap();
    let edited = db
        .edit_comment(&c.key, String::from("new words"), true, &s, 99)
        .unwrap();
    assert_eq!(edited.edited, Some(99));
    assert!(edited.author_only);
    assert_eq!(edited.content, writkit::render::render_md("new words"));
    assert_eq!(edited.posted, c.posted);
    let missing = CommentKey::Short(Seg { author: 9, seq: 9 });
    assert_eq!(
        db.edit_comment(&missing, String::from("words!"), false, &s, 1).unwrap_err(),
        StoreError::NotFound
    );
}

#[test]
fn records_are_rendered_markdown() {
    let mut db = CommentDb::new();
    let s = open_settings();
    let name = String::from("ann");
    let c = db
        .create_first_level(writ(), 3, &name, String::from("*hi*"), &s, false, 1)
        .unwrap();
    assert_eq!(c.content, writkit::render::render_md("*hi*"));
    // the renderer does render, not echo
    assert_ne!(c.content, "*hi*");
    assert_eq!(*db.raw_contents.get(&c.key).unwrap(), "*hi*");
}

#[test]
fn tree_and_records_agree_after_mixed_operations() {
    let mut db = CommentDb::new();
    let s = open_settings();
    let name = String::from("ann");
    let root = db
        .create_first_level(writ(), 3, &name, String::from("root"), &s, false, 1)
        .unwrap();
    let r1 = db
        .create_reply(&root.key, 4, &name, String::from("one"), &s, false, 2)
        .unwrap();
    let _r2 = db
        .create_reply(&r1.key, 5, &name, String::from("two"), &s, false, 3)
        .unwrap();
    // every tree blob's root has a record; every reply's short key resolves
    assert_eq!(db.comments.len(), 3);
    assert_eq!(db.trees.len(), 1);
    assert_eq!(db.kpi.len(), 2);
    for (seg, full) in db.kpi.entries.iter() {
        assert_eq!(full.segs.last().unwrap().seq, seg.seq);
        assert_eq!(full.segs.last().unwrap().author, seg.author);
    }
}
