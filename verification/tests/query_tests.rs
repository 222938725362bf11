use writkit::ids::{CommentKey, WritId};
use writkit::query::{CommentQuery, CommentTree};
use writkit::store::{CommentDb, CommentSettings};
use writkit::table::Table;

fn writ() -> WritId {
    WritId { kind: 0x706f7374, author: 7, seq: 1 }
}

fn open_settings() -> CommentSettings {
    let mut s = CommentSettings::default(true);
    s.min_comment_length = None;
    s.max_comment_length = None;
    s
}

// fresh comments are non-public, so reading them needs an admin (or the
// comment's own author as requestor); structure tests read as an admin
fn admin_view() -> CommentQuery {
    let mut q = no_filters();
    q.is_admin = Some(true);
    q
}

fn no_filters() -> CommentQuery {
    CommentQuery {
        ids: None,
        skip_ids: None,
        author_ids: None,
        author_id: None,
        exluded_author_ids: None,
        public: None,
        is_admin: None,
        requestor_id: None,
        posted_before: None,
        posted_after: None,
        year: None,
        month: None,
        day: None,
        hour: None,
        max_level: None,
    }
}

fn three_level_db() -> (CommentDb, CommentKey, CommentKey, CommentKey) {
    let mut db = CommentDb::new();
    let s = open_settings();
    let name = String::from("ann");
    let root = db
        .create_first_level(writ(), 3, &name, String::from("root"), &s, false, 100)
        .unwrap();
    let r1 = db
        .create_reply(&root.key, 4, &name, String::from("one"), &s, false, 200)
        .unwrap();
    let r2 = db
        .create_reply(&r1.key, 5, &name, String::from("two"), &s, false, 300)
        .unwrap();
    (db, root.key, r1.key, r2.key)
}

fn count_nodes(t: &CommentTree) -> usize {
    let mut n = 1;
    for c in t.children.iter() {
        n += count_nodes(c);
    }
    n
}

#[test]
fn unfiltered_query_returns_the_whole_tree() {
    let (db, root, _r1, _r2) = three_level_db();
    let f = db.query_at(&admin_view(), &root);
    assert_eq!(f.len(), 1);
    assert_eq!(count_nodes(&f[0]), 3);
    assert_eq!(f[0].children.len(), 1);
    assert_eq!(f[0].children[0].children.len(), 1);
}

#[test]
fn non_public_comments_are_hidden_from_strangers() {
    // fresh comments are not public: an anonymous non-admin sees nothing,
    // the comment's own author and admins do
    let (db, root, _r1, _r2) = three_level_db();
    assert!(db.query_at(&no_filters(), &root).is_empty());
    let mut own = no_filters();
    own.requestor_id = Some(3);
    let f = db.query_at(&own, &root);
    // author 3 wrote only the first-level comment; the rest stay hidden
    assert_eq!(f.len(), 1);
    assert_eq!(count_nodes(&f[0]), 1);
    assert_eq!(db.query_at(&admin_view(), &root).len(), 1);
}

#[test]
fn short_paths_resolve_to_their_subtree() {
    let (db, _root, r1, _r2) = three_level_db();
    let f = db.query_at(&admin_view(), &r1);
    assert_eq!(f.len(), 1);
    assert_eq!(count_nodes(&f[0]), 2);
}

#[test]
fn max_level_bounds_the_walk() {
    let (db, root, _r1, _r2) = three_level_db();
    let mut q = admin_view();
    q.max_level = Some(2);
    let f = db.query_at(&q, &root);
    assert_eq!(f.len(), 1);
    assert_eq!(count_nodes(&f[0]), 2);
    // cutting at the root level yields nothing at all
    q.max_level = Some(0);
    assert!(db.query_at(&q, &root).is_empty());
}

#[test]
fn a_hidden_parent_does_not_hide_its_children() {
    let (db, root, _r1, _r2) = three_level_db();
    // excluding the middle author dissolves its node only: the grandchild
    // rises into its place under the root
    let mut q = admin_view();
    q.exluded_author_ids = Some(vec![4]);
    let f = db.query_at(&q, &root);
    assert_eq!(f.len(), 1);
    assert_eq!(count_nodes(&f[0]), 2);
    assert_eq!(f[0].children.len(), 1);
    assert!(f[0].children[0].children.is_empty());
    // a single-author filter keeps only that author's nodes
    let mut q2 = admin_view();
    q2.author_id = Some(3);
    let f2 = db.query_at(&q2, &root);
    assert_eq!(f2.len(), 1);
    assert_eq!(count_nodes(&f2[0]), 1);
    // when the selected root itself dissolves, its children top the forest
    let mut q3 = admin_view();
    q3.author_id = Some(5);
    let f3 = db.query_at(&q3, &root);
    assert_eq!(f3.len(), 1);
    assert_eq!(count_nodes(&f3[0]), 1);
}

#[test]
fn skip_ids_drop_named_nodes() {
    let (db, root, _r1, r2) = three_level_db();
    let mut q = admin_view();
    q.skip_ids = Some(vec![r2]);
    let f = db.query_at(&q, &root);
    assert_eq!(f.len(), 1);
    assert_eq!(count_nodes(&f[0]), 2);
}

#[test]
fn author_only_comments_need_the_post_author_as_requestor() {
    // the post is authored by 7; its author-only comment (by author 3) is
    // visible only when the requestor is the post's author
    let mut db = CommentDb::new();
    let s = open_settings();
    let name = String::from("ann");
    let c = db
        .create_first_level(writ(), 3, &name, String::from("private"), &s, true, 100)
        .unwrap();
    assert!(db.query_at(&admin_view(), &c.key).is_empty());
    let mut q2 = admin_view();
    q2.requestor_id = Some(7);
    assert_eq!(db.query_at(&q2, &c.key).len(), 1);
    let mut q3 = admin_view();
    q3.requestor_id = Some(3);
    assert!(db.query_at(&q3, &c.key).is_empty());
}

#[test]
fn time_filters_check_range_and_calendar() {
    let (db, root, _r1, _r2) = three_level_db();
    let mut q = admin_view();
    q.posted_after = Some(150);
    // the root (posted at 100) dissolves; its later descendants rise
    let f = db.query_at(&q, &root);
    assert_eq!(f.len(), 1);
    assert_eq!(count_nodes(&f[0]), 2);
    let mut q2 = admin_view();
    q2.posted_before = Some(150);
    let f2 = db.query_at(&q2, &root);
    // children posted later are filtered
    assert_eq!(f2.len(), 1);
    assert_eq!(count_nodes(&f2[0]), 1);
    // every comment here was posted on 1970-01-01
    let mut q3 = admin_view();
    q3.year = Some(1970);
    q3.month = Some(1);
    q3.day = Some(1);
    q3.hour = Some(0);
    assert_eq!(count_nodes(&db.query_at(&q3, &root)[0]), 3);
    let mut q4 = admin_view();
    q4.year = Some(1971);
    assert!(db.query_at(&q4, &root).is_empty());
}

#[test]
fn comment_query_scans_a_posts_roots() {
    let mut db = CommentDb::new();
    let s = open_settings();
    let name = String::from("ann");
    let mut i = 0u64;
    while i < 5 {
        db.create_first_level(writ(), 3, &name, String::from("root"), &s, false, 100 + i as i64)
            .unwrap();
        i += 1;
    }
    let ts = db.comment_query(admin_view(), writ(), 50, 0, false, Some(&s)).unwrap();
    assert_eq!(ts.len(), 5);
    // an anonymous stranger is admitted but sees no non-public trees
    assert_eq!(db.comment_query(no_filters(), writ(), 50, 0, false, Some(&s)).unwrap().len(), 0);
    // page size two, second page
    let page2 = db.comment_query(admin_view(), writ(), 2, 1, false, Some(&s)).unwrap();
    assert_eq!(page2.len(), 2);
    // over the reader cap; admins may go to 500 but not beyond
    assert!(db.comment_query(no_filters(), writ(), 51, 0, false, Some(&s)).is_none());
    assert_eq!(db.comment_query(admin_view(), writ(), 500, 0, true, Some(&s)).unwrap().len(), 5);
    assert!(db.comment_query(admin_view(), writ(), 501, 0, true, Some(&s)).is_none());
    // another post has no trees
    let other = WritId { kind: 1, author: 1, seq: 1 };
    assert_eq!(db.comment_query(no_filters(), other, 50, 0, false, None).unwrap().len(), 0);
}

#[test]
fn private_sections_admit_the_post_author_and_admins() {
    let mut db = CommentDb::new();
    let mut s = open_settings();
    s.public = false;
    let name = String::from("ann");
    db.create_first_level(writ(), 3, &name, String::from("root"), &s, false, 100).unwrap();
    // the post's author (7) may read
    let mut q = no_filters();
    q.requestor_id = Some(7);
    assert!(db.comment_query(q, writ(), 50, 0, false, Some(&s)).is_some());
    // a stranger may not
    let mut q2 = no_filters();
    q2.requestor_id = Some(9);
    assert!(db.comment_query(q2, writ(), 50, 0, false, Some(&s)).is_none());
    // an anonymous admin may
    assert!(db.comment_query(no_filters(), writ(), 50, 0, true, Some(&s)).is_some());
    // an anonymous stranger may not
    assert!(db.comment_query(no_filters(), writ(), 50, 0, false, Some(&s)).is_none());
}

#[test]
fn public_projection_carries_votes_and_the_readers_vote() {
    let mut db = CommentDb::new();
    let s = open_settings();
    let name = String::from("ann");
    let c = db
        .create_first_level(writ(), 3, &name, String::from("root"), &s, true, 100)
        .unwrap();
    db.vote(&c.key, 42, Some(true), 1).unwrap();
    db.vote(&c.key, 43, Some(false), 2).unwrap();
    let pc = db.public_comment(&c.key, Some(42)).unwrap();
    assert_eq!(pc.vote, 0);
    assert_eq!(pc.you_voted, Some(true));
    assert_eq!(pc.author_only, Some(true));
    assert_eq!(pc.posted, 100);
    let anon = db.public_comment(&c.key, None).unwrap();
    assert_eq!(anon.you_voted, None);
    // a soft-deleted comment has no public projection
    db.soft_delete(&c.key, &name).unwrap();
    assert!(db.public_comment(&c.key, Some(42)).is_none());
}

#[test]
fn author_names_resolve_in_order() {
    let mut usernames: Table<String, u64> = Table::new();
    usernames.insert(String::from("ann"), 3);
    usernames.insert(String::from("bob"), 4);
    let names = vec![String::from("bob"), String::from("ghost"), String::from("ann")];
    let ids = CommentDb::resolve_authors(&usernames, &names);
    assert_eq!(ids, vec![4, 3]);
}

#[test]
fn missing_paths_yield_nothing() {
    let (db, _root, _r1, _r2) = three_level_db();
    let ghost_path = CommentKey::Short(writkit::ids::Seg { author: 9, seq: 9 });
    assert!(db.query_at(&no_filters(), &ghost_path).is_empty());
}
