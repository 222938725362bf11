use writkit::expiry::{apply_action, ExpDataContainer, ExpirableData, ExpiryRegistry, Kv};

fn users_key(k: &str) -> Vec<u8> {
    k.as_bytes().to_vec()
}

#[test]
fn cancelled_entries_do_not_fire() {
    // schedule(60, delete users/42, handle b"u42"), cancel within the
    // minute, sweep after it: the key is still there
    let mut kv = Kv::new();
    kv.put(String::from("users"), users_key("42"), users_key("dana"));
    let mut reg = ExpiryRegistry::new();
    let action = ExpirableData::Single { tree: String::from("users"), key: users_key("42") };
    assert!(reg.schedule(1000, 60, action, Some(users_key("u42"))));
    assert!(reg.cancel(&users_key("u42")));
    reg.sweep(&mut kv, 1061);
    assert!(kv.tables.get(&String::from("users")).unwrap().get(&users_key("42")).is_some());
}

#[test]
fn uncancelled_entries_fire_on_time() {
    let mut kv = Kv::new();
    kv.put(String::from("users"), users_key("42"), users_key("dana"));
    kv.put(String::from("users"), users_key("43"), users_key("evan"));
    let mut reg = ExpiryRegistry::new();
    let action = ExpirableData::Single { tree: String::from("users"), key: users_key("42") };
    assert!(reg.schedule(1000, 60, action, Some(users_key("u42"))));
    // not due yet
    reg.sweep(&mut kv, 1059);
    assert!(kv.tables.get(&String::from("users")).unwrap().get(&users_key("42")).is_some());
    // due now
    reg.sweep(&mut kv, 1060);
    assert!(kv.tables.get(&String::from("users")).unwrap().get(&users_key("42")).is_none());
    assert!(kv.tables.get(&String::from("users")).unwrap().get(&users_key("43")).is_some());
    // the handle fired with the bucket
    assert!(!reg.cancel(&users_key("u42")));
}

#[test]
fn duplicate_handles_are_replace_or_fail() {
    let mut reg = ExpiryRegistry::new();
    let a1 = ExpirableData::Single { tree: String::from("t"), key: users_key("a") };
    let a2 = ExpirableData::Single { tree: String::from("t"), key: users_key("b") };
    assert!(reg.schedule(0, 10, a1, Some(users_key("h"))));
    assert!(!reg.schedule(0, 20, a2, Some(users_key("h"))));
    // the first registration still stands
    assert_eq!(*reg.unexpire_keys.get(&users_key("h")).unwrap(), 10);
}

#[test]
fn cancel_of_an_unknown_handle_reports_failure() {
    let mut reg = ExpiryRegistry::new();
    assert!(!reg.cancel(&users_key("nothing")));
}

#[test]
fn buckets_merge_entries_by_appending() {
    let mut kv = Kv::new();
    kv.put(String::from("t"), users_key("a"), users_key("1"));
    kv.put(String::from("t"), users_key("b"), users_key("2"));
    let mut reg = ExpiryRegistry::new();
    let a1 = ExpirableData::Single { tree: String::from("t"), key: users_key("a") };
    let a2 = ExpirableData::Single { tree: String::from("t"), key: users_key("b") };
    assert!(reg.schedule(0, 5, a1, None));
    assert!(reg.schedule(0, 5, a2, None));
    assert_eq!(reg.buckets.get(&5).unwrap().len(), 2);
    reg.sweep(&mut kv, 5);
    assert!(kv.tables.get(&String::from("t")).unwrap().get(&users_key("a")).is_none());
    assert!(kv.tables.get(&String::from("t")).unwrap().get(&users_key("b")).is_none());
    assert!(reg.buckets.get(&5).is_none());
}

#[test]
fn multi_key_and_multi_tree_actions_delete_every_named_key() {
    let mut kv = Kv::new();
    kv.put(String::from("a"), users_key("k1"), users_key("1"));
    kv.put(String::from("a"), users_key("k2"), users_key("2"));
    kv.put(String::from("a"), users_key("keep"), users_key("3"));
    kv.put(String::from("b"), users_key("k3"), users_key("4"));
    let multi = ExpirableData::MultiKey {
        tree: String::from("a"),
        keys: vec![users_key("k1"), users_key("k2")],
    };
    apply_action(&mut kv, &multi);
    assert!(kv.tables.get(&String::from("a")).unwrap().get(&users_key("k1")).is_none());
    assert!(kv.tables.get(&String::from("a")).unwrap().get(&users_key("k2")).is_none());
    assert!(kv.tables.get(&String::from("a")).unwrap().get(&users_key("keep")).is_some());
    let cross = ExpirableData::MultiTree(vec![
        (String::from("a"), vec![users_key("keep")]),
        (String::from("b"), vec![users_key("k3")]),
    ]);
    apply_action(&mut kv, &cross);
    assert!(kv.tables.get(&String::from("a")).unwrap().get(&users_key("keep")).is_none());
    assert!(kv.tables.get(&String::from("b")).unwrap().get(&users_key("k3")).is_none());
}

#[test]
fn restart_sweep_is_idempotent() {
    // sweeping twice at the same instant leaves the same state: buckets
    // already handled are gone, nothing else fires
    let mut kv = Kv::new();
    kv.put(String::from("t"), users_key("a"), users_key("1"));
    let mut reg = ExpiryRegistry::new();
    let a1 = ExpirableData::Single { tree: String::from("t"), key: users_key("a") };
    assert!(reg.schedule(0, 5, a1, None));
    reg.sweep(&mut kv, 50);
    let buckets_after = reg.buckets.len();
    let keys_after = reg.unexpire_keys.len();
    reg.sweep(&mut kv, 50);
    assert_eq!(reg.buckets.len(), buckets_after);
    assert_eq!(reg.unexpire_keys.len(), keys_after);
    assert!(kv.tables.get(&String::from("t")).unwrap().get(&users_key("a")).is_none());
}

// the container type is part of the registry's surface
#[test]
fn containers_carry_their_handles() {
    let c = ExpDataContainer {
        unexpire_key: Some(users_key("h")),
        data: ExpirableData::Single { tree: String::from("t"), key: users_key("a") },
    };
    assert_eq!(c.unexpire_key.as_ref().unwrap(), &users_key("h"));
}
