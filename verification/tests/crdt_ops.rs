//! Local edit operations and the merge, on concrete lists.
use slde::crdt::AWSet;
use slde::crdt::Item;

/// Item-set equality under the store's replica equality: same id, and
/// for every name the same stored version fields; contexts compared as
/// maps.
fn same_state(a: &AWSet, b: &AWSet) -> bool {
    if a.id_string() != b.id_string() {
        return false;
    }
    let ea = a.elements();
    let eb = b.elements();
    if ea.len() != eb.len() {
        return false;
    }
    for x in &ea {
        let hit = eb.iter().find(|y| y.item_name == x.item_name);
        match hit {
            Some(y) => {
                if !(x.target == y.target && x.bought == y.bought && x.replica == y.replica
                    && x.timestamp == y.timestamp && x.deleted == y.deleted)
                {
                    return false;
                }
            }
            None => {
                return false;
            }
        }
    }
    ctx_map(a) == ctx_map(b)
}

fn ctx_map(s: &AWSet) -> Vec<(String, u64)> {
    let mut out: Vec<(String, u64)> = Vec::new();
    let mut i = 0;
    while i < s.context_count() {
        out.push(s.context_at(i));
        i += 1;
    }
    out.sort();
    out
}

fn find_item(s: &AWSet, name: &str) -> Option<Item> {
    s.elements().into_iter().find(|x| x.item_name == name)
}

#[test]
fn add_stamps_next_timestamp_and_context() {
    let mut s = AWSet::new();
    s.set_id(String::from("6"));
    s.add("milk", 2, 0, "0", false);
    assert!(s.contains("milk"));
    let it = find_item(&s, "milk").unwrap();
    assert_eq!(it.target, 2);
    assert_eq!(it.bought, 0);
    assert_eq!(it.replica, "0");
    assert_eq!(it.timestamp, 1);
    assert!(!it.deleted);
    assert_eq!(ctx_map(&s), vec![(String::from("0"), 1)]);
}

#[test]
fn add_replaces_same_name() {
    let mut s = AWSet::new();
    s.add("milk", 2, 0, "0", false);
    s.add("milk", 5, 1, "0", false);
    assert_eq!(s.elements().len(), 1);
    let it = find_item(&s, "milk").unwrap();
    assert_eq!(it.target, 5);
    assert_eq!(it.bought, 1);
    assert_eq!(it.timestamp, 2);
    assert_eq!(ctx_map(&s), vec![(String::from("0"), 2)]);
}

#[test]
fn add_then_remove_leaves_tombstone_and_bumps_context_twice() {
    let mut s = AWSet::new();
    s.set_id(String::from("1"));
    s.add("milk", 2, 0, "0", false);
    s.remove("milk", "0");
    // The item is present, tombstoned -- not absent from the set.
    assert!(s.contains("milk"));
    let it = find_item(&s, "milk").unwrap();
    assert!(it.deleted);
    assert_eq!(it.target, 2);
    assert_eq!(it.bought, 0);
    assert_eq!(it.timestamp, 2);
    // context["0"] grew by exactly two: one step per write.
    assert_eq!(ctx_map(&s), vec![(String::from("0"), 2)]);
}

#[test]
fn update_preserves_tombstone_flag() {
    let mut s = AWSet::new();
    s.add("milk", 2, 0, "0", false);
    s.update_item_amounts("milk", 7, 3, "1");
    let it = find_item(&s, "milk").unwrap();
    assert!(!it.deleted);
    assert_eq!(it.target, 7);
    assert_eq!(it.bought, 3);
    assert_eq!(it.replica, "1");
    assert_eq!(it.timestamp, 1);
    s.remove("milk", "1");
    s.update_item_amounts("milk", 9, 9, "1");
    let it2 = find_item(&s, "milk").unwrap();
    assert!(it2.deleted);
    assert_eq!(it2.target, 9);
    assert_eq!(it2.timestamp, 3);
}

#[test]
fn merge_is_commutative_on_concurrent_edits() {
    let mut a = AWSet::new();
    a.set_id(String::from("6"));
    a.add("milk", 2, 0, "0", false);
    let mut b = AWSet::new();
    b.set_id(String::from("6"));
    b.add("bread", 1, 0, "1", false);
    let mut ab = a.duplicate();
    ab.merge(&b);
    let mut ba = b.duplicate();
    ba.merge(&a);
    let mut ba_fixed = ba.duplicate();
    ba_fixed.set_id(String::from("6"));
    assert!(ab.contains("milk") && ab.contains("bread"));
    assert!(same_state(&ab, &ba_fixed));
}

#[test]
fn merge_tie_break_is_order_insensitive() {
    // Same name, same timestamp, different replicas: the winner must
    // not depend on which side merges.
    let mut a = AWSet::new();
    a.set_id(String::from("9"));
    a.add("milk", 1, 0, "1", false);
    let mut b = AWSet::new();
    b.set_id(String::from("9"));
    b.add("milk", 8, 0, "2", false);
    let mut ab = a.duplicate();
    ab.merge(&b);
    let mut ba = b.duplicate();
    ba.merge(&a);
    let x = find_item(&ab, "milk").unwrap();
    let y = find_item(&ba, "milk").unwrap();
    assert_eq!(x.replica, y.replica);
    assert_eq!(x.target, y.target);
    // The larger replica id wins the tie.
    assert_eq!(x.replica, "2");
}

#[test]
fn merge_is_idempotent() {
    let mut a = AWSet::new();
    a.set_id(String::from("4"));
    a.add("milk", 2, 0, "0", false);
    a.add("eggs", 12, 6, "0", false);
    a.remove("eggs", "0");
    let before = a.duplicate();
    let b = a.duplicate();
    a.merge(&b);
    assert!(same_state(&a, &before));
}

#[test]
fn merge_is_associative_on_disjoint_names() {
    let mut a = AWSet::new();
    a.set_id(String::from("3"));
    a.add("milk", 1, 0, "0", false);
    let mut b = AWSet::new();
    b.set_id(String::from("3"));
    b.add("bread", 2, 0, "1", false);
    let mut c = AWSet::new();
    c.set_id(String::from("3"));
    c.add("eggs", 3, 0, "2", false);
    let mut ab_c = a.duplicate();
    ab_c.merge(&b);
    ab_c.merge(&c);
    let mut bc = b.duplicate();
    bc.merge(&c);
    let mut a_bc = a.duplicate();
    a_bc.merge(&bc);
    assert!(same_state(&ab_c, &a_bc));
}

#[test]
fn merge_drops_version_the_other_context_has_observed() {
    // The other side knows replica "1" up to 5 yet stores no such item:
    // its absence is newer information, so the item is dropped.
    let mut a = AWSet::new();
    a.set_id(String::from("2"));
    a.add("milk", 1, 0, "1", false);
    let tree = slde::wire::Json::Obj(vec![(
        String::from("2"),
        slde::wire::Json::Obj(vec![
            (String::from("s"), slde::wire::Json::Arr(vec![])),
            (
                String::from("c"),
                slde::wire::Json::Arr(vec![slde::wire::Json::Obj(vec![
                    (String::from("replica"), slde::wire::Json::Str(String::from("1"))),
                    (String::from("timestamp"), slde::wire::Json::UInt(5)),
                ])]),
            ),
        ]),
    )]);
    let b = slde::wire::from_wire(&tree).unwrap();
    a.merge(&b);
    assert!(!a.contains("milk"));
    assert_eq!(ctx_map(&a), vec![(String::from("1"), 5)]);
}

#[test]
fn merge_keeps_newer_version_of_common_name() {
    let mut a = AWSet::new();
    a.set_id(String::from("8"));
    a.add("milk", 1, 0, "0", false);
    let mut b = a.duplicate();
    b.update_item_amounts("milk", 4, 2, "0");
    a.merge(&b);
    let it = find_item(&a, "milk").unwrap();
    assert_eq!(it.target, 4);
    assert_eq!(it.bought, 2);
    assert_eq!(it.timestamp, 2);
    assert_eq!(ctx_map(&a), vec![(String::from("0"), 2)]);
}
