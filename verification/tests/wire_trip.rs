//! Serialization round trips and rejection of malformed payloads.
use slde::crdt::AWSet;
use slde::wire::Json;
use slde::wire::from_wire;
use slde::wire::to_wire;

fn ctx_map(s: &AWSet) -> Vec<(String, u64)> {
    let mut out: Vec<(String, u64)> = Vec::new();
    let mut i = 0;
    while i < s.context_count() {
        out.push(s.context_at(i));
        i += 1;
    }
    out.sort();
    out
}

fn same_state(a: &AWSet, b: &AWSet) -> bool {
    if a.id_string() != b.id_string() {
        return false;
    }
    let ea = a.elements();
    let eb = b.elements();
    if ea.len() != eb.len() {
        return false;
    }
    for x in &ea {
        match eb.iter().find(|y| y.item_name == x.item_name) {
            Some(y) => {
                if !(x.target == y.target && x.bought == y.bought && x.replica == y.replica
                    && x.timestamp == y.timestamp && x.deleted == y.deleted)
                {
                    return false;
                }
            }
            None => {
                return false;
            }
        }
    }
    ctx_map(a) == ctx_map(b)
}

#[test]
fn round_trip_returns_the_same_set() {
    let mut s = AWSet::new();
    s.set_id(String::from("42"));
    s.add("milk", 2, 0, "0", false);
    s.add("br\"ead\\", 1, 0, "1", false);
    s.remove("milk", "1");
    let back = from_wire(&to_wire(&s)).unwrap();
    assert!(same_state(&s, &back));
}

#[test]
fn round_trip_of_empty_set() {
    let mut s = AWSet::new();
    s.set_id(String::from("0"));
    let back = from_wire(&to_wire(&s)).unwrap();
    assert!(same_state(&s, &back));
    assert_eq!(back.elements().len(), 0);
}

#[test]
fn end_to_end_scenario_add_merge_serialize_reparse() {
    // Node 0 adds item "milk" target=2 bought=0 replica="0" to list "6",
    // merges it into a replica's set, serializes and re-parses.
    let mut s = AWSet::new();
    s.set_id(String::from("6"));
    s.add("milk", 2, 0, "0", false);
    let mut replica = AWSet::new();
    replica.set_id(String::from("6"));
    replica.merge(&s);
    let back = from_wire(&to_wire(&replica)).unwrap();
    assert_eq!(back.id_string(), "6");
    let els = back.elements();
    assert_eq!(els.len(), 1);
    assert_eq!(els[0].item_name, "milk");
    assert!(!els[0].deleted);
    assert_eq!(ctx_map(&back), vec![(String::from("0"), 1)]);
}

#[test]
fn from_wire_rejects_missing_field() {
    // An item object without its "deleted" field.
    let tree = Json::Obj(vec![(
        String::from("1"),
        Json::Obj(vec![
            (
                String::from("s"),
                Json::Arr(vec![Json::Obj(vec![
                    (String::from("item_name"), Json::Str(String::from("milk"))),
                    (String::from("target"), Json::UInt(1)),
                    (String::from("bought"), Json::UInt(0)),
                    (String::from("replica"), Json::Str(String::from("0"))),
                    (String::from("timestamp"), Json::UInt(1)),
                ])]),
            ),
            (String::from("c"), Json::Arr(vec![])),
        ]),
    )]);
    assert!(from_wire(&tree).is_none());
}

#[test]
fn from_wire_rejects_duplicate_names() {
    let item = |ts: u64| {
        Json::Obj(vec![
            (String::from("item_name"), Json::Str(String::from("milk"))),
            (String::from("target"), Json::UInt(1)),
            (String::from("bought"), Json::UInt(0)),
            (String::from("replica"), Json::Str(String::from("0"))),
            (String::from("timestamp"), Json::UInt(ts)),
            (String::from("deleted"), Json::Bool(false)),
        ])
    };
    let tree = Json::Obj(vec![(
        String::from("1"),
        Json::Obj(vec![
            (String::from("s"), Json::Arr(vec![item(1), item(2)])),
            (
                String::from("c"),
                Json::Arr(vec![Json::Obj(vec![
                    (String::from("replica"), Json::Str(String::from("0"))),
                    (String::from("timestamp"), Json::UInt(2)),
                ])]),
            ),
        ]),
    )]);
    assert!(from_wire(&tree).is_none());
}

#[test]
fn from_wire_rejects_item_ahead_of_its_context() {
    // An item stamped ("0", 3) with a context that only reaches 1.
    let tree = Json::Obj(vec![(
        String::from("1"),
        Json::Obj(vec![
            (
                String::from("s"),
                Json::Arr(vec![Json::Obj(vec![
                    (String::from("item_name"), Json::Str(String::from("milk"))),
                    (String::from("target"), Json::UInt(1)),
                    (String::from("bought"), Json::UInt(0)),
                    (String::from("replica"), Json::Str(String::from("0"))),
                    (String::from("timestamp"), Json::UInt(3)),
                    (String::from("deleted"), Json::Bool(false)),
                ])]),
            ),
            (
                String::from("c"),
                Json::Arr(vec![Json::Obj(vec![
                    (String::from("replica"), Json::Str(String::from("0"))),
                    (String::from("timestamp"), Json::UInt(1)),
                ])]),
            ),
        ]),
    )]);
    assert!(from_wire(&tree).is_none());
}

#[test]
fn from_wire_rejects_non_object_payload() {
    assert!(from_wire(&Json::UInt(7)).is_none());
    assert!(from_wire(&Json::Obj(vec![])).is_none());
}

#[test]
fn to_wire_has_canonical_shape() {
    let mut s = AWSet::new();
    s.set_id(String::from("5"));
    s.add("milk", 2, 1, "3", false);
    match to_wire(&s) {
        Json::Obj(root) => {
            assert_eq!(root.len(), 1);
            assert_eq!(root[0].0, "5");
            match &root[0].1 {
                Json::Obj(body) => {
                    assert_eq!(body.len(), 2);
                    assert_eq!(body[0].0, "s");
                    assert_eq!(body[1].0, "c");
                    match (&body[0].1, &body[1].1) {
                        (Json::Arr(sa), Json::Arr(ca)) => {
                            assert_eq!(sa.len(), 1);
                            assert_eq!(ca.len(), 1);
                        }
                        _ => panic!("arrays expected"),
                    }
                }
                _ => panic!("object body expected"),
            }
        }
        _ => panic!("object expected"),
    }
}
