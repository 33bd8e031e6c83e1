//! The canonical wire text against an independent JSON reader: what
//! `to_wire_text` prints must parse as ordinary JSON and denote the
//! same set.
use serde_json::Value;
use slde::crdt::AWSet;
use slde::wire::Json;
use slde::wire::from_wire;
use slde::wire::to_wire_text;

fn value_to_tree(v: &Value) -> Option<Json> {
    match v {
        Value::Bool(b) => Some(Json::Bool(*b)),
        Value::Number(n) => n.as_u64().map(Json::UInt),
        Value::String(s) => Some(Json::Str(s.clone())),
        Value::Array(a) => {
            let mut out = Vec::new();
            for x in a {
                out.push(value_to_tree(x)?);
            }
            Some(Json::Arr(out))
        }
        Value::Object(o) => {
            let mut out = Vec::new();
            for (k, x) in o {
                out.push((k.clone(), value_to_tree(x)?));
            }
            Some(Json::Obj(out))
        }
        Value::Null => None,
    }
}

#[test]
fn wire_text_is_valid_json_with_the_expected_fields() {
    let mut s = AWSet::new();
    s.set_id(String::from("6"));
    s.add("milk", 2, 0, "0", false);
    let text = to_wire_text(&s);
    let v: Value = serde_json::from_str(&text).unwrap();
    assert_eq!(v["6"]["s"][0]["item_name"], Value::String(String::from("milk")));
    assert_eq!(v["6"]["s"][0]["target"], Value::Number(2.into()));
    assert_eq!(v["6"]["s"][0]["deleted"], Value::Bool(false));
    assert_eq!(v["6"]["c"][0]["replica"], Value::String(String::from("0")));
    assert_eq!(v["6"]["c"][0]["timestamp"], Value::Number(1.into()));
}

#[test]
fn wire_text_escapes_quotes_and_backslashes() {
    let mut s = AWSet::new();
    s.set_id(String::from("7"));
    s.add("br\"ead\\", 1, 0, "0", false);
    let text = to_wire_text(&s);
    let v: Value = serde_json::from_str(&text).unwrap();
    let back = from_wire(&value_to_tree(&v).unwrap()).unwrap();
    assert!(back.contains("br\"ead\\"));
    let els = back.elements();
    assert_eq!(els.len(), 1);
    assert_eq!(els[0].item_name, "br\"ead\\");
}

#[test]
fn wire_text_round_trips_through_an_independent_parser() {
    let mut s = AWSet::new();
    s.set_id(String::from("3"));
    s.add("milk", 2, 1, "0", false);
    s.add("eggs", 12, 0, "1", false);
    s.remove("eggs", "0");
    let text = to_wire_text(&s);
    let v: Value = serde_json::from_str(&text).unwrap();
    let back = from_wire(&value_to_tree(&v).unwrap()).unwrap();
    assert_eq!(back.id_string(), s.id_string());
    assert_eq!(back.elements().len(), s.elements().len());
    for x in s.elements() {
        let eb = back.elements();
        let y = eb.iter().find(|y| y.item_name == x.item_name).unwrap().clone();
        assert_eq!(x.target, y.target);
        assert_eq!(x.bought, y.bought);
        assert_eq!(x.replica, y.replica);
        assert_eq!(x.timestamp, y.timestamp);
        assert_eq!(x.deleted, y.deleted);
    }
}

#[test]
fn shard_file_text_is_valid_json_with_every_list() {
    let mut shards = slde::protocol::ShardMap::new();
    let mut a = AWSet::new();
    a.set_id(String::from("0"));
    a.add("milk", 1, 0, "0", false);
    let mut b = AWSet::new();
    b.set_id(String::from("6"));
    b.add("eggs", 6, 0, "1", false);
    shards.put(a);
    shards.put(b);
    let text = slde::wire::shards_to_text(&shards);
    let v: Value = serde_json::from_str(&text).unwrap();
    assert_eq!(v["0"]["s"][0]["item_name"], Value::String(String::from("milk")));
    assert_eq!(v["6"]["s"][0]["item_name"], Value::String(String::from("eggs")));
    assert_eq!(v["6"]["c"][0]["replica"], Value::String(String::from("1")));
}

#[test]
fn wire_text_escapes_control_characters() {
    // A newline and a tab in an item name must come out as JSON escapes,
    // or the frame (and the persisted file) would be unreadable.
    let mut s = AWSet::new();
    s.set_id(String::from("4"));
    s.add("mi\nl\tk", 1, 0, "0", false);
    let text = to_wire_text(&s);
    let v: Value = serde_json::from_str(&text).unwrap();
    let back = from_wire(&value_to_tree(&v).unwrap()).unwrap();
    assert!(back.contains("mi\nl\tk"));
}

#[test]
fn shard_file_with_control_characters_reloads() {
    let mut shards = slde::protocol::ShardMap::new();
    let mut a = AWSet::new();
    a.set_id(String::from("1"));
    a.add("a\u{0}b\u{1f}c", 3, 1, "0", false);
    shards.put(a);
    let text = slde::wire::shards_to_text(&shards);
    let v: Value = serde_json::from_str(&text).unwrap();
    assert_eq!(
        v["1"]["s"][0]["item_name"],
        Value::String(String::from("a\u{0}b\u{1f}c"))
    );
    let mut one = serde_json::Map::new();
    one.insert(String::from("1"), v["1"].clone());
    let back = from_wire(&value_to_tree(&Value::Object(one)).unwrap()).unwrap();
    assert!(back.contains("a\u{0}b\u{1f}c"));
}
