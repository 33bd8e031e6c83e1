//! Message classification, the shard map, and the two quorum protocols.
use slde::crdt::AWSet;
use slde::failure::TimeoutTable;
use slde::protocol::PeerMessage;
use slde::protocol::ReadPlan;
use slde::protocol::RelayMessage;
use slde::protocol::ShardMap;
use slde::protocol::WritePlan;
use slde::protocol::WriteStep;
use slde::protocol::classify_peer_message;
use slde::protocol::classify_relay_message;
use slde::protocol::handle_owner_write;
use slde::protocol::handle_replica_write;
use slde::protocol::preference_list;

#[test]
fn peer_frames_are_classified_by_keyword() {
    match classify_peer_message("WRITE{\"1\":{}}") {
        PeerMessage::Write { payload } => assert_eq!(payload, "{\"1\":{}}"),
        _ => panic!("WRITE frame expected"),
    }
    match classify_peer_message("READ6") {
        PeerMessage::Read { key } => assert_eq!(key, "6"),
        _ => panic!("READ frame expected"),
    }
    match classify_peer_message("REROUTE2WRITE{\"1\":{}}") {
        PeerMessage::Reroute { target, payload } => {
            assert_eq!(target, "2");
            assert_eq!(payload, "WRITE{\"1\":{}}");
        }
        _ => panic!("REROUTE frame expected"),
    }
    match classify_peer_message("{\"6\":{\"s\":[],\"c\":[]}}") {
        PeerMessage::Other { payload } => assert_eq!(payload, "{\"6\":{\"s\":[],\"c\":[]}}"),
        _ => panic!("write body expected"),
    }
}

#[test]
fn relay_frames_are_read_or_write_body() {
    match classify_relay_message("READ42") {
        RelayMessage::Read { key } => assert_eq!(key, "42"),
        _ => panic!("READ frame expected"),
    }
    match classify_relay_message("{\"6\":{}}") {
        RelayMessage::Other { payload } => assert_eq!(payload, "{\"6\":{}}"),
        _ => panic!("write body expected"),
    }
}

#[test]
fn preference_list_is_the_two_nodes_after_the_owner() {
    assert_eq!(preference_list(0, 6), vec![1, 2]);
    assert_eq!(preference_list(4, 6), vec![5, 0]);
    assert_eq!(preference_list(5, 6), vec![0, 1]);
}

#[test]
fn shard_map_stores_by_id_and_overwrites() {
    let mut shards = ShardMap::new();
    let mut a = AWSet::new();
    a.set_id(String::from("6"));
    a.add("milk", 1, 0, "0", false);
    shards.put(a.duplicate());
    assert!(shards.get(&String::from("6")).is_some());
    assert!(shards.get(&String::from("7")).is_none());
    let mut a2 = a.duplicate();
    a2.add("bread", 1, 0, "0", false);
    shards.put(a2);
    assert_eq!(shards.count(), 1);
    assert!(shards.get(&String::from("6")).unwrap().contains("bread"));
}

#[test]
fn replica_write_is_stored_as_authoritative() {
    let mut shards = ShardMap::new();
    let mut local = AWSet::new();
    local.set_id(String::from("6"));
    local.add("milk", 1, 0, "0", false);
    local.add("eggs", 2, 0, "0", false);
    shards.put(local);
    let mut pushed = AWSet::new();
    pushed.set_id(String::from("6"));
    pushed.add("bread", 1, 0, "1", false);
    let reply = handle_replica_write(&mut shards, pushed);
    assert_eq!(reply, "Received");
    // The pushed state replaced the local copy outright: no merge.
    let stored = shards.get(&String::from("6")).unwrap();
    assert!(stored.contains("bread"));
    assert!(!stored.contains("milk"));
}

#[test]
fn owner_write_merges_with_local_copy() {
    let mut shards = ShardMap::new();
    let mut local = AWSet::new();
    local.set_id(String::from("6"));
    local.add("milk", 1, 0, "0", false);
    shards.put(local);
    let mut incoming = AWSet::new();
    incoming.set_id(String::from("6"));
    incoming.add("bread", 1, 0, "1", false);
    let merged = handle_owner_write(&mut shards, incoming);
    assert!(merged.contains("milk") && merged.contains("bread"));
    let stored = shards.get(&String::from("6")).unwrap();
    assert!(stored.contains("milk") && stored.contains("bread"));
}

#[test]
fn write_succeeds_through_hinted_handoff_around_failed_replica() {
    // Cluster of six, owner 0, replication factor 3: the preference
    // list is nodes 1 and 2. Node 2 is observed failing just before the
    // write; the walk must still reach quorum 2 via a reroute through
    // node 3, and node 2 must stand in the failure window.
    let now: u64 = 10_000;
    let window: u64 = 100;
    let mut table = TimeoutTable::new();
    table.update_timestamp("2", now);
    let mut plan = WritePlan::new(0, 6);

    // Position 1: healthy preference node, written to directly.
    match plan.current_step(&table, window, now) {
        WriteStep::SendWrite { to } => {
            assert_eq!(to, 1);
            plan.record_send(&mut table, now, 1, false, true);
        }
        _ => panic!("direct write to node 1 expected"),
    }
    plan.advance();
    assert!(!plan.quorum_met());

    // Position 2: suspected preference node, deferred onto the hints.
    match plan.current_step(&table, window, now) {
        WriteStep::Defer => plan.defer_current(),
        _ => panic!("deferral of node 2 expected"),
    }
    plan.advance();

    // Position 3: healthy node off the list carries the pending hint.
    match plan.current_step(&table, window, now) {
        WriteStep::SendReroute { via, target } => {
            assert_eq!(via, 3);
            assert_eq!(target, 2);
            plan.record_send(&mut table, now, 3, true, true);
        }
        _ => panic!("reroute via node 3 expected"),
    }
    assert!(plan.quorum_met());
    // The failed node's entry is in the failure window.
    assert!(table.is_timed_out("2", window, now));
}

#[test]
fn write_fails_without_enough_acknowledgments() {
    let now: u64 = 10_000;
    let window: u64 = 100;
    let mut table = TimeoutTable::new();
    let mut plan = WritePlan::new(0, 6);
    loop {
        if plan.is_finished() {
            break;
        }
        match plan.current_step(&table, window, now) {
            WriteStep::SendWrite { to } => {
                // Every direct send fails: the node joins the window.
                plan.record_send(&mut table, now, to, false, false);
            }
            WriteStep::SendReroute { via, .. } => {
                plan.record_send(&mut table, now, via, true, false);
            }
            WriteStep::Defer => plan.defer_current(),
            WriteStep::Pass => {}
        }
        plan.advance();
    }
    assert!(!plan.quorum_met());
    assert!(table.is_timed_out("1", window, now));
    assert!(table.is_timed_out("2", window, now));
}

#[test]
fn quorum_read_merges_two_replies_and_repairs_the_stale_one() {
    // Owner 0 of list "6" holds "milk"; replica 1 also holds "bread",
    // replica 2 is stale. After two successful merges the result is the
    // union, and only replica 2 differs from it and needs repair.
    let mut local = AWSet::new();
    local.set_id(String::from("6"));
    local.add("milk", 2, 0, "0", false);
    let mut r1 = local.duplicate();
    r1.add("bread", 1, 0, "1", false);
    let r2 = local.duplicate();

    let mut plan = ReadPlan::new(local.duplicate(), 0, 6);
    assert_eq!(plan.next_target(), Some(1));
    plan.record_response(1, r1);
    assert_eq!(plan.next_target(), Some(2));
    plan.record_response(2, r2);
    assert!(plan.quorum_met());
    assert_eq!(plan.next_target(), None);

    let merged = plan.result();
    assert!(merged.contains("milk") && merged.contains("bread"));

    assert_eq!(plan.response_count(), 2);
    assert!(!plan.needs_repair(0));
    assert!(plan.needs_repair(1));
    assert_eq!(plan.responder_at(1), 2);
}

#[test]
fn quorum_read_fails_short_of_two_replies() {
    let mut local = AWSet::new();
    local.set_id(String::from("6"));
    local.add("milk", 2, 0, "0", false);
    let mut plan = ReadPlan::new(local, 0, 6);
    assert_eq!(plan.next_target(), Some(1));
    plan.record_failure();
    assert_eq!(plan.next_target(), Some(2));
    let mut r2 = AWSet::new();
    r2.set_id(String::from("6"));
    plan.record_response(2, r2.duplicate());
    assert_eq!(plan.next_target(), None);
    assert!(!plan.quorum_met());
    assert_eq!(plan.successes(), 1);
}
