use std::time::Duration;

use groupnet_consistency::floor::{
    decode, encode, entry_key, fold_max, prefix_for, Published, SeqFloors,
};
use groupnet_consistency::group::{Entries, GroupView, Status};
use groupnet_consistency::{GroupId, NodeId};

#[test]
fn set_names_and_keys_map_to_distinct_entries() {
    assert_eq!(entry_key(&prefix_for(""), "shard-7"), "~floor:shard-7");
    assert_eq!(
        entry_key(&prefix_for("lsn"), "shard-7"),
        "~floor:lsn:shard-7"
    );
    // Distinct names never share an entry, and neither do distinct keys:
    // per-key entries are what makes dissemination and expiry per-key.
    assert_ne!(
        entry_key(&prefix_for("lsn"), "s"),
        entry_key(&prefix_for("idx"), "s")
    );
    assert_ne!(
        entry_key(&prefix_for("lsn"), "a"),
        entry_key(&prefix_for("lsn"), "b")
    );
    // An empty name is the default set.
    assert_eq!(prefix_for(""), prefix_for(""));
    assert_ne!(prefix_for(""), prefix_for("lsn"));
}

#[test]
fn floors_round_trip_and_malformed_bytes_decode_to_no_claim() {
    for floor in [0, 1, 42, u64::MAX] {
        assert_eq!(decode(&encode(floor)), Some(floor));
    }
    assert_eq!(encode(1).len(), 8, "one u64 LE, nothing else");
    // Anything that is not exactly eight bytes is "no claim", not a
    // number nobody wrote.
    for cut in 0..8 {
        assert_eq!(decode(&encode(9)[..cut]), None, "short at {cut}");
    }
    assert_eq!(decode(&[0u8; 9]), None, "long");
    assert_eq!(decode(b"garbled!!"), None);
    assert_eq!(decode(b"garbled"), None);
}

#[test]
fn publishing_folds_to_the_running_max() {
    let mut published = Published::new();
    assert_eq!(fold_max(&mut published, "s7", 10), 10);
    // A lower publish re-advertises the max (refreshing the TTL) rather
    // than walking the floor backwards…
    assert_eq!(fold_max(&mut published, "s7", 7), 10);
    assert_eq!(fold_max(&mut published, "s7", 10), 10, "equal is not lower");
    // …and an advance still advances.
    assert_eq!(fold_max(&mut published, "s7", 11), 11);
    // Keys fold independently.
    assert_eq!(fold_max(&mut published, "s8", 3), 3);
    assert_eq!(published.get("s7"), Some(11));
}

#[test]
fn a_rejected_write_is_re_carried_by_the_next_publish() {
    let mut published = Published::new();
    // The fold happens before the enqueue, so a write that never reached
    // the actor still leaves the max recorded…
    assert_eq!(fold_max(&mut published, "s7", 10), 10);
    // …and the next publish — even a lower one — carries it.
    assert_eq!(fold_max(&mut published, "s7", 4), 10);
}

#[test]
fn a_published_floor_expires_and_is_read_by_node() {
    let mut floors = SeqFloors::named("lsn", Duration::from_millis(1500));
    let write = floors.publish("s7", 40);
    assert_eq!(write.key, "~floor:lsn:s7");
    assert_eq!(write.ttl_ms, Some(1500));
    assert_eq!(decode(&write.value), Some(40));

    let mut group = GroupView::new(GroupId::new("g"));
    let mut entries = Entries::new();
    entries.put(write.key, write.value);
    group.entries.insert(NodeId::new("b"), entries);
    for node in ["a", "b"] {
        group.statuses.insert(NodeId::new(node), Status::Alive);
        group.members.push(NodeId::new(node));
    }
    assert_eq!(
        floors.floor_of(&group, &NodeId::new("b"), "s7"),
        Some(40)
    );
    assert_eq!(floors.floor_of(&group, &NodeId::new("a"), "s7"), None);
    assert_eq!(floors.floor_of(&group, &NodeId::new("b"), "s8"), None);
    assert_eq!(
        floors.floors_for(&group, "s7"),
        vec![(NodeId::new("b"), 40)]
    );
    let other = SeqFloors::new(Duration::from_millis(1500));
    assert!(other.floors_for(&group, "s7").is_empty());
}

#[test]
fn a_floor_never_falls_whatever_is_published() {
    let mut floors = SeqFloors::new(Duration::from_secs(1));
    assert_eq!(decode(&floors.publish("k", 9).value), Some(9));
    assert_eq!(decode(&floors.publish("k", 2).value), Some(9));
    assert_eq!(decode(&floors.publish("k", 10).value), Some(10));
}
