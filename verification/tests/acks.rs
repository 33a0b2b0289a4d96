use groupnet_consistency::acks::{
    applied_by, applied_cluster_wide, decode_one, encode, AckLedger, ACK_KEY,
};
use groupnet_consistency::group::{Entries, GroupView, Status};
use groupnet_consistency::idmap::IdMap;
use groupnet_consistency::{GroupId, NodeId, WriteToken};

fn token(epoch: u64, seq: u64) -> WriteToken {
    WriteToken { epoch, seq }
}

#[test]
fn ledger_codec_round_trips_and_rejects_truncation() {
    let mut applied = IdMap::new();
    applied.insert(NodeId::new("node-a"), WriteToken { epoch: 3, seq: 41 });
    applied.insert(NodeId::new("b"), WriteToken { epoch: 1, seq: 7 });
    let bytes = encode(&applied);
    assert_eq!(
        decode_one(&bytes, "node-a"),
        Some(WriteToken { epoch: 3, seq: 41 })
    );
    assert_eq!(
        decode_one(&bytes, "b"),
        Some(WriteToken { epoch: 1, seq: 7 })
    );
    assert_eq!(decode_one(&bytes, "nobody"), None);
    for cut in 1..bytes.len() {
        let _ = decode_one(&bytes[..cut], "node-a"); // must never panic
    }
}

fn publish(group: &mut GroupView, node: &str, value: Vec<u8>) {
    let mut entries = Entries::new();
    entries.put(ACK_KEY.to_owned(), value);
    group.entries.insert(NodeId::new(node), entries);
}

fn join(group: &mut GroupView, node: &str, status: Status) {
    group.statuses.insert(NodeId::new(node), status);
    group.members.push(NodeId::new(node));
}

#[test]
fn a_recorded_token_is_published_once_and_read_back() {
    let mut ledger = AckLedger::new();
    let write = ledger
        .record(&NodeId::new("w"), token(2, 9))
        .expect("an advance is published");
    assert_eq!(write.key, ACK_KEY);
    assert_eq!(write.ttl_ms, None);
    assert!(ledger.record(&NodeId::new("w"), token(2, 9)).is_none());
    assert!(ledger.record(&NodeId::new("w"), token(1, 99)).is_none());

    let mut group = GroupView::new(GroupId::new("g"));
    publish(&mut group, "m", write.value);
    let m = NodeId::new("m");
    assert_eq!(applied_by(&group, &m, &NodeId::new("w")), Some(token(2, 9)));
    assert_eq!(applied_by(&group, &m, &NodeId::new("x")), None);
    assert_eq!(applied_by(&group, &NodeId::new("x"), &m), None);
}

#[test]
fn a_write_is_applied_everywhere_once_every_live_peer_says_so() {
    let writer = NodeId::new("w");
    let mut group = GroupView::new(GroupId::new("g"));
    join(&mut group, "a", Status::Alive);
    join(&mut group, "w", Status::Alive);
    assert_eq!(
        applied_cluster_wide(&group, &writer, token(1, 5), false),
        None,
        "a is silent"
    );
    assert_eq!(
        applied_cluster_wide(&group, &writer, token(1, 5), true),
        Some(false)
    );
    let mut ledger = AckLedger::new();
    let short = ledger.record(&writer, token(1, 4)).expect("published");
    publish(&mut group, "a", short.value);
    assert_eq!(
        applied_cluster_wide(&group, &writer, token(1, 5), false),
        None
    );
    let whole = ledger.record(&writer, token(1, 5)).expect("published");
    publish(&mut group, "a", whole.value);
    assert_eq!(
        applied_cluster_wide(&group, &writer, token(1, 5), false),
        Some(true)
    );
    assert_eq!(
        applied_cluster_wide(&group, &writer, token(1, 5), true),
        Some(true)
    );
}

#[test]
fn a_cut_ledger_never_says_more_than_was_recorded() {
    let mut ledger = AckLedger::new();
    assert!(ledger.record(&NodeId::new("a"), token(3, 4)).is_some());
    let whole = ledger.record(&NodeId::new("bb"), token(5, 6)).expect("moved").value;
    for cut in 0..whole.len() {
        for (writer, mark) in [("a", token(3, 4)), ("bb", token(5, 6)), ("c", token(0, 0))] {
            let said = decode_one(&whole[..cut], writer);
            assert!(said.is_none() || said == Some(mark), "cut at {cut}");
        }
        assert_eq!(decode_one(&whole[..cut], "c"), None);
    }
}
