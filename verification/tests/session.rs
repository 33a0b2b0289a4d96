use groupnet_consistency::group::{Entries, EntryWrite, GroupView, Status};
use groupnet_consistency::{
    Frontier, GroupId, NodeId, PeerWrite, PeerWrites, WriteFeed, WriteToken,
};

fn node(name: &str) -> NodeId {
    NodeId::new(name)
}

fn text(bytes: &[u8]) -> Option<String> {
    String::from_utf8(bytes.to_vec()).ok()
}

fn publish(group: &mut GroupView, write: EntryWrite) {
    let mut entries = Entries::new();
    entries.put(write.key, write.value);
    group.entries.insert(node("w"), entries);
}

fn carried_to(event: &PeerWrite<String>) -> WriteToken {
    match event {
        PeerWrite::Wrote { token, .. } => *token,
        PeerWrite::Gap { missed_through, .. } => *missed_through,
    }
}

#[test]
fn a_barrier_is_met_only_once_everything_up_to_it_has_been_applied() {
    let mut shown = GroupView::new(GroupId::new("g"));
    for member in ["me", "w"] {
        shown.statuses.insert(node(member), Status::Alive);
        shown.members.push(node(member));
    }
    let mut feed = WriteFeed::new(3, usize::MAX, 7);
    publish(&mut shown, feed.republish());
    let mut peers = PeerWrites::new(&shown, node("me"), text);
    let mut frontier = Frontier::new();

    let mut tokens = Vec::new();
    for key in ["a", "b", "c"] {
        let (token, write) = feed.publish(key.as_bytes().to_vec());
        tokens.push(token);
        publish(&mut shown, write);
    }
    peers.scan_all(&shown);
    let mut applied = Vec::new();
    while let Some(event) = peers.next() {
        let at = carried_to(&event);
        if let PeerWrite::Wrote { key, .. } = event {
            applied.push(key);
        }
        frontier.advance(&node("w"), at);
        let reached = frontier.snapshot();
        let met = tokens
            .iter()
            .filter(|token| reached.reached(&node("w"), **token))
            .count();
        assert_eq!(met, applied.len(), "a met barrier is an applied write");
    }
    assert_eq!(applied, ["a", "b", "c"]);
}

#[test]
fn a_restart_tells_a_gap_that_meets_the_barriers_of_the_life_before() {
    let mut shown = GroupView::new(GroupId::new("g"));
    shown.statuses.insert(node("w"), Status::Alive);
    shown.members.push(node("w"));
    let mut feed = WriteFeed::new(3, usize::MAX, 7);
    publish(&mut shown, feed.publish(b"a".to_vec()).1);
    let mut peers = PeerWrites::new(&shown, node("me"), text);
    let mut frontier = Frontier::new();
    let (unseen, _) = feed.publish(b"never shown".to_vec());

    let mut reborn = WriteFeed::new(3, usize::MAX, 8);
    let (fresh, write) = reborn.publish(b"b".to_vec());
    publish(&mut shown, write);
    peers.scan_all(&shown);
    let gap = peers.next().expect("a gap");
    assert_eq!(
        gap,
        PeerWrite::Gap { peer: node("w"), missed_through: WriteToken { epoch: 8, seq: 0 } }
    );
    assert!(!frontier.snapshot().reached(&node("w"), unseen));
    frontier.advance(&node("w"), carried_to(&gap));
    assert!(frontier.snapshot().reached(&node("w"), unseen));
    assert!(!frontier.snapshot().reached(&node("w"), fresh));
    frontier.advance(&node("w"), carried_to(&peers.next().expect("the write")));
    assert!(frontier.snapshot().reached(&node("w"), fresh));
}
