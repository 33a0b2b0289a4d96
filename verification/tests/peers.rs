use groupnet_consistency::group::{Entries, EntryWrite, GroupView, Status};
use groupnet_consistency::peers::{
    advertised_head, advertised_head_named, is_countable, Signal, Wake,
};
use groupnet_consistency::wire::{entry_key, Frame};
use groupnet_consistency::{GroupId, NodeId, PeerWrite, PeerWrites, WriteFeed, WriteToken};

fn node(name: &str) -> NodeId {
    NodeId::new(name)
}

fn token(epoch: u64, seq: u64) -> WriteToken {
    WriteToken { epoch, seq }
}

fn text(bytes: &[u8]) -> Option<String> {
    String::from_utf8(bytes.to_vec()).ok()
}

fn group(members: &[&str]) -> GroupView {
    let mut group = GroupView::new(GroupId::new("g"));
    for member in members {
        group.statuses.insert(node(member), Status::Alive);
        group.members.push(node(member));
    }
    group
}

fn publish(group: &mut GroupView, from: &str, write: EntryWrite) {
    let mut entries = Entries::new();
    entries.put(write.key, write.value);
    group.entries.insert(node(from), entries);
}

fn wrote(peer: &str, epoch: u64, seq: u64, key: &str) -> PeerWrite<String> {
    PeerWrite::Wrote {
        peer: node(peer),
        token: token(epoch, seq),
        key: key.to_owned(),
    }
}

fn gap(peer: &str, epoch: u64, seq: u64) -> PeerWrite<String> {
    PeerWrite::Gap {
        peer: node(peer),
        missed_through: token(epoch, seq),
    }
}

#[test]
fn a_subscriber_is_told_each_new_write_once_and_in_order() {
    let mut shown = group(&["me", "w"]);
    let mut feed = WriteFeed::new(2, usize::MAX, 7);
    publish(&mut shown, "w", feed.publish(b"before".to_vec()).1);
    let mut peers = PeerWrites::new(&shown, node("me"), text);
    assert_eq!(peers.lag(&shown, &node("w")), Some(0));
    peers.scan_all(&shown);
    assert_eq!(peers.next(), None, "the subscriber starts at the head");

    publish(&mut shown, "w", feed.publish(b"one".to_vec()).1);
    publish(&mut shown, "w", feed.publish(b"two".to_vec()).1);
    assert_eq!(peers.lag(&shown, &node("w")), Some(2));
    peers.scan(&shown, &node("w"));
    assert_eq!(peers.next(), Some(wrote("w", 7, 2, "one")));
    assert_eq!(peers.next(), Some(wrote("w", 7, 3, "two")));
    assert_eq!(peers.next(), None);
    peers.scan_all(&shown);
    assert_eq!(peers.next(), None, "a second look tells nothing again");
    assert_eq!(peers.gaps_seen(), 0);
}

#[test]
fn a_subscriber_that_fell_behind_or_saw_a_restart_is_told_a_gap() {
    let mut shown = group(&["me", "w"]);
    let mut feed = WriteFeed::new(2, usize::MAX, 7);
    publish(&mut shown, "w", feed.publish(b"a".to_vec()).1);
    let mut peers = PeerWrites::new(&shown, node("me"), text);
    for key in ["b", "c", "d"] {
        publish(&mut shown, "w", feed.publish(key.as_bytes().to_vec()).1);
    }
    peers.scan_all(&shown);
    assert_eq!(peers.next(), Some(gap("w", 7, 2)));
    assert_eq!(peers.next(), Some(wrote("w", 7, 3, "c")));
    assert_eq!(peers.next(), Some(wrote("w", 7, 4, "d")));

    let mut reborn = WriteFeed::new(2, usize::MAX, 8);
    publish(&mut shown, "w", reborn.publish(b"e".to_vec()).1);
    peers.scan_all(&shown);
    assert_eq!(peers.next(), Some(gap("w", 8, 0)));
    assert_eq!(peers.next(), Some(wrote("w", 8, 1, "e")));
    assert_eq!(peers.gaps_seen(), 2);

    // A frame of the previous life, delivered late, tells nothing.
    publish(&mut shown, "w", feed.republish());
    peers.scan_all(&shown);
    assert_eq!(peers.next(), None);
}

#[test]
fn an_unreadable_key_is_skipped_without_losing_its_number() {
    let mut shown = group(&["me", "w"]);
    let mut peers = PeerWrites::new(&shown, node("me"), text);
    let mut feed = WriteFeed::new(8, usize::MAX, 1);
    publish(&mut shown, "w", feed.publish(vec![0xff, 0xfe]).1);
    publish(&mut shown, "w", feed.publish(b"ok".to_vec()).1);
    peers.scan_all(&shown);
    assert_eq!(peers.next(), Some(wrote("w", 1, 2, "ok")));
    assert_eq!(peers.next(), None);
}

#[test]
fn our_own_feed_and_garbage_are_ignored() {
    let mut shown = group(&["me", "w"]);
    let mut peers = PeerWrites::named("docs", &shown, node("me"), text);
    let mut feed = WriteFeed::named("docs", 8, usize::MAX, 1);
    publish(&mut shown, "me", feed.publish(b"mine".to_vec()).1);
    publish(
        &mut shown,
        "w",
        EntryWrite {
            key: entry_key("docs"),
            value: b"garbage".to_vec(),
            ttl_ms: None,
        },
    );
    peers.scan_all(&shown);
    assert_eq!(peers.next(), None);
    assert_eq!(peers.lag(&shown, &node("w")), None);
}

#[test]
fn the_head_is_the_newest_advertised_write() {
    let mut shown = group(&["w"]);
    assert_eq!(advertised_head(&shown, &node("w")), None);
    let mut feed = WriteFeed::named("docs", 8, usize::MAX, 4);
    feed.publish(b"a".to_vec());
    publish(&mut shown, "w", feed.publish(b"b".to_vec()).1);
    assert_eq!(
        advertised_head_named("docs", &shown, &node("w")),
        Some(token(4, 2))
    );
    assert_eq!(advertised_head(&shown, &node("w")), None, "another feed");
}

#[test]
fn a_frame_whose_numbers_run_out_is_not_countable() {
    let mut shown = group(&["w"]);
    let key = entry_key("");
    let frame = |first_seq: u64| EntryWrite {
        key: entry_key(""),
        value: Frame {
            epoch: 1,
            first_seq,
            keys: vec![Vec::new()],
        }
        .encode(),
        ttl_ms: None,
    };
    assert!(is_countable(&shown, &node("w"), &key));
    publish(&mut shown, "w", frame(u64::MAX - 1));
    assert!(is_countable(&shown, &node("w"), &key));
    publish(&mut shown, "w", frame(u64::MAX));
    assert!(!is_countable(&shown, &node("w"), &key));
}

#[test]
fn a_signal_wakes_the_subscriber_for_what_it_concerns() {
    let shown = group(&["me", "w"]);
    let peers = PeerWrites::new(&shown, node("me"), text);
    let changed = |from: &str, key: String| Signal::NodeStateChanged {
        node: node(from),
        key,
    };
    assert_eq!(peers.wake(&changed("w", entry_key(""))), Wake::One);
    assert_eq!(peers.wake(&changed("me", entry_key(""))), Wake::Ignore);
    assert_eq!(peers.wake(&changed("w", entry_key("docs"))), Wake::Ignore);
    assert_eq!(peers.wake(&Signal::MembershipChanged), Wake::All);
    assert_eq!(peers.wake(&Signal::Lagged), Wake::All);
    assert_eq!(peers.wake(&Signal::LeadershipChanged), Wake::Ignore);
    assert_eq!(peers.wake(&Signal::Other), Wake::Ignore);
    assert_eq!(peers.wake(&Signal::Closed), Wake::Stop);
}

#[test]
fn a_feed_that_appears_later_is_told_from_the_front_of_its_window() {
    let mut shown = group(&["me", "w"]);
    let mut peers = PeerWrites::new(&shown, node("me"), text);
    let mut feed = WriteFeed::new(2, usize::MAX, 4);
    for key in ["a", "b", "c"] {
        publish(&mut shown, "w", feed.publish(key.as_bytes().to_vec()).1);
    }
    peers.scan_all(&shown);
    assert_eq!(peers.next(), Some(wrote("w", 4, 2, "b")));
    assert_eq!(peers.next(), Some(wrote("w", 4, 3, "c")));
    assert_eq!(peers.next(), None);
    assert_eq!(peers.gaps_seen(), 0);
}
