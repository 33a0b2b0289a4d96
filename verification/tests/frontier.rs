use groupnet_consistency::{Frontier, NodeId, WriteToken};

fn token(epoch: u64, seq: u64) -> WriteToken {
    WriteToken { epoch, seq }
}

#[test]
fn a_token_is_reached_once_it_has_been_applied_and_stays_reached() {
    let mut frontier = Frontier::new();
    let peer = NodeId::new("peer");
    let view = frontier.snapshot();
    assert!(!view.reached(&peer, token(0, 0)), "nothing applied yet");
    frontier.advance(&peer, token(3, 5));
    let view = frontier.snapshot();
    assert!(view.reached(&peer, token(3, 5)));
    assert!(view.reached(&peer, token(3, 4)));
    assert!(!view.reached(&peer, token(3, 6)));
    assert!(view.reached(&peer, token(2, 900)), "a newer life covers an older");
    assert!(!view.reached(&NodeId::new("other"), token(1, 1)));

    frontier.advance(&peer, token(3, 2));
    frontier.advance(&NodeId::new("other"), token(1, 1));
    let later = frontier.snapshot();
    assert!(later.reached(&peer, token(3, 5)), "a lower token is ignored");
    assert!(later.reached(&NodeId::new("other"), token(1, 1)));
    assert!(!view.clone().reached(&NodeId::new("other"), token(1, 1)));
}

#[test]
fn a_waiting_barrier_gives_up_only_when_the_frontier_is_gone_short_of_it() {
    let mut frontier = Frontier::new();
    let peer = NodeId::new("peer");
    frontier.advance(&peer, token(2, 3));
    let view = frontier.snapshot();
    assert_eq!(view.awaited(&peer, token(2, 4), false), None);
    assert_eq!(view.awaited(&peer, token(2, 4), true), Some(false));
    assert_eq!(view.awaited(&peer, token(2, 3), false), Some(true));
    assert_eq!(view.awaited(&peer, token(2, 3), true), Some(true));
}

#[test]
fn a_barrier_is_met_by_its_own_peer_alone() {
    let mut frontier = Frontier::new();
    let (a, b) = (NodeId::new("a"), NodeId::new("b"));
    for (peer, seq) in [(&b, 9), (&a, 2), (&b, 1), (&a, 1)] {
        frontier.advance(peer, token(4, seq));
    }
    let view = frontier.snapshot();
    assert!(view.reached(&a, token(4, 2)));
    assert!(!view.reached(&a, token(4, 3)), "the other peer's advance does not count");
    assert!(view.reached(&b, token(4, 9)));
}
