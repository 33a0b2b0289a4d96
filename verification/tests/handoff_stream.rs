use groupnet_consistency::hosted::handoff::stream::{rank_donors, refused, stepped};
use groupnet_consistency::hosted::handoff::{
    HandoffError, HandoffPhase, HandoffStep, RefusalCode,
};
use groupnet_consistency::hosted::Watermarks;
use groupnet_consistency::idmap::IdSet;
use groupnet_consistency::{NodeId, WriteToken};

const GROUP: &str = "donor-order";

fn nodes(ids: &[&str]) -> Vec<NodeId> {
    ids.iter().map(|id| NodeId::new(id)).collect()
}

fn names(ids: &[NodeId]) -> Vec<&str> {
    ids.iter().map(NodeId::as_str).collect()
}

/// The caller, for the tests that are not about the caller: an id outside
/// every membership below, so the self-filter takes nothing away.
fn outsider() -> NodeId {
    NodeId::new("d-caller")
}

/// A ranking of the members that depends on the group and on each member
/// alone, never on the order they are listed in.
fn rendezvous(group: &str, members: &[NodeId]) -> Vec<NodeId> {
    let weight = |id: &NodeId| {
        let mut hash: u64 = 0xcbf2_9ce4_8422_2325;
        for byte in group.bytes().chain(id.as_str().bytes()) {
            hash = (hash ^ u64::from(byte)).wrapping_mul(0x0100_0000_01b3);
        }
        hash
    };
    let mut ranking = members.to_vec();
    ranking.sort_by_key(|id| (weight(id), id.as_str().to_owned()));
    ranking
}

/// The donor order over that ranking, with `covers` deciding who covers.
fn ordered(
    members: &[NodeId],
    me: &NodeId,
    host: Option<&NodeId>,
    covers: impl Fn(&NodeId) -> bool,
) -> Vec<NodeId> {
    let covering: Vec<NodeId> = members.iter().filter(|id| covers(id)).cloned().collect();
    rank_donors(&rendezvous(GROUP, members), me, host, &IdSet::of(&covering))
}

/// The order when everybody covers and there is no host to hoist.
fn ranked(members: &[NodeId]) -> Vec<NodeId> {
    ordered(members, &outsider(), None, |_| true)
}

#[test]
fn a_hostless_group_orders_by_rendezvous_alone() {
    let members = nodes(&["d-a", "d-b", "d-c", "d-d"]);
    let order = ordered(&members, &outsider(), None, |_| true);
    assert_eq!(order.len(), members.len(), "everybody covers");
    assert_eq!(order, ranked(&members));
    // Order-independent: the same set in any order ranks identically, which
    // is what lets two requesters agree without talking.
    let mut shuffled = members.clone();
    shuffled.reverse();
    assert_eq!(
        ordered(&shuffled, &outsider(), None, |_| true),
        order
    );
}

/// The filter that closes the self-connect: a caller is not a donor, and
/// answering `true` for it does not make it one.
#[test]
fn the_caller_is_never_its_own_donor() {
    let members = nodes(&["d-a", "d-b", "d-c"]);
    for me in &members {
        let order = ordered(&members, me, None, |_| true);
        assert!(
            !order.contains(me),
            "{me:?} listed itself: {:?}",
            names(&order)
        );
        // Removed, and nothing else disturbed — the rest keep their order.
        let expected: Vec<NodeId> = ranked(&members)
            .into_iter()
            .filter(|member| member != me)
            .collect();
        assert_eq!(order, expected);
    }
    // …including when the caller is the serving host, which is precisely a
    // recovering host looking for somebody to fill it in.
    let me = ranked(&members)[0].clone();
    let order = ordered(&members, &me, Some(&me), |_| true);
    assert!(!order.contains(&me), "{:?}", names(&order));
    assert_eq!(order.len(), members.len() - 1);
    // A group of one, where the one is the caller, is nobody.
    assert!(ordered(&members[..1], &members[0], None, |_| true).is_empty());
}

/// A healthy group elects its top-ranked candidate, so only a test can show a
/// host that ordinary ranking would not have put first.
#[test]
fn the_host_is_first_even_when_rendezvous_would_rank_it_last() {
    let members = nodes(&["d-a", "d-b", "d-c", "d-d"]);
    let ranking = ranked(&members);
    let last = ranking.last().expect("four members").clone();
    let order = ordered(&members, &outsider(), Some(&last), |_| true);
    assert_eq!(order[0], last, "the serving host is asked first: {order:?}");
    // …and behind it, everyone else keeps the rendezvous order exactly.
    let behind: Vec<NodeId> = ranking.into_iter().filter(|id| *id != last).collect();
    assert_eq!(order[1..], behind[..], "{order:?}");
    // Every member appears exactly once — the host is hoisted, not doubled.
    assert_eq!(order.len(), members.len());
}

#[test]
fn a_host_that_does_not_cover_is_absent_rather_than_first() {
    let members = nodes(&["d-a", "d-b", "d-c"]);
    let host = ranked(&members).last().expect("three members").clone();
    let order = ordered(&members, &outsider(), Some(&host), |id| *id != host);
    assert!(
        !order.contains(&host),
        "coverage is a filter the host does not escape: {:?}",
        names(&order)
    );
    assert_eq!(order.len(), 2);
}

#[test]
fn a_host_outside_the_membership_is_not_a_candidate() {
    let members = nodes(&["d-a", "d-b"]);
    let stranger = NodeId::new("d-gone");
    let order = ordered(&members, &outsider(), Some(&stranger), |_| true);
    assert_eq!(order, ranked(&members), "{:?}", names(&order));
}

#[test]
fn nothing_covering_is_an_empty_list_and_not_a_guess() {
    let members = nodes(&["d-a", "d-b", "d-c"]);
    let host = members[0].clone();
    assert!(ordered(&members, &outsider(), Some(&host), |_| false).is_empty());
    assert!(ordered(&[], &outsider(), None, |_| true).is_empty());
}

#[test]
fn only_a_not_covered_refusal_becomes_the_not_covered_error() {
    let mut have = Watermarks::new();
    have.insert(NodeId::new("w"), WriteToken { epoch: 1, seq: 2 });
    // The one code that folds into the same variant local detection raises,
    // carrying the donor's map so the caller can choose a better donor.
    match refused(RefusalCode::NotCovered, have.clone()) {
        HandoffError::NotCovered { have: carried } => assert_eq!(carried, have),
        other => panic!("unexpected {other:?}"),
    }
    for code in [
        RefusalCode::Unavailable,
        RefusalCode::BadRequest,
        RefusalCode::Version,
    ] {
        match refused(code, Watermarks::new()) {
            HandoffError::Refused { code: got } => assert_eq!(got, code),
            other => panic!("unexpected {other:?}"),
        }
    }
}

#[test]
fn an_illegal_step_is_a_protocol_error_and_never_a_retry() {
    assert_eq!(
        stepped(HandoffPhase::Request, HandoffStep::Requested).expect("the first move"),
        HandoffPhase::OfferVerify
    );
    // The cell the whole staging order rests on: nothing is applied behind
    // an offer that has not passed both checks.
    assert!(matches!(
        stepped(HandoffPhase::OfferVerify, HandoffStep::Chunk),
        Err(HandoffError::Protocol(_))
    ));
    assert!(matches!(
        stepped(HandoffPhase::Complete, HandoffStep::Finished),
        Err(HandoffError::Protocol(_))
    ));
}
