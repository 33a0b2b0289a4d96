use std::collections::VecDeque;

use bytes::Bytes;
use groupnet_consistency::group::{Entries, GroupView, Leadership, Status};
use groupnet_consistency::hosted::handoff::stream::{
    FetchAction, FetchEvent, Offering, Opening,
};
use groupnet_consistency::hosted::handoff::wire::{encode, Frame};
use groupnet_consistency::hosted::handoff::{
    Handoff, HandoffError, HandoffReceipt, Offered, RefusalCode,
};
use groupnet_consistency::hosted::writes::{Activation, GroupMode};
use groupnet_consistency::hosted::{CommitLedger, Completeness, HostedWrites, Watermarks};
use groupnet_consistency::{Frontier, GroupId, NodeId, WriteToken};

fn node(name: &str) -> NodeId {
    NodeId::new(name)
}

fn marks(pairs: &[(&str, u64, u64)]) -> Watermarks {
    let mut marks = Watermarks::new();
    for (writer, epoch, seq) in pairs {
        marks.insert(
            node(writer),
            WriteToken {
                epoch: *epoch,
                seq: *seq,
            },
        );
    }
    marks
}

fn lead(epoch: u64, host: Option<&str>) -> Leadership {
    Leadership {
        epoch,
        host: host.map(node),
    }
}

fn handoff(name: &str) -> Handoff {
    Handoff::named(name, GroupId::new("g"), node("me"))
}

/// What a donor puts on the stream for one request, and how it ends.
fn serve(
    donor: &Handoff,
    request: Bytes,
    image: Option<(Watermarks, Vec<Bytes>)>,
    at_offer: &Leadership,
    at_end: &Leadership,
) -> (VecDeque<Bytes>, Result<Offered, HandoffError>) {
    let mut sent = VecDeque::new();
    let need = match donor.offer(&Some(request)) {
        Ok(Opening::Serve { need }) => need,
        Ok(Opening::Refuse { frame, error }) => {
            sent.push_back(frame);
            return (sent, Err(error));
        }
        Err(error) => return (sent, Err(error)),
    };
    let (covers, chunks) = match image {
        Some((covers, chunks)) => (Some(covers), chunks),
        None => (None, Vec::new()),
    };
    match Handoff::opened(&need, covers, at_offer) {
        Offering::Refuse { frame, error } => {
            sent.push_back(frame);
            (sent, Err(error))
        }
        Offering::Send {
            frame,
            mut donation,
        } => {
            sent.push_back(frame);
            for chunk in chunks {
                sent.push_back(donation.chunk(chunk));
            }
            let (frame, offered) = donation.done(at_end);
            sent.push_back(frame);
            (sent, Ok(offered))
        }
    }
}

/// Runs the requester over what arrives: the bytes it installed, or why not.
fn fetch(
    need: &Watermarks,
    mut arriving: VecDeque<Bytes>,
    adopted: &[Leadership],
) -> Result<(HandoffReceipt, Vec<u8>), HandoffError> {
    let (mut fetch, _request) = handoff("docs").fetch(need);
    let mut staged = Vec::new();
    let mut event = FetchEvent::Sent;
    let mut reads = 0;
    loop {
        let now = adopted[reads.min(adopted.len() - 1)].clone();
        let (next, action) = fetch.step(event, &now)?;
        fetch = next;
        event = match action {
            FetchAction::Read => {
                let payload = arriving.pop_front();
                reads = if arriving.is_empty() { 1 } else { 0 };
                FetchEvent::Received(payload)
            }
            FetchAction::Apply(data) => {
                staged.extend_from_slice(&data);
                FetchEvent::Applied
            }
            FetchAction::Finish => FetchEvent::Finished,
            FetchAction::Complete(receipt) => return Ok((receipt, staged)),
        };
    }
}

fn chunks() -> Vec<Bytes> {
    vec![Bytes::from_static(b"abc"), Bytes::new(), Bytes::from_static(b"de")]
}

#[test]
fn a_covering_snapshot_is_installed_whole() {
    let need = marks(&[("h", 5, 9)]);
    let (_, request) = handoff("docs").fetch(&need);
    let covers = marks(&[("h", 5, 9), ("x", 1, 1)]);
    let (sent, served) = serve(
        &handoff("docs"),
        request,
        Some((covers, chunks())),
        &lead(6, Some("a")),
        &lead(6, Some("a")),
    );
    assert_eq!(
        served.expect("served"),
        Offered {
            covers: marks(&[("h", 5, 9), ("x", 1, 1)]),
            chunks: 3,
            bytes: 5,
        }
    );
    let (receipt, staged) = fetch(&need, sent, &[lead(6, None)]).expect("installed");
    assert_eq!(staged, b"abcde");
    assert_eq!(receipt.fence_epoch, 6);
    assert_eq!(receipt.fence_host, Some(node("a")));
    assert_eq!(receipt.covers.len(), 2);
}

#[test]
fn a_refused_handoff_reads_alike_at_both_ends() {
    let need = marks(&[("h", 5, 9)]);
    let (_, request) = handoff("docs").fetch(&need);
    let here = lead(6, None);
    // Another write path.
    let (sent, refused) = serve(&handoff(""), request.clone(), None, &here, &here);
    for error in [refused.err(), fetch(&need, sent, &[lead(6, None)]).err()] {
        assert!(matches!(
            error,
            Some(HandoffError::Refused {
                code: RefusalCode::BadRequest
            })
        ));
    }
    // A source that cannot open.
    let (sent, refused) = serve(&handoff("docs"), request.clone(), None, &here, &here);
    for error in [refused.err(), fetch(&need, sent, &[lead(6, None)]).err()] {
        assert!(matches!(
            error,
            Some(HandoffError::Refused {
                code: RefusalCode::Unavailable
            })
        ));
    }
    // A snapshot that is behind.
    let short = Some((marks(&[("h", 5, 8)]), chunks()));
    let (sent, refused) = serve(&handoff("docs"), request, short, &here, &here);
    assert_eq!(sent.len(), 1, "nothing of the image was sent");
    for error in [refused.err(), fetch(&need, sent, &[lead(6, None)]).err()] {
        match error {
            Some(HandoffError::NotCovered { have }) => {
                assert_eq!(have, marks(&[("h", 5, 8)]));
            }
            other => panic!("unexpected {other:?}"),
        }
    }
}

#[test]
fn a_stale_donor_is_refused_at_either_end() {
    let need = marks(&[]);
    let (_, request) = handoff("docs").fetch(&need);
    let image = || Some((marks(&[]), chunks()));
    let serving = |at_offer: Leadership, at_end: Leadership| {
        serve(&handoff("docs"), request.clone(), image(), &at_offer, &at_end).0
    };
    let stale = |arriving, adopted: &[Leadership]| match fetch(&need, arriving, adopted) {
        Err(HandoffError::StaleDonor {
            donor_epoch,
            adopted_epoch,
            ..
        }) => (donor_epoch, adopted_epoch),
        other => panic!("unexpected {other:?}"),
    };
    // Behind when it offers.
    assert_eq!(
        stale(serving(lead(4, None), lead(4, None)), &[lead(6, None)]),
        (4, 6)
    );
    // Deposed while streaming, as the requester learned.
    assert_eq!(
        stale(
            serving(lead(6, Some("a")), lead(6, Some("a"))),
            &[lead(6, Some("a")), lead(7, Some("b"))]
        ),
        (6, 7)
    );
    // Two hosts at one epoch contradict each other.
    assert_eq!(
        stale(
            serving(lead(6, Some("b")), lead(6, Some("b"))),
            &[lead(6, Some("a"))]
        ),
        (6, 6)
    );
}

#[test]
fn a_stream_that_ends_early_or_does_not_tally_installs_nothing() {
    let need = marks(&[]);
    let (_, request) = handoff("docs").fetch(&need);
    let (sent, _) = serve(
        &handoff("docs"),
        request,
        Some((marks(&[]), chunks())),
        &lead(6, None),
        &lead(6, None),
    );
    for dropped in 0..sent.len() {
        let cut: VecDeque<Bytes> = sent.iter().take(dropped).cloned().collect();
        assert!(
            matches!(
                fetch(&need, cut, &[lead(6, None)]),
                Err(HandoffError::Truncated)
            ),
            "after {dropped} frames"
        );
    }
    // A chunk short, and a chunk twice.
    let mut short = sent.clone();
    short.remove(1);
    let mut twice = sent.clone();
    twice.insert(1, sent[1].clone());
    for arriving in [short, twice] {
        assert!(matches!(
            fetch(&need, arriving, &[lead(6, None)]),
            Err(HandoffError::Truncated)
        ));
    }
    // A second offer mid-stream, a chunk before the offer, another protocol.
    let mut again = sent.clone();
    again.insert(2, sent[0].clone());
    let mut early = sent.clone();
    early.pop_front();
    let mut foreign = sent.clone();
    foreign[1] = Bytes::from_static(b"HTTP/1.1 200 OK");
    for arriving in [again, early, foreign] {
        assert!(matches!(
            fetch(&need, arriving, &[lead(6, None)]),
            Err(HandoffError::Protocol(_))
        ));
    }
}

#[test]
fn a_donor_serves_nothing_but_a_request() {
    let donor = handoff("docs");
    assert!(matches!(donor.offer(&None), Err(HandoffError::Truncated)));
    let done = encode(&Frame::Done {
        chunks: 0,
        bytes: 0,
        final_epoch: 1,
        final_host: None,
    });
    assert!(matches!(
        donor.offer(&Some(done)),
        Err(HandoffError::Protocol("a handoff opens with a request"))
    ));
    assert!(matches!(
        donor.offer(&Some(Bytes::from_static(b"GNHO"))),
        Err(HandoffError::Truncated)
    ));
}

#[test]
fn steps_out_of_order_are_protocol_errors() {
    let here = lead(1, None);
    for event in [
        FetchEvent::Received(None),
        FetchEvent::Applied,
        FetchEvent::Finished,
    ] {
        let (fetch, _) = handoff("").fetch(&marks(&[]));
        assert!(matches!(
            fetch.step(event, &here),
            Err(HandoffError::Protocol("handoff frame out of order"))
        ));
    }
}

#[test]
fn donors_are_the_covering_members_with_the_host_first() {
    let mut shown = GroupView::new(GroupId::new("g"));
    for (name, seq) in [("a", 9), ("b", 4), ("c", 9), ("me", 9)] {
        let mut ledger = CommitLedger::named("docs");
        let write = ledger
            .record(&node("h"), WriteToken { epoch: 5, seq }, 6)
            .expect("an advance");
        let mut entries = Entries::new();
        entries.put(write.key, write.value);
        shown.entries.insert(node(name), entries);
        shown.statuses.insert(node(name), Status::Alive);
        shown.members.push(node(name));
    }
    shown.statuses.insert(node("silent"), Status::Alive);
    shown.members.push(node("silent"));
    shown.leadership = lead(6, Some("c"));
    let ranked = [node("a"), node("silent"), node("b"), node("me"), node("c")];
    let need = marks(&[("h", 5, 9)]);
    assert_eq!(
        handoff("docs").donors(&shown, &ranked, &need),
        vec![node("c"), node("a")]
    );
    assert!(
        Handoff::new(GroupId::new("g"), node("me"))
            .donors(&shown, &ranked, &need)
            .is_empty(),
        "another write path publishes nothing"
    );
}

#[test]
fn seeding_raises_the_ledger_and_the_frontier_and_lowers_nothing() {
    let receipt = HandoffReceipt {
        fence_epoch: 6,
        fence_host: None,
        covers: marks(&[("h", 5, 9), ("x", 1, 1)]),
    };
    let mut ledger = CommitLedger::new();
    ledger.record(&node("x"), WriteToken { epoch: 2, seq: 2 }, 3);
    let mut frontier = Frontier::new();
    let write = Handoff::seed(&receipt, &mut ledger, &mut frontier, 7);
    assert_eq!(write.key, "~hosted:applied");
    assert_eq!(ledger.stamp(), 7);
    assert_eq!(ledger.watermarks(), marks(&[("h", 5, 9), ("x", 2, 2)]));
    assert!(frontier
        .snapshot()
        .reached(&node("h"), WriteToken { epoch: 5, seq: 9 }));
    let again = Handoff::seed(&receipt, &mut ledger, &mut frontier, 7);
    assert_eq!(again.value, write.value, "a retried handoff changes nothing");
}

#[test]
fn a_recovering_host_seeds_its_own_ledger_and_may_serve() {
    let mode = GroupMode::Hosted(Activation::Quorum {
        voters: vec![node("a"), node("b")],
    });
    let mut path = HostedWrites::committed(&mode, node("a"), 8, usize::MAX, CommitLedger::new())
        .expect("a quorum group");
    let mut shown = GroupView::new(GroupId::new("g"));
    shown.leadership = Leadership {
        epoch: 6,
        host: Some(node("a")),
    };
    let mut peer = CommitLedger::with_recovered(marks(&[("h", 5, 9)]));
    let mut entries = Entries::new();
    let theirs = peer.refresh(6);
    entries.put(theirs.key, theirs.value);
    shown.entries.insert(node("b"), entries);
    let mut entries = Entries::new();
    let mine = path.refresh(6).expect("a ledger");
    entries.put(mine.key, mine.value);
    shown.entries.insert(node("a"), entries);
    assert_eq!(
        path.recovery(&shown),
        Some(Completeness::Recovering {
            needed: vec![(node("h"), WriteToken { epoch: 5, seq: 9 })]
        })
    );

    let receipt = HandoffReceipt {
        fence_epoch: 6,
        fence_host: None,
        covers: marks(&[("h", 5, 9)]),
    };
    let mut frontier = Frontier::new();
    let write = path.seed(&receipt, &mut frontier, 6).expect("a ledger");
    assert_eq!(write.key, "~hosted:applied");
    assert_eq!(
        path.ledger().expect("a ledger").watermarks(),
        marks(&[("h", 5, 9)])
    );
    assert!(frontier
        .snapshot()
        .reached(&node("h"), WriteToken { epoch: 5, seq: 9 }));
    assert_eq!(path.recovery(&shown), Some(Completeness::Complete));

    let mut local = HostedWrites::new(node("a"), 8, usize::MAX);
    let mut frontier = Frontier::new();
    assert!(local.seed(&receipt, &mut frontier, 6).is_none(), "no ledger");
    assert!(frontier
        .snapshot()
        .reached(&node("h"), WriteToken { epoch: 5, seq: 9 }));
}
