use std::io;

use groupnet_consistency::hosted::handoff::{HandoffError, HandoffReceipt, RefusalCode};
use groupnet_consistency::hosted::Watermarks;
use groupnet_consistency::{NodeId, WriteToken};

fn marks(pairs: &[(&str, u64, u64)]) -> Watermarks {
    let mut marks = Watermarks::new();
    for (writer, epoch, seq) in pairs {
        marks.insert(
            NodeId::new(writer),
            WriteToken {
                epoch: *epoch,
                seq: *seq,
            },
        );
    }
    marks
}

#[test]
fn refusal_codes_round_trip_through_their_byte() {
    let codes = [
        RefusalCode::NotCovered,
        RefusalCode::Unavailable,
        RefusalCode::BadRequest,
        RefusalCode::Version,
    ];
    for code in codes {
        assert_eq!(RefusalCode::from_code(code.code()), Some(code));
    }
    // Distinct bytes, and `NotCovered` is 1 — the one code the wire format
    // gives a body to.
    assert_eq!(RefusalCode::NotCovered.code(), 1);
    for (i, a) in codes.iter().enumerate() {
        for (j, b) in codes.iter().enumerate() {
            assert_eq!(a.code() == b.code(), i == j);
        }
    }
    // Undefined bytes are refused, never folded into a neighbour.
    assert_eq!(RefusalCode::from_code(0), None);
    for byte in 5..=u8::MAX {
        assert_eq!(RefusalCode::from_code(byte), None, "byte {byte}");
    }
}

#[test]
fn an_io_error_is_a_handoff_error_with_a_source() {
    let err: HandoffError = io::Error::new(io::ErrorKind::BrokenPipe, "gone").into();
    assert!(matches!(err, HandoffError::Io(_)));
    assert!(err.source().is_some());
    assert!(err.message().contains("gone"));
    // Every other variant is self-contained: no hidden cause to chase.
    assert!(HandoffError::Truncated.source().is_none());
    assert!(HandoffError::Protocol("x").source().is_none());
}

#[test]
fn errors_name_the_thing_that_went_wrong() {
    let stale = HandoffError::StaleDonor {
        donor_epoch: 4,
        donor_host: Some(NodeId::new("old")),
        adopted_epoch: 6,
        adopted_host: Some(NodeId::new("new")),
    };
    assert!(stale.message().contains("epoch 4"), "{stale:?}");
    assert!(stale.message().contains("epoch 6"), "{stale:?}");
    let refused = HandoffError::Refused {
        code: RefusalCode::Unavailable,
    };
    assert!(refused.message().contains("cannot serve"), "{refused:?}");
}

#[test]
fn a_receipt_carries_the_stamp_and_the_coverage() {
    let receipt = HandoffReceipt {
        fence_epoch: 6,
        fence_host: None,
        covers: marks(&[("h", 5, 9)]),
    };
    // Hostless is a first-class stamp, not a missing one.
    assert_eq!(receipt.fence_host, None);
    assert_eq!(receipt.covers, marks(&[("h", 5, 9)]));
    assert_ne!(
        receipt,
        HandoffReceipt {
            fence_epoch: 6,
            fence_host: Some(NodeId::new("h")),
            covers: marks(&[("h", 5, 9)]),
        },
        "a named host and a hostless stamp are different receipts"
    );
}

#[test]
fn every_error_and_code_has_its_words() {
    let texts = [
        (
            HandoffError::StaleDonor {
                donor_epoch: 4,
                donor_host: None,
                adopted_epoch: 10,
                adopted_host: None,
            },
            "donor's fence (epoch 4) is behind the adopted one (epoch 10)",
        ),
        (
            HandoffError::NotCovered {
                have: marks(&[("h", 5, 9), ("x", 1, 1)]),
            },
            "donor covers only 2 writers",
        ),
        (
            HandoffError::Refused {
                code: RefusalCode::BadRequest,
            },
            "handoff refused: donor does not serve that group or write path",
        ),
        (
            HandoffError::Truncated,
            "snapshot ended before it was whole",
        ),
        (
            HandoffError::Protocol("x"),
            "handoff protocol error: x",
        ),
        (
            HandoffError::from(io::Error::new(io::ErrorKind::BrokenPipe, "gone")),
            "handoff i/o error: gone",
        ),
    ];
    for (error, text) in texts {
        assert_eq!(error.message(), text);
    }
    assert_eq!(
        RefusalCode::NotCovered.message(),
        "donor does not cover the request"
    );
    assert_eq!(
        RefusalCode::Unavailable.message(),
        "donor cannot serve a snapshot now"
    );
    assert_eq!(
        RefusalCode::Version.message(),
        "donor does not speak that protocol version"
    );
}
