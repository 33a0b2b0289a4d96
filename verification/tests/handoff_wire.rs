use bytes::Bytes;
use groupnet_consistency::hosted::handoff::wire::{
    decode, encode, is_request, Frame, KIND_CHUNK, KIND_DONE, KIND_OFFER, KIND_REFUSE,
    KIND_REQUEST, PREFIX, VERSION,
};
use groupnet_consistency::hosted::handoff::{HandoffError, RefusalCode};
use groupnet_consistency::hosted::Watermarks;
use groupnet_consistency::{GroupId, NodeId, WriteToken};

/// The four bytes every frame opens with.
const MAGIC: [u8; 4] = *b"GNHO";

fn marks(pairs: &[(&str, u64, u64)]) -> Watermarks {
    let mut marks = Watermarks::new();
    for (writer, epoch, seq) in pairs {
        marks.insert(
            NodeId::new(writer),
            WriteToken {
                epoch: *epoch,
                seq: *seq,
            },
        );
    }
    marks
}

/// Every kind, with the awkward shapes of each: an empty map, a wide map, a
/// unicode id, a hostless stamp, an empty chunk.
fn table() -> Vec<Frame> {
    vec![
        Frame::Request {
            group: GroupId::new("shard-42"),
            name: String::new(),
            need: Watermarks::new(),
        },
        Frame::Request {
            group: GroupId::new("ünïcøde-group"),
            name: "docs".to_owned(),
            need: marks(&[("h1", 5, 9), ("h2", 2, 4), ("ünïcøde-node", 9, 9)]),
        },
        Frame::Offer {
            fence_epoch: 6,
            host: Some(NodeId::new("host-b")),
            covers: marks(&[("h1", 5, 9)]),
        },
        Frame::Offer {
            fence_epoch: 0,
            host: None,
            covers: Watermarks::new(),
        },
        Frame::Refuse {
            code: RefusalCode::NotCovered,
            have: marks(&[("h1", 5, 2)]),
        },
        Frame::Refuse {
            code: RefusalCode::NotCovered,
            have: Watermarks::new(),
        },
        Frame::Refuse {
            code: RefusalCode::Unavailable,
            have: Watermarks::new(),
        },
        Frame::Refuse {
            code: RefusalCode::BadRequest,
            have: Watermarks::new(),
        },
        Frame::Refuse {
            code: RefusalCode::Version,
            have: Watermarks::new(),
        },
        Frame::Chunk(Bytes::from_static(b"")),
        Frame::Chunk(Bytes::from_static(b"an opaque piece of somebody's state")),
        Frame::Done {
            chunks: 12,
            bytes: 4096,
            final_epoch: 6,
            final_host: Some(NodeId::new("host-b")),
        },
        Frame::Done {
            chunks: 0,
            bytes: 0,
            final_epoch: u64::MAX,
            final_host: None,
        },
    ]
}

#[test]
fn every_kind_round_trips() {
    for frame in table() {
        let bytes = encode(&frame);
        assert_eq!(
            decode(&bytes).expect("well-formed").as_ref(),
            Some(&frame),
            "{frame:?}"
        );
        assert!(bytes.len() >= PREFIX);
        assert_eq!(bytes[..MAGIC.len()], MAGIC);
        assert_eq!(bytes[MAGIC.len()], VERSION);
    }
}

#[test]
fn every_prefix_of_every_frame_decodes_to_nothing() {
    for frame in table() {
        let bytes = encode(&frame);
        for cut in 0..bytes.len() {
            let prefix = bytes.slice(..cut);
            // A chunk is the one kind whose body has no length of its own,
            // so a truncated chunk decodes to a shorter chunk — the framing
            // layer below owns that length, and this codec would be lying
            // to claim otherwise.
            if matches!(frame, Frame::Chunk(_)) && cut >= PREFIX {
                assert!(matches!(decode(&prefix), Ok(Some(Frame::Chunk(_)))));
                continue;
            }
            assert_eq!(
                decode(&prefix).expect("a prefix is never a protocol error"),
                None,
                "prefix at {cut} of {frame:?}"
            );
        }
    }
}

#[test]
fn a_tail_behind_a_whole_frame_is_not_a_frame() {
    for frame in table() {
        if matches!(frame, Frame::Chunk(_)) {
            continue; // A chunk's body *is* the tail.
        }
        let mut bytes = encode(&frame).to_vec();
        bytes.extend_from_slice(&[0x09, 0x00, 0x00, 0x00, 0x01]);
        assert_eq!(
            decode(&Bytes::from(bytes)).expect("still this protocol"),
            None,
            "{frame:?}"
        );
    }
}

#[test]
fn a_foreign_magic_or_version_or_kind_is_a_protocol_error() {
    let whole = encode(&Frame::Offer {
        fence_epoch: 6,
        host: None,
        covers: Watermarks::new(),
    });
    let mangled = |at: usize, byte: u8| {
        let mut bytes = whole.to_vec();
        bytes[at] = byte;
        decode(&Bytes::from(bytes))
    };
    for at in 0..MAGIC.len() {
        assert!(
            matches!(mangled(at, b'X'), Err(HandoffError::Protocol(_))),
            "magic byte {at}"
        );
    }
    assert!(matches!(
        mangled(MAGIC.len(), VERSION + 1),
        Err(HandoffError::Protocol(_))
    ));
    assert!(matches!(
        mangled(MAGIC.len(), 0),
        Err(HandoffError::Protocol(_))
    ));
    for kind in [0u8, 6, 7, 200, u8::MAX] {
        assert!(
            matches!(
                mangled(MAGIC.len() + 1, kind),
                Err(HandoffError::Protocol(_))
            ),
            "kind {kind}"
        );
    }
    // …and every kind this version defines is one the codec knows, whatever
    // it then makes of a body that was written for another kind.
    for kind in [KIND_REQUEST, KIND_OFFER, KIND_REFUSE, KIND_CHUNK, KIND_DONE] {
        assert!(
            !matches!(
                mangled(MAGIC.len() + 1, kind),
                Err(HandoffError::Protocol(what)) if what.contains("frame kind")
            ),
            "kind {kind} is defined by this version"
        );
    }
}

#[test]
fn an_undefined_refusal_code_is_a_protocol_error() {
    let mut bytes = encode(&Frame::Refuse {
        code: RefusalCode::Unavailable,
        have: Watermarks::new(),
    })
    .to_vec();
    let code_at = PREFIX;
    for byte in [0u8, 5, 99, u8::MAX] {
        bytes[code_at] = byte;
        assert!(
            matches!(
                decode(&Bytes::from(bytes.clone())),
                Err(HandoffError::Protocol(_))
            ),
            "code {byte}"
        );
    }
}

#[test]
fn only_a_not_covered_refusal_carries_a_map() {
    // The `have` field is dropped for every other code rather than
    // travelling as something nobody may read — so this is deliberately not
    // a round trip, and the assertion says so.
    let sent = Frame::Refuse {
        code: RefusalCode::Unavailable,
        have: marks(&[("h1", 5, 9)]),
    };
    assert_eq!(
        decode(&encode(&sent)).expect("well-formed"),
        Some(Frame::Refuse {
            code: RefusalCode::Unavailable,
            have: Watermarks::new(),
        })
    );
    // A bare code and nothing else: three bytes past the prefix would be a
    // map header this frame must not have.
    assert_eq!(encode(&sent).len(), PREFIX + 1);
    // …while `NotCovered` carries its count even when empty.
    let empty = Frame::Refuse {
        code: RefusalCode::NotCovered,
        have: Watermarks::new(),
    };
    assert_eq!(encode(&empty).len(), PREFIX + 1 + 4);
}

#[test]
fn a_record_count_that_disagrees_decodes_to_nothing() {
    // The shared ledger check, exercised through a frame: the count is the
    // thing that stops a truncated map from becoming a smaller honest one.
    let whole = encode(&Frame::Offer {
        fence_epoch: 6,
        host: Some(NodeId::new("host-b")),
        covers: marks(&[("h1", 5, 9), ("h2", 2, 4)]),
    });
    let map_at = PREFIX + 8 + 4 + "host-b".len();
    assert_eq!(&whole[map_at..map_at + 4], &2u32.to_le_bytes());
    // Over-counted: three claimed, two present — the third runs off the end.
    let mut over = whole.to_vec();
    over[map_at..map_at + 4].copy_from_slice(&3u32.to_le_bytes());
    assert_eq!(decode(&Bytes::from(over)).expect("this protocol"), None);
    // Under-counted: one claimed, two present — a tail is left.
    let mut under = whole.to_vec();
    under[map_at..map_at + 4].copy_from_slice(&1u32.to_le_bytes());
    assert_eq!(decode(&Bytes::from(under)).expect("this protocol"), None);
    // Collapsed: two records, one writer. The bytes frame perfectly and end
    // exactly; only the distinct-writer check catches it.
    let duplicated = encode(&Frame::Offer {
        fence_epoch: 6,
        host: Some(NodeId::new("host-b")),
        covers: marks(&[("h1", 5, 9)]),
    });
    let mut collapsed = duplicated.to_vec();
    collapsed[map_at..map_at + 4].copy_from_slice(&2u32.to_le_bytes());
    let record = &duplicated[map_at + 4..];
    collapsed.extend_from_slice(record);
    assert_eq!(
        decode(&Bytes::from(collapsed)).expect("this protocol"),
        None,
        "a duplicated writer id is a map shorter than its own header"
    );
}

#[test]
fn a_hostless_fence_survives_the_wire_as_hostless() {
    // The whole point of the zero-length host: a donor that has adopted an
    // epoch but not yet learned who won it must be able to say so, because
    // `HandoffCore::staleness` treats that stamp differently from a named
    // one — and identically to a named one it happens to agree with.
    for frame in [
        Frame::Offer {
            fence_epoch: 6,
            host: None,
            covers: marks(&[("h1", 5, 9)]),
        },
        Frame::Done {
            chunks: 1,
            bytes: 2,
            final_epoch: 6,
            final_host: None,
        },
    ] {
        let decoded = decode(&encode(&frame))
            .expect("well-formed")
            .expect("whole");
        assert_eq!(decoded, frame);
        match decoded {
            Frame::Offer { host, .. } => assert_eq!(host, None),
            Frame::Done { final_host, .. } => assert_eq!(final_host, None),
            other => panic!("unexpected {other:?}"),
        }
    }
}

#[test]
fn a_chunk_is_a_zero_copy_slice_of_its_frame() {
    let payload = Bytes::from(vec![7u8; 4096]);
    let framed = encode(&Frame::Chunk(payload.clone()));
    let Some(Frame::Chunk(out)) = decode(&framed).expect("well-formed") else {
        panic!("a chunk");
    };
    assert_eq!(out, payload);
    // Same allocation as the frame it came out of, not a copy of it.
    assert_eq!(out.as_ptr(), framed[PREFIX..].as_ptr());
}

#[test]
fn only_a_request_demuxes_as_one() {
    for frame in table() {
        let bytes = encode(&frame);
        assert_eq!(
            is_request(&bytes),
            matches!(frame, Frame::Request { .. }),
            "{frame:?}"
        );
    }
    // Cheap and prefix-only: it says nothing about the body, which is
    // exactly why a `true` still has to go through `decode`.
    let mut stub = MAGIC.to_vec();
    stub.extend_from_slice(&[VERSION, KIND_REQUEST]);
    assert!(is_request(&stub));
    assert_eq!(
        decode(&Bytes::from(stub.clone())).expect("this protocol"),
        None
    );
    // Everything that is not this protocol is not a request.
    assert!(!is_request(b""));
    assert!(!is_request(b"GNH"));
    assert!(!is_request(&stub[..PREFIX - 1]));
    assert!(!is_request(b"GNHX\x01\x01"));
    assert!(!is_request(b"GNHO\x02\x01"));
}
