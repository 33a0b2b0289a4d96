use groupnet_consistency::wire::{entry_key, Frame};

#[test]
fn frame_round_trips() {
    let frame = Frame {
        epoch: 7,
        first_seq: 41,
        keys: vec![b"alpha".to_vec(), Vec::new(), b"c".to_vec()],
    };
    let decoded = Frame::decode(&frame.encode()).expect("decode");
    assert_eq!(decoded.epoch, 7);
    assert_eq!(decoded.first_seq, 41);
    assert_eq!(decoded.keys, frame.keys);
    assert_eq!(decoded.end(), 44);
}

#[test]
fn truncated_frames_are_rejected() {
    let bytes = Frame {
        epoch: 3,
        first_seq: 1,
        keys: vec![b"key".to_vec()],
    }
    .encode();
    for cut in 0..bytes.len() {
        assert!(Frame::decode(&bytes[..cut]).is_none(), "cut at {cut}");
    }
}

#[test]
fn feed_names_map_to_distinct_entries() {
    assert_eq!(entry_key(""), "~writes");
    assert_eq!(entry_key("docs"), "~writes:docs");
    assert_ne!(entry_key("docs"), entry_key("index"));
}

#[test]
fn a_frame_is_laid_out_little_endian() {
    let frame = Frame {
        epoch: 0x0102,
        first_seq: 3,
        keys: vec![b"k".to_vec()],
    };
    assert_eq!(
        frame.encode(),
        vec![
            2, 1, 0, 0, 0, 0, 0, 0, // epoch
            3, 0, 0, 0, 0, 0, 0, 0, // first sequence number
            1, 0, 0, 0, // how many keys
            1, 0, 0, 0, b'k',
        ]
    );
}

#[test]
fn a_frame_whose_count_promises_too_much_is_rejected() {
    let mut bytes = Frame {
        epoch: 1,
        first_seq: 1,
        keys: vec![b"a".to_vec(), b"b".to_vec()],
    }
    .encode();
    bytes[16] = 3;
    assert!(Frame::decode(&bytes).is_none());
    bytes[19] = 255;
    assert!(Frame::decode(&bytes).is_none(), "a count past the payload");
}

#[test]
fn an_empty_frame_round_trips() {
    let frame = Frame { epoch: 9, first_seq: 5, keys: Vec::new() };
    let decoded = Frame::decode(&frame.encode()).expect("decode");
    assert_eq!(decoded.end(), 5);
    assert!(decoded.keys.is_empty());
}
