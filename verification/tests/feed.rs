use groupnet_consistency::feed::Ring;
use groupnet_consistency::wire::Frame;
use groupnet_consistency::{WriteFeed, WriteToken};

#[test]
fn ring_overflow_advances_first_seq() {
    let mut ring = Ring::new(1, 2, usize::MAX);
    for key in [b"a".to_vec(), b"b".to_vec(), b"c".to_vec()] {
        ring.push(key);
    }
    let frame = ring.frame();
    assert_eq!(frame.first_seq, 2);
    assert_eq!(frame.keys, vec![b"b".to_vec(), b"c".to_vec()]);
}

#[test]
fn ring_byte_budget_keeps_the_newest_write_and_advances_first_seq() {
    let max_frame_bytes = 40;
    let mut ring = Ring::new(1, 32, max_frame_bytes);
    for key in [
        b"aaaaaaaa".to_vec(),
        b"bbbbbbbb".to_vec(),
        b"cccccccc".to_vec(),
    ] {
        ring.push(key);
    }
    let frame = ring.frame();
    assert_eq!(frame.first_seq, 3);
    assert_eq!(frame.keys, vec![b"cccccccc".to_vec()]);
    assert!(frame.encode().len() <= max_frame_bytes);
}

#[test]
fn retirement_keeps_the_head_anchor_and_exact_byte_accounting() {
    let mut ring = Ring::new(7, 8, usize::MAX);
    for key in [b"a".to_vec(), b"bb".to_vec(), b"ccc".to_vec()] {
        ring.push(key);
    }

    assert!(ring.retire_through(WriteToken {
        epoch: 7,
        seq: u64::MAX,
    }));
    let frame = ring.frame();
    assert_eq!(frame.first_seq, 3);
    assert_eq!(frame.keys, vec![b"ccc".to_vec()]);
    // The header takes twenty bytes; the rest is the one key left.
    assert_eq!(ring.encoded_len() - 20, 4 + b"ccc".len());
    assert_eq!(ring.encoded_len(), frame.encode().len());
}

#[test]
fn retirement_ignores_wrong_and_out_of_order_tokens() {
    let mut empty = Ring::new(11, 8, usize::MAX);
    assert!(!empty.retire_through(WriteToken { epoch: 11, seq: 1 }));

    let mut ring = Ring::new(11, 8, usize::MAX);
    for key in [
        b"w1".to_vec(),
        b"w2".to_vec(),
        b"w3".to_vec(),
        b"w4".to_vec(),
    ] {
        ring.push(key);
    }

    assert!(!ring.retire_through(WriteToken { epoch: 10, seq: 4 }));
    assert_eq!(ring.frame().first_seq, 1);

    assert!(ring.retire_through(WriteToken { epoch: 11, seq: 2 }));
    assert_eq!(ring.frame().first_seq, 3);
    assert!(!ring.retire_through(WriteToken { epoch: 11, seq: 1 }));
    assert!(!ring.retire_through(WriteToken { epoch: 11, seq: 2 }));

    assert!(ring.retire_through(WriteToken { epoch: 11, seq: 3 }));
    assert_eq!(ring.frame().first_seq, 4);
    assert!(!ring.retire_through(WriteToken { epoch: 11, seq: 2 }));
    assert!(!ring.retire_through(WriteToken { epoch: 11, seq: 4 }));
    assert_eq!(ring.frame().keys, vec![b"w4".to_vec()]);
}

#[test]
fn a_feed_publishes_its_whole_window_under_its_own_key() {
    let mut feed = WriteFeed::named("docs", 2, usize::MAX, 5);
    assert_eq!(feed.last_token(), None);
    let (first, write) = feed.publish(b"k1".to_vec());
    assert_eq!(first, WriteToken { epoch: 5, seq: 1 });
    assert_eq!(write.key, "~writes:docs");
    assert_eq!(write.ttl_ms, None);
    let (second, _) = feed.publish(b"k2".to_vec());
    let (third, write) = feed.publish(b"k3".to_vec());
    assert_eq!(second, WriteToken { epoch: 5, seq: 2 });
    assert_eq!(third, WriteToken { epoch: 5, seq: 3 });
    assert_eq!(feed.last_token(), Some(third));
    let frame = Frame::decode(&write.value).expect("a frame");
    assert_eq!((frame.epoch, frame.first_seq), (5, 2));
    assert_eq!(frame.keys, vec![b"k2".to_vec(), b"k3".to_vec()]);
    assert_eq!(feed.republish().value, write.value);
}

#[test]
fn retiring_republishes_only_when_something_left() {
    let mut feed = WriteFeed::new(8, usize::MAX, 3);
    feed.publish(b"a".to_vec());
    feed.publish(b"b".to_vec());
    assert!(feed.retire_through(WriteToken { epoch: 2, seq: 1 }).is_none());
    let write = feed
        .retire_through(WriteToken { epoch: 3, seq: 1 })
        .expect("one write left the window");
    let frame = Frame::decode(&write.value).expect("a frame");
    assert_eq!(frame.first_seq, 2);
    assert_eq!(frame.keys, vec![b"b".to_vec()]);
    assert!(feed.retire_through(WriteToken { epoch: 3, seq: 2 }).is_none());
}

#[test]
fn a_feed_given_an_epoch_starts_that_life() {
    let feed = WriteFeed::new(8, usize::MAX, 1).with_epoch(77);
    assert_eq!(feed.epoch(), 77);
    let mut feed = feed;
    assert_eq!(feed.publish(Vec::new()).0, WriteToken { epoch: 77, seq: 1 });
}

#[test]
fn tokens_count_the_publishes_whatever_was_dropped_or_retired() {
    let mut feed = WriteFeed::new(2, usize::MAX, 1).with_epoch(9);
    assert_eq!(feed.last_token(), None);
    for n in 1..=6u64 {
        let (token, _) = feed.publish(vec![0; 3]);
        assert_eq!(token, WriteToken { epoch: 9, seq: n });
        assert_eq!(feed.last_token(), Some(token));
        let _ = feed.retire_through(token);
        let _ = feed.republish();
        assert_eq!(feed.last_token(), Some(token));
    }
}
