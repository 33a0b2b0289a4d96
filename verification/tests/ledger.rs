use groupnet_consistency::hosted::ledger::{
    decode_ledger, encode_ledger, fold, ledger_entry_key,
};
use groupnet_consistency::hosted::Watermarks;
use groupnet_consistency::{NodeId, WriteToken};

fn node(name: &str) -> NodeId {
    NodeId::new(name)
}

fn marks(pairs: &[(&str, u64, u64)]) -> Watermarks {
    let mut marks = Watermarks::new();
    for (writer, epoch, seq) in pairs {
        marks.insert(
            node(writer),
            WriteToken {
                epoch: *epoch,
                seq: *seq,
            },
        );
    }
    marks
}

/// What a ledger holds: its stamp and its watermarks.
struct State {
    stamp: u64,
    applied: Watermarks,
}

fn state(stamp: u64, applied: &[(&str, u64, u64)]) -> State {
    State {
        stamp,
        applied: marks(applied),
    }
}

#[test]
fn write_paths_map_to_distinct_entries() {
    assert_eq!(ledger_entry_key(""), "~hosted:applied");
    assert_eq!(ledger_entry_key("docs"), "~hosted:applied:docs");
    assert_ne!(ledger_entry_key("a"), ledger_entry_key("b"));
    // Distinct from the ack tier's ledger: the two coexist on one node and
    // mean different things.
    assert_ne!(ledger_entry_key(""), "~applied");
}

#[test]
fn readings_round_trip_stamp_and_watermarks() {
    let applied = marks(&[("host-a", 3, 41), ("b", 1, 7), ("ünïcøde-node", 9, 9)]);
    let bytes = encode_ledger(12, &applied);
    let reading = decode_ledger(&bytes).expect("well-formed");
    assert_eq!(reading.lead_epoch, 12);
    assert_eq!(reading.applied, applied);
    // Ordered by writer id, so an unchanged map re-encodes byte-identically.
    let same = marks(&[("ünïcøde-node", 9, 9), ("b", 1, 7), ("host-a", 3, 41)]);
    assert_eq!(encode_ledger(12, &same), bytes);
}

/// A hand-built header: a stamp and a record count that need not match what
/// follows — the shapes a hostile publisher can author and `encode_ledger`
/// cannot.
fn header(lead_epoch: u64, records: u32) -> Vec<u8> {
    let mut out = lead_epoch.to_le_bytes().to_vec();
    out.extend_from_slice(&records.to_le_bytes());
    out
}

/// One `(writer, token)` record, as the layout spells it.
fn record(writer: &str, epoch: u64, seq: u64) -> Vec<u8> {
    let mut out = u32::try_from(writer.len())
        .expect("short name")
        .to_le_bytes()[..]
        .to_vec();
    out.extend_from_slice(writer.as_bytes());
    out.extend_from_slice(&epoch.to_le_bytes());
    out.extend_from_slice(&seq.to_le_bytes());
    out
}

#[test]
fn a_bare_stamp_is_a_legitimate_reading() {
    // A freshly booted voter that has adopted an epoch and applied nothing.
    // It must be able to join a recovery majority, so this is `Some`, not a
    // decode failure.
    let bytes = encode_ledger(7, &Watermarks::new());
    assert_eq!(bytes.len(), 12, "a stamp and a zero count");
    assert_eq!(bytes, header(7, 0));
    let reading = decode_ledger(&bytes).expect("a stamp alone decodes");
    assert_eq!(reading.lead_epoch, 7);
    assert!(reading.applied.is_empty());
}

#[test]
fn nothing_shorter_than_a_stamped_header_decodes() {
    for cut in 0..12 {
        assert_eq!(decode_ledger(&[0u8; 12][..cut]), None, "short at {cut}");
    }
}

#[test]
fn unparseable_ledger_bytes_decode_to_nothing() {
    // A length that runs off the end.
    let mut runaway = header(1, 1);
    runaway.extend_from_slice(&[0xff, 0xff, 0xff, 0xff, 0x01]);
    assert_eq!(decode_ledger(&runaway), None);
    // A well-framed writer id that is not utf-8.
    let mut bad_utf8 = header(1, 1);
    bad_utf8.extend_from_slice(&[0x01, 0x00, 0x00, 0x00, 0xff]);
    assert_eq!(decode_ledger(&bad_utf8), None);
    // A name with no token behind it.
    let mut headless = header(1, 1);
    headless.extend_from_slice(&[0x01, 0x00, 0x00, 0x00, b'a']);
    assert_eq!(decode_ledger(&headless), None);
    // A valid record followed by trailing garbage: all-or-nothing.
    let mut mixed = encode_ledger(1, &marks(&[("host-a", 1, 1)]));
    mixed.extend_from_slice(&[0x09, 0x00, 0x00, 0x00, 0x01]);
    assert_eq!(decode_ledger(&mixed), None);
}

#[test]
fn a_count_that_disagrees_with_the_records_decodes_to_nothing() {
    // Under-counted: two records claimed, three present — a tail is left.
    let mut under = header(4, 2);
    for (writer, epoch, seq) in [("a", 1, 1), ("b", 1, 2), ("c", 1, 3)] {
        under.extend_from_slice(&record(writer, epoch, seq));
    }
    assert_eq!(decode_ledger(&under), None);
    // Over-counted: three claimed, two present — the third runs off the end.
    let mut over = header(4, 3);
    for (writer, epoch, seq) in [("a", 1, 1), ("b", 1, 2)] {
        over.extend_from_slice(&record(writer, epoch, seq));
    }
    assert_eq!(decode_ledger(&over), None);
    // Collapsed: two records, one writer. The bytes frame perfectly and end
    // exactly — only the distinct-writer check catches it, and it must,
    // because the map it would yield is smaller than its own header claims.
    let mut duplicated = header(4, 2);
    duplicated.extend_from_slice(&record("a", 1, 1));
    duplicated.extend_from_slice(&record("a", 1, 2));
    assert_eq!(decode_ledger(&duplicated), None);
}

#[test]
fn every_truncation_decodes_to_nothing_at_all() {
    let applied = marks(&[("host-a", 3, 41), ("host-b", 1, 7), ("host-c", 8, 2)]);
    let bytes = encode_ledger(5, &applied);
    for cut in 0..bytes.len() {
        // The record count closes the boundary case: a prefix that lands
        // exactly between two records used to decode to a well-formed
        // *subset*, which under-reports a recovery target — the unsafe
        // direction. Now every prefix is short of the count it carries.
        assert_eq!(decode_ledger(&bytes[..cut]), None, "prefix at {cut}");
    }
    assert_eq!(decode_ledger(&bytes).expect("whole").applied, applied);
}

#[test]
fn the_fold_raises_a_watermark_and_never_lowers_one() {
    let mut st = state(0, &[]);
    let host = node("host");
    assert!(fold(&mut st.stamp, &mut st.applied, &host, WriteToken { epoch: 7, seq: 4 }, 7));
    assert_eq!(
        st.applied.get(&host),
        Some(&WriteToken { epoch: 7, seq: 4 })
    );
    // A lower token, and an equal one, both move nothing.
    assert!(!fold(&mut st.stamp, &mut st.applied, &host, WriteToken { epoch: 7, seq: 3 }, 7));
    assert!(!fold(&mut st.stamp, &mut st.applied, &host, WriteToken { epoch: 7, seq: 4 }, 7));
    assert_eq!(
        st.applied.get(&host),
        Some(&WriteToken { epoch: 7, seq: 4 })
    );
    // Epoch-major: a new life's first write beats every old-life token.
    assert!(fold(&mut st.stamp, &mut st.applied, &host, WriteToken { epoch: 8, seq: 1 }, 8));
    assert_eq!(
        st.applied.get(&host),
        Some(&WriteToken { epoch: 8, seq: 1 })
    );
}

#[test]
fn the_stamp_is_monotone_whatever_the_watch_reports() {
    let mut st = state(9, &[]);
    let host = node("host");
    // A regressing leadership read — a stale watch borrow, a reordered
    // republish — cannot lower the stamp, because the whole intersection
    // argument rests on it never doing so.
    assert!(fold(&mut st.stamp, &mut st.applied, &host, WriteToken { epoch: 9, seq: 1 }, 3));
    assert_eq!(st.stamp, 9, "a lower epoch is ignored");
    assert!(fold(&mut st.stamp, &mut st.applied, &host, WriteToken { epoch: 9, seq: 1 }, 11));
    assert_eq!(st.stamp, 11, "a higher epoch is adopted");
}

#[test]
fn a_stamp_advance_alone_is_worth_republishing() {
    let mut st = state(4, &[("host", 4, 2)]);
    let host = node("host");
    // Nothing new applied, but the voter has adopted epoch 5. A recovering
    // host at 5 needs to hear that, so the fold reports movement.
    assert!(fold(&mut st.stamp, &mut st.applied, &host, WriteToken { epoch: 4, seq: 2 }, 5));
    assert_eq!(st.stamp, 5);
    assert_eq!(
        st.applied.get(&host),
        Some(&WriteToken { epoch: 4, seq: 2 })
    );
    // …and a call that moves neither reports none, so nothing is published.
    assert!(!fold(&mut st.stamp, &mut st.applied, &host, WriteToken { epoch: 4, seq: 2 }, 5));
}
