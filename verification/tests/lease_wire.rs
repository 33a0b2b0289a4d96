use groupnet_consistency::lease::wire::{
    grant_entry_key, is_legal_name, renewal_entry_key, validate_name,
};
use groupnet_consistency::lease::{
    decode_grants, decode_renewal, encode_grants, encode_renewal, GrantMap, RenewalId,
};
use groupnet_consistency::NodeId;

fn grants(pairs: &[(&str, u64, u64)]) -> GrantMap {
    let mut grants = GrantMap::new();
    for (node, epoch, seq) in pairs {
        grants.insert(
            NodeId::new(node),
            RenewalId {
                epoch: *epoch,
                seq: *seq,
            },
        );
    }
    grants
}

#[test]
fn renewal_ids_order_epoch_major() {
    let old_life = RenewalId {
        epoch: 1,
        seq: 5_000,
    };
    let new_life = RenewalId { epoch: 2, seq: 1 };
    assert!(new_life > old_life, "any new-life renewal beats old-life");
    assert!(RenewalId { epoch: 2, seq: 2 } > new_life);
}

#[test]
fn set_names_map_to_distinct_entries() {
    assert_eq!(renewal_entry_key(""), "~lease");
    assert_eq!(renewal_entry_key("pages"), "~lease:pages");
    assert_eq!(grant_entry_key(""), "~lease:g");
    assert_eq!(grant_entry_key("pages"), "~lease:g:pages");
    // A renewal and a grant map never share an entry, and neither do two
    // sets: the reader half and the granter half are different payloads
    // authored by (potentially) the same node.
    assert_ne!(renewal_entry_key(""), grant_entry_key(""));
    assert_ne!(renewal_entry_key("pages"), grant_entry_key("pages"));
    assert_ne!(renewal_entry_key("a"), renewal_entry_key("b"));
    assert_ne!(grant_entry_key("a"), grant_entry_key("b"));
}

#[test]
fn legal_set_names_validate() {
    for name in ["", "pages", "blobs-v2", "gg", "G"] {
        validate_name(name);
    }
}

#[test]
fn a_colon_and_the_grant_tag_are_no_set_names() {
    for name in ["", "pages", "blobs-v2", "gg", "G"] {
        assert!(is_legal_name(name));
    }
    assert!(!is_legal_name("pages:hot"));
    // `~lease:g` is the default set's grant entry; a set named `g` would
    // author its renewals into it.
    assert_eq!(renewal_entry_key("g"), grant_entry_key(""));
    assert!(!is_legal_name("g"));
}

#[test]
fn renewals_round_trip_and_wrong_lengths_decode_to_nothing() {
    for id in [
        RenewalId { epoch: 0, seq: 0 },
        RenewalId { epoch: 1, seq: 1 },
        RenewalId {
            epoch: u64::MAX,
            seq: u64::MAX,
        },
        RenewalId {
            epoch: 1_754_000_000_000,
            seq: 42,
        },
    ] {
        let bytes = encode_renewal(id);
        assert_eq!(bytes.len(), RenewalId::ENCODED_LEN);
        assert_eq!(decode_renewal(&bytes), Some(id));
    }
    let bytes = encode_renewal(RenewalId { epoch: 3, seq: 9 });
    for cut in 0..RenewalId::ENCODED_LEN {
        assert_eq!(decode_renewal(&bytes[..cut]), None, "short at {cut}");
    }
    assert_eq!(decode_renewal(&[0u8; 17]), None, "long");
}

#[test]
fn sixteen_arbitrary_bytes_are_a_renewal() {
    // The codec has no magic number and needs none: only a lease entry is
    // ever handed to it, and the ids it yields are useless to a reader
    // unless they carry that reader's own current epoch.
    assert_eq!(
        decode_renewal(b"not a renewal!!!"),
        Some(RenewalId {
            epoch: u64::from_le_bytes(*b"not a re"),
            seq: u64::from_le_bytes(*b"newal!!!"),
        })
    );
}

#[test]
fn grant_maps_round_trip() {
    let map = grants(&[("node-a", 3, 41), ("b", 1, 7), ("ünïcøde-node", 9, 9)]);
    assert_eq!(decode_grants(&encode_grants(&map)), map);
    // Ordered by reader id, so an unchanged map re-encodes byte-identically.
    let same = grants(&[("ünïcøde-node", 9, 9), ("b", 1, 7), ("node-a", 3, 41)]);
    assert_eq!(encode_grants(&same), encode_grants(&map));
}

#[test]
fn an_empty_grant_map_round_trips() {
    let empty = GrantMap::new();
    assert!(
        encode_grants(&empty).is_empty(),
        "granting nothing is empty"
    );
    assert!(decode_grants(&[]).is_empty());
}

#[test]
fn every_truncation_of_a_grant_map_decodes_without_panic() {
    let map = grants(&[("node-a", 3, 41), ("node-b", 1, 7), ("node-c", 8, 2)]);
    let bytes = encode_grants(&map);
    for cut in 0..bytes.len() {
        let prefix = decode_grants(&bytes[..cut]);
        // A prefix may land on a record boundary and decode to a proper
        // subset; it can never gain a reader, and every grant it does
        // carry is one the whole map carries too.
        assert!(prefix.len() <= map.len(), "a prefix cannot gain readers");
        for i in 0..prefix.len() {
            assert_eq!(map.get(prefix.key_at(i)), Some(prefix.value_at(i)));
        }
    }
    assert_eq!(decode_grants(&bytes).len(), 3);
}

#[test]
fn unparseable_grant_bytes_decode_to_the_empty_map() {
    // A length that runs off the end.
    assert!(decode_grants(b"garbage").is_empty());
    assert!(decode_grants(&[0xff, 0xff, 0xff, 0xff, 0x01]).is_empty());
    // A header shorter than the length prefix itself.
    assert!(decode_grants(&[0x01, 0x00]).is_empty());
    // A well-framed reader id that is not utf-8.
    assert!(decode_grants(&[0x01, 0x00, 0x00, 0x00, 0xff]).is_empty());
    // A name with no renewal behind it.
    assert!(decode_grants(&[0x01, 0x00, 0x00, 0x00, b'a']).is_empty());
    // A valid record followed by trailing garbage: all-or-nothing.
    let mut mixed = encode_grants(&grants(&[("node-a", 1, 1)]));
    mixed.extend_from_slice(&[0x09, 0x00, 0x00, 0x00, 0x01]);
    assert!(decode_grants(&mixed).is_empty());
}

#[test]
fn a_grant_map_cut_inside_a_record_or_followed_by_less_than_one_is_empty() {
    let whole = encode_grants(&grants(&[("a", 1, 2), ("bb", 3, 4)]));
    assert_eq!(whole.len(), 21 + 22);
    for cut in 1..whole.len() {
        let held = decode_grants(&whole[..cut]).len();
        assert_eq!(held, usize::from(cut == 21), "cut at {cut}");
    }
    for tail in 1..20 {
        let mut longer = whole.clone();
        longer.extend(vec![0; tail]);
        assert_eq!(decode_grants(&longer).len(), 0, "tail of {tail}");
    }
}
