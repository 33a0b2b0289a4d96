use groupnet_consistency::WriteToken;

#[test]
fn tokens_order_epoch_major() {
    let old_life = WriteToken { epoch: 1, seq: 500 };
    let new_life = WriteToken { epoch: 2, seq: 1 };
    assert!(new_life > old_life, "any new-life token beats old-life");
}

#[test]
fn tokens_of_one_life_order_by_sequence() {
    let a = WriteToken { epoch: 4, seq: 1 };
    let b = WriteToken { epoch: 4, seq: 2 };
    let c = WriteToken { epoch: 5, seq: 0 };
    assert!(a < b && b < c && a < c);
    assert!(!(a < a));
    assert_eq!(a.max(b), b);
    assert_eq!(c.cmp(&c), std::cmp::Ordering::Equal);
}
