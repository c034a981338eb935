use snowcap::soft_policies::MinimizeTrafficShift;

#[test]
fn traffic_shift_counts_changed_next_hops() {
    // two devices, two prefixes: entry device * 2 + prefix
    let mut p = MinimizeTrafficShift::new(vec![Some(1), Some(0), None, Some(3)], 2, 2);
    assert_eq!(p.num_different(), 0);
    assert_eq!(p.dimensions(), (2, 2));
    assert_eq!(p.table_len(), 4);
    // the first next hop changes, the second stays, the third appears, the fourth disappears
    p.update(vec![Some(2), Some(0), Some(5), None]);
    assert_eq!(p.num_different(), 1);
    // compared with the last state, not the first
    p.update(vec![Some(2), Some(1), Some(6), Some(3)]);
    assert_eq!(p.num_different(), 2);
    p.update(vec![Some(2), Some(1), Some(6), Some(3)]);
    assert_eq!(p.num_different(), 0);
}
