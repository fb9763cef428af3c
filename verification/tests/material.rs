use acumen::collect::{fill_histogram, group_slice};

#[test]
fn hours_fill_their_slots_and_strays_are_dropped() {
    let slots = fill_histogram(&[(23, 40), (1, 10), (30, 5), (-2, 3), (1, 12), (5, -4)], 24);
    assert_eq!(slots.len(), 24);
    assert_eq!(slots[23], 40);
    assert_eq!(slots[1], 12, "the last row for a slot wins");
    assert_eq!(slots[0], 3, "a negative bucket reads as the first");
    assert_eq!(slots[5], 0, "a negative count reads as none");
    assert_eq!(slots.iter().sum::<u64>(), 55);
}

#[test]
fn a_nameless_group_is_still_listed() {
    let g = group_slice(7, "  ".to_string(), 12);
    assert_eq!(g.name, "（未知群）");
    assert_eq!(g.count, 12);
    let g = group_slice(8, "测试群".to_string(), -1);
    assert_eq!(g.name, "测试群");
    assert_eq!(g.count, 0);
}
