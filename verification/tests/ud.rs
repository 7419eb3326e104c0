use data::ud::process_ud_ranges;

#[test]
fn ranges_expand_to_per_point_starts() {
    let ranges = vec![(0x20, 0x2F), (0x3400, 0x4DBF)];
    let table = process_ud_ranges(&ranges, 0x5000);
    assert_eq!(table[0x1F], None);
    assert_eq!(table[0x20], Some(0x20));
    assert_eq!(table[0x2F], Some(0x20));
    assert_eq!(table[0x30], None);
    assert_eq!(table[0x3400], Some(0x3400));
    assert_eq!(table[0x4DBF], Some(0x3400));
    assert_eq!(table[0x4FFF], None);
}

#[test]
fn later_ranges_override_earlier_ones() {
    let ranges = vec![(10, 20), (15, 25)];
    let table = process_ud_ranges(&ranges, 30);
    assert_eq!(table[12], Some(10));
    assert_eq!(table[15], Some(15));
    assert_eq!(table[20], Some(15));
    assert_eq!(table[25], Some(15));
    assert_eq!(table[26], None);
}
