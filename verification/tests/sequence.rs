use data::sequence::{key, Sequences};

#[test]
fn key_is_first_two_points() {
    assert_eq!(key(&vec![0x1F1E6, 0x1F1E8, 0xFE0F]), (0x1F1E6, 0x1F1E8));
}

#[test]
fn insert_creates_one_entry_per_distinct_points() {
    let mut s = Sequences::default();
    s.insert(&vec![0x61, 0x62], String::from("FIRST"));
    assert_eq!(s.buckets.len(), 1);
    assert_eq!(s.buckets[0].0, (0x61, 0x62));
    assert_eq!(s.buckets[0].1.len(), 1);
    assert_eq!(s.buckets[0].1[0].points, vec![0x61, 0x62]);
    assert_eq!(s.buckets[0].1[0].names, vec!["FIRST"]);
}

#[test]
fn insert_same_points_merges_name_lists() {
    let mut s = Sequences::default();
    s.insert(&vec![0x61, 0x62], String::from("FIRST"));
    s.insert(&vec![0x61, 0x62], String::from("SECOND"));
    assert_eq!(s.buckets.len(), 1);
    assert_eq!(s.buckets[0].1.len(), 1);
    assert_eq!(s.buckets[0].1[0].names, vec!["FIRST", "SECOND"]);
}

#[test]
fn insert_same_key_distinct_points_adds_entry() {
    let mut s = Sequences::default();
    s.insert(&vec![0x61, 0x62], String::from("SHORT"));
    s.insert(&vec![0x61, 0x62, 0x63], String::from("LONG"));
    assert_eq!(s.buckets.len(), 1);
    assert_eq!(s.buckets[0].1.len(), 2);
    assert_eq!(s.buckets[0].1[0].points, vec![0x61, 0x62]);
    assert_eq!(s.buckets[0].1[1].points, vec![0x61, 0x62, 0x63]);
    assert_eq!(s.buckets[0].1[1].names, vec!["LONG"]);
}

#[test]
fn buckets_stay_sorted_by_key() {
    let mut s = Sequences::default();
    s.insert(&vec![0x200, 0x1], String::from("B"));
    s.insert(&vec![0x100, 0x2], String::from("A"));
    s.insert(&vec![0x100, 0x1], String::from("C"));
    assert_eq!(s.buckets.len(), 3);
    assert_eq!(s.buckets[0].0, (0x100, 0x1));
    assert_eq!(s.buckets[1].0, (0x100, 0x2));
    assert_eq!(s.buckets[2].0, (0x200, 0x1));
    assert_eq!(s.bucket_count(), 3);
}
