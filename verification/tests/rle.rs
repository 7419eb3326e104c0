use data::rle::{pack, rle, Run};

#[test]
fn short_runs_become_one_literal() {
    // a a a b c c: all runs shorter than 0x100 expand into one literal.
    let source = vec![5, 5, 5, 9, 7, 7];
    let runs = rle(&source);
    assert_eq!(runs.len(), 1);
    match &runs[0] {
        Run::Literal(v) => assert_eq!(v, &vec![5, 5, 5, 9, 7, 7]),
        Run::Repeat(_, _) => panic!("expected a literal"),
    }
}

#[test]
fn long_runs_become_repeats() {
    let mut source = vec![1, 2];
    source.extend(std::iter::repeat(3).take(0x100));
    source.push(4);
    let runs = rle(&source);
    assert_eq!(runs.len(), 3);
    match &runs[0] {
        Run::Literal(v) => assert_eq!(v, &vec![1, 2]),
        Run::Repeat(_, _) => panic!("expected a literal"),
    }
    match &runs[1] {
        Run::Repeat(x, n) => {
            assert_eq!(*x, 3);
            assert_eq!(*n, 0x100);
        },
        Run::Literal(_) => panic!("expected a repeat"),
    }
    match &runs[2] {
        Run::Literal(v) => assert_eq!(v, &vec![4]),
        Run::Repeat(_, _) => panic!("expected a literal"),
    }
}

#[test]
fn pack_emits_count_codes_then_payload() {
    let runs = vec![Run::Literal(vec![5, 9]), Run::Repeat(3, 0x100)];
    let packed = pack(runs);
    // One literal of two indices (code 2), one repeat of 0x100 (code 0x8100).
    assert_eq!(packed, vec![2, 0x0002, 0x8100, 5, 9, 3]);
}

#[test]
fn pack_splits_overlong_runs() {
    let runs = vec![Run::Repeat(7, 0x8000)];
    let packed = pack(runs);
    // 0x8000 = 0x7FFF + 1: split into two repeats.
    assert_eq!(packed, vec![2, 0xFFFF, 0x8001, 7, 7]);
}

#[test]
fn rle_then_pack_round_trip_by_hand() {
    let mut source = Vec::new();
    source.extend(std::iter::repeat(1).take(0x120));
    source.push(2);
    let packed = pack(rle(&source));
    // One repeat of 0x120, one single-entry literal.
    assert_eq!(packed, vec![2, 0x8120, 0x0001, 1, 2]);
}
