use data::paged::{sparse_get_u16, sparse_get_u8, write_sparse_u16, write_sparse_u8};

#[test]
fn sparse_u16_skips_empty_pages_and_round_trips() {
    // Two pages; only the second page holds a value.
    let mut values: Vec<Option<u16>> = vec![None; 512];
    values[256 + 3] = Some(0x1234);
    let out = write_sparse_u16(&values, 0xFFFF);
    // Directory: page 0 absent (0xFFFF), page 1 at ordinal 0.
    assert_eq!(out.len(), 4 + 512);
    assert_eq!(&out[0..4], &[0xFF, 0xFF, 0x00, 0x00]);
    // Dense stream: entry 3 carries the value, everything else the placeholder.
    assert_eq!(out[4 + 6], 0x12);
    assert_eq!(out[4 + 7], 0x34);
    assert_eq!(out[4 + 0], 0xFF);
    assert_eq!(out[4 + 1], 0xFF);
    // Round trip through the decoder.
    assert_eq!(sparse_get_u16(&out, 2, 0xFFFF, 256 + 3), Some(0x1234));
    assert_eq!(sparse_get_u16(&out, 2, 0xFFFF, 256 + 2), None);
    assert_eq!(sparse_get_u16(&out, 2, 0xFFFF, 0), None);
    assert_eq!(sparse_get_u16(&out, 2, 0xFFFF, 511), None);
}

#[test]
fn sparse_u16_all_empty_is_directory_only() {
    let values: Vec<Option<u16>> = vec![None; 512];
    let out = write_sparse_u16(&values, 0xFFFF);
    assert_eq!(out, vec![0xFF, 0xFF, 0xFF, 0xFF]);
}

#[test]
fn sparse_u8_round_trips() {
    let mut values: Vec<Option<u8>> = vec![None; 256];
    values[5] = Some(7);
    values[255] = Some(0x21);
    let out = write_sparse_u8(&values, 0);
    assert_eq!(out.len(), 2 + 256);
    assert_eq!(&out[0..2], &[0x00, 0x00]);
    assert_eq!(out[2 + 5], 7);
    assert_eq!(out[2 + 255], 0x21);
    assert_eq!(out[2 + 4], 0);
    assert_eq!(sparse_get_u8(&out, 1, 0, 5), Some(7));
    assert_eq!(sparse_get_u8(&out, 1, 0, 255), Some(0x21));
    assert_eq!(sparse_get_u8(&out, 1, 0, 6), None);
}

#[test]
fn sparse_u16_page_ordinals_count_nonempty_pages() {
    // Pages 0 and 2 non-empty, page 1 empty.
    let mut values: Vec<Option<u16>> = vec![None; 768];
    values[0] = Some(1);
    values[512] = Some(2);
    let out = write_sparse_u16(&values, 0xFFFF);
    assert_eq!(&out[0..6], &[0x00, 0x00, 0xFF, 0xFF, 0x00, 0x01]);
    assert_eq!(out.len(), 6 + 1024);
    assert_eq!(sparse_get_u16(&out, 3, 0xFFFF, 0), Some(1));
    assert_eq!(sparse_get_u16(&out, 3, 0xFFFF, 512), Some(2));
    assert_eq!(sparse_get_u16(&out, 3, 0xFFFF, 300), None);
}
