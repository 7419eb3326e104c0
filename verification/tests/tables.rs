use data::details::{Alias, AliasType, Bits, Details, EmojiBits, GraphemeBreak};
use data::paged::{sparse_get_u16, sparse_get_u8};
use data::pool::{Pool, Popularity};
use data::tables::{
    write_bits, write_ebits, write_gb, write_hlvt, write_page_bits, write_pool_indices, Field,
};

fn records(n: usize) -> Vec<Details> {
    let mut v = Vec::new();
    for _ in 0..n {
        v.push(Details::default());
    }
    v
}

#[test]
fn pool_index_table_round_trips() {
    let mut ud = records(256);
    let mut pop = Popularity::default();
    let gc = pop.vote("Other Letter (Lo)");
    ud[3].gc = Some(gc);
    let report = pop.report();
    let pool = Pool::from_report(&report);
    let out = write_pool_indices(&ud, &pool, Field::Gc);
    assert_eq!(sparse_get_u16(&out, 1, 0xFFFF, 3), Some(0));
    assert_eq!(sparse_get_u16(&out, 1, 0xFFFF, 4), None);
}

#[test]
fn flag_tables_round_trip() {
    let mut ud = records(256);
    ud[10].bits.insert(Bits::IsSpaceSeparator);
    ud[11].ebits.insert(EmojiBits::Emoji);
    ud[11].ebits.insert(EmojiBits::EmojiPresentation);
    let bits = write_bits(&ud);
    let ebits = write_ebits(&ud);
    assert_eq!(sparse_get_u8(&bits, 1, 0, 10), Some(0x04));
    assert_eq!(sparse_get_u8(&bits, 1, 0, 11), None);
    assert_eq!(sparse_get_u8(&ebits, 1, 0, 11), Some(0x09));
    assert_eq!(sparse_get_u8(&ebits, 1, 0, 10), None);
}

#[test]
fn hlvt_table_packs_indices_with_high_bit() {
    let mut ud = records(256);
    ud[5].hlvt = Some((17, 16, 15));
    let out = write_hlvt(&ud);
    // 0x8000 | 17 << 10 | 16 << 5 | 15.
    assert_eq!(sparse_get_u16(&out, 1, 0, 5), Some(0xC60F));
    assert_eq!(sparse_get_u16(&out, 1, 0, 6), None);
}

#[test]
fn gb_table_stores_class_codes() {
    let mut ud = records(256);
    ud[13].gb = Some(GraphemeBreak::Cr);
    ud[14].gb = Some(GraphemeBreak::HangulLVT);
    let out = write_gb(&ud);
    assert_eq!(sparse_get_u8(&out, 1, 0, 13), Some(1));
    assert_eq!(sparse_get_u8(&out, 1, 0, 14), Some(13));
    assert_eq!(sparse_get_u8(&out, 1, 0, 15), None);
}

#[test]
fn page_summary_sets_one_bit_per_kind() {
    let mut ud = records(768);
    ud[0].name = Some(String::from("LATIN SMALL LETTER A"));
    ud[257].uhdef = Some(String::from("orchid"));
    ud[258].alias.push(Alias {
        inner: String::from("NUL"),
        kind: AliasType::Abbreviation,
    });
    ud[512].bits.insert(Bits::DerivedNameNr1);
    let out = write_page_bits(&ud);
    assert_eq!(out.len(), 3);
    assert_eq!(out[0], 1);
    assert_eq!(out[1], 2 | 4);
    // The NR1 derivation bit counts as a name.
    assert_eq!(out[2], 1);
}
