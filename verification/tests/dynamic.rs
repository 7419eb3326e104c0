use data::details::{Bits, Details, HangulSyllableType};
use data::dynamic::{apply_name_rules, derived_name, hangul_lvt_indices};
use data::pool::Popularity;

fn records(n: usize) -> Vec<Details> {
    let mut v = Vec::new();
    for _ in 0..n {
        v.push(Details::default());
    }
    v
}

#[test]
fn hangul_lvt_triple_for_lvt_syllable() {
    // U+D4DB is an LVT syllable with indices (17, 16, 15).
    let mut ud = records(0xD4DC);
    ud[0xD4DB].hst = Some(HangulSyllableType::Lvt);
    assert_eq!(hangul_lvt_indices(&ud, 0xD4DB), Some((17, 16, 15)));
}

#[test]
fn hangul_lvt_triple_for_lv_syllable() {
    // U+D788 is an LV syllable with indices (18, 20, 0): T index zero.
    let mut ud = records(0xD789);
    ud[0xD788].hst = Some(HangulSyllableType::Lv);
    assert_eq!(hangul_lvt_indices(&ud, 0xD788), Some((18, 20, 0)));
}

#[test]
fn hangul_lvt_none_without_syllable_type() {
    let ud = records(0xD789);
    assert_eq!(hangul_lvt_indices(&ud, 0xD788), None);
}

#[test]
fn derived_name_prefixes_hex_code_point() {
    assert_eq!(
        derived_name(0x5170),
        Some(String::from("CJK UNIFIED IDEOGRAPH-5170"))
    );
    assert_eq!(
        derived_name(0xF907),
        Some(String::from("CJK COMPATIBILITY IDEOGRAPH-F907"))
    );
    assert_eq!(
        derived_name(0x17005),
        Some(String::from("TANGUT IDEOGRAPH-17005"))
    );
    assert_eq!(derived_name(0x0041), None);
}

#[test]
fn name_rule_pass_strips_name_and_sets_nr2_bit() {
    // U+5170 lies in a CJK unified range: after the pass it has no explicit
    // name, carries the NR2 derivation bit, and records the fixed prefix.
    let mut ud = records(0x5171);
    ud[0x5170].name = Some(String::from("CJK UNIFIED IDEOGRAPH-5170"));
    ud[0x5170].gc = Some(String::from("Other Letter (Lo)"));
    let mut pop = Popularity::default();
    apply_name_rules(&mut ud, &mut pop);
    assert!(ud[0x5170].name.is_none());
    assert!(ud[0x5170].bits.contains(Bits::DerivedNameNr2));
    assert!(!ud[0x5170].bits.contains(Bits::DerivedNameNr1));
    assert_eq!(ud[0x5170].dnrp.as_deref(), Some("CJK UNIFIED IDEOGRAPH-"));
    // Untouched fields survive.
    assert_eq!(ud[0x5170].gc.as_deref(), Some("Other Letter (Lo)"));
    // Points outside every range are untouched.
    assert!(ud[0x0041].name.is_none());
    assert!(ud[0x0041].dnrp.is_none());
}

#[test]
fn name_rule_pass_marks_hangul_with_nr1() {
    let mut ud = records(0xAC02);
    let mut pop = Popularity::default();
    apply_name_rules(&mut ud, &mut pop);
    assert!(ud[0xAC00].bits.contains(Bits::DerivedNameNr1));
    assert_eq!(ud[0xAC00].dnrp.as_deref(), Some("HANGUL SYLLABLE "));
    assert!(ud[0xAC01].bits.contains(Bits::DerivedNameNr1));
}
