use data::details::{
    points, Alias, AliasType, BitSet, Bits, Details, EmojiBitSet, EmojiBits, GraphemeBreak,
    PageBits,
};

#[test]
fn alias_type_codes_and_labels() {
    assert_eq!(AliasType::Correction.code(), 0);
    assert_eq!(AliasType::Control.code(), 1);
    assert_eq!(AliasType::Alternate.code(), 2);
    assert_eq!(AliasType::Figment.code(), 3);
    assert_eq!(AliasType::Abbreviation.code(), 4);
    assert_eq!(AliasType::Unicode1.code(), 5);
    assert_eq!(AliasType::Cldr.code(), 6);
    assert_eq!(AliasType::of_label("correction"), Some(AliasType::Correction));
    assert_eq!(AliasType::of_label("abbreviation"), Some(AliasType::Abbreviation));
    assert_eq!(AliasType::of_label("cldr"), None);
    assert_eq!(AliasType::of_label(""), None);
}

#[test]
fn grapheme_break_codes_and_labels() {
    assert_eq!(GraphemeBreak::Cr.code(), 1);
    assert_eq!(GraphemeBreak::Lf.code(), 2);
    assert_eq!(GraphemeBreak::HangulLVT.code(), 13);
    assert_eq!(GraphemeBreak::of_label("CR"), Some(GraphemeBreak::Cr));
    assert_eq!(
        GraphemeBreak::of_label("Regional_Indicator"),
        Some(GraphemeBreak::RegionalIndicator)
    );
    assert_eq!(GraphemeBreak::of_label("LVT"), Some(GraphemeBreak::HangulLVT));
    assert_eq!(GraphemeBreak::of_label("XX"), None);
}

#[test]
fn bit_sets_or_without_aliasing() {
    let mut b = BitSet::empty();
    assert!(b.is_empty());
    b.insert(Bits::DerivedNameNr2);
    b.insert(Bits::KdefinitionExists);
    assert!(b.contains(Bits::DerivedNameNr2));
    assert!(b.contains(Bits::KdefinitionExists));
    assert!(!b.contains(Bits::DerivedNameNr1));
    assert!(!b.contains(Bits::IsAnyMark));
    assert_eq!(b.bits, 0x21);

    let mut e = EmojiBitSet::empty();
    e.insert(EmojiBits::Emoji);
    e.insert(EmojiBits::EmojiModifierBase);
    assert_eq!(e.bits, 0x21);
    assert!(e.contains(EmojiBits::Emoji));
    assert!(!e.contains(EmojiBits::ExtendedPictographic));
}

#[test]
fn page_bits_masks() {
    assert_eq!(PageBits::HasAnyNameExceptNr2.mask(), 1);
    assert_eq!(PageBits::HasAnyUhdef.mask(), 2);
    assert_eq!(PageBits::HasAnyAlias.mask(), 4);
}

#[test]
fn alias_static_new_copies_label() {
    let a = Alias::static_new("NUL", AliasType::Abbreviation);
    assert_eq!(a.inner, "NUL");
    assert_eq!(a.kind, AliasType::Abbreviation);
}

#[test]
fn default_record_is_empty() {
    let d = Details::default();
    assert!(d.name.is_none());
    assert!(d.alias.is_empty());
    assert!(d.hlvt.is_none());
    assert!(d.bits.is_empty());
    assert!(d.ebits.is_empty());
}

#[test]
fn points_allocates_every_code_point() {
    let ud = points();
    assert_eq!(ud.len(), 0x110000);
    assert!(ud[0].name.is_none());
    assert!(ud[0x10FFFF].name.is_none());
}
