//! Per-code-point attribute record and the bit-flag vocabularies.

use vstd::prelude::*;

use crate::text::str_eq;

verus! {

/// Kind tag of one name alias.
#[derive(Clone, Copy, Debug, PartialEq, Eq, Structural)]
pub enum AliasType {
    Correction,
    Control,
    Alternate,
    Figment,
    Abbreviation,
    Unicode1,
    Cldr,
}

impl AliasType {
    /// Wire value of the tag, as stored in the flattened type stream.
    pub open spec fn spec_code(self) -> u8 {
        match self {
            AliasType::Correction => 0,
            AliasType::Control => 1,
            AliasType::Alternate => 2,
            AliasType::Figment => 3,
            AliasType::Abbreviation => 4,
            AliasType::Unicode1 => 5,
            AliasType::Cldr => 6,
        }
    }

    #[verifier::when_used_as_spec(spec_code)]
    pub fn code(self) -> (r: u8)
        ensures
            r == self.spec_code(),
    {
        match self {
            AliasType::Correction => 0,
            AliasType::Control => 1,
            AliasType::Alternate => 2,
            AliasType::Figment => 3,
            AliasType::Abbreviation => 4,
            AliasType::Unicode1 => 5,
            AliasType::Cldr => 6,
        }
    }

    /// The alias-type label used by the `NameAliases.txt` source file.
    pub open spec fn spec_of_label(s: Seq<char>) -> Option<AliasType> {
        if s == "correction"@ {
            Some(AliasType::Correction)
        } else if s == "control"@ {
            Some(AliasType::Control)
        } else if s == "alternate"@ {
            Some(AliasType::Alternate)
        } else if s == "figment"@ {
            Some(AliasType::Figment)
        } else if s == "abbreviation"@ {
            Some(AliasType::Abbreviation)
        } else {
            None
        }
    }

    /// Parses an alias-type label; `None` exactly on unknown labels.
    pub fn of_label(s: &str) -> (r: Option<AliasType>)
        ensures
            r == AliasType::spec_of_label(s@),
    {
        if str_eq(s, "correction") {
            Some(AliasType::Correction)
        } else if str_eq(s, "control") {
            Some(AliasType::Control)
        } else if str_eq(s, "alternate") {
            Some(AliasType::Alternate)
        } else if str_eq(s, "figment") {
            Some(AliasType::Figment)
        } else if str_eq(s, "abbreviation") {
            Some(AliasType::Abbreviation)
        } else {
            None
        }
    }
}

/// Grapheme-cluster-break class of a code point (UAX #29).
#[derive(Clone, Copy, Debug, PartialEq, Eq, Structural)]
pub enum GraphemeBreak {
    Cr,
    Lf,
    Control,
    Extend,
    Zwj,
    RegionalIndicator,
    Prepend,
    SpacingMark,
    HangulL,
    HangulV,
    HangulT,
    HangulLV,
    HangulLVT,
}

impl GraphemeBreak {
    /// Wire value of the class, as stored in the paged class table.
    pub open spec fn spec_code(self) -> u8 {
        match self {
            GraphemeBreak::Cr => 1,
            GraphemeBreak::Lf => 2,
            GraphemeBreak::Control => 3,
            GraphemeBreak::Extend => 4,
            GraphemeBreak::Zwj => 5,
            GraphemeBreak::RegionalIndicator => 6,
            GraphemeBreak::Prepend => 7,
            GraphemeBreak::SpacingMark => 8,
            GraphemeBreak::HangulL => 9,
            GraphemeBreak::HangulV => 10,
            GraphemeBreak::HangulT => 11,
            GraphemeBreak::HangulLV => 12,
            GraphemeBreak::HangulLVT => 13,
        }
    }

    #[verifier::when_used_as_spec(spec_code)]
    pub fn code(self) -> (r: u8)
        ensures
            r == self.spec_code(),
    {
        match self {
            GraphemeBreak::Cr => 1,
            GraphemeBreak::Lf => 2,
            GraphemeBreak::Control => 3,
            GraphemeBreak::Extend => 4,
            GraphemeBreak::Zwj => 5,
            GraphemeBreak::RegionalIndicator => 6,
            GraphemeBreak::Prepend => 7,
            GraphemeBreak::SpacingMark => 8,
            GraphemeBreak::HangulL => 9,
            GraphemeBreak::HangulV => 10,
            GraphemeBreak::HangulT => 11,
            GraphemeBreak::HangulLV => 12,
            GraphemeBreak::HangulLVT => 13,
        }
    }

    /// The class label used by `GraphemeBreakProperty.txt` and the boundary
    /// grammar.
    pub open spec fn spec_of_label(s: Seq<char>) -> Option<GraphemeBreak> {
        if s == "CR"@ {
            Some(GraphemeBreak::Cr)
        } else if s == "LF"@ {
            Some(GraphemeBreak::Lf)
        } else if s == "Control"@ {
            Some(GraphemeBreak::Control)
        } else if s == "Extend"@ {
            Some(GraphemeBreak::Extend)
        } else if s == "ZWJ"@ {
            Some(GraphemeBreak::Zwj)
        } else if s == "Regional_Indicator"@ {
            Some(GraphemeBreak::RegionalIndicator)
        } else if s == "Prepend"@ {
            Some(GraphemeBreak::Prepend)
        } else if s == "SpacingMark"@ {
            Some(GraphemeBreak::SpacingMark)
        } else if s == "L"@ {
            Some(GraphemeBreak::HangulL)
        } else if s == "V"@ {
            Some(GraphemeBreak::HangulV)
        } else if s == "T"@ {
            Some(GraphemeBreak::HangulT)
        } else if s == "LV"@ {
            Some(GraphemeBreak::HangulLV)
        } else if s == "LVT"@ {
            Some(GraphemeBreak::HangulLVT)
        } else {
            None
        }
    }

    /// Parses a class label; `None` exactly on unknown labels.
    pub fn of_label(s: &str) -> (r: Option<GraphemeBreak>)
        ensures
            r == GraphemeBreak::spec_of_label(s@),
    {
        if str_eq(s, "CR") {
            Some(GraphemeBreak::Cr)
        } else if str_eq(s, "LF") {
            Some(GraphemeBreak::Lf)
        } else if str_eq(s, "Control") {
            Some(GraphemeBreak::Control)
        } else if str_eq(s, "Extend") {
            Some(GraphemeBreak::Extend)
        } else if str_eq(s, "ZWJ") {
            Some(GraphemeBreak::Zwj)
        } else if str_eq(s, "Regional_Indicator") {
            Some(GraphemeBreak::RegionalIndicator)
        } else if str_eq(s, "Prepend") {
            Some(GraphemeBreak::Prepend)
        } else if str_eq(s, "SpacingMark") {
            Some(GraphemeBreak::SpacingMark)
        } else if str_eq(s, "L") {
            Some(GraphemeBreak::HangulL)
        } else if str_eq(s, "V") {
            Some(GraphemeBreak::HangulV)
        } else if str_eq(s, "T") {
            Some(GraphemeBreak::HangulT)
        } else if str_eq(s, "LV") {
            Some(GraphemeBreak::HangulLV)
        } else if str_eq(s, "LVT") {
            Some(GraphemeBreak::HangulLVT)
        } else {
            None
        }
    }
}

/// Hangul syllable type of a precomposed syllable.
#[derive(Clone, Copy, Debug, PartialEq, Eq, Structural)]
pub enum HangulSyllableType {
    Lv,
    Lvt,
}

/// General per-code-point flags.
#[derive(Clone, Copy, Debug, PartialEq, Eq, Structural)]
pub enum Bits {
    KdefinitionExists,
    IsSpaceSeparator,
    IsAnyMark,
    DerivedNameNr1,
    DerivedNameNr2,
}

impl Bits {
    /// Single-bit mask of the flag; masks of distinct flags never overlap.
    pub open spec fn spec_mask(self) -> u8 {
        match self {
            Bits::KdefinitionExists => 0x01,
            Bits::IsSpaceSeparator => 0x04,
            Bits::IsAnyMark => 0x08,
            Bits::DerivedNameNr1 => 0x10,
            Bits::DerivedNameNr2 => 0x20,
        }
    }

    #[verifier::when_used_as_spec(spec_mask)]
    pub fn mask(self) -> (r: u8)
        ensures
            r == self.spec_mask(),
    {
        match self {
            Bits::KdefinitionExists => 0x01,
            Bits::IsSpaceSeparator => 0x04,
            Bits::IsAnyMark => 0x08,
            Bits::DerivedNameNr1 => 0x10,
            Bits::DerivedNameNr2 => 0x20,
        }
    }
}

/// Distinct general flags occupy distinct bits: no aliasing under OR.
pub proof fn lemma_bits_masks_disjoint(a: Bits, b: Bits)
    requires
        a != b,
    ensures
        a.spec_mask() & b.spec_mask() == 0,
{
    let ma = a.spec_mask();
    let mb = b.spec_mask();
    assert((ma == 0x01 || ma == 0x04 || ma == 0x08 || ma == 0x10 || ma == 0x20) && (mb == 0x01
        || mb == 0x04 || mb == 0x08 || mb == 0x10 || mb == 0x20) && ma != mb ==> ma & mb == 0)
        by (bit_vector);
}

/// Emoji per-code-point flags.
#[derive(Clone, Copy, Debug, PartialEq, Eq, Structural)]
pub enum EmojiBits {
    Emoji,
    ExtendedPictographic,
    EmojiComponent,
    EmojiPresentation,
    EmojiModifier,
    EmojiModifierBase,
}

impl EmojiBits {
    /// Single-bit mask of the flag; masks of distinct flags never overlap.
    pub open spec fn spec_mask(self) -> u8 {
        match self {
            EmojiBits::Emoji => 0x01,
            EmojiBits::ExtendedPictographic => 0x02,
            EmojiBits::EmojiComponent => 0x04,
            EmojiBits::EmojiPresentation => 0x08,
            EmojiBits::EmojiModifier => 0x10,
            EmojiBits::EmojiModifierBase => 0x20,
        }
    }

    #[verifier::when_used_as_spec(spec_mask)]
    pub fn mask(self) -> (r: u8)
        ensures
            r == self.spec_mask(),
    {
        match self {
            EmojiBits::Emoji => 0x01,
            EmojiBits::ExtendedPictographic => 0x02,
            EmojiBits::EmojiComponent => 0x04,
            EmojiBits::EmojiPresentation => 0x08,
            EmojiBits::EmojiModifier => 0x10,
            EmojiBits::EmojiModifierBase => 0x20,
        }
    }
}

/// Distinct emoji flags occupy distinct bits: no aliasing under OR.
pub proof fn lemma_emoji_masks_disjoint(a: EmojiBits, b: EmojiBits)
    requires
        a != b,
    ensures
        a.spec_mask() & b.spec_mask() == 0,
{
    let ma = a.spec_mask();
    let mb = b.spec_mask();
    assert((ma == 0x01 || ma == 0x02 || ma == 0x04 || ma == 0x08 || ma == 0x10 || ma == 0x20) && (
    mb == 0x01 || mb == 0x02 || mb == 0x04 || mb == 0x08 || mb == 0x10 || mb == 0x20) && ma != mb
        ==> ma & mb == 0) by (bit_vector);
}

/// Per-page summary flags.
#[derive(Clone, Copy, Debug, PartialEq, Eq, Structural)]
pub enum PageBits {
    HasAnyNameExceptNr2,
    HasAnyUhdef,
    HasAnyAlias,
}

impl PageBits {
    /// Single-bit mask of the flag.
    pub open spec fn spec_mask(self) -> u8 {
        match self {
            PageBits::HasAnyNameExceptNr2 => 0x01,
            PageBits::HasAnyUhdef => 0x02,
            PageBits::HasAnyAlias => 0x04,
        }
    }

    #[verifier::when_used_as_spec(spec_mask)]
    pub fn mask(self) -> (r: u8)
        ensures
            r == self.spec_mask(),
    {
        match self {
            PageBits::HasAnyNameExceptNr2 => 0x01,
            PageBits::HasAnyUhdef => 0x02,
            PageBits::HasAnyAlias => 0x04,
        }
    }
}

proof fn lemma_or_preserves_other(x: u8, m1: u8, m2: u8)
    requires
        m1 & m2 == 0,
    ensures
        ((x | m1) & m2 == 0) == (x & m2 == 0),
{
    assert(m1 & m2 == 0 ==> (((x | m1) & m2 == 0) == (x & m2 == 0))) by (bit_vector);
}

proof fn lemma_or_sets_own(x: u8, m: u8)
    requires
        m != 0,
    ensures
        (x | m) & m != 0,
{
    assert(m != 0 ==> (x | m) & m != 0) by (bit_vector);
}

/// Set of general flags, packed into the byte written to the flag table.
#[derive(Clone, Copy, Debug, PartialEq, Eq, Structural)]
pub struct BitSet {
    pub bits: u8,
}

impl BitSet {
    /// Whether the flag is set.
    pub open spec fn has(self, b: Bits) -> bool {
        self.bits & b.spec_mask() != 0
    }

    /// The empty flag set: the absent indicator of the flag table.
    pub fn empty() -> (r: Self)
        ensures
            r.bits == 0,
            forall|b: Bits| !r.has(b),
    {
        proof {
            assert(forall|m: u8| 0u8 & m == 0) by (bit_vector);
        }
        BitSet { bits: 0 }
    }

    /// Checked OR-assignment: sets exactly the named flag, no aliasing.
    pub fn insert(&mut self, b: Bits)
        ensures
            final(self).bits == old(self).bits | b.spec_mask(),
            final(self).has(b),
            forall|b2: Bits| b2 != b ==> final(self).has(b2) == old(self).has(b2),
    {
        proof {
            lemma_or_sets_own(self.bits, b.spec_mask());
            assert forall|b2: Bits| b2 != b implies ((self.bits | b.spec_mask()) & b2.spec_mask()
                != 0) == (self.bits & b2.spec_mask() != 0) by {
                lemma_bits_masks_disjoint(b, b2);
                lemma_or_preserves_other(self.bits, b.spec_mask(), b2.spec_mask());
            }
        }
        self.bits = self.bits | b.mask();
    }

    /// Whether the flag is set.
    pub fn contains(&self, b: Bits) -> (r: bool)
        ensures
            r == self.has(b),
    {
        self.bits & b.mask() != 0
    }

    /// Whether no flag is set; true exactly on the zero byte.
    pub fn is_empty(&self) -> (r: bool)
        ensures
            r == (self.bits == 0),
    {
        self.bits == 0
    }
}

/// Set of emoji flags, packed into the byte written to the emoji flag table.
#[derive(Clone, Copy, Debug, PartialEq, Eq, Structural)]
pub struct EmojiBitSet {
    pub bits: u8,
}

impl EmojiBitSet {
    /// Whether the flag is set.
    pub open spec fn has(self, b: EmojiBits) -> bool {
        self.bits & b.spec_mask() != 0
    }

    /// The empty flag set: the absent indicator of the emoji flag table.
    pub fn empty() -> (r: Self)
        ensures
            r.bits == 0,
            forall|b: EmojiBits| !r.has(b),
    {
        proof {
            assert(forall|m: u8| 0u8 & m == 0) by (bit_vector);
        }
        EmojiBitSet { bits: 0 }
    }

    /// Checked OR-assignment: sets exactly the named flag, no aliasing.
    pub fn insert(&mut self, b: EmojiBits)
        ensures
            final(self).bits == old(self).bits | b.spec_mask(),
            final(self).has(b),
            forall|b2: EmojiBits| b2 != b ==> final(self).has(b2) == old(self).has(b2),
    {
        proof {
            lemma_or_sets_own(self.bits, b.spec_mask());
            assert forall|b2: EmojiBits| b2 != b implies ((self.bits | b.spec_mask())
                & b2.spec_mask() != 0) == (self.bits & b2.spec_mask() != 0) by {
                lemma_emoji_masks_disjoint(b, b2);
                lemma_or_preserves_other(self.bits, b.spec_mask(), b2.spec_mask());
            }
        }
        self.bits = self.bits | b.mask();
    }

    /// Whether the flag is set.
    pub fn contains(&self, b: EmojiBits) -> (r: bool)
        ensures
            r == self.has(b),
    {
        self.bits & b.mask() != 0
    }

    /// Whether no flag is set; true exactly on the zero byte.
    pub fn is_empty(&self) -> (r: bool)
        ensures
            r == (self.bits == 0),
    {
        self.bits == 0
    }
}

/// One name alias of a code point: interned string plus kind tag.
#[derive(Clone, Debug)]
pub struct Alias {
    pub inner: String,
    pub kind: AliasType,
}

impl Alias {
    /// Builds an alias from a borrowed label, as the fixed alias tables do.
    pub fn static_new(inner: &str, kind: AliasType) -> (r: Alias)
        ensures
            r.inner@ == inner@,
            r.kind == kind,
    {
        Alias { inner: inner.to_owned(), kind }
    }
}

/// Everything recorded about one code point across the parsing passes.
#[derive(Clone, Debug)]
pub struct Details {
    pub bits: BitSet,
    pub ebits: EmojiBitSet,
    pub name: Option<String>,
    pub alias: Vec<Alias>,
    pub dnrp: Option<String>,
    pub gb: Option<GraphemeBreak>,
    pub gc: Option<String>,
    pub block: Option<String>,
    pub age: Option<String>,
    pub hst: Option<HangulSyllableType>,
    pub hjsn: Option<String>,
    pub hlvt: Option<(usize, usize, usize)>,
    pub uhdef: Option<String>,
    pub uhman: Option<String>,
}

impl Details {
    /// The default-initialized record: no field set, no flag set.
    pub open spec fn is_default(self) -> bool {
        &&& self.bits.bits == 0
        &&& self.ebits.bits == 0
        &&& self.name is None
        &&& self.alias@.len() == 0
        &&& self.dnrp is None
        &&& self.gb is None
        &&& self.gc is None
        &&& self.block is None
        &&& self.age is None
        &&& self.hst is None
        &&& self.hjsn is None
        &&& self.hlvt is None
        &&& self.uhdef is None
        &&& self.uhman is None
    }
}

impl Default for Details {
    /// Builds the default-initialized record.
    fn default() -> (r: Self)
        ensures
            r.is_default(),
    {
        Details {
            bits: BitSet::empty(),
            ebits: EmojiBitSet::empty(),
            name: None,
            alias: Vec::new(),
            dnrp: None,
            gb: None,
            gc: None,
            block: None,
            age: None,
            hst: None,
            hjsn: None,
            hlvt: None,
            uhdef: None,
            uhman: None,
        }
    }
}

/// The pre-allocated record array: one default record per possible code point.
pub fn points() -> (r: Vec<Details>)
    ensures
        r@.len() == 0x110000,
        forall|i: int| 0 <= i < r@.len() ==> (#[trigger] r@[i]).is_default(),
{
    let mut r: Vec<Details> = Vec::new();
    let mut i: usize = 0;
    while i < 0x110000
        invariant
            i == r@.len(),
            i <= 0x110000,
            forall|j: int| 0 <= j < r@.len() ==> (#[trigger] r@[j]).is_default(),
        decreases 0x110000 - i,
    {
        r.push(Details::default());
        i = i + 1;
    }
    r
}

} // verus!
