//! Algorithmic name derivation: the fixed name-rule ranges, the derived-name
//! post-pass, and the Hangul L/V/T index derivation.

use vstd::prelude::*;

use crate::details::{Bits, Details, HangulSyllableType};
use crate::pool::Popularity;
use crate::text::{hex4, spec_hex4, str_concat};

verus! {

/// Unicode's two algorithmic naming rules: Hangul syllable naming, and
/// prefix-plus-hex-code-point naming.
#[derive(Clone, Copy, Debug, PartialEq, Eq, Structural)]
pub enum NameRule {
    Nr1,
    Nr2,
}

/// The number of fixed name-derivation ranges.
pub const NAME_RULE_COUNT: usize = 16;

/// The fixed name-derivation ranges: first and last code point, rule kind,
/// and prefix string.
pub open spec fn spec_name_rule(i: int) -> (usize, usize, NameRule, Seq<char>) {
    if i == 0 {
        (0xAC00, 0xD7A3, NameRule::Nr1, "HANGUL SYLLABLE "@)
    } else if i == 1 {
        (0x3400, 0x4DBF, NameRule::Nr2, "CJK UNIFIED IDEOGRAPH-"@)
    } else if i == 2 {
        (0x4E00, 0x9FFC, NameRule::Nr2, "CJK UNIFIED IDEOGRAPH-"@)
    } else if i == 3 {
        (0x20000, 0x2A6DD, NameRule::Nr2, "CJK UNIFIED IDEOGRAPH-"@)
    } else if i == 4 {
        (0x2A700, 0x2B734, NameRule::Nr2, "CJK UNIFIED IDEOGRAPH-"@)
    } else if i == 5 {
        (0x2B740, 0x2B81D, NameRule::Nr2, "CJK UNIFIED IDEOGRAPH-"@)
    } else if i == 6 {
        (0x2B820, 0x2CEA1, NameRule::Nr2, "CJK UNIFIED IDEOGRAPH-"@)
    } else if i == 7 {
        (0x2CEB0, 0x2EBE0, NameRule::Nr2, "CJK UNIFIED IDEOGRAPH-"@)
    } else if i == 8 {
        (0x30000, 0x3134A, NameRule::Nr2, "CJK UNIFIED IDEOGRAPH-"@)
    } else if i == 9 {
        (0x17000, 0x187F7, NameRule::Nr2, "TANGUT IDEOGRAPH-"@)
    } else if i == 10 {
        (0x18D00, 0x18D08, NameRule::Nr2, "TANGUT IDEOGRAPH-"@)
    } else if i == 11 {
        (0x18B00, 0x18CD5, NameRule::Nr2, "KHITAN SMALL SCRIPT CHARACTER-"@)
    } else if i == 12 {
        (0x1B170, 0x1B2FB, NameRule::Nr2, "NUSHU CHARACTER-"@)
    } else if i == 13 {
        (0xF900, 0xFA6D, NameRule::Nr2, "CJK COMPATIBILITY IDEOGRAPH-"@)
    } else if i == 14 {
        (0xFA70, 0xFAD9, NameRule::Nr2, "CJK COMPATIBILITY IDEOGRAPH-"@)
    } else {
        (0x2F800, 0x2FA1D, NameRule::Nr2, "CJK COMPATIBILITY IDEOGRAPH-"@)
    }
}

/// The fixed name-derivation table, one entry at a time.
pub fn name_rule(i: usize) -> (r: (usize, usize, NameRule, &'static str))
    requires
        i < NAME_RULE_COUNT,
    ensures
        r.0 == spec_name_rule(i as int).0,
        r.1 == spec_name_rule(i as int).1,
        r.2 == spec_name_rule(i as int).2,
        r.3@ == spec_name_rule(i as int).3,
{
    match i {
        0 => (0xAC00, 0xD7A3, NameRule::Nr1, "HANGUL SYLLABLE "),
        1 => (0x3400, 0x4DBF, NameRule::Nr2, "CJK UNIFIED IDEOGRAPH-"),
        2 => (0x4E00, 0x9FFC, NameRule::Nr2, "CJK UNIFIED IDEOGRAPH-"),
        3 => (0x20000, 0x2A6DD, NameRule::Nr2, "CJK UNIFIED IDEOGRAPH-"),
        4 => (0x2A700, 0x2B734, NameRule::Nr2, "CJK UNIFIED IDEOGRAPH-"),
        5 => (0x2B740, 0x2B81D, NameRule::Nr2, "CJK UNIFIED IDEOGRAPH-"),
        6 => (0x2B820, 0x2CEA1, NameRule::Nr2, "CJK UNIFIED IDEOGRAPH-"),
        7 => (0x2CEB0, 0x2EBE0, NameRule::Nr2, "CJK UNIFIED IDEOGRAPH-"),
        8 => (0x30000, 0x3134A, NameRule::Nr2, "CJK UNIFIED IDEOGRAPH-"),
        9 => (0x17000, 0x187F7, NameRule::Nr2, "TANGUT IDEOGRAPH-"),
        10 => (0x18D00, 0x18D08, NameRule::Nr2, "TANGUT IDEOGRAPH-"),
        11 => (0x18B00, 0x18CD5, NameRule::Nr2, "KHITAN SMALL SCRIPT CHARACTER-"),
        12 => (0x1B170, 0x1B2FB, NameRule::Nr2, "NUSHU CHARACTER-"),
        13 => (0xF900, 0xFA6D, NameRule::Nr2, "CJK COMPATIBILITY IDEOGRAPH-"),
        14 => (0xFA70, 0xFAD9, NameRule::Nr2, "CJK COMPATIBILITY IDEOGRAPH-"),
        _ => (0x2F800, 0x2FA1D, NameRule::Nr2, "CJK COMPATIBILITY IDEOGRAPH-"),
    }
}

/// Whether rule `r` covers code point `i`.
pub open spec fn rule_covers(r: int, i: int) -> bool {
    spec_name_rule(r).0 <= i <= spec_name_rule(r).1
}

/// The ranges of distinct rules never overlap.
pub proof fn lemma_rules_disjoint(r1: int, r2: int, i: int)
    requires
        0 <= r1 < 16,
        0 <= r2 < 16,
        r1 != r2,
        rule_covers(r1, i),
    ensures
        !rule_covers(r2, i),
{
}

/// Whether some rule with index below `r` covers code point `i`.
pub open spec fn covered_before(i: int, r: int) -> bool {
    exists|r2: int| 0 <= r2 < r && #[trigger] rule_covers(r2, i)
}

/// The rule covering code point `i`.
pub open spec fn covering_rule(i: int) -> int {
    choose|r: int| 0 <= r < 16 && #[trigger] rule_covers(r, i)
}

/// Whether code point `i` has an algorithmically derived name.
pub open spec fn has_derived_name(i: int) -> bool {
    covered_before(i, 16)
}

/// The algorithmically derived name of a code point under the NR2 rules:
/// the covering rule's prefix followed by the four-or-more-digit uppercase
/// hex code point. Hangul (NR1) code points get no textual derivation here.
pub open spec fn spec_derived_name(p: int) -> Option<Seq<char>> {
    if has_derived_name(p) && spec_name_rule(covering_rule(p)).2 == NameRule::Nr2 {
        Some(spec_name_rule(covering_rule(p)).3 + spec_hex4(p as nat))
    } else {
        None
    }
}

proof fn lemma_covering_rule_is(r: int, i: int)
    requires
        0 <= r < 16,
        rule_covers(r, i),
    ensures
        has_derived_name(i),
        covering_rule(i) == r,
{
    assert(covered_before(i, 16));
    let r2 = covering_rule(i);
    if r2 != r {
        lemma_rules_disjoint(r, r2, i);
    }
}

/// The derived name of a code point, or `None` outside every rule range.
/// The textual NR1 (Hangul syllable) derivation is not implemented, so the
/// Hangul range is excluded.
pub fn derived_name(point: usize) -> (r: Option<String>)
    requires
        !(0xAC00 <= point <= 0xD7A3),
    ensures
        r is Some == spec_derived_name(point as int) is Some,
        r matches Some(s) ==> spec_derived_name(point as int) == Some(s@),
{
    let mut i: usize = 0;
    while i < NAME_RULE_COUNT
        invariant
            !(0xAC00 <= point <= 0xD7A3),
            0 <= i <= 16,
            forall|r2: int| 0 <= r2 < i ==> !(#[trigger] rule_covers(r2, point as int)),
        decreases 16 - i,
    {
        let (first, last, rule, prefix) = name_rule(i);
        if first <= point && point <= last {
            proof {
                lemma_covering_rule_is(i as int, point as int);
                assert(rule == NameRule::Nr2);
            }
            let hex = hex4(point);
            return Some(str_concat(prefix, hex.as_str()));
        }
        i = i + 1;
    }
    proof {
        assert(!has_derived_name(point as int));
    }
    None
}

/// What the derived-name post-pass demands of the records: inside every rule
/// range, an explicit name may only be the exact algorithmically derived
/// name, and Hangul (NR1) code points carry no explicit name at all.
pub open spec fn name_rules_ok(ud: Seq<Details>) -> bool {
    forall|r: int, i: int|
        0 <= r < 16 && #[trigger] rule_covers(r, i) && 0 <= i < ud.len() ==> match spec_name_rule(
            r,
        ).2 {
            NameRule::Nr1 => (#[trigger] ud[i]).name is None,
            NameRule::Nr2 => (ud[i].name matches Some(nm) ==> nm@ == spec_name_rule(r).3
                + spec_hex4(i as nat)),
        }
}

/// How one record changes when rule `r` claims it: the explicit name is
/// stripped, the rule's prefix is recorded, the rule's derivation bit is set,
/// and every other field is untouched.
pub open spec fn rule_applied(pre: Details, post: Details, r: int) -> bool {
    &&& post.name is None
    &&& (post.dnrp matches Some(p) && p@ == spec_name_rule(r).3)
    &&& post.bits.bits == pre.bits.bits | (match spec_name_rule(r).2 {
        NameRule::Nr1 => Bits::DerivedNameNr1,
        NameRule::Nr2 => Bits::DerivedNameNr2,
    }).spec_mask()
    &&& post.ebits == pre.ebits
    &&& post.alias == pre.alias
    &&& post.gb == pre.gb
    &&& post.gc == pre.gc
    &&& post.block == pre.block
    &&& post.age == pre.age
    &&& post.hst == pre.hst
    &&& post.hjsn == pre.hjsn
    &&& post.hlvt == pre.hlvt
    &&& post.uhdef == pre.uhdef
    &&& post.uhman == pre.uhman
}

/// Number of votes rule `r` casts over a record array of length `len`.
pub open spec fn rule_votes(len: int, r: int) -> nat {
    let first = spec_name_rule(r).0 as int;
    let last = spec_name_rule(r).1 as int;
    let hi = if last + 1 <= len {
        last + 1
    } else {
        len
    };
    if first <= hi {
        (hi - first) as nat
    } else {
        0
    }
}

/// Number of votes the first `upto` rules cast for prefix string `s`.
pub open spec fn votes_for(s: Seq<char>, len: int, upto: int) -> nat
    decreases upto,
{
    if upto <= 0 {
        0
    } else {
        votes_for(s, len, upto - 1) + if spec_name_rule(upto - 1).3 == s {
            rule_votes(len, upto - 1)
        } else {
            0
        }
    }
}

proof fn lemma_votes_for_bound(s: Seq<char>, len: int, upto: int)
    requires
        0 <= upto <= 16,
        len <= 0x110000,
    ensures
        votes_for(s, len, upto) <= upto * 0x110000,
    decreases upto,
{
    if upto > 0 {
        lemma_votes_for_bound(s, len, upto - 1);
        assert(rule_votes(len, upto - 1) <= 0x110000);
    }
}

proof fn lemma_votes_for_monotone(s: Seq<char>, len: int, p: int, q: int)
    requires
        0 <= p <= q,
    ensures
        votes_for(s, len, p) <= votes_for(s, len, q),
    decreases q,
{
    if p < q {
        lemma_votes_for_monotone(s, len, p, q - 1);
    }
}

/// The derived-name post-pass: walks the sixteen algorithmic-name ranges;
/// for every covered code point it strips the explicit name, records the
/// rule's prefix through the pool, and sets the rule's derivation bit.
/// Requires the records to satisfy the name consistency check the pass
/// asserts: an explicit name inside a range equals the derived name.
pub fn apply_name_rules(ud: &mut Vec<Details>, popularity: &mut Popularity)
    requires
        old(ud)@.len() <= 0x110000,
        name_rules_ok(old(ud)@),
        old(popularity).wf(),
        forall|s: Seq<char>| #[trigger] old(popularity).count_of(s) <= u64::MAX - 0x1100000,
    ensures
        final(ud)@.len() == old(ud)@.len(),
        forall|i: int|
            0 <= i < old(ud)@.len() && has_derived_name(i) ==> rule_applied(
                old(ud)@[i],
                #[trigger] final(ud)@[i],
                covering_rule(i),
            ),
        forall|i: int|
            0 <= i < old(ud)@.len() && !has_derived_name(i) ==> #[trigger] final(ud)@[i] == old(
                ud,
            )@[i],
        final(popularity).wf(),
        forall|s: Seq<char>|
            #[trigger] final(popularity).count_of(s) == old(popularity).count_of(s) + votes_for(
                s,
                old(ud)@.len() as int,
                16,
            ),
        forall|s: Seq<char>|
            #[trigger] final(popularity).contains_key(s) == (old(popularity).contains_key(s)
                || votes_for(s, old(ud)@.len() as int, 16) > 0),
{
    let ghost len = ud@.len() as int;
    let mut r: usize = 0;
    while r < NAME_RULE_COUNT
        invariant
            ud@.len() == old(ud)@.len(),
            len == old(ud)@.len(),
            len <= 0x110000,
            name_rules_ok(old(ud)@),
            0 <= r <= 16,
            forall|i: int|
                0 <= i < len && covered_before(i, r as int) ==> rule_applied(
                    old(ud)@[i],
                    #[trigger] ud@[i],
                    covering_rule(i),
                ),
            forall|i: int|
                0 <= i < len && !covered_before(i, r as int) ==> #[trigger] ud@[i] == old(ud)@[i],
            popularity.wf(),
            forall|s: Seq<char>| #[trigger] old(popularity).count_of(s) <= u64::MAX - 0x1100000,
            forall|s: Seq<char>|
                #[trigger] popularity.count_of(s) == old(popularity).count_of(s) + votes_for(
                    s,
                    len,
                    r as int,
                ),
            forall|s: Seq<char>|
                #[trigger] popularity.contains_key(s) == (old(popularity).contains_key(s)
                    || votes_for(s, len, r as int) > 0),
        decreases 16 - r,
    {
        let (first, last, rule, prefix) = name_rule(r);
        let hi = if last + 1 <= ud.len() {
            last + 1
        } else {
            ud.len()
        };
        let bit = match rule {
            NameRule::Nr1 => Bits::DerivedNameNr1,
            NameRule::Nr2 => Bits::DerivedNameNr2,
        };
        let mut i: usize = first;
        while i < hi
            invariant
                ud@.len() == old(ud)@.len(),
                len == old(ud)@.len(),
                len <= 0x110000,
                name_rules_ok(old(ud)@),
                r < 16,
                first == spec_name_rule(r as int).0,
                hi == if spec_name_rule(r as int).1 + 1 <= len {
                    spec_name_rule(r as int).1 + 1
                } else {
                    len
                },
                prefix@ == spec_name_rule(r as int).3,
                bit == (match spec_name_rule(r as int).2 {
                    NameRule::Nr1 => Bits::DerivedNameNr1,
                    NameRule::Nr2 => Bits::DerivedNameNr2,
                }),
                first <= i <= if hi >= first {
                    hi
                } else {
                    first
                },
                forall|i2: int|
                    0 <= i2 < len && covered_before(i2, r as int) ==> rule_applied(
                        old(ud)@[i2],
                        #[trigger] ud@[i2],
                        covering_rule(i2),
                    ),
                forall|i2: int|
                    first <= i2 < i && i2 < len ==> rule_applied(
                        old(ud)@[i2],
                        #[trigger] ud@[i2],
                        r as int,
                    ),
                forall|i2: int|
                    0 <= i2 < len && !covered_before(i2, r as int) && !(first <= i2 < i)
                        ==> #[trigger] ud@[i2] == old(ud)@[i2],
                popularity.wf(),
                forall|s: Seq<char>|
                    #[trigger] old(popularity).count_of(s) <= u64::MAX - 0x1100000,
                forall|s: Seq<char>|
                    #[trigger] popularity.count_of(s) == old(popularity).count_of(s) + votes_for(
                        s,
                        len,
                        r as int,
                    ) + if spec_name_rule(r as int).3 == s {
                        (i - first) as nat
                    } else {
                        0nat
                    },
                forall|s: Seq<char>|
                    #[trigger] popularity.contains_key(s) == (old(popularity).contains_key(s)
                        || votes_for(s, len, r as int) > 0 || (spec_name_rule(r as int).3 == s && i
                        > first)),
            decreases hi - i,
        {
            proof {
                lemma_votes_for_bound(prefix@, len, r as int);
                assert(rule_votes(len, r as int) <= 0x110000);
                assert(popularity.count_of(prefix@) < u64::MAX);
                lemma_covering_rule_is(r as int, i as int);
            }
            let ghost pop_pre = *popularity;
            let ghost ud_pre = ud@;
            let handle = popularity.vote(prefix);
            ud[i].name = None;
            ud[i].dnrp = Some(handle);
            ud[i].bits.insert(bit);
            proof {
                assert(rule_applied(old(ud)@[i as int], ud@[i as int], r as int)) by {
                    assert(ud_pre[i as int] == old(ud)@[i as int]);
                }
                assert(forall|i2: int|
                    0 <= i2 < len && i2 != i ==> #[trigger] ud@[i2] == ud_pre[i2]);
                assert forall|s: Seq<char>| #[trigger]
                    popularity.count_of(s) == old(popularity).count_of(s) + votes_for(
                    s,
                    len,
                    r as int,
                ) + if spec_name_rule(r as int).3 == s {
                    (i + 1 - first) as nat
                } else {
                    0nat
                } by {
                    if s == prefix@ {
                        assert(popularity.count_of(s) == pop_pre.count_of(s) + 1);
                    } else {
                        assert(popularity.count_of(s) == pop_pre.count_of(s));
                    }
                }
            }
            i = i + 1;
        }
        proof {
            assert forall|i2: int|
                0 <= i2 < len && covered_before(i2, r + 1) implies rule_applied(
                old(ud)@[i2],
                #[trigger] ud@[i2],
                covering_rule(i2),
            ) by {
                let r2 = choose|r2: int| 0 <= r2 < r + 1 && #[trigger] rule_covers(r2, i2);
                lemma_covering_rule_is(r2, i2);
                if r2 == r as int {
                    assert(first <= i2 < hi);
                }
            }
            assert forall|i2: int|
                0 <= i2 < len && !covered_before(i2, r + 1) implies #[trigger] ud@[i2] == old(
                ud,
            )@[i2] by {
                assert(!rule_covers(r as int, i2));
            }
            assert forall|s: Seq<char>| #[trigger]
                popularity.count_of(s) == old(popularity).count_of(s) + votes_for(
                s,
                len,
                r + 1,
            ) by {
                if spec_name_rule(r as int).3 == s {
                    assert(hi >= first ==> hi - first == rule_votes(len, r as int));
                    assert(hi < first ==> rule_votes(len, r as int) == 0);
                }
            }
        }
        r = r + 1;
    }
}

/// The L, V and T indices owed to a precomposed Hangul syllable, from its
/// offset past the syllable base (V and T counts 21 and 28, their product
/// 588); `None` for records without a syllable type.
pub open spec fn spec_hangul_lvt(hst: Option<HangulSyllableType>, point: int) -> Option<
    (usize, usize, usize),
> {
    match hst {
        None => None,
        Some(_) => {
            let s_index = point - 0xAC00;
            Some(
                (
                    (s_index / 588) as usize,
                    ((s_index % 588) / 28) as usize,
                    (s_index % 28) as usize,
                ),
            )
        },
    }
}

/// Derives the Hangul L/V/T indices for one code point from its syllable
/// type; the T index is nonzero exactly on LVT syllables (asserted by the
/// precondition for LVT, and owed structurally to LV).
pub fn hangul_lvt_indices(data: &Vec<Details>, point: usize) -> (r: Option<(usize, usize, usize)>)
    requires
        point < data@.len(),
        data@[point as int].hst is Some ==> 0xAC00 <= point <= 0xD7A3,
        data@[point as int].hst == Some(HangulSyllableType::Lvt) ==> (point - 0xAC00) % 28 != 0,
    ensures
        r == spec_hangul_lvt(data@[point as int].hst, point as int),
        data@[point as int].hst == Some(HangulSyllableType::Lvt) ==> (r matches Some(lvt)
            && lvt.2 > 0),
{
    match data[point].hst {
        None => None,
        Some(_) => {
            let s_index = point - 0xAC00;
            let l_index = s_index / 588;
            let v_index = (s_index % 588) / 28;
            let t_index = s_index % 28;
            Some((l_index, v_index, t_index))
        },
    }
}

} // verus!
