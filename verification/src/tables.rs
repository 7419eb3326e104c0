//! Projections from the record array to the per-property paged tables.

use vstd::prelude::*;

use crate::details::{Bits, Details, PageBits};
use crate::paged::{
    dense_bytes_u16, dense_bytes_u8, dir_bytes_u16, dir_bytes_u8, sparse_lookup_u16,
    sparse_lookup_u8, write_sparse_u16, write_sparse_u8,
};
use crate::pool::Pool;

verus! {

/// One of the string-valued per-code-point properties.
#[derive(Clone, Copy, Debug, PartialEq, Eq, Structural)]
pub enum Field {
    Name,
    Dnrp,
    Gc,
    Block,
    Age,
    Hjsn,
    Uhdef,
    Uhman,
}

/// The chosen string field of a record, as a character sequence.
pub open spec fn field_of(d: Details, f: Field) -> Option<Seq<char>> {
    let o = match f {
        Field::Name => d.name,
        Field::Dnrp => d.dnrp,
        Field::Gc => d.gc,
        Field::Block => d.block,
        Field::Age => d.age,
        Field::Hjsn => d.hjsn,
        Field::Uhdef => d.uhdef,
        Field::Uhman => d.uhman,
    };
    match o {
        Some(s) => Some(s@),
        None => None,
    }
}

/// The pool indices owed to one string field across the record array.
pub open spec fn pool_index_proj(ud: Seq<Details>, pool: Pool, f: Field) -> Seq<Option<u16>> {
    Seq::new(
        ud.len(),
        |i: int|
            match field_of(ud[i], f) {
                Some(s) => Some(pool.spec_index_of(s) as u16),
                None => None,
            },
    )
}

/// Encodes one string-valued property as a paged table of 16-bit pool
/// indices, absent entries written as 0xFFFF.
pub fn write_pool_indices(ud: &Vec<Details>, pool: &Pool, f: Field) -> (out: Vec<u8>)
    requires
        ud@.len() <= 0x110000,
        pool.wf(),
        pool.spec_len() <= 0xFFFF,
        forall|i: int|
            0 <= i < ud@.len() ==> ((#[trigger] field_of(ud@[i], f)) matches Some(s)
                ==> pool.contains_str(s)),
    ensures
        out@ == dir_bytes_u16(pool_index_proj(ud@, *pool, f), ud@.len() as int / 256)
            + dense_bytes_u16(
            pool_index_proj(ud@, *pool, f),
            0xFFFF,
            ud@.len() as int / 256,
        ),
        forall|c: int|
            0 <= c < (ud@.len() as int / 256) * 256 ==> sparse_lookup_u16(
                out@,
                ud@.len() as int / 256,
                0xFFFF,
                c,
            ) == pool_index_proj(ud@, *pool, f)[c],
{
    let ghost proj = pool_index_proj(ud@, *pool, f);
    let mut values: Vec<Option<u16>> = Vec::new();
    let mut i: usize = 0;
    while i < ud.len()
        invariant
            ud@.len() <= 0x110000,
            pool.wf(),
            pool.spec_len() <= 0xFFFF,
            forall|j: int|
                0 <= j < ud@.len() ==> ((#[trigger] field_of(ud@[j], f)) matches Some(s)
                    ==> pool.contains_str(s)),
            proj == pool_index_proj(ud@, *pool, f),
            i == values@.len(),
            0 <= i <= ud@.len(),
            forall|j: int| 0 <= j < i ==> values@[j] == proj[j],
        decreases ud@.len() - i,
    {
        let d = &ud[i];
        let s: &Option<String> = match f {
            Field::Name => &d.name,
            Field::Dnrp => &d.dnrp,
            Field::Gc => &d.gc,
            Field::Block => &d.block,
            Field::Age => &d.age,
            Field::Hjsn => &d.hjsn,
            Field::Uhdef => &d.uhdef,
            Field::Uhman => &d.uhman,
        };
        match s {
            Some(string) => {
                proof {
                    assert(field_of(ud@[i as int], f) == Some(string@));
                }
                let idx = pool.use_index(string.as_str());
                values.push(Some(idx as u16));
            },
            None => {
                values.push(None);
            },
        }
        i = i + 1;
    }
    proof {
        assert(values@ =~= proj);
        assert(forall|j: int| 0 <= j < proj.len() ==> proj[j] != Some(0xFFFFu16));
    }
    write_sparse_u16(&values, 0xFFFF)
}

/// The general-flag byte owed to each record: absent when no flag is set.
pub open spec fn bits_proj(ud: Seq<Details>) -> Seq<Option<u8>> {
    Seq::new(
        ud.len(),
        |i: int|
            if ud[i].bits.bits == 0 {
                None
            } else {
                Some(ud[i].bits.bits)
            },
    )
}

/// Encodes the general flag bytes as a paged table, absent written as 0.
pub fn write_bits(ud: &Vec<Details>) -> (out: Vec<u8>)
    requires
        ud@.len() <= 0x110000,
    ensures
        out@ == dir_bytes_u8(bits_proj(ud@), ud@.len() as int / 256) + dense_bytes_u8(
            bits_proj(ud@),
            0,
            ud@.len() as int / 256,
        ),
        forall|c: int|
            0 <= c < (ud@.len() as int / 256) * 256 ==> sparse_lookup_u8(
                out@,
                ud@.len() as int / 256,
                0,
                c,
            ) == bits_proj(ud@)[c],
{
    let ghost proj = bits_proj(ud@);
    let mut values: Vec<Option<u8>> = Vec::new();
    let mut i: usize = 0;
    while i < ud.len()
        invariant
            proj == bits_proj(ud@),
            i == values@.len(),
            0 <= i <= ud@.len(),
            forall|j: int| 0 <= j < i ==> values@[j] == proj[j],
        decreases ud@.len() - i,
    {
        if ud[i].bits.is_empty() {
            values.push(None);
        } else {
            values.push(Some(ud[i].bits.bits));
        }
        i = i + 1;
    }
    proof {
        assert(values@ =~= proj);
    }
    write_sparse_u8(&values, 0)
}

/// The emoji-flag byte owed to each record: absent when no flag is set.
pub open spec fn ebits_proj(ud: Seq<Details>) -> Seq<Option<u8>> {
    Seq::new(
        ud.len(),
        |i: int|
            if ud[i].ebits.bits == 0 {
                None
            } else {
                Some(ud[i].ebits.bits)
            },
    )
}

/// Encodes the emoji flag bytes as a paged table, absent written as 0.
pub fn write_ebits(ud: &Vec<Details>) -> (out: Vec<u8>)
    requires
        ud@.len() <= 0x110000,
    ensures
        out@ == dir_bytes_u8(ebits_proj(ud@), ud@.len() as int / 256) + dense_bytes_u8(
            ebits_proj(ud@),
            0,
            ud@.len() as int / 256,
        ),
        forall|c: int|
            0 <= c < (ud@.len() as int / 256) * 256 ==> sparse_lookup_u8(
                out@,
                ud@.len() as int / 256,
                0,
                c,
            ) == ebits_proj(ud@)[c],
{
    let ghost proj = ebits_proj(ud@);
    let mut values: Vec<Option<u8>> = Vec::new();
    let mut i: usize = 0;
    while i < ud.len()
        invariant
            proj == ebits_proj(ud@),
            i == values@.len(),
            0 <= i <= ud@.len(),
            forall|j: int| 0 <= j < i ==> values@[j] == proj[j],
        decreases ud@.len() - i,
    {
        if ud[i].ebits.is_empty() {
            values.push(None);
        } else {
            values.push(Some(ud[i].ebits.bits));
        }
        i = i + 1;
    }
    proof {
        assert(values@ =~= proj);
    }
    write_sparse_u8(&values, 0)
}

/// The packed Hangul triple of a record: the high bit set, then the L, V and
/// T indices in five bits each.
pub open spec fn hlvt_packed(l: int, v: int, t: int) -> int {
    0x8000 + l * 1024 + v * 32 + t
}

/// The packed Hangul triple owed to each record.
pub open spec fn hlvt_proj(ud: Seq<Details>) -> Seq<Option<u16>> {
    Seq::new(
        ud.len(),
        |i: int|
            match ud[i].hlvt {
                Some(lvt) => Some(hlvt_packed(lvt.0 as int, lvt.1 as int, lvt.2 as int) as u16),
                None => None,
            },
    )
}

/// Encodes the packed Hangul triples as a paged table, absent written as 0;
/// every real value carries the reserved high bit.
pub fn write_hlvt(ud: &Vec<Details>) -> (out: Vec<u8>)
    requires
        ud@.len() <= 0x110000,
        forall|i: int|
            0 <= i < ud@.len() ==> ((#[trigger] ud@[i].hlvt) matches Some(lvt) ==> lvt.0 < 32
                && lvt.1 < 32 && lvt.2 < 32),
    ensures
        out@ == dir_bytes_u16(hlvt_proj(ud@), ud@.len() as int / 256) + dense_bytes_u16(
            hlvt_proj(ud@),
            0,
            ud@.len() as int / 256,
        ),
        forall|c: int|
            0 <= c < (ud@.len() as int / 256) * 256 ==> sparse_lookup_u16(
                out@,
                ud@.len() as int / 256,
                0,
                c,
            ) == hlvt_proj(ud@)[c],
{
    let ghost proj = hlvt_proj(ud@);
    let mut values: Vec<Option<u16>> = Vec::new();
    let mut i: usize = 0;
    while i < ud.len()
        invariant
            forall|j: int|
                0 <= j < ud@.len() ==> ((#[trigger] ud@[j].hlvt) matches Some(lvt) ==> lvt.0 < 32
                    && lvt.1 < 32 && lvt.2 < 32),
            proj == hlvt_proj(ud@),
            i == values@.len(),
            0 <= i <= ud@.len(),
            forall|j: int| 0 <= j < i ==> values@[j] == proj[j],
        decreases ud@.len() - i,
    {
        match ud[i].hlvt {
            Some((l, v, t)) => {
                let packed: u16 = 0x8000 + (l as u16) * 1024 + (v as u16) * 32 + (t as u16);
                values.push(Some(packed));
            },
            None => {
                values.push(None);
            },
        }
        i = i + 1;
    }
    proof {
        assert(values@ =~= proj);
        assert(forall|j: int| 0 <= j < proj.len() ==> proj[j] != Some(0u16));
    }
    write_sparse_u16(&values, 0)
}

/// The grapheme-break class code owed to each record.
pub open spec fn gb_proj(ud: Seq<Details>) -> Seq<Option<u8>> {
    Seq::new(
        ud.len(),
        |i: int|
            match ud[i].gb {
                Some(g) => Some(g.spec_code()),
                None => None,
            },
    )
}

/// Encodes the grapheme-break class codes as a paged table, absent written
/// as 0; every real code is nonzero.
pub fn write_gb(ud: &Vec<Details>) -> (out: Vec<u8>)
    requires
        ud@.len() <= 0x110000,
    ensures
        out@ == dir_bytes_u8(gb_proj(ud@), ud@.len() as int / 256) + dense_bytes_u8(
            gb_proj(ud@),
            0,
            ud@.len() as int / 256,
        ),
        forall|c: int|
            0 <= c < (ud@.len() as int / 256) * 256 ==> sparse_lookup_u8(
                out@,
                ud@.len() as int / 256,
                0,
                c,
            ) == gb_proj(ud@)[c],
{
    let ghost proj = gb_proj(ud@);
    let mut values: Vec<Option<u8>> = Vec::new();
    let mut i: usize = 0;
    while i < ud.len()
        invariant
            proj == gb_proj(ud@),
            i == values@.len(),
            0 <= i <= ud@.len(),
            forall|j: int| 0 <= j < i ==> values@[j] == proj[j],
        decreases ud@.len() - i,
    {
        match ud[i].gb {
            Some(g) => {
                values.push(Some(g.code()));
            },
            None => {
                values.push(None);
            },
        }
        i = i + 1;
    }
    proof {
        assert(values@ =~= proj);
        assert(forall|j: int| 0 <= j < proj.len() ==> proj[j] != Some(0u8));
    }
    write_sparse_u8(&values, 0)
}

/// Whether some record in `[lo, hi)` has a name outside the NR2 derivation:
/// an explicit name, or the NR1 (Hangul) derivation flag.
pub open spec fn page_has_name_except_nr2(ud: Seq<Details>, lo: int, hi: int) -> bool {
    exists|i: int|
        lo <= i < hi && ((#[trigger] ud[i].name) is Some || ud[i].bits.has(Bits::DerivedNameNr1))
}

/// Whether some record in `[lo, hi)` has a Unihan definition.
pub open spec fn page_has_uhdef(ud: Seq<Details>, lo: int, hi: int) -> bool {
    exists|i: int| lo <= i < hi && (#[trigger] ud[i].uhdef) is Some
}

/// Whether some record in `[lo, hi)` has an alias.
pub open spec fn page_has_alias(ud: Seq<Details>, lo: int, hi: int) -> bool {
    exists|i: int| lo <= i < hi && (#[trigger] ud[i].alias)@.len() > 0
}

/// The summary byte of the page covering `[lo, hi)`.
pub open spec fn page_summary_byte(ud: Seq<Details>, lo: int, hi: int) -> u8 {
    ((if page_has_name_except_nr2(ud, lo, hi) {
        PageBits::HasAnyNameExceptNr2.spec_mask() as int
    } else {
        0int
    }) + (if page_has_uhdef(ud, lo, hi) {
        PageBits::HasAnyUhdef.spec_mask() as int
    } else {
        0int
    }) + (if page_has_alias(ud, lo, hi) {
        PageBits::HasAnyAlias.spec_mask() as int
    } else {
        0int
    })) as u8
}

/// The page-summary file: one byte per 256-code-point page, bit 0 for any
/// name outside NR2 derivation, bit 1 for any Unihan definition, bit 2 for
/// any alias.
pub fn write_page_bits(ud: &Vec<Details>) -> (out: Vec<u8>)
    requires
        ud@.len() <= 0x110000,
    ensures
        out@.len() == (ud@.len() + 255) as int / 256,
        forall|p: int|
            0 <= p < out@.len() ==> #[trigger] out@[p] == page_summary_byte(
                ud@,
                p * 256,
                if p * 256 + 256 <= ud@.len() {
                    p * 256 + 256
                } else {
                    ud@.len() as int
                },
            ),
{
    let pages = (ud.len() + 255) / 256;
    let mut out: Vec<u8> = Vec::new();
    let mut p: usize = 0;
    while p < pages
        invariant
            ud@.len() <= 0x110000,
            pages == (ud@.len() + 255) as int / 256,
            p == out@.len(),
            0 <= p <= pages,
            forall|q: int|
                0 <= q < p ==> #[trigger] out@[q] == page_summary_byte(
                    ud@,
                    q * 256,
                    if q * 256 + 256 <= ud@.len() {
                        q * 256 + 256
                    } else {
                        ud@.len() as int
                    },
                ),
        decreases pages - p,
    {
        let lo = p * 256;
        let hi = if lo + 256 <= ud.len() {
            lo + 256
        } else {
            ud.len()
        };
        let mut has_name = false;
        let mut has_uhdef = false;
        let mut has_alias = false;
        let mut i = lo;
        while i < hi
            invariant
                lo <= i <= hi <= ud@.len(),
                has_name == page_has_name_except_nr2(ud@, lo as int, i as int),
                has_uhdef == page_has_uhdef(ud@, lo as int, i as int),
                has_alias == page_has_alias(ud@, lo as int, i as int),
            decreases hi - i,
        {
            if ud[i].name.is_some() || ud[i].bits.contains(Bits::DerivedNameNr1) {
                has_name = true;
            }
            if ud[i].uhdef.is_some() {
                has_uhdef = true;
            }
            if ud[i].alias.len() > 0 {
                has_alias = true;
            }
            i = i + 1;
        }
        let value: u8 = (if has_name {
            PageBits::HasAnyNameExceptNr2.mask()
        } else {
            0u8
        }) + (if has_uhdef {
            PageBits::HasAnyUhdef.mask()
        } else {
            0u8
        }) + (if has_alias {
            PageBits::HasAnyAlias.mask()
        } else {
            0u8
        });
        out.push(value);
        p = p + 1;
    }
    out
}

} // verus!
