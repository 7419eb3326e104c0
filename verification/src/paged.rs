//! Sparse paged array encoder: one property across all code points becomes a
//! page directory (16-bit big-endian page ordinals, 0xFFFF for empty pages)
//! followed by a dense value stream holding 256 serialized values for every
//! non-empty page, value-less elements written as the placeholder.

use vstd::prelude::*;
use vstd::arithmetic::div_mod::lemma_fundamental_div_mod;

verus! {

/// Big-endian bytes of a 16-bit value.
pub open spec fn spec_be16(x: int) -> Seq<u8>
    recommends
        0 <= x < 0x10000,
{
    seq![(x / 256) as u8, (x % 256) as u8]
}

/// The 16-bit big-endian value at byte offset `off`.
pub open spec fn read_be16(bytes: Seq<u8>, off: int) -> int
    recommends
        0 <= off,
        off + 2 <= bytes.len(),
{
    (bytes[off] as int) * 256 + (bytes[off + 1] as int)
}

pub(crate) proof fn lemma_read_be16_of_spec(prefix: Seq<u8>, x: int)
    requires
        0 <= x < 0x10000,
    ensures
        read_be16(prefix + spec_be16(x), prefix.len() as int) == x,
{
    let s = prefix + spec_be16(x);
    assert(s[prefix.len() as int] == (x / 256) as u8);
    assert(s[prefix.len() as int + 1] == (x % 256) as u8);
    lemma_fundamental_div_mod(x, 256);
}

pub(crate) proof fn lemma_read_be16_prefix(a: Seq<u8>, b: Seq<u8>, off: int)
    requires
        0 <= off,
        off + 2 <= a.len(),
    ensures
        read_be16(a + b, off) == read_be16(a, off),
{
    assert((a + b)[off] == a[off]);
    assert((a + b)[off + 1] == a[off + 1]);
}

/// Whether any element of page `p` has a value.
pub open spec fn page_nonempty_u16(values: Seq<Option<u16>>, p: int) -> bool {
    exists|j: int| 0 <= j < 256 && (#[trigger] values[p * 256 + j]) is Some
}

/// Number of non-empty pages strictly before page `p`.
pub open spec fn nonempty_before_u16(values: Seq<Option<u16>>, p: int) -> nat
    decreases p,
{
    if p <= 0 {
        0
    } else {
        nonempty_before_u16(values, p - 1) + if page_nonempty_u16(values, p - 1) {
            1nat
        } else {
            0nat
        }
    }
}

proof fn lemma_nonempty_before_u16_le(values: Seq<Option<u16>>, p: int)
    requires
        p >= 0,
    ensures
        nonempty_before_u16(values, p) <= p,
    decreases p,
{
    if p > 0 {
        lemma_nonempty_before_u16_le(values, p - 1);
    }
}

proof fn lemma_nonempty_before_u16_monotone(values: Seq<Option<u16>>, p: int, q: int)
    requires
        0 <= p <= q,
    ensures
        nonempty_before_u16(values, p) <= nonempty_before_u16(values, q),
    decreases q,
{
    if p < q {
        lemma_nonempty_before_u16_monotone(values, p, q - 1);
    }
}

/// Directory entry of page `q`: its ordinal among non-empty pages, or 0xFFFF.
pub open spec fn dir_entry_u16(values: Seq<Option<u16>>, q: int) -> int {
    if page_nonempty_u16(values, q) {
        nonempty_before_u16(values, q) as int
    } else {
        0xFFFF
    }
}

/// The page directory over the first `p` pages.
pub open spec fn dir_bytes_u16(values: Seq<Option<u16>>, p: int) -> Seq<u8>
    decreases p,
{
    if p <= 0 {
        Seq::empty()
    } else {
        dir_bytes_u16(values, p - 1) + spec_be16(dir_entry_u16(values, p - 1))
    }
}

proof fn lemma_dir_bytes_u16_len(values: Seq<Option<u16>>, p: int)
    requires
        p >= 0,
    ensures
        dir_bytes_u16(values, p).len() == 2 * p,
    decreases p,
{
    if p > 0 {
        lemma_dir_bytes_u16_len(values, p - 1);
    }
}

proof fn lemma_dir_bytes_u16_read(values: Seq<Option<u16>>, p: int, q: int)
    requires
        0 <= q < p,
        p * 256 <= values.len(),
        values.len() <= 0x110000,
    ensures
        read_be16(dir_bytes_u16(values, p), 2 * q) == dir_entry_u16(values, q),
    decreases p,
{
    lemma_dir_bytes_u16_len(values, p - 1);
    if q == p - 1 {
        lemma_nonempty_before_u16_le(values, q);
        lemma_read_be16_of_spec(dir_bytes_u16(values, p - 1), dir_entry_u16(values, q));
    } else {
        lemma_dir_bytes_u16_read(values, p - 1, q);
        lemma_read_be16_prefix(
            dir_bytes_u16(values, p - 1),
            spec_be16(dir_entry_u16(values, p - 1)),
            2 * q,
        );
    }
}

/// The serialized value of element `c`: its value, or the placeholder.
pub open spec fn dense_val_u16(values: Seq<Option<u16>>, placeholder: u16, c: int) -> int {
    match values[c] {
        Some(v) => v as int,
        None => placeholder as int,
    }
}

/// The first `j` serialized values of page `p`.
pub open spec fn page_bytes_u16(values: Seq<Option<u16>>, placeholder: u16, p: int, j: int) -> Seq<
    u8,
>
    decreases j,
{
    if j <= 0 {
        Seq::empty()
    } else {
        page_bytes_u16(values, placeholder, p, j - 1) + spec_be16(
            dense_val_u16(values, placeholder, p * 256 + j - 1),
        )
    }
}

proof fn lemma_page_bytes_u16_len(values: Seq<Option<u16>>, placeholder: u16, p: int, j: int)
    requires
        j >= 0,
    ensures
        page_bytes_u16(values, placeholder, p, j).len() == 2 * j,
    decreases j,
{
    if j > 0 {
        lemma_page_bytes_u16_len(values, placeholder, p, j - 1);
    }
}

proof fn lemma_page_bytes_u16_read(
    values: Seq<Option<u16>>,
    placeholder: u16,
    p: int,
    j: int,
    t: int,
)
    requires
        0 <= t < j,
    ensures
        read_be16(page_bytes_u16(values, placeholder, p, j), 2 * t) == dense_val_u16(
            values,
            placeholder,
            p * 256 + t,
        ),
    decreases j,
{
    lemma_page_bytes_u16_len(values, placeholder, p, j - 1);
    if t == j - 1 {
        lemma_read_be16_of_spec(
            page_bytes_u16(values, placeholder, p, j - 1),
            dense_val_u16(values, placeholder, p * 256 + t),
        );
    } else {
        lemma_page_bytes_u16_read(values, placeholder, p, j - 1, t);
        lemma_read_be16_prefix(
            page_bytes_u16(values, placeholder, p, j - 1),
            spec_be16(dense_val_u16(values, placeholder, p * 256 + j - 1)),
            2 * t,
        );
    }
}

/// The dense value stream over the first `p` pages.
pub open spec fn dense_bytes_u16(values: Seq<Option<u16>>, placeholder: u16, p: int) -> Seq<u8>
    decreases p,
{
    if p <= 0 {
        Seq::empty()
    } else {
        dense_bytes_u16(values, placeholder, p - 1) + if page_nonempty_u16(values, p - 1) {
            page_bytes_u16(values, placeholder, p - 1, 256)
        } else {
            Seq::empty()
        }
    }
}

proof fn lemma_dense_bytes_u16_len(values: Seq<Option<u16>>, placeholder: u16, p: int)
    requires
        p >= 0,
    ensures
        dense_bytes_u16(values, placeholder, p).len() == 512 * nonempty_before_u16(values, p),
    decreases p,
{
    if p > 0 {
        lemma_dense_bytes_u16_len(values, placeholder, p - 1);
        if page_nonempty_u16(values, p - 1) {
            lemma_page_bytes_u16_len(values, placeholder, p - 1, 256);
        }
    }
}

proof fn lemma_dense_bytes_u16_read(
    values: Seq<Option<u16>>,
    placeholder: u16,
    p: int,
    q: int,
    t: int,
)
    requires
        0 <= q < p,
        0 <= t < 256,
        page_nonempty_u16(values, q),
    ensures
        read_be16(
            dense_bytes_u16(values, placeholder, p),
            512 * nonempty_before_u16(values, q) + 2 * t,
        ) == dense_val_u16(values, placeholder, q * 256 + t),
    decreases p,
{
    lemma_dense_bytes_u16_len(values, placeholder, p - 1);
    if q == p - 1 {
        lemma_page_bytes_u16_read(values, placeholder, q, 256, t);
        let prefix = dense_bytes_u16(values, placeholder, p - 1);
        let block = page_bytes_u16(values, placeholder, q, 256);
        lemma_page_bytes_u16_len(values, placeholder, q, 256);
        assert forall|i: int| 0 <= i < block.len() implies (prefix + block)[prefix.len() + i]
            == block[i] by {}
        assert(read_be16(prefix + block, prefix.len() as int + 2 * t) == read_be16(block, 2 * t));
    } else {
        lemma_dense_bytes_u16_read(values, placeholder, p - 1, q, t);
        lemma_nonempty_before_u16_monotone(values, q + 1, p - 1);
        lemma_page_bytes_u16_len(values, placeholder, p - 1, 256);
        if page_nonempty_u16(values, p - 1) {
            lemma_read_be16_prefix(
                dense_bytes_u16(values, placeholder, p - 1),
                page_bytes_u16(values, placeholder, p - 1, 256),
                512 * nonempty_before_u16(values, q) as int + 2 * t,
            );
        } else {
            assert(dense_bytes_u16(values, placeholder, p) =~= dense_bytes_u16(
                values,
                placeholder,
                p - 1,
            ) + Seq::<u8>::empty());
            lemma_read_be16_prefix(
                dense_bytes_u16(values, placeholder, p - 1),
                Seq::<u8>::empty(),
                512 * nonempty_before_u16(values, q) as int + 2 * t,
            );
        }
    }
}

/// Decoding of one element from an encoded table: `None` when the page is
/// absent, when the stored value is the placeholder, or when the table is
/// too short; the stored value otherwise.
pub open spec fn sparse_lookup_u16(bytes: Seq<u8>, pages: int, placeholder: u16, c: int) -> Option<
    u16,
> {
    if !(0 <= c < pages * 256) || bytes.len() < 2 * pages {
        None
    } else {
        let p = c / 256;
        let d = read_be16(bytes, 2 * p);
        if d == 0xFFFF {
            None
        } else {
            let off = 2 * pages + 512 * d + 2 * (c % 256);
            if off + 2 <= bytes.len() {
                let v = read_be16(bytes, off);
                if v == placeholder as int {
                    None
                } else {
                    Some(v as u16)
                }
            } else {
                None
            }
        }
    }
}

/// The round trip of the paged encoding, for every element: looking an
/// element up in the encoded table gives back exactly the value that was
/// encoded, and the absent indicator where there was none.
pub proof fn lemma_sparse_roundtrip_u16(values: Seq<Option<u16>>, placeholder: u16, c: int)
    requires
        values.len() <= 0x110000,
        forall|i: int| 0 <= i < values.len() ==> values[i] != Some(placeholder),
        0 <= c < (values.len() as int / 256) * 256,
    ensures
        sparse_lookup_u16(
            dir_bytes_u16(values, values.len() as int / 256) + dense_bytes_u16(
                values,
                placeholder,
                values.len() as int / 256,
            ),
            values.len() as int / 256,
            placeholder,
            c,
        ) == values[c],
{
    let pages = values.len() as int / 256;
    let bytes = dir_bytes_u16(values, pages) + dense_bytes_u16(values, placeholder, pages);
    let p = c / 256;
    let t = c % 256;
    lemma_fundamental_div_mod(c, 256);
    assert(0 <= p < pages);
    assert(0 <= t < 256);
    lemma_dir_bytes_u16_len(values, pages);
    lemma_dense_bytes_u16_len(values, placeholder, pages);
    lemma_fundamental_div_mod(values.len() as int, 256);
    assert(pages * 256 <= values.len());
    lemma_dir_bytes_u16_read(values, pages, p);
    lemma_read_be16_prefix(
        dir_bytes_u16(values, pages),
        dense_bytes_u16(values, placeholder, pages),
        2 * p,
    );
    assert(read_be16(bytes, 2 * p) == dir_entry_u16(values, p));
    lemma_nonempty_before_u16_le(values, p);
    if page_nonempty_u16(values, p) {
        let d = nonempty_before_u16(values, p) as int;
        assert(d < 0xFFFF);
        lemma_dense_bytes_u16_read(values, placeholder, pages, p, t);
        lemma_nonempty_before_u16_monotone(values, p + 1, pages);
        assert(512 * d + 512 <= 512 * nonempty_before_u16(values, pages));
        let prefix = dir_bytes_u16(values, pages);
        let dense = dense_bytes_u16(values, placeholder, pages);
        assert forall|i: int| 0 <= i < dense.len() implies (prefix + dense)[prefix.len() + i]
            == dense[i] by {}
        assert(read_be16(bytes, 2 * pages + 512 * d + 2 * t) == read_be16(dense, 512 * d + 2 * t));
        assert(read_be16(dense, 512 * d + 2 * t) == dense_val_u16(values, placeholder, c));
        if values[c] is Some {
            assert(values[c] != Some(placeholder));
            assert(dense_val_u16(values, placeholder, c) != placeholder as int);
            assert(sparse_lookup_u16(bytes, pages, placeholder, c) == values[c]);
        } else {
            assert(dense_val_u16(values, placeholder, c) == placeholder as int);
            assert(sparse_lookup_u16(bytes, pages, placeholder, c) is None);
        }
    } else {
        assert(values[c] is None) by {
            if values[c] is Some {
                assert(values[p * 256 + t] is Some);
                assert(page_nonempty_u16(values, p));
            }
        }
        assert(sparse_lookup_u16(bytes, pages, placeholder, c) is None);
    }
}

/// Appends the big-endian bytes of a 16-bit value.
pub(crate) fn push_be16(out: &mut Vec<u8>, x: u16)
    ensures
        final(out)@ == old(out)@ + spec_be16(x as int),
{
    out.push((x / 256) as u8);
    out.push((x % 256) as u8);
    proof {
        assert(final(out)@ =~= old(out)@ + spec_be16(x as int));
    }
}

/// Serializes one property across all elements into the paged form: the page
/// directory followed by the dense stream. No real value may equal the
/// placeholder. Looking up any covered element in the result returns exactly
/// the value encoded for it.
pub fn write_sparse_u16(values: &Vec<Option<u16>>, placeholder: u16) -> (out: Vec<u8>)
    requires
        values@.len() <= 0x110000,
        forall|i: int| 0 <= i < values@.len() ==> values@[i] != Some(placeholder),
    ensures
        out@ == dir_bytes_u16(values@, values@.len() as int / 256) + dense_bytes_u16(
            values@,
            placeholder,
            values@.len() as int / 256,
        ),
        forall|c: int|
            0 <= c < (values@.len() as int / 256) * 256 ==> sparse_lookup_u16(
                out@,
                values@.len() as int / 256,
                placeholder,
                c,
            ) == values@[c],
{
    let pages = values.len() / 256;
    proof {
        lemma_fundamental_div_mod(values@.len() as int, 256);
    }
    let mut page_has: Vec<bool> = Vec::new();
    let mut p: usize = 0;
    while p < pages
        invariant
            values@.len() <= 0x110000,
            pages == values@.len() as int / 256,
            pages * 256 <= values@.len(),
            p == page_has@.len(),
            0 <= p <= pages,
            forall|q: int| 0 <= q < p ==> page_has@[q] == page_nonempty_u16(values@, q),
        decreases pages - p,
    {
        let mut has = false;
        let mut j: usize = 0;
        while j < 256
            invariant
                values@.len() <= 0x110000,
                pages == values@.len() as int / 256,
                pages * 256 <= values@.len(),
                p < pages,
                0 <= j <= 256,
                has == exists|t: int| 0 <= t < j && (#[trigger] values@[p * 256 + t]) is Some,
            decreases 256 - j,
        {
            if values[p * 256 + j].is_some() {
                has = true;
            }
            j = j + 1;
        }
        page_has.push(has);
        p = p + 1;
    }
    let mut out: Vec<u8> = Vec::new();
    let mut ordinal: u16 = 0;
    let mut p: usize = 0;
    while p < pages
        invariant
            values@.len() <= 0x110000,
            pages == values@.len() as int / 256,
            pages == page_has@.len(),
            forall|q: int| 0 <= q < pages ==> page_has@[q] == page_nonempty_u16(values@, q),
            0 <= p <= pages,
            ordinal == nonempty_before_u16(values@, p as int),
            ordinal <= p,
            out@ == dir_bytes_u16(values@, p as int),
        decreases pages - p,
    {
        proof {
            lemma_nonempty_before_u16_le(values@, p as int);
        }
        if page_has[p] {
            push_be16(&mut out, ordinal);
            ordinal = ordinal + 1;
        } else {
            push_be16(&mut out, 0xFFFF);
        }
        p = p + 1;
    }
    let ghost dir = out@;
    let mut p: usize = 0;
    while p < pages
        invariant
            values@.len() <= 0x110000,
            pages == values@.len() as int / 256,
            pages * 256 <= values@.len(),
            pages == page_has@.len(),
            forall|q: int| 0 <= q < pages ==> page_has@[q] == page_nonempty_u16(values@, q),
            0 <= p <= pages,
            dir == dir_bytes_u16(values@, pages as int),
            out@ == dir + dense_bytes_u16(values@, placeholder, p as int),
        decreases pages - p,
    {
        if page_has[p] {
            let mut j: usize = 0;
            while j < 256
                invariant
                    values@.len() <= 0x110000,
                    pages == values@.len() as int / 256,
                    pages * 256 <= values@.len(),
                    p < pages,
                    0 <= j <= 256,
                    dir == dir_bytes_u16(values@, pages as int),
                    out@ == dir + dense_bytes_u16(values@, placeholder, p as int)
                        + page_bytes_u16(values@, placeholder, p as int, j as int),
                decreases 256 - j,
            {
                let v = match values[p * 256 + j] {
                    Some(v) => v,
                    None => placeholder,
                };
                proof {
                    assert(v as int == dense_val_u16(values@, placeholder, p * 256 + j));
                }
                push_be16(&mut out, v);
                proof {
                    assert(out@ =~= dir + dense_bytes_u16(values@, placeholder, p as int)
                        + page_bytes_u16(values@, placeholder, p as int, j + 1));
                }
                j = j + 1;
            }
            proof {
                assert(out@ =~= dir + dense_bytes_u16(values@, placeholder, p + 1));
            }
        } else {
            proof {
                assert(out@ =~= dir + dense_bytes_u16(values@, placeholder, p + 1));
            }
        }
        p = p + 1;
    }
    proof {
        assert forall|c: int| 0 <= c < (values@.len() as int / 256) * 256 implies sparse_lookup_u16(
            out@,
            values@.len() as int / 256,
            placeholder,
            c,
        ) == values@[c] by {
            lemma_sparse_roundtrip_u16(values@, placeholder, c);
        }
    }
    out
}

/// Decodes one element of an encoded table; the executable counterpart of
/// the lookup used in the encoder's contract.
pub fn sparse_get_u16(bytes: &Vec<u8>, pages: usize, placeholder: u16, c: usize) -> (r: Option<
    u16,
>)
    requires
        pages <= 0x10000,
    ensures
        r == sparse_lookup_u16(bytes@, pages as int, placeholder, c as int),
{
    if c >= pages * 256 || bytes.len() < 2 * pages {
        return None;
    }
    let p = c / 256;
    let d = (bytes[2 * p] as usize) * 256 + (bytes[2 * p + 1] as usize);
    if d == 0xFFFF {
        return None;
    }
    let off = 2 * pages + 512 * d + 2 * (c % 256);
    if off + 2 <= bytes.len() {
        let v = (bytes[off] as usize) * 256 + (bytes[off + 1] as usize);
        if v == placeholder as usize {
            None
        } else {
            proof {
                assert(read_be16(bytes@, off as int) < 0x10000);
            }
            Some(v as u16)
        }
    } else {
        None
    }
}


/// Whether any element of page `p` has a value (byte-valued properties).
pub open spec fn page_nonempty_u8(values: Seq<Option<u8>>, p: int) -> bool {
    exists|j: int| 0 <= j < 256 && (#[trigger] values[p * 256 + j]) is Some
}

/// Number of non-empty pages strictly before page `p`.
pub open spec fn nonempty_before_u8(values: Seq<Option<u8>>, p: int) -> nat
    decreases p,
{
    if p <= 0 {
        0
    } else {
        nonempty_before_u8(values, p - 1) + if page_nonempty_u8(values, p - 1) {
            1nat
        } else {
            0nat
        }
    }
}

proof fn lemma_nonempty_before_u8_le(values: Seq<Option<u8>>, p: int)
    requires
        p >= 0,
    ensures
        nonempty_before_u8(values, p) <= p,
    decreases p,
{
    if p > 0 {
        lemma_nonempty_before_u8_le(values, p - 1);
    }
}

proof fn lemma_nonempty_before_u8_monotone(values: Seq<Option<u8>>, p: int, q: int)
    requires
        0 <= p <= q,
    ensures
        nonempty_before_u8(values, p) <= nonempty_before_u8(values, q),
    decreases q,
{
    if p < q {
        lemma_nonempty_before_u8_monotone(values, p, q - 1);
    }
}

/// Directory entry of page `q`: its ordinal among non-empty pages, or 0xFFFF.
pub open spec fn dir_entry_u8(values: Seq<Option<u8>>, q: int) -> int {
    if page_nonempty_u8(values, q) {
        nonempty_before_u8(values, q) as int
    } else {
        0xFFFF
    }
}

/// The page directory over the first `p` pages.
pub open spec fn dir_bytes_u8(values: Seq<Option<u8>>, p: int) -> Seq<u8>
    decreases p,
{
    if p <= 0 {
        Seq::empty()
    } else {
        dir_bytes_u8(values, p - 1) + spec_be16(dir_entry_u8(values, p - 1))
    }
}

proof fn lemma_dir_bytes_u8_len(values: Seq<Option<u8>>, p: int)
    requires
        p >= 0,
    ensures
        dir_bytes_u8(values, p).len() == 2 * p,
    decreases p,
{
    if p > 0 {
        lemma_dir_bytes_u8_len(values, p - 1);
    }
}

proof fn lemma_dir_bytes_u8_read(values: Seq<Option<u8>>, p: int, q: int)
    requires
        0 <= q < p,
        p * 256 <= values.len(),
        values.len() <= 0x110000,
    ensures
        read_be16(dir_bytes_u8(values, p), 2 * q) == dir_entry_u8(values, q),
    decreases p,
{
    lemma_dir_bytes_u8_len(values, p - 1);
    if q == p - 1 {
        lemma_nonempty_before_u8_le(values, q);
        lemma_read_be16_of_spec(dir_bytes_u8(values, p - 1), dir_entry_u8(values, q));
    } else {
        lemma_dir_bytes_u8_read(values, p - 1, q);
        lemma_read_be16_prefix(
            dir_bytes_u8(values, p - 1),
            spec_be16(dir_entry_u8(values, p - 1)),
            2 * q,
        );
    }
}

/// The serialized value of element `c`: its value, or the placeholder.
pub open spec fn dense_val_u8(values: Seq<Option<u8>>, placeholder: u8, c: int) -> u8 {
    match values[c] {
        Some(v) => v,
        None => placeholder,
    }
}

/// The first `j` serialized values of page `p`.
pub open spec fn page_bytes_u8(values: Seq<Option<u8>>, placeholder: u8, p: int, j: int) -> Seq<
    u8,
>
    decreases j,
{
    if j <= 0 {
        Seq::empty()
    } else {
        page_bytes_u8(values, placeholder, p, j - 1).push(
            dense_val_u8(values, placeholder, p * 256 + j - 1),
        )
    }
}

proof fn lemma_page_bytes_u8_len(values: Seq<Option<u8>>, placeholder: u8, p: int, j: int)
    requires
        j >= 0,
    ensures
        page_bytes_u8(values, placeholder, p, j).len() == j,
    decreases j,
{
    if j > 0 {
        lemma_page_bytes_u8_len(values, placeholder, p, j - 1);
    }
}

proof fn lemma_page_bytes_u8_read(
    values: Seq<Option<u8>>,
    placeholder: u8,
    p: int,
    j: int,
    t: int,
)
    requires
        0 <= t < j,
    ensures
        page_bytes_u8(values, placeholder, p, j)[t] == dense_val_u8(
            values,
            placeholder,
            p * 256 + t,
        ),
    decreases j,
{
    lemma_page_bytes_u8_len(values, placeholder, p, j - 1);
    if t < j - 1 {
        lemma_page_bytes_u8_read(values, placeholder, p, j - 1, t);
    }
}

/// The dense value stream over the first `p` pages.
pub open spec fn dense_bytes_u8(values: Seq<Option<u8>>, placeholder: u8, p: int) -> Seq<u8>
    decreases p,
{
    if p <= 0 {
        Seq::empty()
    } else {
        dense_bytes_u8(values, placeholder, p - 1) + if page_nonempty_u8(values, p - 1) {
            page_bytes_u8(values, placeholder, p - 1, 256)
        } else {
            Seq::empty()
        }
    }
}

proof fn lemma_dense_bytes_u8_len(values: Seq<Option<u8>>, placeholder: u8, p: int)
    requires
        p >= 0,
    ensures
        dense_bytes_u8(values, placeholder, p).len() == 256 * nonempty_before_u8(values, p),
    decreases p,
{
    if p > 0 {
        lemma_dense_bytes_u8_len(values, placeholder, p - 1);
        if page_nonempty_u8(values, p - 1) {
            lemma_page_bytes_u8_len(values, placeholder, p - 1, 256);
        }
    }
}

proof fn lemma_dense_bytes_u8_read(
    values: Seq<Option<u8>>,
    placeholder: u8,
    p: int,
    q: int,
    t: int,
)
    requires
        0 <= q < p,
        0 <= t < 256,
        page_nonempty_u8(values, q),
    ensures
        dense_bytes_u8(values, placeholder, p)[256 * nonempty_before_u8(values, q) + t]
            == dense_val_u8(values, placeholder, q * 256 + t),
    decreases p,
{
    lemma_dense_bytes_u8_len(values, placeholder, p - 1);
    if q == p - 1 {
        lemma_page_bytes_u8_read(values, placeholder, q, 256, t);
        lemma_page_bytes_u8_len(values, placeholder, q, 256);
    } else {
        lemma_dense_bytes_u8_read(values, placeholder, p - 1, q, t);
        lemma_nonempty_before_u8_monotone(values, q + 1, p - 1);
        lemma_page_bytes_u8_len(values, placeholder, p - 1, 256);
    }
}

/// Decoding of one byte-valued element from an encoded table.
pub open spec fn sparse_lookup_u8(bytes: Seq<u8>, pages: int, placeholder: u8, c: int) -> Option<
    u8,
> {
    if !(0 <= c < pages * 256) || bytes.len() < 2 * pages {
        None
    } else {
        let p = c / 256;
        let d = read_be16(bytes, 2 * p);
        if d == 0xFFFF {
            None
        } else {
            let off = 2 * pages + 256 * d + (c % 256);
            if off < bytes.len() {
                let v = bytes[off];
                if v == placeholder {
                    None
                } else {
                    Some(v)
                }
            } else {
                None
            }
        }
    }
}

/// The round trip of the byte-valued paged encoding, for every element.
pub proof fn lemma_sparse_roundtrip_u8(values: Seq<Option<u8>>, placeholder: u8, c: int)
    requires
        values.len() <= 0x110000,
        forall|i: int| 0 <= i < values.len() ==> values[i] != Some(placeholder),
        0 <= c < (values.len() as int / 256) * 256,
    ensures
        sparse_lookup_u8(
            dir_bytes_u8(values, values.len() as int / 256) + dense_bytes_u8(
                values,
                placeholder,
                values.len() as int / 256,
            ),
            values.len() as int / 256,
            placeholder,
            c,
        ) == values[c],
{
    let pages = values.len() as int / 256;
    let bytes = dir_bytes_u8(values, pages) + dense_bytes_u8(values, placeholder, pages);
    let p = c / 256;
    let t = c % 256;
    lemma_fundamental_div_mod(c, 256);
    assert(0 <= p < pages);
    assert(0 <= t < 256);
    lemma_dir_bytes_u8_len(values, pages);
    lemma_dense_bytes_u8_len(values, placeholder, pages);
    lemma_fundamental_div_mod(values.len() as int, 256);
    assert(pages * 256 <= values.len());
    lemma_dir_bytes_u8_read(values, pages, p);
    lemma_read_be16_prefix(
        dir_bytes_u8(values, pages),
        dense_bytes_u8(values, placeholder, pages),
        2 * p,
    );
    assert(read_be16(bytes, 2 * p) == dir_entry_u8(values, p));
    lemma_nonempty_before_u8_le(values, p);
    if page_nonempty_u8(values, p) {
        let d = nonempty_before_u8(values, p) as int;
        assert(d < 0xFFFF);
        lemma_dense_bytes_u8_read(values, placeholder, pages, p, t);
        lemma_nonempty_before_u8_monotone(values, p + 1, pages);
        assert(256 * d + 256 <= 256 * nonempty_before_u8(values, pages));
        let prefix = dir_bytes_u8(values, pages);
        let dense = dense_bytes_u8(values, placeholder, pages);
        assert forall|i: int| 0 <= i < dense.len() implies (prefix + dense)[prefix.len() + i]
            == dense[i] by {}
        assert(bytes[2 * pages + 256 * d + t] == dense[256 * d + t]);
        assert(dense[256 * d + t] == dense_val_u8(values, placeholder, c));
        if values[c] is Some {
            assert(values[c] != Some(placeholder));
            assert(sparse_lookup_u8(bytes, pages, placeholder, c) == values[c]);
        } else {
            assert(sparse_lookup_u8(bytes, pages, placeholder, c) is None);
        }
    } else {
        assert(values[c] is None) by {
            if values[c] is Some {
                assert(values[p * 256 + t] is Some);
                assert(page_nonempty_u8(values, p));
            }
        }
        assert(sparse_lookup_u8(bytes, pages, placeholder, c) is None);
    }
}

/// Serializes one byte-valued property across all elements into the paged
/// form. No real value may equal the placeholder. Looking up any covered
/// element in the result returns exactly the value encoded for it.
pub fn write_sparse_u8(values: &Vec<Option<u8>>, placeholder: u8) -> (out: Vec<u8>)
    requires
        values@.len() <= 0x110000,
        forall|i: int| 0 <= i < values@.len() ==> values@[i] != Some(placeholder),
    ensures
        out@ == dir_bytes_u8(values@, values@.len() as int / 256) + dense_bytes_u8(
            values@,
            placeholder,
            values@.len() as int / 256,
        ),
        forall|c: int|
            0 <= c < (values@.len() as int / 256) * 256 ==> sparse_lookup_u8(
                out@,
                values@.len() as int / 256,
                placeholder,
                c,
            ) == values@[c],
{
    let pages = values.len() / 256;
    proof {
        lemma_fundamental_div_mod(values@.len() as int, 256);
    }
    let mut page_has: Vec<bool> = Vec::new();
    let mut p: usize = 0;
    while p < pages
        invariant
            values@.len() <= 0x110000,
            pages == values@.len() as int / 256,
            pages * 256 <= values@.len(),
            p == page_has@.len(),
            0 <= p <= pages,
            forall|q: int| 0 <= q < p ==> page_has@[q] == page_nonempty_u8(values@, q),
        decreases pages - p,
    {
        let mut has = false;
        let mut j: usize = 0;
        while j < 256
            invariant
                values@.len() <= 0x110000,
                pages == values@.len() as int / 256,
                pages * 256 <= values@.len(),
                p < pages,
                0 <= j <= 256,
                has == exists|t: int| 0 <= t < j && (#[trigger] values@[p * 256 + t]) is Some,
            decreases 256 - j,
        {
            if values[p * 256 + j].is_some() {
                has = true;
            }
            j = j + 1;
        }
        page_has.push(has);
        p = p + 1;
    }
    let mut out: Vec<u8> = Vec::new();
    let mut ordinal: u16 = 0;
    let mut p: usize = 0;
    while p < pages
        invariant
            values@.len() <= 0x110000,
            pages == values@.len() as int / 256,
            pages == page_has@.len(),
            forall|q: int| 0 <= q < pages ==> page_has@[q] == page_nonempty_u8(values@, q),
            0 <= p <= pages,
            ordinal == nonempty_before_u8(values@, p as int),
            ordinal <= p,
            out@ == dir_bytes_u8(values@, p as int),
        decreases pages - p,
    {
        proof {
            lemma_nonempty_before_u8_le(values@, p as int);
        }
        if page_has[p] {
            push_be16(&mut out, ordinal);
            ordinal = ordinal + 1;
        } else {
            push_be16(&mut out, 0xFFFF);
        }
        p = p + 1;
    }
    let ghost dir = out@;
    let mut p: usize = 0;
    while p < pages
        invariant
            values@.len() <= 0x110000,
            pages == values@.len() as int / 256,
            pages * 256 <= values@.len(),
            pages == page_has@.len(),
            forall|q: int| 0 <= q < pages ==> page_has@[q] == page_nonempty_u8(values@, q),
            0 <= p <= pages,
            dir == dir_bytes_u8(values@, pages as int),
            out@ == dir + dense_bytes_u8(values@, placeholder, p as int),
        decreases pages - p,
    {
        if page_has[p] {
            let mut j: usize = 0;
            while j < 256
                invariant
                    values@.len() <= 0x110000,
                    pages == values@.len() as int / 256,
                    pages * 256 <= values@.len(),
                    p < pages,
                    0 <= j <= 256,
                    dir == dir_bytes_u8(values@, pages as int),
                    out@ == dir + dense_bytes_u8(values@, placeholder, p as int)
                        + page_bytes_u8(values@, placeholder, p as int, j as int),
                decreases 256 - j,
            {
                let v = match values[p * 256 + j] {
                    Some(v) => v,
                    None => placeholder,
                };
                proof {
                    assert(v == dense_val_u8(values@, placeholder, p * 256 + j));
                }
                out.push(v);
                proof {
                    assert(out@ =~= dir + dense_bytes_u8(values@, placeholder, p as int)
                        + page_bytes_u8(values@, placeholder, p as int, j + 1));
                }
                j = j + 1;
            }
            proof {
                assert(out@ =~= dir + dense_bytes_u8(values@, placeholder, p + 1));
            }
        } else {
            proof {
                assert(out@ =~= dir + dense_bytes_u8(values@, placeholder, p + 1));
            }
        }
        p = p + 1;
    }
    proof {
        assert forall|c: int| 0 <= c < (values@.len() as int / 256) * 256 implies sparse_lookup_u8(
            out@,
            values@.len() as int / 256,
            placeholder,
            c,
        ) == values@[c] by {
            lemma_sparse_roundtrip_u8(values@, placeholder, c);
        }
    }
    out
}

/// Decodes one byte-valued element of an encoded table.
pub fn sparse_get_u8(bytes: &Vec<u8>, pages: usize, placeholder: u8, c: usize) -> (r: Option<u8>)
    requires
        pages <= 0x10000,
    ensures
        r == sparse_lookup_u8(bytes@, pages as int, placeholder, c as int),
{
    if c >= pages * 256 || bytes.len() < 2 * pages {
        return None;
    }
    let p = c / 256;
    let d = (bytes[2 * p] as usize) * 256 + (bytes[2 * p + 1] as usize);
    if d == 0xFFFF {
        return None;
    }
    let off = 2 * pages + 256 * d + (c % 256);
    if off < bytes.len() {
        let v = bytes[off];
        if v == placeholder {
            None
        } else {
            Some(v)
        }
    } else {
        None
    }
}

} // verus!

