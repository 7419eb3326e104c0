//! Aggregate (variable-length) encoders: the four co-indexed alias streams
//! and the three named-sequence files.

use vstd::prelude::*;

use crate::details::Details;
use crate::paged::{
    dense_bytes_u16, dense_bytes_u8, dir_bytes_u16, dir_bytes_u8, push_be16, read_be16, spec_be16,
    sparse_lookup_u16, sparse_lookup_u8, write_sparse_u16, write_sparse_u8,
};
use crate::pool::{lemma_pool_bijection, Pool};
use crate::sequence::{spec_key, Sequence, Sequences};

verus! {

/// Number of aliases over the first `upto` records: the running offset.
pub open spec fn alias_total(ud: Seq<Details>, upto: int) -> nat
    decreases upto,
{
    if upto <= 0 {
        0
    } else {
        alias_total(ud, upto - 1) + ud[upto - 1].alias@.len()
    }
}

proof fn lemma_alias_total_monotone(ud: Seq<Details>, p: int, q: int)
    requires
        0 <= p <= q,
    ensures
        alias_total(ud, p) <= alias_total(ud, q),
    decreases q,
{
    if p < q {
        lemma_alias_total_monotone(ud, p, q - 1);
    }
}

/// The per-record alias count, absent when a record has no alias.
pub open spec fn alias_counts_proj(ud: Seq<Details>) -> Seq<Option<u8>> {
    Seq::new(
        ud.len(),
        |i: int|
            if ud[i].alias@.len() == 0 {
                None
            } else {
                Some(ud[i].alias@.len() as u8)
            },
    )
}

/// The per-record starting offset into the flattened alias streams, absent
/// when a record has no alias.
pub open spec fn alias_offsets_proj(ud: Seq<Details>) -> Seq<Option<u16>> {
    Seq::new(
        ud.len(),
        |i: int|
            if ud[i].alias@.len() == 0 {
                None
            } else {
                Some(alias_total(ud, i) as u16)
            },
    )
}

/// The first `j` pool indices of one record's aliases, big-endian.
pub open spec fn alias_string_bytes(d: Details, pool: Pool, j: int) -> Seq<u8>
    decreases j,
{
    if j <= 0 {
        Seq::empty()
    } else {
        alias_string_bytes(d, pool, j - 1) + spec_be16(pool.spec_index_of(d.alias@[j - 1].inner@))
    }
}

/// The flattened pool-index stream over the first `upto` records.
pub open spec fn alias_strings_bytes(ud: Seq<Details>, pool: Pool, upto: int) -> Seq<u8>
    decreases upto,
{
    if upto <= 0 {
        Seq::empty()
    } else {
        alias_strings_bytes(ud, pool, upto - 1) + alias_string_bytes(
            ud[upto - 1],
            pool,
            ud[upto - 1].alias@.len() as int,
        )
    }
}

/// The first `j` type tags of one record's aliases.
pub open spec fn alias_type_bytes(d: Details, j: int) -> Seq<u8>
    decreases j,
{
    if j <= 0 {
        Seq::empty()
    } else {
        alias_type_bytes(d, j - 1).push(d.alias@[j - 1].kind.spec_code())
    }
}

/// The flattened type-tag stream over the first `upto` records.
pub open spec fn alias_types_bytes(ud: Seq<Details>, upto: int) -> Seq<u8>
    decreases upto,
{
    if upto <= 0 {
        Seq::empty()
    } else {
        alias_types_bytes(ud, upto - 1) + alias_type_bytes(
            ud[upto - 1],
            ud[upto - 1].alias@.len() as int,
        )
    }
}

proof fn lemma_alias_string_bytes_len(d: Details, pool: Pool, j: int)
    requires
        j >= 0,
    ensures
        alias_string_bytes(d, pool, j).len() == 2 * j,
    decreases j,
{
    if j > 0 {
        lemma_alias_string_bytes_len(d, pool, j - 1);
    }
}

proof fn lemma_alias_strings_bytes_len(ud: Seq<Details>, pool: Pool, upto: int)
    requires
        upto >= 0,
    ensures
        alias_strings_bytes(ud, pool, upto).len() == 2 * alias_total(ud, upto),
    decreases upto,
{
    if upto > 0 {
        lemma_alias_strings_bytes_len(ud, pool, upto - 1);
        lemma_alias_string_bytes_len(ud[upto - 1], pool, ud[upto - 1].alias@.len() as int);
    }
}

proof fn lemma_alias_type_bytes_len(d: Details, j: int)
    requires
        j >= 0,
    ensures
        alias_type_bytes(d, j).len() == j,
    decreases j,
{
    if j > 0 {
        lemma_alias_type_bytes_len(d, j - 1);
    }
}

proof fn lemma_alias_types_bytes_len(ud: Seq<Details>, upto: int)
    requires
        upto >= 0,
    ensures
        alias_types_bytes(ud, upto).len() == alias_total(ud, upto),
    decreases upto,
{
    if upto > 0 {
        lemma_alias_types_bytes_len(ud, upto - 1);
        lemma_alias_type_bytes_len(ud[upto - 1], ud[upto - 1].alias@.len() as int);
    }
}

/// The four co-indexed alias output files.
pub struct AliasFiles {
    pub counts: Vec<u8>,
    pub indices: Vec<u8>,
    pub strings: Vec<u8>,
    pub types: Vec<u8>,
}

/// Every alias of every record lies in the pool, and the streams fit their
/// wire widths.
pub open spec fn alias_inputs_ok(ud: Seq<Details>, pool: Pool) -> bool {
    &&& ud.len() <= 0x110000
    &&& pool.wf()
    &&& pool.spec_len() <= 0x10000
    &&& alias_total(ud, ud.len() as int) <= 0xFFFF
    &&& forall|i: int| 0 <= i < ud.len() ==> (#[trigger] ud[i].alias)@.len() <= 255
    &&& forall|i: int, k: int|
        0 <= i < ud.len() && 0 <= k < ud[i].alias@.len() ==> pool.contains_str(
            (#[trigger] ud[i].alias@[k]).inner@,
        )
}

proof fn lemma_alias_string_bytes_read(d: Details, pool: Pool, j: int, k: int)
    requires
        0 <= k < j,
        pool.wf(),
        pool.spec_len() <= 0x10000,
        forall|t: int| 0 <= t < j ==> pool.contains_str((#[trigger] d.alias@[t]).inner@),
    ensures
        read_be16(alias_string_bytes(d, pool, j), 2 * k) == pool.spec_index_of(
            d.alias@[k].inner@,
        ),
    decreases j,
{
    lemma_alias_string_bytes_len(d, pool, j - 1);
    lemma_pool_bijection(pool);
    if k == j - 1 {
        crate::paged::lemma_read_be16_of_spec(
            alias_string_bytes(d, pool, j - 1),
            pool.spec_index_of(d.alias@[k].inner@),
        );
    } else {
        lemma_alias_string_bytes_read(d, pool, j - 1, k);
        crate::paged::lemma_read_be16_prefix(
            alias_string_bytes(d, pool, j - 1),
            spec_be16(pool.spec_index_of(d.alias@[j - 1].inner@)),
            2 * k,
        );
    }
}

proof fn lemma_alias_strings_bytes_read(ud: Seq<Details>, pool: Pool, upto: int, p: int, k: int)
    requires
        0 <= p < upto <= ud.len(),
        0 <= k < ud[p].alias@.len(),
        alias_inputs_ok(ud, pool),
    ensures
        read_be16(
            alias_strings_bytes(ud, pool, upto),
            2 * (alias_total(ud, p) + k),
        ) == pool.spec_index_of(ud[p].alias@[k].inner@),
    decreases upto,
{
    lemma_alias_strings_bytes_len(ud, pool, upto - 1);
    if p == upto - 1 {
        lemma_alias_string_bytes_read(ud[p], pool, ud[p].alias@.len() as int, k);
        let prefix = alias_strings_bytes(ud, pool, upto - 1);
        let block = alias_string_bytes(ud[p], pool, ud[p].alias@.len() as int);
        lemma_alias_string_bytes_len(ud[p], pool, ud[p].alias@.len() as int);
        assert forall|i: int| 0 <= i < block.len() implies (prefix + block)[prefix.len() + i]
            == block[i] by {}
        assert(read_be16(prefix + block, prefix.len() as int + 2 * k) == read_be16(block, 2 * k));
    } else {
        lemma_alias_strings_bytes_read(ud, pool, upto - 1, p, k);
        lemma_alias_total_monotone(ud, p + 1, upto - 1);
        crate::paged::lemma_read_be16_prefix(
            alias_strings_bytes(ud, pool, upto - 1),
            alias_string_bytes(ud[upto - 1], pool, ud[upto - 1].alias@.len() as int),
            2 * (alias_total(ud, p) + k) as int,
        );
    }
}

proof fn lemma_alias_types_bytes_read(ud: Seq<Details>, upto: int, p: int, k: int)
    requires
        0 <= p < upto <= ud.len(),
        0 <= k < ud[p].alias@.len(),
    ensures
        alias_types_bytes(ud, upto)[alias_total(ud, p) + k] == ud[p].alias@[k].kind.spec_code(),
    decreases upto,
{
    lemma_alias_types_bytes_len(ud, upto - 1);
    if p == upto - 1 {
        lemma_alias_type_read(ud[p], ud[p].alias@.len() as int, k);
        lemma_alias_type_bytes_len(ud[p], ud[p].alias@.len() as int);
    } else {
        lemma_alias_types_bytes_read(ud, upto - 1, p, k);
        lemma_alias_total_monotone(ud, p + 1, upto - 1);
        lemma_alias_type_bytes_len(ud[upto - 1], ud[upto - 1].alias@.len() as int);
    }
}

proof fn lemma_alias_type_read(d: Details, j: int, k: int)
    requires
        0 <= k < j,
    ensures
        alias_type_bytes(d, j)[k] == d.alias@[k].kind.spec_code(),
    decreases j,
{
    if k < j - 1 {
        lemma_alias_type_read(d, j - 1, k);
    }
    lemma_alias_type_bytes_len(d, j - 1);
}

/// Serializes the alias data into its four co-indexed files: the sparse
/// count table (absent as 0), the sparse starting-offset table (absent as
/// 0xFFFF), the flattened pool-index stream, and the flattened type-tag
/// stream. For a record `p` with `c` aliases at offset `o`, the `c`
/// flattened entries starting at `o` are exactly the aliases appended to
/// `p`, in append order.
pub fn write_alias_files(ud: &Vec<Details>, pool: &Pool) -> (out: AliasFiles)
    requires
        alias_inputs_ok(ud@, *pool),
    ensures
        out.counts@ == dir_bytes_u8(alias_counts_proj(ud@), ud@.len() as int / 256)
            + dense_bytes_u8(alias_counts_proj(ud@), 0, ud@.len() as int / 256),
        out.indices@ == dir_bytes_u16(alias_offsets_proj(ud@), ud@.len() as int / 256)
            + dense_bytes_u16(alias_offsets_proj(ud@), 0xFFFF, ud@.len() as int / 256),
        forall|c: int|
            0 <= c < (ud@.len() as int / 256) * 256 ==> sparse_lookup_u8(
                out.counts@,
                ud@.len() as int / 256,
                0,
                c,
            ) == alias_counts_proj(ud@)[c],
        forall|c: int|
            0 <= c < (ud@.len() as int / 256) * 256 ==> sparse_lookup_u16(
                out.indices@,
                ud@.len() as int / 256,
                0xFFFF,
                c,
            ) == alias_offsets_proj(ud@)[c],
        out.strings@ == alias_strings_bytes(ud@, *pool, ud@.len() as int),
        out.strings@.len() == 2 * alias_total(ud@, ud@.len() as int),
        out.types@ == alias_types_bytes(ud@, ud@.len() as int),
        out.types@.len() == alias_total(ud@, ud@.len() as int),
        forall|p: int, k: int|
            0 <= p < ud@.len() && 0 <= k < ud@[p].alias@.len() ==> read_be16(
                out.strings@,
                2 * (alias_total(ud@, p) + k),
            ) == pool.spec_index_of((#[trigger] ud@[p].alias@[k]).inner@),
        forall|p: int, k: int|
            0 <= p < ud@.len() && 0 <= k < ud@[p].alias@.len() ==> out.types@[alias_total(ud@, p)
                + k] == (#[trigger] ud@[p].alias@[k]).kind.spec_code(),
{
    let n = ud.len();
    let mut counts: Vec<Option<u8>> = Vec::new();
    let mut indices: Vec<Option<u16>> = Vec::new();
    let mut strings: Vec<u8> = Vec::new();
    let mut types: Vec<u8> = Vec::new();
    let mut index: u16 = 0;
    let mut i: usize = 0;
    while i < n
        invariant
            alias_inputs_ok(ud@, *pool),
            n == ud@.len(),
            0 <= i <= n,
            counts@.len() == i,
            indices@.len() == i,
            forall|j: int| 0 <= j < i ==> counts@[j] == alias_counts_proj(ud@)[j],
            forall|j: int| 0 <= j < i ==> indices@[j] == alias_offsets_proj(ud@)[j],
            index == alias_total(ud@, i as int),
            strings@ == alias_strings_bytes(ud@, *pool, i as int),
            types@ == alias_types_bytes(ud@, i as int),
        decreases n - i,
    {
        proof {
            lemma_alias_total_monotone(ud@, i + 1, n as int);
            lemma_alias_strings_bytes_len(ud@, *pool, i as int);
            lemma_alias_types_bytes_len(ud@, i as int);
        }
        let alen = ud[i].alias.len();
        if alen == 0 {
            counts.push(None);
            indices.push(None);
        } else {
            counts.push(Some(alen as u8));
            indices.push(Some(index));
        }
        let mut k: usize = 0;
        while k < alen
            invariant
                alias_inputs_ok(ud@, *pool),
                n == ud@.len(),
                i < n,
                alen == ud@[i as int].alias@.len(),
                0 <= k <= alen,
                strings@ == alias_strings_bytes(ud@, *pool, i as int) + alias_string_bytes(
                    ud@[i as int],
                    *pool,
                    k as int,
                ),
                types@ == alias_types_bytes(ud@, i as int) + alias_type_bytes(
                    ud@[i as int],
                    k as int,
                ),
            decreases alen - k,
        {
            proof {
                assert(pool.contains_str(ud@[i as int].alias@[k as int].inner@));
            }
            let idx = pool.use_index(ud[i].alias[k].inner.as_str());
            push_be16(&mut strings, idx as u16);
            types.push(ud[i].alias[k].kind.code());
            proof {
                assert(strings@ =~= alias_strings_bytes(ud@, *pool, i as int)
                    + alias_string_bytes(ud@[i as int], *pool, k + 1));
                assert(types@ =~= alias_types_bytes(ud@, i as int) + alias_type_bytes(
                    ud@[i as int],
                    k + 1,
                ));
            }
            k = k + 1;
        }
        proof {
            assert(strings@ =~= alias_strings_bytes(ud@, *pool, i + 1));
            assert(types@ =~= alias_types_bytes(ud@, i + 1));
        }
        index = index + (alen as u16);
        i = i + 1;
    }
    proof {
        assert(counts@ =~= alias_counts_proj(ud@));
        assert(indices@ =~= alias_offsets_proj(ud@));
        assert(forall|j: int| 0 <= j < counts@.len() ==> counts@[j] != Some(0u8));
        assert forall|j: int| 0 <= j < indices@.len() implies indices@[j] != Some(0xFFFFu16) by {
            if ud@[j].alias@.len() > 0 {
                lemma_alias_total_monotone(ud@, j + 1, ud@.len() as int);
                assert(alias_total(ud@, j) + ud@[j].alias@.len() == alias_total(ud@, j + 1));
            }
        }
        lemma_alias_strings_bytes_len(ud@, *pool, ud@.len() as int);
        lemma_alias_types_bytes_len(ud@, ud@.len() as int);
        assert forall|p: int, k: int| 0 <= p < ud@.len() && 0 <= k < ud@[p].alias@.len() implies
            read_be16(strings@, 2 * (alias_total(ud@, p) + k)) == pool.spec_index_of(
            (#[trigger] ud@[p].alias@[k]).inner@,
        ) by {
            lemma_alias_strings_bytes_read(ud@, *pool, ud@.len() as int, p, k);
        }
        assert forall|p: int, k: int| 0 <= p < ud@.len() && 0 <= k < ud@[p].alias@.len() implies
            types@[alias_total(ud@, p) + k] == (#[trigger] ud@[p].alias@[k]).kind.spec_code() by {
            lemma_alias_types_bytes_read(ud@, ud@.len() as int, p, k);
        }
    }
    let counts_file = write_sparse_u8(&counts, 0);
    let indices_file = write_sparse_u16(&indices, 0xFFFF);
    AliasFiles { counts: counts_file, indices: indices_file, strings, types }
}


/// Big-endian bytes of a 32-bit value.
pub open spec fn spec_be32(x: int) -> Seq<u8>
    recommends
        0 <= x < 0x100000000,
{
    seq![
        (x / 0x1000000) as u8,
        ((x / 0x10000) % 256) as u8,
        ((x / 256) % 256) as u8,
        (x % 256) as u8,
    ]
}

/// Appends the big-endian bytes of a 32-bit value.
fn push_be32(out: &mut Vec<u8>, x: u32)
    ensures
        final(out)@ == old(out)@ + spec_be32(x as int),
{
    out.push((x / 0x1000000) as u8);
    out.push(((x / 0x10000) % 256) as u8);
    out.push(((x / 256) % 256) as u8);
    out.push((x % 256) as u8);
    proof {
        assert(final(out)@ =~= old(out)@ + spec_be32(x as int));
    }
}

/// The sequences of the first `b` buckets, flattened in bucket order.
pub open spec fn buckets_seqs_upto(s: Sequences, b: int) -> Seq<Sequence>
    decreases b,
{
    if b <= 0 {
        Seq::empty()
    } else {
        buckets_seqs_upto(s, b - 1) + s.buckets@[b - 1].1@
    }
}

/// All sequences of the table, flattened in bucket-then-insertion order.
pub open spec fn all_seqs(s: Sequences) -> Seq<Sequence> {
    buckets_seqs_upto(s, s.buckets@.len() as int)
}

proof fn lemma_buckets_seqs_upto_extends(s: Sequences, b1: int, b2: int)
    requires
        0 <= b1 <= b2,
    ensures
        buckets_seqs_upto(s, b1).len() <= buckets_seqs_upto(s, b2).len(),
        forall|i: int|
            0 <= i < buckets_seqs_upto(s, b1).len() ==> #[trigger] buckets_seqs_upto(s, b2)[i]
                == buckets_seqs_upto(s, b1)[i],
    decreases b2,
{
    if b1 < b2 {
        lemma_buckets_seqs_upto_extends(s, b1, b2 - 1);
    }
}

proof fn lemma_flat_index(s: Sequences, b: int, j: int)
    requires
        0 <= b < s.buckets@.len(),
        0 <= j < s.buckets@[b].1@.len(),
    ensures
        buckets_seqs_upto(s, b).len() + j < all_seqs(s).len(),
        all_seqs(s)[buckets_seqs_upto(s, b).len() + j] == s.buckets@[b].1@[j],
{
    lemma_buckets_seqs_upto_extends(s, b + 1, s.buckets@.len() as int);
    assert(buckets_seqs_upto(s, b + 1)[buckets_seqs_upto(s, b).len() + j] == s.buckets@[b].1@[j]);
}

/// The bucket-header file: for each bucket, both key code points (32-bit),
/// the running start of the bucket in the flattened sequence list (16-bit),
/// and its length (one byte).
pub open spec fn seqb_bytes(s: Sequences, b: int) -> Seq<u8>
    decreases b,
{
    if b <= 0 {
        Seq::empty()
    } else {
        seqb_bytes(s, b - 1) + spec_be32(s.buckets@[b - 1].0.0 as int) + spec_be32(
            s.buckets@[b - 1].0.1 as int,
        ) + spec_be16(buckets_seqs_upto(s, b - 1).len() as int) + seq![
            s.buckets@[b - 1].1@.len() as u8,
        ]
    }
}

/// Number of member code points over the first `upto` flattened sequences.
pub open spec fn points_total(seqs: Seq<Sequence>, upto: int) -> nat
    decreases upto,
{
    if upto <= 0 {
        0
    } else {
        points_total(seqs, upto - 1) + seqs[upto - 1].points@.len()
    }
}

proof fn lemma_points_total_monotone(seqs: Seq<Sequence>, p: int, q: int)
    requires
        0 <= p <= q,
    ensures
        points_total(seqs, p) <= points_total(seqs, q),
    decreases q,
{
    if p < q {
        lemma_points_total_monotone(seqs, p, q - 1);
    }
}

/// The per-sequence headers of the member-point file: running start offset
/// (16-bit) and member count (one byte).
pub open spec fn seqp_headers(seqs: Seq<Sequence>, g: int) -> Seq<u8>
    decreases g,
{
    if g <= 0 {
        Seq::empty()
    } else {
        seqp_headers(seqs, g - 1) + spec_be16(points_total(seqs, g - 1) as int) + seq![
            seqs[g - 1].points@.len() as u8,
        ]
    }
}

/// The first `j` member code points of one sequence, 32-bit big-endian.
pub open spec fn point_bytes(sq: Sequence, j: int) -> Seq<u8>
    decreases j,
{
    if j <= 0 {
        Seq::empty()
    } else {
        point_bytes(sq, j - 1) + spec_be32(sq.points@[j - 1] as int)
    }
}

/// The flattened member-code-point stream over the first `g` sequences.
pub open spec fn seqp_flat(seqs: Seq<Sequence>, g: int) -> Seq<u8>
    decreases g,
{
    if g <= 0 {
        Seq::empty()
    } else {
        seqp_flat(seqs, g - 1) + point_bytes(seqs[g - 1], seqs[g - 1].points@.len() as int)
    }
}

/// Number of display names over the first `upto` flattened sequences.
pub open spec fn names_total(seqs: Seq<Sequence>, upto: int) -> nat
    decreases upto,
{
    if upto <= 0 {
        0
    } else {
        names_total(seqs, upto - 1) + seqs[upto - 1].names@.len()
    }
}

proof fn lemma_names_total_monotone(seqs: Seq<Sequence>, p: int, q: int)
    requires
        0 <= p <= q,
    ensures
        names_total(seqs, p) <= names_total(seqs, q),
    decreases q,
{
    if p < q {
        lemma_names_total_monotone(seqs, p, q - 1);
    }
}

/// The per-sequence headers of the display-name file: running start offset
/// (16-bit) and name count (one byte).
pub open spec fn seqn_headers(seqs: Seq<Sequence>, g: int) -> Seq<u8>
    decreases g,
{
    if g <= 0 {
        Seq::empty()
    } else {
        seqn_headers(seqs, g - 1) + spec_be16(names_total(seqs, g - 1) as int) + seq![
            seqs[g - 1].names@.len() as u8,
        ]
    }
}

/// The first `j` display-name pool indices of one sequence, big-endian.
pub open spec fn name_bytes(sq: Sequence, pool: Pool, j: int) -> Seq<u8>
    decreases j,
{
    if j <= 0 {
        Seq::empty()
    } else {
        name_bytes(sq, pool, j - 1) + spec_be16(pool.spec_index_of(sq.names@[j - 1]@))
    }
}

/// The flattened display-name pool-index stream over the first `g` sequences.
pub open spec fn seqn_flat(seqs: Seq<Sequence>, pool: Pool, g: int) -> Seq<u8>
    decreases g,
{
    if g <= 0 {
        Seq::empty()
    } else {
        seqn_flat(seqs, pool, g - 1) + name_bytes(seqs[g - 1], pool, seqs[g - 1].names@.len() as int)
    }
}

/// The three named-sequence output files.
pub struct SequenceFiles {
    pub seqb: Vec<u8>,
    pub seqp: Vec<u8>,
    pub seqn: Vec<u8>,
}

/// Every display name lies in the pool; every stream fits its wire width.
pub open spec fn sequence_inputs_ok(s: Sequences, pool: Pool) -> bool {
    &&& s.wf()
    &&& pool.wf()
    &&& pool.spec_len() <= 0x10000
    &&& all_seqs(s).len() <= 0xFFFF
    &&& forall|b: int| 0 <= b < s.buckets@.len() ==> (#[trigger] s.buckets@[b]).1@.len() <= 255
    &&& points_total(all_seqs(s), all_seqs(s).len() as int) <= 0xFFFF
    &&& names_total(all_seqs(s), all_seqs(s).len() as int) <= 0xFFFF
    &&& forall|g: int|
        0 <= g < all_seqs(s).len() ==> (#[trigger] all_seqs(s)[g]).points@.len() <= 255
    &&& forall|g: int|
        0 <= g < all_seqs(s).len() ==> (#[trigger] all_seqs(s)[g]).names@.len() <= 255
    &&& forall|g: int, t: int|
        0 <= g < all_seqs(s).len() && 0 <= t < all_seqs(s)[g].points@.len() ==> (
        #[trigger] all_seqs(s)[g].points@[t]) < 0x100000000
    &&& forall|g: int, k: int|
        0 <= g < all_seqs(s).len() && 0 <= k < all_seqs(s)[g].names@.len() ==> pool.contains_str(
            (#[trigger] all_seqs(s)[g].names@[k])@,
        )
}

/// Serializes the sequence table into its three files: the bucket headers
/// keyed and offset in ascending key order, the member-code-point file, and
/// the display-name file, both with per-sequence offset/length headers
/// followed by their flattened streams.
pub fn write_sequence_files(s: &Sequences, pool: &Pool) -> (out: SequenceFiles)
    requires
        sequence_inputs_ok(*s, *pool),
    ensures
        out.seqb@ == seqb_bytes(*s, s.buckets@.len() as int),
        out.seqp@ == seqp_headers(all_seqs(*s), all_seqs(*s).len() as int) + seqp_flat(
            all_seqs(*s),
            all_seqs(*s).len() as int,
        ),
        out.seqn@ == seqn_headers(all_seqs(*s), all_seqs(*s).len() as int) + seqn_flat(
            all_seqs(*s),
            *pool,
            all_seqs(*s).len() as int,
        ),
{
    let ghost flat = all_seqs(*s);
    let nb = s.buckets.len();

    // Bucket-header file.
    let mut seqb: Vec<u8> = Vec::new();
    let mut start: u16 = 0;
    let mut b: usize = 0;
    while b < nb
        invariant
            sequence_inputs_ok(*s, *pool),
            flat == all_seqs(*s),
            nb == s.buckets@.len(),
            0 <= b <= nb,
            start == buckets_seqs_upto(*s, b as int).len(),
            seqb@ == seqb_bytes(*s, b as int),
        decreases nb - b,
    {
        proof {
            lemma_buckets_seqs_upto_extends(*s, b + 1, nb as int);
            assert(buckets_seqs_upto(*s, b + 1).len() <= flat.len());
        }
        let key = s.buckets[b].0;
        let blen = s.buckets[b].1.len();
        proof {
            if s.buckets@[b as int].1@.len() > 0 {
                lemma_flat_index(*s, b as int, 0);
                assert(all_seqs(*s)[buckets_seqs_upto(*s, b as int).len() as int].points@[0]
                    < 0x100000000);
            }
            assert(s.buckets@[b as int].0.0 < 0x100000000 && s.buckets@[b as int].0.1
                < 0x100000000) by {
                lemma_flat_index(*s, b as int, 0);
                let sq = s.buckets@[b as int].1@[0];
                assert(sq.points@.len() >= 2);
                assert(spec_key(sq.points@) == s.buckets@[b as int].0);
                let g = buckets_seqs_upto(*s, b as int).len() as int;
                assert(all_seqs(*s)[g].points@[0] < 0x100000000);
                assert(all_seqs(*s)[g].points@[1] < 0x100000000);
            }
        }
        push_be32(&mut seqb, key.0 as u32);
        push_be32(&mut seqb, key.1 as u32);
        push_be16(&mut seqb, start);
        seqb.push(blen as u8);
        proof {
            assert(seqb@ =~= seqb_bytes(*s, b + 1));
        }
        start = start + (blen as u16);
        b = b + 1;
    }

    // Member-code-point file: headers, then the flattened stream.
    let mut seqp: Vec<u8> = Vec::new();
    let mut pstart: u16 = 0;
    let mut b: usize = 0;
    while b < nb
        invariant
            sequence_inputs_ok(*s, *pool),
            flat == all_seqs(*s),
            nb == s.buckets@.len(),
            0 <= b <= nb,
            pstart == points_total(flat, buckets_seqs_upto(*s, b as int).len() as int),
            seqp@ == seqp_headers(flat, buckets_seqs_upto(*s, b as int).len() as int),
        decreases nb - b,
    {
        let blen = s.buckets[b].1.len();
        let ghost base = buckets_seqs_upto(*s, b as int).len() as int;
        let mut j: usize = 0;
        while j < blen
            invariant
                sequence_inputs_ok(*s, *pool),
                flat == all_seqs(*s),
                nb == s.buckets@.len(),
                b < nb,
                blen == s.buckets@[b as int].1@.len(),
                base == buckets_seqs_upto(*s, b as int).len(),
                0 <= j <= blen,
                pstart == points_total(flat, base + j),
                seqp@ == seqp_headers(flat, base + j),
            decreases blen - j,
        {
            proof {
                lemma_flat_index(*s, b as int, j as int);
                lemma_points_total_monotone(flat, base + j + 1, flat.len() as int);
            }
            let plen = s.buckets[b].1[j].points.len();
            push_be16(&mut seqp, pstart);
            seqp.push(plen as u8);
            proof {
                assert(seqp@ =~= seqp_headers(flat, base + j + 1));
            }
            pstart = pstart + (plen as u16);
            j = j + 1;
        }
        proof {
            assert(buckets_seqs_upto(*s, b + 1).len() == base + blen);
        }
        b = b + 1;
    }
    proof {
        assert(buckets_seqs_upto(*s, nb as int).len() == flat.len());
    }
    let ghost pheaders = seqp@;
    let mut b: usize = 0;
    while b < nb
        invariant
            sequence_inputs_ok(*s, *pool),
            flat == all_seqs(*s),
            nb == s.buckets@.len(),
            0 <= b <= nb,
            pheaders == seqp_headers(flat, flat.len() as int),
            seqp@ == pheaders + seqp_flat(flat, buckets_seqs_upto(*s, b as int).len() as int),
        decreases nb - b,
    {
        let blen = s.buckets[b].1.len();
        let ghost base = buckets_seqs_upto(*s, b as int).len() as int;
        let mut j: usize = 0;
        while j < blen
            invariant
                sequence_inputs_ok(*s, *pool),
                flat == all_seqs(*s),
                nb == s.buckets@.len(),
                b < nb,
                blen == s.buckets@[b as int].1@.len(),
                base == buckets_seqs_upto(*s, b as int).len(),
                0 <= j <= blen,
                pheaders == seqp_headers(flat, flat.len() as int),
                seqp@ == pheaders + seqp_flat(flat, base + j),
            decreases blen - j,
        {
            proof {
                lemma_flat_index(*s, b as int, j as int);
            }
            let plen = s.buckets[b].1[j].points.len();
            let mut t: usize = 0;
            while t < plen
                invariant
                    sequence_inputs_ok(*s, *pool),
                    flat == all_seqs(*s),
                    nb == s.buckets@.len(),
                    b < nb,
                    j < blen == s.buckets@[b as int].1@.len(),
                    base == buckets_seqs_upto(*s, b as int).len(),
                    base + j < flat.len(),
                    flat[base + j] == s.buckets@[b as int].1@[j as int],
                    plen == s.buckets@[b as int].1@[j as int].points@.len(),
                    0 <= t <= plen,
                    pheaders == seqp_headers(flat, flat.len() as int),
                    seqp@ == pheaders + seqp_flat(flat, base + j) + point_bytes(
                        flat[base + j],
                        t as int,
                    ),
                decreases plen - t,
            {
                proof {
                    assert(flat[base + j].points@[t as int] < 0x100000000);
                }
                let point = s.buckets[b].1[j].points[t];
                push_be32(&mut seqp, point as u32);
                proof {
                    assert(seqp@ =~= pheaders + seqp_flat(flat, base + j) + point_bytes(
                        flat[base + j],
                        t + 1,
                    ));
                }
                t = t + 1;
            }
            proof {
                assert(seqp@ =~= pheaders + seqp_flat(flat, base + j + 1));
            }
            j = j + 1;
        }
        proof {
            assert(buckets_seqs_upto(*s, b + 1).len() == base + blen);
        }
        b = b + 1;
    }
    proof {
        assert(buckets_seqs_upto(*s, nb as int).len() == flat.len());
    }

    // Display-name file: headers, then the flattened pool-index stream.
    let mut seqn: Vec<u8> = Vec::new();
    let mut nstart: u16 = 0;
    let mut b: usize = 0;
    while b < nb
        invariant
            sequence_inputs_ok(*s, *pool),
            flat == all_seqs(*s),
            nb == s.buckets@.len(),
            0 <= b <= nb,
            nstart == names_total(flat, buckets_seqs_upto(*s, b as int).len() as int),
            seqn@ == seqn_headers(flat, buckets_seqs_upto(*s, b as int).len() as int),
        decreases nb - b,
    {
        let blen = s.buckets[b].1.len();
        let ghost base = buckets_seqs_upto(*s, b as int).len() as int;
        let mut j: usize = 0;
        while j < blen
            invariant
                sequence_inputs_ok(*s, *pool),
                flat == all_seqs(*s),
                nb == s.buckets@.len(),
                b < nb,
                blen == s.buckets@[b as int].1@.len(),
                base == buckets_seqs_upto(*s, b as int).len(),
                0 <= j <= blen,
                nstart == names_total(flat, base + j),
                seqn@ == seqn_headers(flat, base + j),
            decreases blen - j,
        {
            proof {
                lemma_flat_index(*s, b as int, j as int);
                lemma_names_total_monotone(flat, base + j + 1, flat.len() as int);
            }
            let nlen = s.buckets[b].1[j].names.len();
            push_be16(&mut seqn, nstart);
            seqn.push(nlen as u8);
            proof {
                assert(seqn@ =~= seqn_headers(flat, base + j + 1));
            }
            nstart = nstart + (nlen as u16);
            j = j + 1;
        }
        proof {
            assert(buckets_seqs_upto(*s, b + 1).len() == base + blen);
        }
        b = b + 1;
    }
    proof {
        assert(buckets_seqs_upto(*s, nb as int).len() == flat.len());
    }
    let ghost nheaders = seqn@;
    let mut b: usize = 0;
    while b < nb
        invariant
            sequence_inputs_ok(*s, *pool),
            flat == all_seqs(*s),
            nb == s.buckets@.len(),
            0 <= b <= nb,
            nheaders == seqn_headers(flat, flat.len() as int),
            seqn@ == nheaders + seqn_flat(flat, *pool, buckets_seqs_upto(*s, b as int).len() as int),
        decreases nb - b,
    {
        let blen = s.buckets[b].1.len();
        let ghost base = buckets_seqs_upto(*s, b as int).len() as int;
        let mut j: usize = 0;
        while j < blen
            invariant
                sequence_inputs_ok(*s, *pool),
                flat == all_seqs(*s),
                nb == s.buckets@.len(),
                b < nb,
                blen == s.buckets@[b as int].1@.len(),
                base == buckets_seqs_upto(*s, b as int).len(),
                0 <= j <= blen,
                nheaders == seqn_headers(flat, flat.len() as int),
                seqn@ == nheaders + seqn_flat(flat, *pool, base + j),
            decreases blen - j,
        {
            proof {
                lemma_flat_index(*s, b as int, j as int);
            }
            let nlen = s.buckets[b].1[j].names.len();
            let mut k: usize = 0;
            while k < nlen
                invariant
                    sequence_inputs_ok(*s, *pool),
                    flat == all_seqs(*s),
                    nb == s.buckets@.len(),
                    b < nb,
                    j < blen == s.buckets@[b as int].1@.len(),
                    base == buckets_seqs_upto(*s, b as int).len(),
                    base + j < flat.len(),
                    flat[base + j] == s.buckets@[b as int].1@[j as int],
                    nlen == s.buckets@[b as int].1@[j as int].names@.len(),
                    0 <= k <= nlen,
                    nheaders == seqn_headers(flat, flat.len() as int),
                    seqn@ == nheaders + seqn_flat(flat, *pool, base + j) + name_bytes(
                        flat[base + j],
                        *pool,
                        k as int,
                    ),
                decreases nlen - k,
            {
                proof {
                    assert(pool.contains_str(flat[base + j].names@[k as int]@));
                    lemma_pool_bijection(*pool);
                }
                let idx = pool.use_index(s.buckets[b].1[j].names[k].as_str());
                push_be16(&mut seqn, idx as u16);
                proof {
                    assert(seqn@ =~= nheaders + seqn_flat(flat, *pool, base + j) + name_bytes(
                        flat[base + j],
                        *pool,
                        k + 1,
                    ));
                }
                k = k + 1;
            }
            proof {
                assert(seqn@ =~= nheaders + seqn_flat(flat, *pool, base + j + 1));
            }
            j = j + 1;
        }
        proof {
            assert(buckets_seqs_upto(*s, b + 1).len() == base + blen);
        }
        b = b + 1;
    }
    proof {
        assert(buckets_seqs_upto(*s, nb as int).len() == flat.len());
    }
    SequenceFiles { seqb, seqp, seqn }
}

} // verus!
