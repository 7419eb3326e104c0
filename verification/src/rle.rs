//! Run-length encoding of index streams, and the packed 16-bit wire format:
//! run count, then one length code per run (high bit set on repeats), then
//! the literal indices and repeat indices.

use vstd::prelude::*;

verus! {

/// One encoded run: a stretch of literal indices, or one index repeated.
#[derive(Debug)]
pub enum Run {
    Literal(Vec<usize>),
    Repeat(usize, usize),
}

/// The mathematical value of a run.
pub enum RunView {
    Literal(Seq<usize>),
    Repeat(usize, usize),
}

impl View for Run {
    type V = RunView;

    open spec fn view(&self) -> RunView {
        match self {
            Run::Literal(v) => RunView::Literal(v@),
            Run::Repeat(x, n) => RunView::Repeat(*x, *n),
        }
    }
}

/// Maximal runs of equal values: value and run length, in order.
pub open spec fn runs_of(s: Seq<usize>) -> Seq<(usize, nat)>
    decreases s.len(),
{
    if s.len() == 0 {
        Seq::empty()
    } else {
        let prev = runs_of(s.drop_last());
        let x = s.last();
        if prev.len() > 0 && prev.last().0 == x {
            prev.update(prev.len() - 1, (x, (prev.last().1 + 1) as nat))
        } else {
            prev.push((x, 1nat))
        }
    }
}

proof fn lemma_runs_of_counts(s: Seq<usize>)
    ensures
        forall|k: int| 0 <= k < runs_of(s).len() ==> (#[trigger] runs_of(s)[k]).1 <= s.len(),
    decreases s.len(),
{
    if s.len() > 0 {
        let dl = s.drop_last();
        lemma_runs_of_counts(dl);
        let prev = runs_of(dl);
        assert forall|k: int| 0 <= k < runs_of(s).len() implies (#[trigger] runs_of(s)[k]).1
            <= s.len() by {
            if prev.len() > 0 && prev.last().0 == s.last() {
                assert(prev[prev.len() - 1].1 <= dl.len());
                if k < prev.len() - 1 {
                    assert(prev[k].1 <= dl.len());
                }
            } else {
                if k < prev.len() {
                    assert(prev[k].1 <= dl.len());
                }
            }
        }
    }
}

/// `n` copies of `x`.
pub open spec fn repeat_seq(x: usize, n: nat) -> Seq<usize> {
    Seq::new(n, |i: int| x)
}

/// Regrouping of the runs: runs of length 0x100 or more stand alone as
/// repeats; shorter runs expand into their values and consecutive expansions
/// merge into one literal.
pub open spec fn regroup(runs: Seq<(usize, nat)>) -> Seq<RunView>
    decreases runs.len(),
{
    if runs.len() == 0 {
        Seq::empty()
    } else {
        let prev = regroup(runs.drop_last());
        let x = runs.last().0;
        let n = runs.last().1;
        if n >= 0x100 {
            prev.push(RunView::Repeat(x, n as usize))
        } else if prev.len() > 0 && prev.last() is Literal {
            prev.update(
                prev.len() - 1,
                RunView::Literal(prev.last()->Literal_0 + repeat_seq(x, n)),
            )
        } else {
            prev.push(RunView::Literal(repeat_seq(x, n)))
        }
    }
}

/// Run-length encodes the stream: maximal equal runs, long runs kept as
/// repeats, short runs expanded and joined into literals.
pub fn rle(source: &Vec<usize>) -> (r: Vec<Run>)
    ensures
        ({
            let grouped = regroup(runs_of(source@));
            &&& r@.len() == grouped.len()
            &&& forall|k: int| 0 <= k < r@.len() ==> (#[trigger] r@[k])@ == grouped[k]
        }),
{
    let mut runs: Vec<(usize, usize)> = Vec::new();
    let mut i: usize = 0;
    while i < source.len()
        invariant
            0 <= i <= source@.len(),
            runs@.len() == runs_of(source@.subrange(0, i as int)).len(),
            forall|k: int|
                0 <= k < runs@.len() ==> ((#[trigger] runs@[k]).0, runs@[k].1 as nat) == runs_of(
                    source@.subrange(0, i as int),
                )[k],
        decreases source@.len() - i,
    {
        let ghost pre = source@.subrange(0, i as int);
        let ghost post = source@.subrange(0, i + 1);
        proof {
            assert(post.drop_last() =~= pre);
            assert(post.last() == source@[i as int]);
            lemma_runs_of_counts(pre);
        }
        let x = source[i];
        let rlen = runs.len();
        if rlen > 0 && runs[rlen - 1].0 == x {
            let c = runs[rlen - 1].1;
            proof {
                assert((runs@[rlen - 1].0, runs@[rlen - 1].1 as nat) == runs_of(pre)[rlen - 1]);
                assert(c < usize::MAX);
            }
            runs[rlen - 1] = (x, c + 1);
        } else {
            runs.push((x, 1));
        }
        i = i + 1;
    }
    proof {
        assert(source@.subrange(0, source@.len() as int) =~= source@);
    }
    let ghost all_runs = runs_of(source@);
    let mut out: Vec<Run> = Vec::new();
    let mut k: usize = 0;
    while k < runs.len()
        invariant
            0 <= k <= runs@.len(),
            runs@.len() == all_runs.len(),
            forall|t: int|
                0 <= t < runs@.len() ==> ((#[trigger] runs@[t]).0, runs@[t].1 as nat)
                    == all_runs[t],
            out@.len() == regroup(all_runs.subrange(0, k as int)).len(),
            forall|t: int|
                0 <= t < out@.len() ==> (#[trigger] out@[t])@ == regroup(
                    all_runs.subrange(0, k as int),
                )[t],
        decreases runs@.len() - k,
    {
        let ghost gpre = all_runs.subrange(0, k as int);
        let ghost gpost = all_runs.subrange(0, k + 1);
        proof {
            assert(gpost.drop_last() =~= gpre);
            assert(gpost.last() == all_runs[k as int]);
        }
        let (x, n) = runs[k];
        if n >= 0x100 {
            out.push(Run::Repeat(x, n));
        } else {
            let olen = out.len();
            let mut extended = false;
            if olen > 0 {
                let tail = match &out[olen - 1] {
                    Run::Literal(_) => true,
                    Run::Repeat(_, _) => false,
                };
                if tail {
                    let popped = out.pop();
                    match popped {
                        Some(Run::Literal(mut v)) => {
                            let ghost vpre = v@;
                            let mut c: usize = 0;
                            while c < n
                                invariant
                                    0 <= c <= n,
                                    v@ =~= vpre + repeat_seq(x, c as nat),
                                decreases n - c,
                            {
                                v.push(x);
                                proof {
                                    assert(v@ =~= vpre + repeat_seq(x, (c + 1) as nat));
                                }
                                c = c + 1;
                            }
                            out.push(Run::Literal(v));
                            proof {
                                assert(out@.len() == regroup(gpost).len());
                                assert(out@[olen - 1]@ == regroup(gpost)[olen - 1]);
                            }
                        },
                        _ => {
                            proof {
                                assert(false);
                            }
                        },
                    }
                    extended = true;
                }
            }
            if !extended {
                let mut v: Vec<usize> = Vec::new();
                let mut c: usize = 0;
                while c < n
                    invariant
                        0 <= c <= n,
                        v@ =~= repeat_seq(x, c as nat),
                    decreases n - c,
                {
                    v.push(x);
                    proof {
                        assert(v@ =~= repeat_seq(x, (c + 1) as nat));
                    }
                    c = c + 1;
                }
                out.push(Run::Literal(v));
            }
        }
        k = k + 1;
    }
    proof {
        assert(all_runs.subrange(0, all_runs.len() as int) =~= all_runs);
    }
    out
}

/// The values of one run, in order.
pub open spec fn run_flat(r: RunView) -> Seq<usize> {
    match r {
        RunView::Literal(v) => v,
        RunView::Repeat(x, n) => repeat_seq(x, n as nat),
    }
}

/// The values of the runs, concatenated in order.
pub open spec fn runs_flat(rs: Seq<RunView>) -> Seq<usize>
    decreases rs.len(),
{
    if rs.len() == 0 {
        Seq::empty()
    } else {
        runs_flat(rs.drop_last()) + run_flat(rs.last())
    }
}

/// The values of value-count pairs, concatenated in order.
pub open spec fn pairs_flat(rs: Seq<(usize, nat)>) -> Seq<usize>
    decreases rs.len(),
{
    if rs.len() == 0 {
        Seq::empty()
    } else {
        pairs_flat(rs.drop_last()) + repeat_seq(rs.last().0, rs.last().1)
    }
}

proof fn lemma_pairs_flat_runs_of(s: Seq<usize>)
    ensures
        pairs_flat(runs_of(s)) =~= s,
    decreases s.len(),
{
    if s.len() > 0 {
        let dl = s.drop_last();
        lemma_pairs_flat_runs_of(dl);
        let prev = runs_of(dl);
        let x = s.last();
        assert(s =~= dl.push(x));
        if prev.len() > 0 && prev.last().0 == x {
            let upd = runs_of(s);
            let cnt = prev.last().1;
            assert(upd.drop_last() =~= prev.drop_last());
            assert(upd.last() == (x, (cnt + 1) as nat));
            assert(repeat_seq(x, (cnt + 1) as nat) =~= repeat_seq(x, cnt).push(x));
            assert(pairs_flat(upd) =~= pairs_flat(prev.drop_last()) + repeat_seq(x, cnt).push(x));
            assert(pairs_flat(prev.drop_last()) + repeat_seq(x, cnt).push(x) =~= (pairs_flat(
                prev.drop_last(),
            ) + repeat_seq(x, cnt)).push(x));
            assert(pairs_flat(prev) =~= pairs_flat(prev.drop_last()) + repeat_seq(x, cnt));
            assert(pairs_flat(upd) =~= dl.push(x));
        } else {
            let upd = runs_of(s);
            assert(upd.drop_last() =~= prev);
            assert(repeat_seq(x, 1) =~= seq![x]);
            assert(pairs_flat(upd) =~= pairs_flat(prev) + seq![x]);
            assert(dl + seq![x] =~= dl.push(x));
        }
    }
}

proof fn lemma_regroup_flat(rs: Seq<(usize, nat)>)
    requires
        forall|k: int| 0 <= k < rs.len() ==> (#[trigger] rs[k]).1 <= usize::MAX,
    ensures
        runs_flat(regroup(rs)) =~= pairs_flat(rs),
    decreases rs.len(),
{
    if rs.len() > 0 {
        let dl = rs.drop_last();
        assert(forall|k: int| 0 <= k < dl.len() ==> (#[trigger] dl[k]) == rs[k]);
        lemma_regroup_flat(dl);
        let prev = regroup(dl);
        let x = rs.last().0;
        let n = rs.last().1;
        assert(n <= usize::MAX);
        if n >= 0x100 {
            let upd = regroup(rs);
            assert(upd.drop_last() =~= prev);
            assert(run_flat(upd.last()) =~= repeat_seq(x, n));
        } else if prev.len() > 0 && prev.last() is Literal {
            let lit = prev.last()->Literal_0;
            let upd = regroup(rs);
            assert(upd.drop_last() =~= prev.drop_last());
            assert(upd.last() == RunView::Literal(lit + repeat_seq(x, n)));
            assert(runs_flat(upd) =~= runs_flat(prev.drop_last()) + (lit + repeat_seq(x, n)));
            assert(runs_flat(prev.drop_last()) + (lit + repeat_seq(x, n)) =~= (runs_flat(
                prev.drop_last(),
            ) + lit) + repeat_seq(x, n));
            assert(runs_flat(prev) =~= runs_flat(prev.drop_last()) + lit);
            assert(pairs_flat(rs) =~= pairs_flat(dl) + repeat_seq(x, n));
        } else {
            let upd = regroup(rs);
            assert(upd.drop_last() =~= prev);
        }
    }
}

/// Law: run-length encoding is lossless. The values of the runs that `rle`
/// returns, concatenated in order, are exactly the source stream.
pub proof fn lemma_rle_lossless(s: Seq<usize>)
    requires
        s.len() <= usize::MAX,
    ensures
        runs_flat(regroup(runs_of(s))) =~= s,
{
    lemma_runs_of_counts(s);
    lemma_regroup_flat(runs_of(s));
    lemma_pairs_flat_runs_of(s);
}

/// Splitting of one literal into chunks of at most 0x7FFF values.
pub open spec fn split_literal(v: Seq<usize>) -> Seq<RunView>
    decreases v.len(),
{
    if v.len() == 0 {
        Seq::empty()
    } else if v.len() <= 0x7FFF {
        seq![RunView::Literal(v)]
    } else {
        seq![RunView::Literal(v.take(0x7FFF))] + split_literal(v.skip(0x7FFF))
    }
}

/// Splitting of one repeat into lengths of at most 0x7FFF.
pub open spec fn split_repeat(x: usize, n: nat) -> Seq<RunView>
    decreases n,
{
    if n == 0 {
        Seq::empty()
    } else if n <= 0x7FFF {
        seq![RunView::Repeat(x, n as usize)]
    } else {
        seq![RunView::Repeat(x, 0x7FFF)] + split_repeat(x, (n - 0x7FFF) as nat)
    }
}

/// The runs after splitting every long run to fit the 15-bit length field.
pub open spec fn split_runs(rs: Seq<RunView>) -> Seq<RunView>
    decreases rs.len(),
{
    if rs.len() == 0 {
        Seq::empty()
    } else {
        split_runs(rs.drop_last()) + (match rs.last() {
            RunView::Literal(v) => split_literal(v),
            RunView::Repeat(x, n) => split_repeat(x, n as nat),
        })
    }
}

/// The length code of one split run: its length, with the high bit set on
/// repeats.
pub open spec fn run_code(r: RunView) -> int {
    match r {
        RunView::Literal(v) => v.len() as int,
        RunView::Repeat(x, n) => 0x8000 + n,
    }
}

/// The length codes of the split runs.
pub open spec fn codes_of(rs: Seq<RunView>) -> Seq<u16>
    decreases rs.len(),
{
    if rs.len() == 0 {
        Seq::empty()
    } else {
        codes_of(rs.drop_last()).push(run_code(rs.last()) as u16)
    }
}

/// The payload of the split runs: every literal index, one index per repeat.
pub open spec fn payload_of(rs: Seq<RunView>) -> Seq<u16>
    decreases rs.len(),
{
    if rs.len() == 0 {
        Seq::empty()
    } else {
        payload_of(rs.drop_last()) + (match rs.last() {
            RunView::Literal(v) => v.map_values(|t: usize| t as u16),
            RunView::Repeat(x, n) => seq![x as u16],
        })
    }
}

/// Whether every index in a run fits sixteen bits.
pub open spec fn run_fits(r: RunView) -> bool {
    match r {
        RunView::Literal(v) => forall|t: int| 0 <= t < v.len() ==> (#[trigger] v[t]) <= 0xFFFF,
        RunView::Repeat(x, n) => x <= 0xFFFF,
    }
}

/// Whether a split run is well formed for the wire format: values fit
/// sixteen bits and the length fits the 15-bit length field.
pub open spec fn split_run_ok(r: RunView) -> bool {
    &&& run_fits(r)
    &&& 1 <= run_code(r) < 0x10000
}

proof fn lemma_split_literal_ok(v: Seq<usize>)
    requires
        forall|t: int| 0 <= t < v.len() ==> (#[trigger] v[t]) <= 0xFFFF,
    ensures
        forall|t: int|
            0 <= t < split_literal(v).len() ==> split_run_ok(#[trigger] split_literal(v)[t]),
    decreases v.len(),
{
    if v.len() == 0 {
    } else if v.len() <= 0x7FFF {
        assert(split_run_ok(RunView::Literal(v)));
        assert(split_literal(v) =~= seq![RunView::Literal(v)]);
    } else {
        let head = v.take(0x7FFF);
        let tail = v.skip(0x7FFF);
        assert forall|t: int| 0 <= t < tail.len() implies (#[trigger] tail[t]) <= 0xFFFF by {
            assert(tail[t] == v[t + 0x7FFF]);
        }
        lemma_split_literal_ok(tail);
        assert(split_run_ok(RunView::Literal(head))) by {
            assert forall|t: int| 0 <= t < head.len() implies (#[trigger] head[t]) <= 0xFFFF by {
                assert(head[t] == v[t]);
            }
        }
        assert forall|t: int| 0 <= t < split_literal(v).len() implies split_run_ok(
            #[trigger] split_literal(v)[t],
        ) by {
            if t == 0 {
                assert(split_literal(v)[0] == RunView::Literal(head));
            } else {
                assert(split_literal(v)[t] == split_literal(tail)[t - 1]);
            }
        }
    }
}

proof fn lemma_split_repeat_ok(x: usize, n: nat)
    requires
        x <= 0xFFFF,
    ensures
        forall|t: int|
            0 <= t < split_repeat(x, n).len() ==> split_run_ok(#[trigger] split_repeat(x, n)[t]),
    decreases n,
{
    if n == 0 {
    } else if n <= 0x7FFF {
        assert(split_repeat(x, n) =~= seq![RunView::Repeat(x, n as usize)]);
        assert(split_run_ok(RunView::Repeat(x, n as usize)));
    } else {
        lemma_split_repeat_ok(x, (n - 0x7FFF) as nat);
        assert forall|t: int| 0 <= t < split_repeat(x, n).len() implies split_run_ok(
            #[trigger] split_repeat(x, n)[t],
        ) by {
            if t == 0 {
                assert(split_repeat(x, n)[0] == RunView::Repeat(x, 0x7FFF));
                assert(split_run_ok(RunView::Repeat(x, 0x7FFF)));
            } else {
                assert(split_repeat(x, n)[t] == split_repeat(x, (n - 0x7FFF) as nat)[t - 1]);
            }
        }
    }
}

/// Emits the chunks of one literal, at most 0x7FFF values each.
fn emit_literal_chunks(out: &mut Vec<Run>, indices: &Vec<usize>, off: usize)
    requires
        off <= indices@.len(),
    ensures
        final(out)@.len() == old(out)@.len() + split_literal(indices@.skip(off as int)).len(),
        forall|t: int| 0 <= t < old(out)@.len() ==> #[trigger] final(out)@[t] == old(out)@[t],
        forall|t: int|
            0 <= t < split_literal(indices@.skip(off as int)).len()
                ==> (#[trigger] final(out)@[old(out)@.len() + t])@
                == split_literal(indices@.skip(off as int))[t],
    decreases indices@.len() - off,
{
    let ghost rest = indices@.skip(off as int);
    if off == indices.len() {
        proof {
            assert(rest.len() == 0);
        }
        return ;
    }
    let total = indices.len();
    let new = if total - off < 0x7FFF {
        total - off
    } else {
        0x7FFF
    };
    let mut chunk: Vec<usize> = Vec::new();
    let mut t: usize = 0;
    while t < new
        invariant
            off + new <= total == indices@.len(),
            0 <= t <= new,
            chunk@ =~= indices@.subrange(off as int, off + t),
        decreases new - t,
    {
        chunk.push(indices[off + t]);
        proof {
            assert(chunk@ =~= indices@.subrange(off as int, off + t + 1));
        }
        t = t + 1;
    }
    let ghost chunkv = chunk@;
    proof {
        if rest.len() <= 0x7FFF {
            assert(chunkv =~= rest);
        } else {
            assert(chunkv =~= rest.take(0x7FFF));
        }
    }
    out.push(Run::Literal(chunk));
    let ghost mid = out@;
    if new < total - off {
        proof {
            assert(indices@.skip(off + new) =~= rest.skip(0x7FFF));
        }
        emit_literal_chunks(out, indices, off + new);
        proof {
            let tailsplit = split_literal(rest.skip(0x7FFF));
            assert(split_literal(rest) =~= seq![RunView::Literal(rest.take(0x7FFF))] + tailsplit);
            assert forall|t2: int| 0 <= t2 < split_literal(rest).len() implies (#[trigger] out@[old(
                out,
            )@.len() + t2])@ == split_literal(rest)[t2] by {
                if t2 == 0 {
                    assert(out@[old(out)@.len() as int] == mid[old(out)@.len() as int]);
                    assert(mid[old(out)@.len() as int]@ == RunView::Literal(chunkv));
                } else {
                    assert(out@[mid.len() + (t2 - 1)]@ == tailsplit[t2 - 1]);
                }
            }
            assert(forall|t2: int|
                0 <= t2 < old(out)@.len() ==> #[trigger] out@[t2] == mid[t2] && mid[t2] == old(
                    out,
                )@[t2]);
        }
    } else {
        proof {
            assert(split_literal(rest) =~= seq![RunView::Literal(rest)]);
            assert(out@[old(out)@.len() as int]@ == RunView::Literal(rest));
        }
    }
}

/// Emits the pieces of one repeat, at most 0x7FFF long each.
fn emit_repeat_chunks(out: &mut Vec<Run>, x: usize, n: usize)
    ensures
        final(out)@.len() == old(out)@.len() + split_repeat(x, n as nat).len(),
        forall|t: int| 0 <= t < old(out)@.len() ==> #[trigger] final(out)@[t] == old(out)@[t],
        forall|t: int|
            0 <= t < split_repeat(x, n as nat).len()
                ==> (#[trigger] final(out)@[old(out)@.len() + t])@ == split_repeat(
                x,
                n as nat,
            )[t],
    decreases n,
{
    if n == 0 {
        return ;
    }
    let new = if n < 0x7FFF {
        n
    } else {
        0x7FFF
    };
    out.push(Run::Repeat(x, new));
    let ghost mid = out@;
    if new < n {
        emit_repeat_chunks(out, x, n - new);
        proof {
            let tailsplit = split_repeat(x, (n - 0x7FFF) as nat);
            assert(split_repeat(x, n as nat) =~= seq![RunView::Repeat(x, 0x7FFF)] + tailsplit);
            assert forall|t2: int| 0 <= t2 < split_repeat(x, n as nat).len() implies (
            #[trigger] out@[old(out)@.len() + t2])@ == split_repeat(x, n as nat)[t2] by {
                if t2 == 0 {
                    assert(out@[old(out)@.len() as int] == mid[old(out)@.len() as int]);
                } else {
                    assert(out@[mid.len() + (t2 - 1)]@ == tailsplit[t2 - 1]);
                }
            }
            assert(forall|t2: int|
                0 <= t2 < old(out)@.len() ==> #[trigger] out@[t2] == mid[t2] && mid[t2] == old(
                    out,
                )@[t2]);
        }
    } else {
        proof {
            assert(split_repeat(x, n as nat) =~= seq![RunView::Repeat(x, n)]);
        }
    }
}

/// Packs the runs into the 16-bit wire format: the number of split runs,
/// then their length codes, then their payload indices.
pub fn pack(source: Vec<Run>) -> (r: Vec<u16>)
    requires
        split_runs(source@.map_values(|x: Run| x@)).len() <= 0xFFFF,
        forall|k: int| 0 <= k < source@.len() ==> run_fits((#[trigger] source@[k])@),
    ensures
        ({
            let split = split_runs(source@.map_values(|x: Run| x@));
            r@ == seq![split.len() as u16] + codes_of(split) + payload_of(split)
        }),
{
    let ghost views = source@.map_values(|x: Run| x@);
    let mut split: Vec<Run> = Vec::new();
    let mut k: usize = 0;
    while k < source.len()
        invariant
            0 <= k <= source@.len(),
            views == source@.map_values(|x: Run| x@),
            forall|t: int| 0 <= t < source@.len() ==> run_fits((#[trigger] source@[t])@),
            split@.len() == split_runs(views.subrange(0, k as int)).len(),
            forall|t: int|
                0 <= t < split@.len() ==> (#[trigger] split@[t])@ == split_runs(
                    views.subrange(0, k as int),
                )[t],
            forall|t: int| 0 <= t < split@.len() ==> split_run_ok((#[trigger] split@[t])@),
        decreases source@.len() - k,
    {
        let ghost gpre = views.subrange(0, k as int);
        let ghost gpost = views.subrange(0, k + 1);
        let ghost presplit = split@;
        proof {
            assert(gpost.drop_last() =~= gpre);
            assert(gpost.last() == views[k as int]);
            assert(views[k as int] == source@[k as int]@);
        }
        match &source[k] {
            Run::Literal(indices) => {
                proof {
                    assert(source@[k as int]@ == RunView::Literal(indices@));
                    assert(run_fits(RunView::Literal(indices@)));
                    assert forall|t2: int| 0 <= t2 < indices@.len() implies (
                    #[trigger] indices@[t2]) <= 0xFFFF by {
                        let rv = source@[k as int]@;
                        assert(run_fits(rv));
                        assert(rv->Literal_0 == indices@);
                        assert(rv->Literal_0[t2] <= 0xFFFF);
                    }
                    assert(indices@.skip(0) =~= indices@);
                    lemma_split_literal_ok(indices@);
                }
                let ghost block = split_literal(indices@);
                emit_literal_chunks(&mut split, indices, 0);
                proof {
                    assert(split_runs(gpost) =~= split_runs(gpre) + block);
                    assert forall|t: int| 0 <= t < split@.len() implies (#[trigger] split@[t])@
                        == split_runs(gpost)[t] && split_run_ok(split@[t]@) by {
                        if t < presplit.len() {
                            assert(split@[t] == presplit[t]);
                        } else {
                            assert(split@[presplit.len() + (t - presplit.len())]@ == block[t
                                - presplit.len()]);
                            assert(split_run_ok(block[t - presplit.len()]));
                        }
                    }
                }
            },
            Run::Repeat(x, length) => {
                proof {
                    assert(source@[k as int]@ == RunView::Repeat(*x, *length));
                    assert(run_fits(source@[k as int]@));
                    lemma_split_repeat_ok(*x, *length as nat);
                }
                let ghost block = split_repeat(*x, *length as nat);
                emit_repeat_chunks(&mut split, *x, *length);
                proof {
                    assert(split_runs(gpost) =~= split_runs(gpre) + block);
                    assert forall|t: int| 0 <= t < split@.len() implies (#[trigger] split@[t])@
                        == split_runs(gpost)[t] && split_run_ok(split@[t]@) by {
                        if t < presplit.len() {
                            assert(split@[t] == presplit[t]);
                        } else {
                            assert(split@[presplit.len() + (t - presplit.len())]@ == block[t
                                - presplit.len()]);
                            assert(split_run_ok(block[t - presplit.len()]));
                        }
                    }
                }
            },
        }
        k = k + 1;
    }
    proof {
        assert(views.subrange(0, views.len() as int) =~= views);
    }
    let ghost all_split = split_runs(views);
    let mut r: Vec<u16> = Vec::new();
    r.push(split.len() as u16);
    let mut k: usize = 0;
    while k < split.len()
        invariant
            0 <= k <= split@.len(),
            split@.len() == all_split.len() <= 0xFFFF,
            forall|t: int| 0 <= t < split@.len() ==> (#[trigger] split@[t])@ == all_split[t],
            forall|t: int| 0 <= t < split@.len() ==> split_run_ok((#[trigger] split@[t])@),
            r@ =~= seq![all_split.len() as u16] + codes_of(all_split.subrange(0, k as int)),
        decreases split@.len() - k,
    {
        let ghost gpre = all_split.subrange(0, k as int);
        let ghost gpost = all_split.subrange(0, k + 1);
        proof {
            assert(gpost.drop_last() =~= gpre);
            assert(gpost.last() == all_split[k as int]);
            assert(split_run_ok(split@[k as int]@));
        }
        let code: u16 = match &split[k] {
            Run::Literal(indices) => indices.len() as u16,
            Run::Repeat(_, length) => 0x8000 + (*length as u16),
        };
        r.push(code);
        proof {
            assert(r@ =~= seq![all_split.len() as u16] + codes_of(gpost));
        }
        k = k + 1;
    }
    proof {
        assert(all_split.subrange(0, all_split.len() as int) =~= all_split);
    }
    let ghost codes_done = r@;
    let mut k: usize = 0;
    while k < split.len()
        invariant
            0 <= k <= split@.len(),
            split@.len() == all_split.len() <= 0xFFFF,
            forall|t: int| 0 <= t < split@.len() ==> (#[trigger] split@[t])@ == all_split[t],
            forall|t: int| 0 <= t < split@.len() ==> split_run_ok((#[trigger] split@[t])@),
            codes_done == seq![all_split.len() as u16] + codes_of(all_split),
            r@ =~= codes_done + payload_of(all_split.subrange(0, k as int)),
        decreases split@.len() - k,
    {
        let ghost gpre = all_split.subrange(0, k as int);
        let ghost gpost = all_split.subrange(0, k + 1);
        proof {
            assert(gpost.drop_last() =~= gpre);
            assert(gpost.last() == all_split[k as int]);
            assert(split_run_ok(split@[k as int]@));
        }
        match &split[k] {
            Run::Literal(indices) => {
                let mut t: usize = 0;
                while t < indices.len()
                    invariant
                        k < split@.len(),
                        split@[k as int]@ matches RunView::Literal(w) && w == indices@,
                        run_fits(split@[k as int]@),
                        0 <= t <= indices@.len(),
                        r@ =~= codes_done + payload_of(gpre) + indices@.subrange(
                            0,
                            t as int,
                        ).map_values(|y: usize| y as u16),
                    decreases indices@.len() - t,
                {
                    proof {
                        assert(indices@[t as int] <= 0xFFFF);
                    }
                    r.push(indices[t] as u16);
                    proof {
                        assert(indices@.subrange(0, t + 1).map_values(|y: usize| y as u16)
                            =~= indices@.subrange(0, t as int).map_values(
                            |y: usize| y as u16,
                        ).push(indices@[t as int] as u16));
                        assert(r@ =~= codes_done + payload_of(gpre) + indices@.subrange(
                            0,
                            t + 1,
                        ).map_values(|y: usize| y as u16));
                    }
                    t = t + 1;
                }
                proof {
                    assert(indices@.subrange(0, indices@.len() as int) =~= indices@);
                    assert(r@ =~= codes_done + payload_of(gpost));
                }
            },
            Run::Repeat(x, _) => {
                proof {
                    assert(*x <= 0xFFFF);
                }
                r.push(*x as u16);
                proof {
                    assert(r@ =~= codes_done + payload_of(gpost));
                }
            },
        }
        k = k + 1;
    }
    proof {
        assert(all_split.subrange(0, all_split.len() as int) =~= all_split);
    }
    r
}

} // verus!
