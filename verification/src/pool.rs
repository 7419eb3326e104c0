//! String pool: popularity voting, the frequency-ranked report, and the
//! frozen string-to-index map.

use vstd::prelude::*;
use vstd::string::*;

use crate::text::{
    lex_leq, lemma_lex_leq_reflexive, lemma_lex_leq_total, lemma_lex_leq_transitive, str_eq,
    str_leq,
};

verus! {

/// Ranking order of the report: strictly more votes first, ties in
/// code-point (lexicographic) order.
pub open spec fn rank_leq(c1: nat, s1: Seq<char>, c2: nat, s2: Seq<char>) -> bool {
    c1 > c2 || (c1 == c2 && lex_leq(s1, s2))
}

/// Write-only vote multiset: each distinct string with its vote count.
pub struct Popularity {
    pub entries: Vec<(String, u64)>,
}

impl Popularity {
    /// Distinct keys, every count at least one.
    pub open spec fn wf(self) -> bool {
        &&& forall|i: int, j: int|
            0 <= i < j < self.entries@.len() ==> (#[trigger] self.entries@[i]).0@ != (
            #[trigger] self.entries@[j]).0@
        &&& forall|i: int| 0 <= i < self.entries@.len() ==> (#[trigger] self.entries@[i]).1 >= 1
    }

    /// Whether `s` has been voted at least once.
    pub open spec fn contains_key(self, s: Seq<char>) -> bool {
        exists|i: int| 0 <= i < self.entries@.len() && (#[trigger] self.entries@[i]).0@ == s
    }

    /// Position of `s` among the distinct voted strings.
    pub open spec fn key_index(self, s: Seq<char>) -> int {
        choose|i: int| 0 <= i < self.entries@.len() && (#[trigger] self.entries@[i]).0@ == s
    }

    /// Number of votes recorded for `s`; zero when never voted.
    pub open spec fn count_of(self, s: Seq<char>) -> nat {
        if self.contains_key(s) {
            self.entries@[self.key_index(s)].1 as nat
        } else {
            0
        }
    }

    /// Number of distinct voted strings.
    pub open spec fn distinct_count(self) -> nat {
        self.entries@.len()
    }

    proof fn lemma_key_index_is(self, s: Seq<char>, i: int)
        requires
            self.wf(),
            0 <= i < self.entries@.len(),
            self.entries@[i].0@ == s,
        ensures
            self.contains_key(s),
            self.key_index(s) == i,
            self.count_of(s) == self.entries@[i].1,
    {
        assert(self.contains_key(s));
        let j = self.key_index(s);
        if j < i {
            assert(self.entries@[j].0@ != self.entries@[i].0@);
        } else if j > i {
            assert(self.entries@[i].0@ != self.entries@[j].0@);
        }
    }

    /// Records one occurrence of `s` and returns an equal owned string.
    pub fn vote(&mut self, s: &str) -> (r: String)
        requires
            old(self).wf(),
            old(self).count_of(s@) < u64::MAX,
        ensures
            final(self).wf(),
            r@ == s@,
            final(self).count_of(s@) == old(self).count_of(s@) + 1,
            forall|t: Seq<char>|
                t != s@ ==> #[trigger] final(self).count_of(t) == old(self).count_of(t),
            forall|t: Seq<char>|
                #[trigger] final(self).contains_key(t) == (old(self).contains_key(t) || t == s@),
            final(self).distinct_count() == old(self).distinct_count() + (if old(
                self,
            ).contains_key(s@) {
                0int
            } else {
                1int
            }),
    {
        let owned = s.to_owned();
        let n = self.entries.len();
        let mut i: usize = 0;
        while i < n
            invariant
                *self == *old(self),
                old(self).wf(),
                old(self).count_of(s@) < u64::MAX,
                n == self.entries@.len(),
                owned@ == s@,
                0 <= i <= n,
                forall|j: int| 0 <= j < i ==> (#[trigger] self.entries@[j]).0@ != s@,
            decreases n - i,
        {
            if self.entries[i].0 == owned {
                proof {
                    old(self).lemma_key_index_is(s@, i as int);
                }
                let key = self.entries[i].0.clone();
                let cnt = self.entries[i].1;
                proof {
                    assert(cnt < u64::MAX);
                }
                self.entries[i] = (key, cnt + 1);
                proof {
                    let pre = old(self).entries@;
                    let post = self.entries@;
                    assert(post =~= pre.update(i as int, (pre[i as int].0, (cnt + 1) as u64)));
                    assert(forall|j: int|
                        0 <= j < post.len() ==> (#[trigger] post[j]).0@ == pre[j].0@);
                    assert(self.wf());
                    self.lemma_key_index_is(s@, i as int);
                    assert forall|t: Seq<char>| #[trigger]
                        self.contains_key(t) == (old(self).contains_key(t) || t == s@) by {
                        if self.contains_key(t) {
                            let w = choose|w: int|
                                0 <= w < post.len() && (#[trigger] post[w]).0@ == t;
                            assert(pre[w].0@ == t);
                            assert(old(self).contains_key(t));
                        }
                        if old(self).contains_key(t) {
                            let w = choose|w: int| 0 <= w < pre.len() && (#[trigger] pre[w]).0@ == t;
                            assert(post[w].0@ == t);
                            assert(self.contains_key(t));
                        }
                    }
                    assert forall|t: Seq<char>| t != s@ implies #[trigger] self.count_of(t) == old(
                        self,
                    ).count_of(t) by {
                        if old(self).contains_key(t) {
                            let w = choose|w: int| 0 <= w < pre.len() && (#[trigger] pre[w]).0@ == t;
                            old(self).lemma_key_index_is(t, w);
                            self.lemma_key_index_is(t, w);
                            assert(w != i);
                        }
                    }
                }
                return s.to_owned();
            }
            i = i + 1;
        }
        self.entries.push((owned, 1));
        proof {
            let pre = old(self).entries@;
            let post = self.entries@;
            assert(post.len() == pre.len() + 1);
            assert(post[pre.len() as int].0@ == s@);
            assert(post[pre.len() as int].1 == 1);
            assert(forall|j: int| 0 <= j < pre.len() ==> post[j] == #[trigger] pre[j]);
            assert(!old(self).contains_key(s@));
            assert(self.wf());
            self.lemma_key_index_is(s@, pre.len() as int);
            assert forall|t: Seq<char>| #[trigger]
                self.contains_key(t) == (old(self).contains_key(t) || t == s@) by {
                if self.contains_key(t) && t != s@ {
                    let w = choose|w: int| 0 <= w < post.len() && (#[trigger] post[w]).0@ == t;
                    assert(w != pre.len());
                    assert(pre[w].0@ == t);
                    assert(old(self).contains_key(t));
                }
                if old(self).contains_key(t) {
                    let w = choose|w: int| 0 <= w < pre.len() && (#[trigger] pre[w]).0@ == t;
                    assert(post[w].0@ == t);
                    assert(self.contains_key(t));
                }
            }
            assert forall|t: Seq<char>| t != s@ implies #[trigger] self.count_of(t) == old(
                self,
            ).count_of(t) by {
                if old(self).contains_key(t) {
                    let w = choose|w: int| 0 <= w < pre.len() && (#[trigger] pre[w]).0@ == t;
                    old(self).lemma_key_index_is(t, w);
                    self.lemma_key_index_is(t, w);
                }
            }
        }
        s.to_owned()
    }

    /// Consumes the votes: the distinct voted strings, most voted first,
    /// ties in code-point order. One-shot: the collection is gone after.
    pub fn report(self) -> (r: Vec<String>)
        requires
            self.wf(),
        ensures
            r@.len() == self.distinct_count(),
            forall|i: int| 0 <= i < r@.len() ==> self.contains_key((#[trigger] r@[i])@),
            forall|i: int|
                0 <= i < r@.len() ==> self.count_of((#[trigger] r@[i])@) >= 1,
            forall|s: Seq<char>|
                #[trigger] self.contains_key(s) ==> exists|i: int|
                    0 <= i < r@.len() && (#[trigger] r@[i])@ == s,
            forall|i: int, j: int|
                0 <= i < j < r@.len() ==> (#[trigger] r@[i])@ != (#[trigger] r@[j])@,
            forall|i: int, j: int|
                0 <= i < j < r@.len() ==> rank_leq(
                    self.count_of((#[trigger] r@[i])@),
                    r@[i]@,
                    self.count_of((#[trigger] r@[j])@),
                    r@[j]@,
                ),
    {
        let mut v = self.entries;
        let ghost orig = v@;
        sort_entries(&mut v);
        let mut r: Vec<String> = Vec::new();
        let mut i: usize = 0;
        while i < v.len()
            invariant
                i == r@.len(),
                0 <= i <= v@.len(),
                forall|j: int| 0 <= j < i ==> #[trigger] r@[j] == v@[j].0,
            decreases v@.len() - i,
        {
            r.push(v[i].0.clone());
            i = i + 1;
        }
        proof {
            assert forall|i2: int| 0 <= i2 < r@.len() implies self.contains_key((#[trigger] r@[i2])@)
                && self.count_of(r@[i2]@) == v@[i2].1 by {
                assert(orig.contains(v@[i2]));
                let j = choose|j: int| 0 <= j < orig.len() && orig[j] == v@[i2];
                self.lemma_key_index_is(r@[i2]@, j);
            }
            assert forall|s: Seq<char>| #[trigger] self.contains_key(s) implies exists|i2: int|
                0 <= i2 < r@.len() && (#[trigger] r@[i2])@ == s by {
                let w = choose|w: int|
                    0 <= w < self.entries@.len() && (#[trigger] self.entries@[w]).0@ == s;
                assert(v@.contains(orig[w]));
                let i2 = choose|i2: int| 0 <= i2 < v@.len() && v@[i2] == orig[w];
                assert(r@[i2]@ == s);
            }
            assert forall|i2: int, j2: int| 0 <= i2 < j2 < r@.len() implies rank_leq(
                self.count_of((#[trigger] r@[i2])@),
                r@[i2]@,
                self.count_of((#[trigger] r@[j2])@),
                r@[j2]@,
            ) by {
                assert(orig.contains(v@[i2]));
                assert(orig.contains(v@[j2]));
                let a = choose|a: int| 0 <= a < orig.len() && orig[a] == v@[i2];
                let b = choose|b: int| 0 <= b < orig.len() && orig[b] == v@[j2];
                self.lemma_key_index_is(r@[i2]@, a);
                self.lemma_key_index_is(r@[j2]@, b);
                assert(entry_leq_spec(v@[i2], v@[j2]));
            }
        }
        r
    }
}

impl Default for Popularity {
    /// An empty vote collection: nothing voted yet.
    fn default() -> (r: Self)
        ensures
            r.wf(),
            r.distinct_count() == 0,
            forall|s: Seq<char>| !(#[trigger] r.contains_key(s)),
    {
        Popularity { entries: Vec::new() }
    }
}

/// Ranking order on stored entries.
pub open spec fn entry_leq_spec(a: (String, u64), b: (String, u64)) -> bool {
    rank_leq(a.1 as nat, a.0@, b.1 as nat, b.0@)
}

proof fn lemma_entry_leq_reflexive(a: (String, u64))
    ensures
        entry_leq_spec(a, a),
{
    lemma_lex_leq_reflexive(a.0@);
}

proof fn lemma_entry_leq_total(a: (String, u64), b: (String, u64))
    ensures
        entry_leq_spec(a, b) || entry_leq_spec(b, a),
{
    lemma_lex_leq_total(a.0@, b.0@);
}

proof fn lemma_entry_leq_transitive(a: (String, u64), b: (String, u64), c: (String, u64))
    requires
        entry_leq_spec(a, b),
        entry_leq_spec(b, c),
    ensures
        entry_leq_spec(a, c),
{
    if a.1 == b.1 && b.1 == c.1 {
        lemma_lex_leq_transitive(a.0@, b.0@, c.0@);
    }
}

fn entry_leq(a: &(String, u64), b: &(String, u64)) -> (r: bool)
    ensures
        r == entry_leq_spec(*a, *b),
{
    if a.1 != b.1 {
        a.1 > b.1
    } else {
        str_leq(a.0.as_str(), b.0.as_str())
    }
}

/// Every element of `a` occurs somewhere in `b`.
spec fn appears_in(a: Seq<(String, u64)>, b: Seq<(String, u64)>) -> bool {
    forall|i: int| 0 <= i < a.len() ==> b.contains(#[trigger] a[i])
}

spec fn distinct_keys(s: Seq<(String, u64)>) -> bool {
    forall|i: int, j: int| 0 <= i < j < s.len() ==> (#[trigger] s[i]).0@ != (#[trigger] s[j]).0@
}

proof fn lemma_appears_in_refl(a: Seq<(String, u64)>)
    ensures
        appears_in(a, a),
{
    assert forall|i: int| 0 <= i < a.len() implies a.contains(#[trigger] a[i]) by {
        assert(a[i] == a[i]);
    }
}

spec fn is_swap_of(post: Seq<(String, u64)>, pre: Seq<(String, u64)>, k: int, m: int) -> bool {
    &&& pre.len() == post.len()
    &&& 0 <= k < pre.len()
    &&& 0 <= m < pre.len()
    &&& post[k] == pre[m]
    &&& post[m] == pre[k]
    &&& forall|i: int| 0 <= i < pre.len() && i != k && i != m ==> #[trigger] post[i] == pre[i]
}

proof fn lemma_swap_appears(pre: Seq<(String, u64)>, post: Seq<(String, u64)>, orig: Seq<
    (String, u64),
>, k: int, m: int)
    requires
        is_swap_of(post, pre, k, m),
        appears_in(pre, orig),
        appears_in(orig, pre),
    ensures
        appears_in(post, orig),
        appears_in(orig, post),
{
    assert forall|i: int| 0 <= i < post.len() implies orig.contains(#[trigger] post[i]) by {
        if i == k {
            assert(post[i] == pre[m]);
        } else if i == m {
            assert(post[i] == pre[k]);
        } else {
            assert(post[i] == pre[i]);
        }
        assert(orig.contains(post[i]));
    }
    assert forall|i: int| 0 <= i < orig.len() implies post.contains(#[trigger] orig[i]) by {
        assert(pre.contains(orig[i]));
        let w = choose|w: int| 0 <= w < pre.len() && pre[w] == orig[i];
        if w == k {
            assert(post[m] == orig[i]);
        } else if w == m {
            assert(post[k] == orig[i]);
        } else {
            assert(post[w] == orig[i]);
        }
    }
}

proof fn lemma_swap_distinct(pre: Seq<(String, u64)>, post: Seq<(String, u64)>, k: int, m: int)
    requires
        is_swap_of(post, pre, k, m),
        distinct_keys(pre),
    ensures
        distinct_keys(post),
{
    assert forall|i: int, j: int| 0 <= i < j < post.len() implies (#[trigger] post[i]).0@ != (
    #[trigger] post[j]).0@ by {
        let a: int = if i == k {
            m
        } else if i == m {
            k
        } else {
            i
        };
        let b: int = if j == k {
            m
        } else if j == m {
            k
        } else {
            j
        };
        assert(post[i] == pre[a]);
        assert(post[j] == pre[b]);
        if a < b {
            assert(pre[a].0@ != pre[b].0@);
        } else {
            assert(pre[b].0@ != pre[a].0@);
        }
    }
}

proof fn lemma_swap_sorted_step(pre: Seq<(String, u64)>, post: Seq<(String, u64)>, k: int, m: int)
    requires
        is_swap_of(post, pre, k, m),
        k <= m,
        forall|i: int, j: int| 0 <= i < j < k ==> entry_leq_spec(#[trigger] pre[i], #[trigger] pre[j]),
        forall|i: int, j: int|
            0 <= i < k && k <= j < pre.len() ==> entry_leq_spec(#[trigger] pre[i], #[trigger] pre[j]),
        forall|j: int| k <= j < pre.len() ==> entry_leq_spec(pre[m], #[trigger] pre[j]),
    ensures
        forall|i: int, j: int|
            0 <= i < j < k + 1 ==> entry_leq_spec(#[trigger] post[i], #[trigger] post[j]),
        forall|i: int, j: int|
            0 <= i < k + 1 && k + 1 <= j < post.len() ==> entry_leq_spec(
                #[trigger] post[i],
                #[trigger] post[j],
            ),
{
    assert forall|i: int, j: int| 0 <= i < j < k + 1 implies entry_leq_spec(
        #[trigger] post[i],
        #[trigger] post[j],
    ) by {
        if j < k {
            assert(post[i] == pre[i] && post[j] == pre[j]);
        } else {
            assert(post[j] == pre[m]);
            assert(post[i] == pre[i]);
            assert(entry_leq_spec(pre[i], pre[m]));
        }
    }
    assert forall|i: int, j: int| 0 <= i < k + 1 && k + 1 <= j < post.len() implies entry_leq_spec(
        #[trigger] post[i],
        #[trigger] post[j],
    ) by {
        let b: int = if j == m {
            k
        } else {
            j
        };
        assert(post[j] == pre[b]);
        if i < k {
            assert(post[i] == pre[i]);
            assert(entry_leq_spec(pre[i], pre[b]));
        } else {
            assert(post[i] == pre[m]);
            assert(entry_leq_spec(pre[m], pre[b]));
        }
    }
}

/// Exchanges two entries.
fn swap_entries(v: &mut Vec<(String, u64)>, a: usize, b: usize)
    requires
        a < old(v)@.len(),
        b < old(v)@.len(),
    ensures
        final(v)@.len() == old(v)@.len(),
        is_swap_of(final(v)@, old(v)@, a as int, b as int),
{
    let ghost pre = v@;
    let pa = (v[a].0.clone(), v[a].1);
    let pb = (v[b].0.clone(), v[b].1);
    proof {
        assert(pa == pre[a as int]);
        assert(pb == pre[b as int]);
    }
    v[a] = pb;
    v[b] = pa;
    proof {
        assert(v@ =~= pre.update(a as int, pre[b as int]).update(b as int, pre[a as int]));
    }
}

/// Selection sort by the ranking order; rearranges the same entries.
fn sort_entries(v: &mut Vec<(String, u64)>)
    ensures
        final(v)@.len() == old(v)@.len(),
        appears_in(final(v)@, old(v)@),
        appears_in(old(v)@, final(v)@),
        distinct_keys(old(v)@) ==> distinct_keys(final(v)@),
        forall|i: int, j: int|
            0 <= i < j < final(v)@.len() ==> entry_leq_spec(
                #[trigger] final(v)@[i],
                #[trigger] final(v)@[j],
            ),
{
    let ghost orig = v@;
    let ghost orig_distinct = distinct_keys(v@);
    let n = v.len();
    let mut k: usize = 0;
    proof {
        lemma_appears_in_refl(v@);
    }
    while k < n
        invariant
            n == v@.len(),
            0 <= k <= n,
            appears_in(v@, orig),
            appears_in(orig, v@),
            orig_distinct == distinct_keys(orig),
            orig_distinct ==> distinct_keys(v@),
            forall|i: int, j: int|
                0 <= i < j < k ==> entry_leq_spec(#[trigger] v@[i], #[trigger] v@[j]),
            forall|i: int, j: int|
                0 <= i < k && k <= j < n ==> entry_leq_spec(#[trigger] v@[i], #[trigger] v@[j]),
        decreases n - k,
    {
        let mut m: usize = k;
        let mut t: usize = k + 1;
        proof {
            lemma_entry_leq_reflexive(v@[k as int]);
        }
        while t < n
            invariant
                n == v@.len(),
                k <= m < t <= n,
                forall|j: int| k <= j < t ==> entry_leq_spec(v@[m as int], #[trigger] v@[j]),
            decreases n - t,
        {
            let le = entry_leq(&v[m], &v[t]);
            if !le {
                proof {
                    lemma_entry_leq_total(v@[m as int], v@[t as int]);
                    lemma_entry_leq_reflexive(v@[t as int]);
                    assert forall|j: int| k <= j < t + 1 implies entry_leq_spec(
                        v@[t as int],
                        #[trigger] v@[j],
                    ) by {
                        if j < t {
                            lemma_entry_leq_transitive(v@[t as int], v@[m as int], v@[j]);
                        }
                    }
                }
                m = t;
            }
            t = t + 1;
        }
        let ghost vpre = v@;
        swap_entries(v, k, m);
        proof {
            lemma_swap_appears(vpre, v@, orig, k as int, m as int);
            if orig_distinct {
                lemma_swap_distinct(vpre, v@, k as int, m as int);
            }
            lemma_swap_sorted_step(vpre, v@, k as int, m as int);
        }
        k = k + 1;
    }
}

/// The frozen string-to-index map: entry `i` owns index `i`.
pub struct Pool {
    pub entries: Vec<String>,
}

impl Pool {
    /// Distinct strings throughout.
    pub open spec fn wf(self) -> bool {
        forall|i: int, j: int|
            0 <= i < j < self.entries@.len() ==> (#[trigger] self.entries@[i])@ != (
            #[trigger] self.entries@[j])@
    }

    /// Number of pooled strings.
    pub open spec fn spec_len(self) -> nat {
        self.entries@.len()
    }

    /// Whether `s` was committed to the pool.
    pub open spec fn contains_str(self, s: Seq<char>) -> bool {
        exists|i: int| 0 <= i < self.entries@.len() && (#[trigger] self.entries@[i])@ == s
    }

    /// The committed index of `s`.
    pub open spec fn spec_index_of(self, s: Seq<char>) -> int {
        choose|i: int| 0 <= i < self.entries@.len() && (#[trigger] self.entries@[i])@ == s
    }

    proof fn lemma_index_is(self, s: Seq<char>, i: int)
        requires
            self.wf(),
            0 <= i < self.entries@.len(),
            self.entries@[i]@ == s,
        ensures
            self.contains_str(s),
            self.spec_index_of(s) == i,
    {
        assert(self.contains_str(s));
        let j = self.spec_index_of(s);
        if j < i {
            assert(self.entries@[j]@ != self.entries@[i]@);
        } else if j > i {
            assert(self.entries@[i]@ != self.entries@[j]@);
        }
    }

    /// Freezes the ranked report into the index map: the string at report
    /// position `i` gets index `i`.
    pub fn from_report(report: &Vec<String>) -> (r: Pool)
        requires
            forall|i: int, j: int|
                0 <= i < j < report@.len() ==> (#[trigger] report@[i])@ != (#[trigger] report@[j])@,
        ensures
            r.wf(),
            r.spec_len() == report@.len(),
            forall|i: int| 0 <= i < report@.len() ==> (#[trigger] r.entries@[i])@ == report@[i]@,
    {
        let mut entries: Vec<String> = Vec::new();
        let mut i: usize = 0;
        while i < report.len()
            invariant
                i == entries@.len(),
                0 <= i <= report@.len(),
                forall|j: int| 0 <= j < i ==> (#[trigger] entries@[j])@ == report@[j]@,
            decreases report@.len() - i,
        {
            entries.push(report[i].clone());
            i = i + 1;
        }
        Pool { entries }
    }

    /// Committed index of a voted string; never called on unvoted strings.
    pub fn use_index(&self, s: &str) -> (r: usize)
        requires
            self.wf(),
            self.contains_str(s@),
        ensures
            r < self.spec_len(),
            r == self.spec_index_of(s@),
            self.entries@[r as int]@ == s@,
    {
        let n = self.entries.len();
        let mut i: usize = 0;
        while i < n
            invariant
                self.wf(),
                self.contains_str(s@),
                n == self.entries@.len(),
                0 <= i <= n,
                forall|j: int| 0 <= j < i ==> (#[trigger] self.entries@[j])@ != s@,
            decreases n - i,
        {
            if str_eq(self.entries[i].as_str(), s) {
                proof {
                    self.lemma_index_is(s@, i as int);
                }
                return i;
            }
            i = i + 1;
        }
        proof {
            let w = choose|w: int|
                0 <= w < self.entries@.len() && (#[trigger] self.entries@[w])@ == s@;
            assert(false);
        }
        0
    }
}

impl Default for Pool {
    /// An empty pool: nothing committed.
    fn default() -> (r: Self)
        ensures
            r.wf(),
            r.spec_len() == 0,
    {
        Pool { entries: Vec::new() }
    }
}

/// Pool bijection law: after freezing, the committed indices form a
/// bijection between the pooled strings and `[0, N)`: every pooled string
/// gets a dense in-range index, distinct strings get distinct indices, and
/// every index is owned by some pooled string.
pub proof fn lemma_pool_bijection(pool: Pool)
    requires
        pool.wf(),
    ensures
        forall|s: Seq<char>|
            #[trigger] pool.contains_str(s) ==> 0 <= pool.spec_index_of(s) < pool.spec_len(),
        forall|s1: Seq<char>, s2: Seq<char>|
            #[trigger] pool.contains_str(s1) && #[trigger] pool.contains_str(s2) && s1 != s2
                ==> pool.spec_index_of(s1) != pool.spec_index_of(s2),
        forall|i: int|
            0 <= i < pool.spec_len() ==> pool.contains_str((#[trigger] pool.entries@[i])@)
                && pool.spec_index_of(pool.entries@[i]@) == i,
{
    assert forall|i: int| 0 <= i < pool.spec_len() implies pool.contains_str(
        (#[trigger] pool.entries@[i])@,
    ) && pool.spec_index_of(pool.entries@[i]@) == i by {
        pool.lemma_index_is(pool.entries@[i]@, i);
    }
    assert forall|s1: Seq<char>, s2: Seq<char>| #[trigger]
        pool.contains_str(s1) && #[trigger] pool.contains_str(s2) && s1 != s2 implies
        pool.spec_index_of(s1) != pool.spec_index_of(s2) by {
        let i1 = pool.spec_index_of(s1);
        let i2 = pool.spec_index_of(s2);
        assert(pool.entries@[i1]@ == s1);
        assert(pool.entries@[i2]@ == s2);
    }
}

/// The JSON array text that `serde_json` produces for a vector of strings:
/// a function of the strings alone.
pub uninterp spec fn json_string_array(strings: Seq<Seq<char>>) -> Seq<char>;

/// Declares `serde_json::Error`, the error type of the serializer, so that
/// the wrapper below can return it.
#[verifier::external_type_specification]
#[verifier::external_body]
pub struct ExJsonError(serde_json::Error);

/// Relies on `serde_json::to_string` on a vector of strings: serializing
/// strings always succeeds (the writer is an infallible byte vector and
/// string escaping has no error path), and the text is the JSON array of
/// the strings, a function of them alone.
#[verifier::external_body]
fn report_to_json(report: &Vec<String>) -> (r: Result<String, serde_json::Error>)
    ensures
        r is Ok,
        r matches Ok(s) ==> s@ == json_string_array(report.deep_view()),
{
    serde_json::to_string(report)
}

/// Text of the string-pool output file: the ranked report as a JSON array,
/// position in the array being the committed pool index.
pub fn pool_json(report: &Vec<String>) -> (r: String)
    ensures
        r@ == json_string_array(report.deep_view()),
{
    match report_to_json(report) {
        Ok(s) => s,
        Err(_) => {
            proof {
                assert(false);
            }
            String::new()
        },
    }
}

} // verus!
