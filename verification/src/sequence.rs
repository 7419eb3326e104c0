//! Named-sequence table: distinct code-point sequences, bucketed by their
//! first two code points, each carrying one or more display names.

use vstd::prelude::*;

verus! {

/// Bucket key: the first two code points of a sequence.
pub type SequenceKey = (usize, usize);

/// One named sequence: its member code points and its display names.
#[derive(Debug)]
pub struct Sequence {
    pub points: Vec<usize>,
    pub names: Vec<String>,
}

/// The sequence table: buckets in strictly ascending key order.
#[derive(Debug)]
pub struct Sequences {
    pub buckets: Vec<(SequenceKey, Vec<Sequence>)>,
}

/// Strict order on bucket keys.
pub open spec fn key_lt(a: SequenceKey, b: SequenceKey) -> bool {
    a.0 < b.0 || (a.0 == b.0 && a.1 < b.1)
}

/// The bucket key owed to a sequence of code points.
pub open spec fn spec_key(points: Seq<usize>) -> SequenceKey
    recommends
        points.len() >= 2,
{
    (points[0], points[1])
}

/// Bucket key of a sequence: its first two code points.
pub fn key(points: &Vec<usize>) -> (r: SequenceKey)
    requires
        points@.len() >= 2,
    ensures
        r == spec_key(points@),
{
    (points[0], points[1])
}

/// Whether some sequence in the bucket has exactly these member points.
pub open spec fn bucket_contains_points(b: Seq<Sequence>, pts: Seq<usize>) -> bool {
    exists|i: int| 0 <= i < b.len() && (#[trigger] b[i]).points@ == pts
}

/// Position in the bucket of the sequence with these member points.
pub open spec fn bucket_points_index(b: Seq<Sequence>, pts: Seq<usize>) -> int {
    choose|i: int| 0 <= i < b.len() && (#[trigger] b[i]).points@ == pts
}

impl Sequences {
    /// Buckets strictly sorted by key; every bucket nonempty; every sequence
    /// keyed by its first two points, member lists distinct within a bucket.
    pub open spec fn wf(self) -> bool {
        &&& forall|i: int, j: int|
            0 <= i < j < self.buckets@.len() ==> key_lt(
                (#[trigger] self.buckets@[i]).0,
                (#[trigger] self.buckets@[j]).0,
            )
        &&& forall|i: int|
            0 <= i < self.buckets@.len() ==> (#[trigger] self.buckets@[i]).1@.len() >= 1
        &&& forall|i: int, s: int|
            0 <= i < self.buckets@.len() && 0 <= s < (#[trigger] self.buckets@[i]).1@.len() ==> {
                let sq = #[trigger] self.buckets@[i].1@[s];
                &&& sq.points@.len() >= 2
                &&& spec_key(sq.points@) == self.buckets@[i].0
                &&& sq.names@.len() >= 1
            }
        &&& forall|i: int, s: int, t: int|
            0 <= i < self.buckets@.len() && 0 <= s < t < (#[trigger] self.buckets@[i]).1@.len()
                ==> (#[trigger] self.buckets@[i].1@[s]).points@ != (
            #[trigger] self.buckets@[i].1@[t]).points@
    }

    /// Whether a bucket with this key exists.
    pub open spec fn contains_bucket(self, k: SequenceKey) -> bool {
        exists|i: int| 0 <= i < self.buckets@.len() && (#[trigger] self.buckets@[i]).0 == k
    }

    /// Position of the bucket with this key.
    pub open spec fn bucket_index_of(self, k: SequenceKey) -> int {
        choose|i: int| 0 <= i < self.buckets@.len() && (#[trigger] self.buckets@[i]).0 == k
    }

    /// The sequences bucketed under `k`; empty when no such bucket exists.
    pub open spec fn bucket_seqs(self, k: SequenceKey) -> Seq<Sequence> {
        if self.contains_bucket(k) {
            self.buckets@[self.bucket_index_of(k)].1@
        } else {
            Seq::empty()
        }
    }

    /// Total number of sequences over all buckets, summed left to right.
    pub open spec fn total_seqs(self, upto: int) -> nat
        decreases upto,
    {
        if upto <= 0 {
            0
        } else {
            self.total_seqs(upto - 1) + self.buckets@[upto - 1].1@.len()
        }
    }

    proof fn lemma_bucket_index_is(self, k: SequenceKey, i: int)
        requires
            self.wf(),
            0 <= i < self.buckets@.len(),
            self.buckets@[i].0 == k,
        ensures
            self.contains_bucket(k),
            self.bucket_index_of(k) == i,
            self.bucket_seqs(k) == self.buckets@[i].1@,
    {
        assert(self.contains_bucket(k));
        let j = self.bucket_index_of(k);
        if j < i {
            assert(key_lt(self.buckets@[j].0, self.buckets@[i].0));
        } else if j > i {
            assert(key_lt(self.buckets@[i].0, self.buckets@[j].0));
        }
    }

    /// An empty table.
    pub fn new() -> (r: Self)
        ensures
            r.wf(),
            r.buckets@.len() == 0,
            forall|k: SequenceKey| !(#[trigger] r.contains_bucket(k)),
    {
        Sequences { buckets: Vec::new() }
    }

    /// Number of buckets.
    pub fn bucket_count(&self) -> (r: usize)
        ensures
            r == self.buckets@.len(),
    {
        self.buckets.len()
    }

    /// Records one (points, name) pair: the sequence with exactly these
    /// member points, in the bucket keyed by the first two points, gains this
    /// display name; a new sequence entry is made when the points are new.
    pub fn insert(&mut self, points: &Vec<usize>, name: String)
        requires
            old(self).wf(),
            points@.len() >= 2,
        ensures
            final(self).wf(),
            final(self).contains_bucket(spec_key(points@)),
            forall|k2: SequenceKey|
                k2 != spec_key(points@) ==> #[trigger] final(self).contains_bucket(k2) == old(
                    self,
                ).contains_bucket(k2),
            forall|k2: SequenceKey|
                k2 != spec_key(points@) ==> #[trigger] final(self).bucket_seqs(k2) == old(
                    self,
                ).bucket_seqs(k2),
            bucket_contains_points(final(self).bucket_seqs(spec_key(points@)), points@),
            ({
                let nb = final(self).bucket_seqs(spec_key(points@));
                let ob = old(self).bucket_seqs(spec_key(points@));
                let si = bucket_points_index(nb, points@);
                &&& nb[si].points@ == points@
                &&& if bucket_contains_points(ob, points@) {
                    &&& si == bucket_points_index(ob, points@)
                    &&& nb.len() == ob.len()
                    &&& nb[si].names@ == ob[si].names@.push(name)
                    &&& forall|j: int| 0 <= j < nb.len() && j != si ==> nb[j] == ob[j]
                } else {
                    &&& si == ob.len()
                    &&& nb.len() == ob.len() + 1
                    &&& nb[si].names@ == seq![name]
                    &&& forall|j: int| 0 <= j < ob.len() ==> nb[j] == ob[j]
                }
            }),
    {
        let k = key(points);
        let n = self.buckets.len();
        let mut i: usize = 0;
        while i < n && lt_key(&self.buckets[i].0, &k)
            invariant
                *self == *old(self),
                n == self.buckets@.len(),
                0 <= i <= n,
                forall|j: int| 0 <= j < i ==> key_lt((#[trigger] self.buckets@[j]).0, k),
            decreases n - i,
        {
            i = i + 1;
        }
        if i < n && eq_key(&self.buckets[i].0, &k) {
            proof {
                old(self).lemma_bucket_index_is(k, i as int);
            }
            self.insert_into_bucket(i, points, name);
        } else {
            proof {
                assert(!old(self).contains_bucket(k)) by {
                    if old(self).contains_bucket(k) {
                        let w = old(self).bucket_index_of(k);
                        assert(w >= i);
                        if w > i as int {
                            assert(key_lt(self.buckets@[i as int].0, self.buckets@[w].0));
                        }
                    }
                }
            }
            let mut names: Vec<String> = Vec::new();
            names.push(name);
            let mut pts: Vec<usize> = Vec::new();
            let mut pi: usize = 0;
            while pi < points.len()
                invariant
                    pi == pts@.len(),
                    0 <= pi <= points@.len(),
                    pts@ =~= points@.subrange(0, pi as int),
                decreases points@.len() - pi,
            {
                pts.push(points[pi]);
                pi = pi + 1;
            }
            proof {
                assert(pts@ =~= points@);
            }
            let mut bucket: Vec<Sequence> = Vec::new();
            bucket.push(Sequence { points: pts, names });
            self.buckets.insert(i, (k, bucket));
            proof {
                let pre = old(self).buckets@;
                let post = self.buckets@;
                assert(forall|j: int| 0 <= j < i ==> post[j] == #[trigger] pre[j]);
                assert(forall|j: int| i <= j < pre.len() ==> post[j + 1] == #[trigger] pre[j]);
                assert(post[i as int].0 == k);
                assert(self.wf()) by {
                    assert forall|a: int, b: int| 0 <= a < b < post.len() implies key_lt(
                        (#[trigger] post[a]).0,
                        (#[trigger] post[b]).0,
                    ) by {
                        if a < i && b == i as int {
                            assert(key_lt(pre[a].0, k));
                        } else if a == i as int && b > i {
                            assert(post[b] == pre[b - 1]);
                            assert(b - 1 >= i);
                            assert(!key_lt(pre[b - 1].0, k));
                            assert(pre[b - 1].0 != k);
                        } else if a < i && b > i {
                            assert(key_lt(pre[a].0, pre[b - 1].0));
                        } else if a > i && b > i {
                            assert(key_lt(pre[a - 1].0, pre[b - 1].0));
                        }
                    }
                }
                self.lemma_bucket_index_is(k, i as int);
                assert forall|k2: SequenceKey| k2 != k implies #[trigger] self.contains_bucket(k2)
                    == old(self).contains_bucket(k2) by {
                    if self.contains_bucket(k2) {
                        let w = self.bucket_index_of(k2);
                        if w < i {
                            old(self).lemma_bucket_index_is(k2, w);
                        } else {
                            assert(w > i);
                            old(self).lemma_bucket_index_is(k2, w - 1);
                        }
                    }
                    if old(self).contains_bucket(k2) {
                        let w = old(self).bucket_index_of(k2);
                        if w < i {
                            assert(post[w].0 == k2);
                        } else {
                            assert(post[w + 1].0 == k2);
                        }
                        assert(self.contains_bucket(k2));
                    }
                }
                assert forall|k2: SequenceKey| k2 != k implies #[trigger] self.bucket_seqs(k2)
                    == old(self).bucket_seqs(k2) by {
                    if old(self).contains_bucket(k2) {
                        let w = old(self).bucket_index_of(k2);
                        old(self).lemma_bucket_index_is(k2, w);
                        if w < i {
                            self.lemma_bucket_index_is(k2, w);
                        } else {
                            self.lemma_bucket_index_is(k2, w + 1);
                        }
                    }
                }
                let nb = self.bucket_seqs(k);
                assert(nb.len() == 1);
                assert(nb[0].points@ == points@);
                assert(bucket_contains_points(nb, points@));
                let si = bucket_points_index(nb, points@);
                assert(si == 0);
                assert(old(self).bucket_seqs(k) =~= Seq::<Sequence>::empty());
                assert(nb[0].names@ =~= seq![name]);
            }
        }
    }

    /// Adds `name` to the sequence with these points inside bucket `i`, or
    /// appends a new sequence to that bucket.
    fn insert_into_bucket(&mut self, i: usize, points: &Vec<usize>, name: String)
        requires
            old(self).wf(),
            points@.len() >= 2,
            i < old(self).buckets@.len(),
            old(self).buckets@[i as int].0 == spec_key(points@),
        ensures
            final(self).wf(),
            final(self).buckets@.len() == old(self).buckets@.len(),
            forall|j: int|
                0 <= j < old(self).buckets@.len() && j != i ==> #[trigger] final(self).buckets@[j]
                    == old(self).buckets@[j],
            final(self).buckets@[i as int].0 == old(self).buckets@[i as int].0,
            ({
                let nb = final(self).buckets@[i as int].1@;
                let ob = old(self).buckets@[i as int].1@;
                let si = bucket_points_index(nb, points@);
                &&& bucket_contains_points(nb, points@)
                &&& nb[si].points@ == points@
                &&& if bucket_contains_points(ob, points@) {
                    &&& si == bucket_points_index(ob, points@)
                    &&& nb.len() == ob.len()
                    &&& nb[si].names@ == ob[si].names@.push(name)
                    &&& forall|j: int| 0 <= j < nb.len() && j != si ==> nb[j] == ob[j]
                } else {
                    &&& si == ob.len()
                    &&& nb.len() == ob.len() + 1
                    &&& nb[si].names@ == seq![name]
                    &&& forall|j: int| 0 <= j < ob.len() ==> nb[j] == ob[j]
                }
            }),
            forall|k2: SequenceKey|
                #[trigger] final(self).contains_bucket(k2) == old(self).contains_bucket(k2),
            forall|k2: SequenceKey|
                k2 != spec_key(points@) ==> #[trigger] final(self).bucket_seqs(k2) == old(
                    self,
                ).bucket_seqs(k2),
            final(self).contains_bucket(spec_key(points@)),
            final(self).bucket_seqs(spec_key(points@)) == final(self).buckets@[i as int].1@,
            old(self).bucket_seqs(spec_key(points@)) == old(self).buckets@[i as int].1@,
    {
        proof {
            old(self).lemma_bucket_index_is(spec_key(points@), i as int);
        }
        let blen = self.buckets[i].1.len();
        let mut s: usize = 0;
        while s < blen
            invariant
                *self == *old(self),
                old(self).wf(),
                points@.len() >= 2,
                i < self.buckets@.len(),
                self.buckets@[i as int].0 == spec_key(points@),
                blen == self.buckets@[i as int].1@.len(),
                0 <= s <= blen,
                forall|t: int|
                    0 <= t < s ==> (#[trigger] self.buckets@[i as int].1@[t]).points@ != points@,
            decreases blen - s,
        {
            if points_eq(&self.buckets[i].1[s].points, points) {
                let ghost pre = old(self).buckets@;
                self.buckets[i].1[s].names.push(name);
                proof {
                    let post = self.buckets@;
                    let ob = pre[i as int].1@;
                    let nb = post[i as int].1@;
                    assert(forall|j: int| 0 <= j < pre.len() && j != i ==> #[trigger] post[j]
                        == pre[j]);
                    assert(post[i as int].0 == pre[i as int].0);
                    assert(nb =~= ob.update(
                        s as int,
                        Sequence {
                            points: ob[s as int].points,
                            names: nb[s as int].names,
                        },
                    )) by {
                        assert(nb[s as int].points == ob[s as int].points);
                    }
                    assert(nb[s as int].names@ == ob[s as int].names@.push(name));
                    assert(nb[s as int].points@ == points@);
                    assert(self.wf());
                    lemma_points_index_is(ob, points@, s as int);
                    lemma_points_index_is(nb, points@, s as int);
                    self.lemma_bucket_index_is(spec_key(points@), i as int);
                    assert forall|k2: SequenceKey| #[trigger]
                        self.contains_bucket(k2) == old(self).contains_bucket(k2) by {
                        if self.contains_bucket(k2) {
                            let w = self.bucket_index_of(k2);
                            assert(pre[w].0 == k2);
                            assert(old(self).contains_bucket(k2));
                        }
                        if old(self).contains_bucket(k2) {
                            let w = old(self).bucket_index_of(k2);
                            assert(post[w].0 == k2);
                            assert(self.contains_bucket(k2));
                        }
                    }
                    assert forall|k2: SequenceKey| k2 != spec_key(points@) implies #[trigger] self
                        .bucket_seqs(k2) == old(self).bucket_seqs(k2) by {
                        if old(self).contains_bucket(k2) {
                            let w = old(self).bucket_index_of(k2);
                            old(self).lemma_bucket_index_is(k2, w);
                            self.lemma_bucket_index_is(k2, w);
                            assert(w != i);
                        }
                    }
                }
                return ;
            }
            s = s + 1;
        }
        let mut names: Vec<String> = Vec::new();
        names.push(name);
        let mut pts: Vec<usize> = Vec::new();
        let mut pi: usize = 0;
        while pi < points.len()
            invariant
                pi == pts@.len(),
                0 <= pi <= points@.len(),
                pts@ =~= points@.subrange(0, pi as int),
            decreases points@.len() - pi,
        {
            pts.push(points[pi]);
            pi = pi + 1;
        }
        proof {
            assert(pts@ =~= points@);
        }
        let ghost pre = old(self).buckets@;
        self.buckets[i].1.push(Sequence { points: pts, names });
        proof {
            let post = self.buckets@;
            let ob = pre[i as int].1@;
            let nb = post[i as int].1@;
            assert(forall|j: int| 0 <= j < pre.len() && j != i ==> #[trigger] post[j] == pre[j]);
            assert(post[i as int].0 == pre[i as int].0);
            assert(nb.len() == ob.len() + 1);
            assert(forall|j: int| 0 <= j < ob.len() ==> #[trigger] nb[j] == ob[j]);
            assert(nb[ob.len() as int].points@ == points@);
            assert(nb[ob.len() as int].names@ =~= seq![name]);
            assert(!bucket_contains_points(ob, points@));
            assert(self.wf());
            lemma_points_index_is(nb, points@, ob.len() as int);
            self.lemma_bucket_index_is(spec_key(points@), i as int);
            assert forall|k2: SequenceKey| #[trigger]
                self.contains_bucket(k2) == old(self).contains_bucket(k2) by {
                if self.contains_bucket(k2) {
                    let w = self.bucket_index_of(k2);
                    assert(pre[w].0 == k2);
                    assert(old(self).contains_bucket(k2));
                }
                if old(self).contains_bucket(k2) {
                    let w = old(self).bucket_index_of(k2);
                    assert(post[w].0 == k2);
                    assert(self.contains_bucket(k2));
                }
            }
            assert forall|k2: SequenceKey| k2 != spec_key(points@) implies #[trigger] self
                .bucket_seqs(k2) == old(self).bucket_seqs(k2) by {
                if old(self).contains_bucket(k2) {
                    let w = old(self).bucket_index_of(k2);
                    old(self).lemma_bucket_index_is(k2, w);
                    self.lemma_bucket_index_is(k2, w);
                    assert(w != i);
                }
            }
        }
    }
}

impl Default for Sequences {
    /// An empty table.
    fn default() -> (r: Self)
        ensures
            r.wf(),
            r.buckets@.len() == 0,
            forall|k: SequenceKey| !(#[trigger] r.contains_bucket(k)),
    {
        Sequences { buckets: Vec::new() }
    }
}

proof fn lemma_points_index_is(b: Seq<Sequence>, pts: Seq<usize>, i: int)
    requires
        0 <= i < b.len(),
        b[i].points@ == pts,
        forall|s: int, t: int|
            0 <= s < t < b.len() ==> (#[trigger] b[s]).points@ != (#[trigger] b[t]).points@,
    ensures
        bucket_contains_points(b, pts),
        bucket_points_index(b, pts) == i,
{
    assert(bucket_contains_points(b, pts));
    let j = bucket_points_index(b, pts);
    if j < i {
        assert(b[j].points@ != b[i].points@);
    } else if j > i {
        assert(b[i].points@ != b[j].points@);
    }
}

fn lt_key(a: &SequenceKey, b: &SequenceKey) -> (r: bool)
    ensures
        r == key_lt(*a, *b),
{
    a.0 < b.0 || (a.0 == b.0 && a.1 < b.1)
}

fn eq_key(a: &SequenceKey, b: &SequenceKey) -> (r: bool)
    ensures
        r == (*a == *b),
{
    a.0 == b.0 && a.1 == b.1
}

/// Element-wise equality of two code-point vectors.
fn points_eq(a: &Vec<usize>, b: &Vec<usize>) -> (r: bool)
    ensures
        r == (a@ == b@),
{
    if a.len() != b.len() {
        proof {
            assert(a@.len() != b@.len());
        }
        return false;
    }
    let n = a.len();
    let mut i: usize = 0;
    while i < n
        invariant
            n == a@.len() == b@.len(),
            0 <= i <= n,
            forall|j: int| 0 <= j < i ==> a@[j] == b@[j],
        decreases n - i,
    {
        if a[i] != b[i] {
            return false;
        }
        i = i + 1;
    }
    proof {
        assert(a@ =~= b@);
    }
    true
}

} // verus!
