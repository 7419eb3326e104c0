//! Bulk ranges of `UnicodeData.txt`: turning First/Last range pairs into a
//! per-code-point table of range starts.

use vstd::prelude::*;

verus! {

/// The first code point of the range covering `i`; ranges listed later
/// override earlier ones, as repeated map insertion would.
pub open spec fn spec_range_first(ranges: Seq<(usize, usize)>, i: int) -> Option<usize>
    decreases ranges.len(),
{
    if ranges.len() == 0 {
        None
    } else if ranges.last().0 <= i <= ranges.last().1 {
        Some(ranges.last().0)
    } else {
        spec_range_first(ranges.drop_last(), i)
    }
}

/// Expands the First/Last ranges of `UnicodeData.txt` into a per-code-point
/// table: entry `i` holds the first code point of the range covering `i`,
/// absent outside every range.
pub fn process_ud_ranges(ranges: &Vec<(usize, usize)>, len: usize) -> (r: Vec<Option<usize>>)
    requires
        forall|k: int| 0 <= k < ranges@.len() ==> (#[trigger] ranges@[k]).0 <= ranges@[k].1 < len,
    ensures
        r@.len() == len,
        forall|i: int| 0 <= i < len ==> #[trigger] r@[i] == spec_range_first(ranges@, i),
{
    let mut r: Vec<Option<usize>> = Vec::new();
    let mut i: usize = 0;
    while i < len
        invariant
            i == r@.len(),
            0 <= i <= len,
            forall|j: int| 0 <= j < i ==> (#[trigger] r@[j]) is None,
        decreases len - i,
    {
        r.push(None);
        i = i + 1;
    }
    proof {
        assert(ranges@.take(0) =~= Seq::<(usize, usize)>::empty());
    }
    let mut k: usize = 0;
    while k < ranges.len()
        invariant
            forall|t: int|
                0 <= t < ranges@.len() ==> (#[trigger] ranges@[t]).0 <= ranges@[t].1 < len,
            0 <= k <= ranges@.len(),
            r@.len() == len,
            forall|j: int|
                0 <= j < len ==> #[trigger] r@[j] == spec_range_first(
                    ranges@.take(k as int),
                    j,
                ),
        decreases ranges@.len() - k,
    {
        let ghost pre = ranges@.take(k as int);
        let ghost post = ranges@.take(k + 1);
        proof {
            assert(post.drop_last() =~= pre);
            assert(post.last() == ranges@[k as int]);
        }
        let (first, last) = ranges[k];
        let mut i = first;
        while i <= last
            invariant
                forall|t: int|
                    0 <= t < ranges@.len() ==> (#[trigger] ranges@[t]).0 <= ranges@[t].1 < len,
                k < ranges@.len(),
                (first, last) == ranges@[k as int],
                first <= last < len,
                pre == ranges@.take(k as int),
                post == ranges@.take(k + 1),
                post.last() == ranges@[k as int],
                post.drop_last() == pre,
                first <= i <= last + 1,
                r@.len() == len,
                forall|j: int|
                    first <= j < i ==> #[trigger] r@[j] == spec_range_first(post, j),
                forall|j: int|
                    0 <= j < len && !(first <= j < i) ==> #[trigger] r@[j] == spec_range_first(
                        pre,
                        j,
                    ),
            decreases last + 1 - i,
        {
            r[i] = Some(first);
            proof {
                assert(spec_range_first(post, i as int) == Some(first));
            }
            i = i + 1;
        }
        proof {
            assert forall|j: int| 0 <= j < len implies #[trigger] r@[j] == spec_range_first(
                post,
                j,
            ) by {
                if !(first <= j <= last) {
                    assert(spec_range_first(post, j) == spec_range_first(pre, j));
                }
            }
        }
        k = k + 1;
    }
    proof {
        assert(ranges@.take(ranges@.len() as int) =~= ranges@);
    }
    r
}

} // verus!
