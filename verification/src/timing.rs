//! The statistics of a run of timings: the fastest and slowest run and where they occur, the
//! mean, and the mean of the runs left after dropping the fastest and slowest few.
use vstd::prelude::*;

verus! {

/// The sum of the timings `s`.
pub open spec fn nanos_sum(s: Seq<u64>) -> int
    decreases s.len(),
{
    if s.len() == 0 {
        0
    } else {
        nanos_sum(s.drop_last()) + s.last()
    }
}

/// The timings `s` are in ascending order.
pub open spec fn ascending(s: Seq<u64>) -> bool {
    forall|i: int, j: int| 0 <= i <= j < s.len() ==> s[i] <= s[j]
}

/// `i` is the first index of a smallest timing of `s`.
pub open spec fn first_min_at(s: Seq<u64>, i: int) -> bool {
    &&& 0 <= i < s.len()
    &&& forall|j: int| 0 <= j < s.len() ==> s[i] <= #[trigger] s[j]
    &&& forall|j: int| 0 <= j < i ==> s[i] < #[trigger] s[j]
}

/// `i` is the first index of a largest timing of `s`.
pub open spec fn first_max_at(s: Seq<u64>, i: int) -> bool {
    &&& 0 <= i < s.len()
    &&& forall|j: int| 0 <= j < s.len() ==> #[trigger] s[j] <= s[i]
    &&& forall|j: int| 0 <= j < i ==> #[trigger] s[j] < s[i]
}

/// The statistics of a run of timings, in nanoseconds.
pub struct DurationSummary {
    pub min: u64,
    pub min_index: usize,
    pub max: u64,
    pub max_index: usize,
    pub mean: u64,
    pub middle_mean: u64,
}

/// A sum of `n` timings is at most `n` times the largest timing there is.
proof fn lemma_nanos_sum_bound(s: Seq<u64>)
    ensures
        0 <= nanos_sum(s) <= s.len() * 0xffff_ffff_ffff_ffffint,
    decreases s.len(),
{
    if s.len() > 0 {
        lemma_nanos_sum_bound(s.drop_last());
    }
}

/// Sorts the timings in ascending order.
///
/// Trusted: `slice::sort_unstable` sorts the slice in ascending order, keeping its elements;
/// that is all this claims of it.
#[verifier::external_body]
fn sort_nanos(v: &mut Vec<u64>)
    ensures
        final(v)@.to_multiset() == old(v)@.to_multiset(),
        ascending(final(v)@),
{
    v.sort_unstable();
}

/// The sum of the timings from `lo` up to `hi`.
fn sum_range(v: &Vec<u64>, lo: usize, hi: usize) -> (res: u128)
    requires
        lo <= hi <= v@.len(),
    ensures
        res == nanos_sum(v@.subrange(lo as int, hi as int)),
{
    let mut total: u128 = 0;
    let mut i = lo;
    while i < hi
        invariant
            lo <= i <= hi <= v@.len(),
            total == nanos_sum(v@.subrange(lo as int, i as int)),
        decreases hi - i,
    {
        proof {
            assert(v@.subrange(lo as int, i + 1).drop_last() =~= v@.subrange(lo as int, i as int));
            lemma_nanos_sum_bound(v@.subrange(lo as int, i + 1));
            assert(i + 1 - lo <= usize::MAX);
        }
        total = total + v[i] as u128;
        i = i + 1;
    }
    total
}

/// The statistics of `nanos`: the first fastest and first slowest run with their places, the
/// mean (rounded down), and the mean (rounded down) of the runs left after sorting and dropping
/// `ignore` runs at each end.
pub fn duration_summary(nanos: &Vec<u64>, ignore: usize) -> (res: DurationSummary)
    requires
        nanos@.len() >= 1,
        2 * ignore < nanos@.len(),
    ensures
        first_min_at(nanos@, res.min_index as int),
        res.min == nanos@[res.min_index as int],
        first_max_at(nanos@, res.max_index as int),
        res.max == nanos@[res.max_index as int],
        res.mean == nanos_sum(nanos@) / (nanos@.len() as int),
        exists|sorted: Seq<u64>|
            sorted.to_multiset() == nanos@.to_multiset() && ascending(sorted) && sorted.len()
                == nanos@.len() && res.middle_mean == #[trigger] nanos_sum(
                sorted.subrange(ignore as int, nanos@.len() - ignore),
            ) / (nanos@.len() - 2 * ignore),
{
    let count = nanos.len();
    let mut min_index: usize = 0;
    let mut max_index: usize = 0;
    for i in 1..count
        invariant
            count == nanos@.len(),
            first_min_at(nanos@.take(i as int), min_index as int),
            first_max_at(nanos@.take(i as int), max_index as int),
    {
        if nanos[i] < nanos[min_index] {
            min_index = i;
        }
        if nanos[i] > nanos[max_index] {
            max_index = i;
        }
        proof {
            let t = nanos@.take(i + 1);
            assert(t.take(i as int) =~= nanos@.take(i as int));
            assert forall|j: int| 0 <= j < t.len() implies t[min_index as int] <= #[trigger] t[j] by {
                if j < i {
                    assert(nanos@.take(i as int)[j] == t[j]);
                }
            }
            assert forall|j: int| 0 <= j < min_index implies t[min_index as int] < #[trigger] t[j] by {
                assert(nanos@.take(i as int)[j] == t[j]);
            }
            assert forall|j: int| 0 <= j < t.len() implies #[trigger] t[j] <= t[max_index as int] by {
                if j < i {
                    assert(nanos@.take(i as int)[j] == t[j]);
                }
            }
            assert forall|j: int| 0 <= j < max_index implies #[trigger] t[j] < t[max_index as int] by {
                assert(nanos@.take(i as int)[j] == t[j]);
            }
        }
    }
    proof {
        assert(nanos@.take(count as int) =~= nanos@);
        assert(nanos@.subrange(0, count as int) =~= nanos@);
        lemma_nanos_sum_bound(nanos@);
    }
    let total = sum_range(nanos, 0, count);
    let mean = (total / count as u128) as u64;
    proof {
        assert(total / (count as u128) <= 0xffff_ffff_ffff_ffff) by (nonlinear_arith)
            requires
                total <= count * 0xffff_ffff_ffff_ffffint,
                count >= 1,
        ;
    }
    let mut sorted = nanos.clone();
    sort_nanos(&mut sorted);
    proof {
        sorted@.to_multiset_ensures();
        nanos@.to_multiset_ensures();
        assert(sorted@.len() == nanos@.len());
        lemma_nanos_sum_bound(sorted@.subrange(ignore as int, count - ignore));
    }
    let middle = sum_range(&sorted, ignore, count - ignore);
    let middle_count = count - 2 * ignore;
    let middle_mean = (middle / middle_count as u128) as u64;
    proof {
        assert(middle / (middle_count as u128) <= 0xffff_ffff_ffff_ffff) by (nonlinear_arith)
            requires
                middle <= middle_count * 0xffff_ffff_ffff_ffffint,
                middle_count >= 1,
        ;
    }
    DurationSummary {
        min: nanos[min_index],
        min_index,
        max: nanos[max_index],
        max_index,
        mean,
        middle_mean,
    }
}

} // verus!
