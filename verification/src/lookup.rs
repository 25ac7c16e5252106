//! The O(log n) interval search, independent of any storage backend.

use vstd::prelude::*;

use crate::models::IpRange;

verus! {

/// `ranges` is what `range_at` gives for each index below `count`.
pub open spec fn yields<F: Fn(usize) -> IpRange>(range_at: F, count: usize, ranges: Seq<IpRange>) -> bool {
    &&& ranges.len() == count
    &&& forall|i: usize, r: IpRange|
        i < count && #[trigger] call_ensures(range_at, (i,), r) ==> r == ranges[i as int]
}

/// The index that a binary search of `ranges[lo..hi]` for `target` stops at:
/// it probes the midpoint, goes left when `target` is below the probed range,
/// right when it is above it, and stops at a range that contains it.
pub open spec fn search_result(ranges: Seq<IpRange>, target: u32, lo: int, hi: int) -> Option<int>
    decreases hi - lo,
{
    if lo < hi {
        let mid = lo + (hi - lo) / 2;
        if target < ranges[mid].start {
            search_result(ranges, target, lo, mid)
        } else if target > ranges[mid].end {
            search_result(ranges, target, mid + 1, hi)
        } else {
            Some(mid)
        }
    } else {
        None
    }
}

/// `res` is the search's answer `found`, as an index.
pub open spec fn same_index(res: Option<usize>, found: Option<int>) -> bool {
    match res {
        Some(i) => found == Some(i as int),
        None => found is None,
    }
}

/// The same ordering, for ranges held in a sequence.
pub open spec fn ranges_ordered(ranges: Seq<IpRange>) -> bool {
    forall|i: int, j: int|
        0 <= i < j < ranges.len() ==> #[trigger] ranges[i].start <= #[trigger] ranges[j].start
            && ranges[i].end < ranges[j].start
}

/// Binary-searches `count` ranges, accessed via `range_at`, for the one
/// containing `target`.
///
/// A returned index always names a range that contains `target`. Of any
/// sequence that `range_at` yields, the answer is what `search_result` gives;
/// when those ranges are sorted by `start` and do not overlap (which the
/// database writer guarantees), `None` means that no range contains `target`.
pub fn binary_search_range<F: Fn(usize) -> IpRange>(count: usize, target: u32, range_at: F) -> (res:
    Option<usize>)
    requires
        forall|i: usize| i < count ==> call_requires(range_at, (i,)),
    ensures
        res matches Some(k) ==> k < count && exists|r: IpRange|
            #[trigger] call_ensures(range_at, (k,), r) && r.spec_contains(target),
        forall|ranges: Seq<IpRange>| #[trigger]
            yields(range_at, count, ranges) ==> same_index(res, search_result(ranges, target, 0, count as int)),
        forall|ranges: Seq<IpRange>| #[trigger]
            yields(range_at, count, ranges) ==> (res matches Some(k) ==> ranges[k as int].spec_contains(target)),
        forall|ranges: Seq<IpRange>| #[trigger]
            yields(range_at, count, ranges) && res is None && ranges_ordered(ranges) ==> forall|k: int|
                0 <= k < count ==> !#[trigger] ranges[k].spec_contains(target),
{
    let mut lo: usize = 0;
    let mut hi: usize = count;

    while lo < hi
        invariant
            lo <= hi <= count,
            forall|i: usize| i < count ==> call_requires(range_at, (i,)),
            forall|ranges: Seq<IpRange>| #[trigger]
                yields(range_at, count, ranges) ==> search_result(ranges, target, 0, count as int)
                    == search_result(ranges, target, lo as int, hi as int),
            forall|ranges: Seq<IpRange>| #[trigger]
                yields(range_at, count, ranges) && ranges_ordered(ranges) ==> forall|k: int|
                    (0 <= k < lo || hi <= k < count) ==> !#[trigger] ranges[k].spec_contains(target),
        decreases hi - lo,
    {
        let mid = lo + (hi - lo) / 2;
        let candidate = range_at(mid);
        if target < candidate.start {
            assert forall|ranges: Seq<IpRange>| #[trigger] yields(range_at, count, ranges) implies search_result(
                ranges,
                target,
                0,
                count as int,
            ) == search_result(ranges, target, lo as int, mid as int) && (ranges_ordered(ranges) ==> forall|k: int|
                (0 <= k < lo || mid <= k < count) ==> !#[trigger] ranges[k].spec_contains(target)) by {
                assert(candidate == ranges[mid as int]);
            }
            hi = mid;
        } else if target > candidate.end {
            assert forall|ranges: Seq<IpRange>| #[trigger] yields(range_at, count, ranges) implies search_result(
                ranges,
                target,
                0,
                count as int,
            ) == search_result(ranges, target, mid + 1, hi as int) && (ranges_ordered(ranges) ==> forall|k: int|
                (0 <= k < mid + 1 || hi <= k < count) ==> !#[trigger] ranges[k].spec_contains(target)) by {
                assert(candidate == ranges[mid as int]);
            }
            lo = mid + 1;
        } else {
            assert forall|ranges: Seq<IpRange>| #[trigger] yields(range_at, count, ranges) implies search_result(
                ranges,
                target,
                0,
                count as int,
            ) == Some(mid as int) && ranges[mid as int].spec_contains(target) by {
                assert(candidate == ranges[mid as int]);
            }
            assert(call_ensures(range_at, (mid,), candidate));
            assert(candidate.spec_contains(target));
            return Some(mid);
        }
    }
    None
}

} // verus!
