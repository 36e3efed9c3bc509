//! Exact numeric primitives over lap times in milliseconds: sums, the
//! sorted order, the median, and the bounds that keep the executable
//! arithmetic inside its machine types.
//!
//! A mean or a median of integers is in general not an integer, so both
//! are returned as exact ratios (`TimeRatio`) instead of rounded values.

use vstd::prelude::*;

verus! {

use crate::models::MAX_LAP_TIME_MS;
use crate::models::MAX_LAPS;

/// An exact non-negative rational amount of milliseconds.
#[derive(Clone, Copy, PartialEq, Eq, Structural, Debug)]
pub struct TimeRatio {
    pub num: u64,
    pub den: u64,
}

impl TimeRatio {
    pub open spec fn wf(self) -> bool {
        self.den > 0
    }
}

pub struct Math {}

/// Sum of a sequence of lap times.
pub open spec fn sum_of(s: Seq<u64>) -> int
    decreases s.len(),
{
    if s.len() == 0 {
        0
    } else {
        sum_of(s.drop_last()) + s.last()
    }
}

/// Sum of the squares of a sequence of lap times.
pub open spec fn sum_sq_of(s: Seq<u64>) -> int
    decreases s.len(),
{
    if s.len() == 0 {
        0
    } else {
        sum_sq_of(s.drop_last()) + s.last() * s.last()
    }
}

/// Every element is at most `max`.
pub open spec fn all_at_most(s: Seq<u64>, max: u64) -> bool {
    forall|i: int| 0 <= i < s.len() ==> s[i] <= max
}

/// Non-decreasing order.
pub open spec fn is_sorted(s: Seq<u64>) -> bool {
    forall|i: int, j: int| 0 <= i <= j < s.len() ==> s[i] <= s[j]
}

/// `x` placed at its position in an already sorted sequence.
pub open spec fn insert_sorted(x: u64, s: Seq<u64>) -> Seq<u64>
    decreases s.len(),
{
    if s.len() == 0 {
        seq![x]
    } else if x <= s[0] {
        seq![x] + s
    } else {
        seq![s[0]] + insert_sorted(x, s.drop_first())
    }
}

/// The sequence rearranged into non-decreasing order.
pub open spec fn sorted_durations(s: Seq<u64>) -> Seq<u64>
    decreases s.len(),
{
    if s.len() == 0 {
        Seq::<u64>::empty()
    } else {
        insert_sorted(s[0], sorted_durations(s.drop_first()))
    }
}

/// Twice the median of the sequence: the middle element of the sorted
/// order doubled when the count is odd, the sum of the two central
/// elements when it is even.  Doubling keeps the value an integer.
pub open spec fn median_twice(s: Seq<u64>) -> int
    recommends
        s.len() > 0,
{
    let t = sorted_durations(s);
    let mid = (s.len() / 2) as int;
    if s.len() % 2 == 0 {
        t[mid - 1] + t[mid]
    } else {
        2 * t[mid]
    }
}

pub proof fn lemma_sum_bounds(s: Seq<u64>, max: u64)
    requires
        all_at_most(s, max),
    ensures
        0 <= sum_of(s) <= s.len() * max,
    decreases s.len(),
{
    if s.len() > 0 {
        assert(all_at_most(s.drop_last(), max));
        lemma_sum_bounds(s.drop_last(), max);
        assert(s.len() * max == (s.len() - 1) * max + max) by (nonlinear_arith);
    }
}

pub proof fn lemma_sum_sq_bounds(s: Seq<u64>, max: u64)
    requires
        all_at_most(s, max),
    ensures
        0 <= sum_sq_of(s) <= s.len() * (max * max),
    decreases s.len(),
{
    if s.len() > 0 {
        assert(all_at_most(s.drop_last(), max));
        lemma_sum_sq_bounds(s.drop_last(), max);
        assert(s.last() * s.last() <= max * max) by (nonlinear_arith)
            requires
                0 <= s.last() <= max,
        ;
        assert(s.len() * (max * max) == (s.len() - 1) * (max * max) + max * max)
            by (nonlinear_arith);
    }
}

/// The spread of the elements around any value `y` is non-negative:
/// this is the sum of the squares `(s[i] - y)^2`, written out.
proof fn lemma_point_spread(s: Seq<u64>, y: int)
    ensures
        sum_sq_of(s) - 2 * y * sum_of(s) + s.len() * (y * y) >= 0,
    decreases s.len(),
{
    if s.len() > 0 {
        lemma_point_spread(s.drop_last(), y);
        let x = s.last() as int;
        let t = s.drop_last();
        assert(x * x - 2 * y * x + y * y >= 0) by (nonlinear_arith);
        assert(sum_sq_of(s) - 2 * y * sum_of(s) + s.len() * (y * y) == (sum_sq_of(t) - 2 * y
            * sum_of(t) + t.len() * (y * y)) + (x * x - 2 * y * x + y * y)) by (nonlinear_arith)
            requires
                sum_of(s) == sum_of(t) + x,
                sum_sq_of(s) == sum_sq_of(t) + x * x,
                s.len() == t.len() + 1,
        ;
    }
}

/// `n` times the sum of squares dominates the square of the sum, so the
/// population variance numerator `n*Q - S^2` is never negative.
pub proof fn lemma_variance_numerator_nonneg(s: Seq<u64>)
    ensures
        s.len() * sum_sq_of(s) - sum_of(s) * sum_of(s) >= 0,
    decreases s.len(),
{
    if s.len() > 0 {
        let t = s.drop_last();
        let x = s.last() as int;
        lemma_variance_numerator_nonneg(t);
        lemma_point_spread(t, x);
        assert(s.len() * sum_sq_of(s) - sum_of(s) * sum_of(s) == (t.len() * sum_sq_of(t) - sum_of(
            t) * sum_of(t)) + (sum_sq_of(t) - 2 * x * sum_of(t) + t.len() * (x * x)))
            by (nonlinear_arith)
            requires
                sum_of(s) == sum_of(t) + x,
                sum_sq_of(s) == sum_sq_of(t) + x * x,
                s.len() == t.len() + 1,
        ;
    }
}

pub proof fn lemma_insert_sorted_ensures(x: u64, s: Seq<u64>)
    ensures
        insert_sorted(x, s).len() == s.len() + 1,
        insert_sorted(x, s).to_multiset() == s.to_multiset().insert(x),
        is_sorted(s) ==> is_sorted(insert_sorted(x, s)),
        all_at_most(s, MAX_LAP_TIME_MS) && x <= MAX_LAP_TIME_MS ==> all_at_most(
            insert_sorted(x, s),
            MAX_LAP_TIME_MS,
        ),
    decreases s.len(),
{
    broadcast use vstd::seq_lib::group_to_multiset_ensures;

    let r = insert_sorted(x, s);
    if s.len() == 0 {
        assert(r =~= Seq::<u64>::empty().push(x));
    } else if x <= s[0] {
        assert(r =~= seq![x] + s);
        assert(r =~= s.insert(0, x));
        lemma_multiset_of_insert_at(s, x, 0);
    } else {
        lemma_insert_sorted_ensures(x, s.drop_first());
        let inner = insert_sorted(x, s.drop_first());
        assert(r =~= seq![s[0]] + inner);
        assert(r.drop_first() =~= inner);
        assert(r =~= inner.insert(0, s[0]));
        lemma_multiset_of_insert_at(inner, s[0], 0);
        assert(s =~= s.drop_first().insert(0, s[0]));
        lemma_multiset_of_insert_at(s.drop_first(), s[0], 0);
        assert(r.to_multiset() =~= s.to_multiset().insert(x));
        if is_sorted(s) {
            assert(is_sorted(s.drop_first()));
            assert forall|i: int, j: int| 0 <= i <= j < r.len() implies r[i] <= r[j] by {
                if i == 0 && j > 0 {
                    // every element of `inner` is either x (> s[0]) or from
                    // s.drop_first() (>= s[0])
                    assert(inner.to_multiset().contains(r[j]));
                    assert(inner.contains(r[j]));
                }
            }
        }
    }
}

/// Inserting at an index adds one occurrence to the multiset.
pub proof fn lemma_multiset_of_insert_at<A>(s: Seq<A>, x: A, i: int)
    requires
        0 <= i <= s.len(),
    ensures
        s.insert(i, x).to_multiset() == s.to_multiset().insert(x),
    decreases s.len() - i,
{
    broadcast use vstd::seq_lib::group_to_multiset_ensures;

    if i == s.len() {
        assert(s.insert(i, x) =~= s.push(x));
    } else {
        // move the insertion point one step to the right and swap the
        // last two elements back
        let a = s.insert(i, x);
        let b = s.drop_last().insert(i, x).push(s.last());
        assert(a =~= b);
        lemma_multiset_of_insert_at(s.drop_last(), x, i);
        assert(s =~= s.drop_last().push(s.last()));
    }
}

pub proof fn lemma_sorted_durations_ensures(s: Seq<u64>)
    ensures
        sorted_durations(s).len() == s.len(),
        sorted_durations(s).to_multiset() == s.to_multiset(),
        is_sorted(sorted_durations(s)),
        all_at_most(s, MAX_LAP_TIME_MS) ==> all_at_most(sorted_durations(s), MAX_LAP_TIME_MS),
    decreases s.len(),
{
    broadcast use vstd::seq_lib::group_to_multiset_ensures;

    if s.len() > 0 {
        lemma_sorted_durations_ensures(s.drop_first());
        lemma_insert_sorted_ensures(s[0], sorted_durations(s.drop_first()));
        assert(s =~= s.drop_first().insert(0, s[0]));
        lemma_multiset_of_insert_at(s.drop_first(), s[0], 0);
        if all_at_most(s, MAX_LAP_TIME_MS) {
            assert(all_at_most(s.drop_first(), MAX_LAP_TIME_MS));
        }
    }
}

/// A value of the sorted order is a value of the original sequence.
pub proof fn lemma_sorted_durations_element(s: Seq<u64>, i: int)
    requires
        0 <= i < sorted_durations(s).len(),
    ensures
        s.contains(sorted_durations(s)[i]),
{
    broadcast use vstd::seq_lib::group_to_multiset_ensures;

    lemma_sorted_durations_ensures(s);
    assert(sorted_durations(s).contains(sorted_durations(s)[i]));
    assert(sorted_durations(s).to_multiset().contains(sorted_durations(s)[i]));
}

/// `insert_sorted` lands at the first index whose element is not below
/// `x`, shifting the rest to the right.
proof fn lemma_insert_sorted_at(x: u64, s: Seq<u64>, j: int)
    requires
        0 <= j <= s.len(),
        forall|k: int| 0 <= k < j ==> s[k] < x,
        j < s.len() ==> x <= s[j],
    ensures
        insert_sorted(x, s) == s.insert(j, x),
    decreases j,
{
    if j == 0 {
        if s.len() == 0 {
            assert(insert_sorted(x, s) =~= s.insert(0, x));
        } else {
            assert(x <= s[0]);
            assert(seq![x] + s =~= s.insert(0, x));
        }
    } else {
        assert(s[0] < x);
        lemma_insert_sorted_at(x, s.drop_first(), j - 1);
        assert(seq![s[0]] + s.drop_first().insert(j - 1, x) =~= s.insert(j, x));
    }
}

impl Math {
    /// The arithmetic mean as the exact ratio (sum, count).
    pub fn mean(nums: &Vec<u64>) -> (r: TimeRatio)
        requires
            0 < nums@.len() <= MAX_LAPS,
            all_at_most(nums@, MAX_LAP_TIME_MS),
        ensures
            r.num == sum_of(nums@),
            r.den == nums@.len(),
            r.wf(),
    {
        let total = sum_lap_times(nums);
        TimeRatio { num: total, den: nums.len() as u64 }
    }

    /// The median as the exact ratio (twice the median, 2).
    pub fn median(nums: &Vec<u64>) -> (r: TimeRatio)
        requires
            0 < nums@.len(),
            all_at_most(nums@, MAX_LAP_TIME_MS),
        ensures
            r.num == median_twice(nums@),
            r.den == 2,
            r.wf(),
    {
        let sorted = sort_lap_times(nums);
        proof {
            lemma_sorted_durations_ensures(nums@);
        }
        let middle = sorted.len() / 2;
        let num: u64 = if sorted.len() % 2 == 0 {
            proof {
                lemma_sorted_durations_element(nums@, middle - 1);
                lemma_sorted_durations_element(nums@, middle as int);
            }
            sorted[middle - 1] + sorted[middle]
        } else {
            proof {
                lemma_sorted_durations_element(nums@, middle as int);
            }
            2 * sorted[middle]
        };
        TimeRatio { num, den: 2 }
    }
}

/// Sum a vector of lap times; bounded, so a `u64` holds it.
pub fn sum_lap_times(nums: &Vec<u64>) -> (total: u64)
    requires
        nums@.len() <= MAX_LAPS,
        all_at_most(nums@, MAX_LAP_TIME_MS),
    ensures
        total == sum_of(nums@),
{
    let mut total: u64 = 0;
    let mut i: usize = 0;
    proof {
        assert(nums@.subrange(0, 0) =~= Seq::<u64>::empty());
    }
    while i < nums.len()
        invariant
            i <= nums@.len() <= MAX_LAPS,
            all_at_most(nums@, MAX_LAP_TIME_MS),
            total == sum_of(nums@.subrange(0, i as int)),
            total <= i * MAX_LAP_TIME_MS,
        decreases nums@.len() - i,
    {
        proof {
            let pre = nums@.subrange(0, i as int);
            let post = nums@.subrange(0, i + 1);
            assert(post.drop_last() =~= pre);
            assert(post.last() == nums@[i as int]);
            assert((i + 1) * MAX_LAP_TIME_MS == i * MAX_LAP_TIME_MS + MAX_LAP_TIME_MS)
                by (nonlinear_arith);
            assert(i * MAX_LAP_TIME_MS <= MAX_LAPS * MAX_LAP_TIME_MS) by (nonlinear_arith)
                requires
                    0 <= i <= MAX_LAPS,
            ;
        }
        total = total + nums[i];
        i = i + 1;
    }
    proof {
        assert(nums@.subrange(0, nums@.len() as int) =~= nums@);
    }
    total
}

/// Insert `x` into a sorted vector, keeping it sorted.
fn insert_into_sorted(v: &mut Vec<u64>, x: u64)
    requires
        is_sorted(old(v)@),
    ensures
        final(v)@ == insert_sorted(x, old(v)@),
{
    let mut j: usize = 0;
    while j < v.len() && v[j] < x
        invariant
            j <= v@.len(),
            forall|k: int| 0 <= k < j ==> v@[k] < x,
            v@ == old(v)@,
        decreases v@.len() - j,
    {
        j = j + 1;
    }
    proof {
        lemma_insert_sorted_at(x, v@, j as int);
    }
    v.insert(j, x);
}

/// The lap times rearranged into non-decreasing order.
pub fn sort_lap_times(nums: &Vec<u64>) -> (r: Vec<u64>)
    ensures
        r@ == sorted_durations(nums@),
{
    let mut r: Vec<u64> = Vec::new();
    let mut i: usize = nums.len();
    proof {
        assert(nums@.subrange(nums@.len() as int, nums@.len() as int) =~= Seq::<u64>::empty());
    }
    while i > 0
        invariant
            i <= nums@.len(),
            r@ == sorted_durations(nums@.subrange(i as int, nums@.len() as int)),
        decreases i,
    {
        i = i - 1;
        proof {
            lemma_sorted_durations_ensures(nums@.subrange(i + 1, nums@.len() as int));
            let cur = nums@.subrange(i as int, nums@.len() as int);
            assert(cur[0] == nums@[i as int]);
            assert(cur.drop_first() =~= nums@.subrange(i + 1, nums@.len() as int));
        }
        insert_into_sorted(&mut r, nums[i]);
    }
    proof {
        assert(nums@.subrange(0, nums@.len() as int) =~= nums@);
    }
    r
}

} // verus!
