//! Lap statistics: fastest / average / median over a lap set, and the
//! classification of laps into normal laps and outliers.
//!
//! A lap is an outlier when its time lies above `center + m * sigma`
//! (`sigma` the population standard deviation of the set, `center` the
//! median by default, `m` configurable) or below a fixed venue floor.
//! The comparison against `center + m * sigma` is carried out exactly in
//! integers: with `n` laps, sum `S`, sum of squares `Q`, center `num/den`
//! and multiplier `m`, the condition `d > num/den + m * sigma` holds iff
//!
//! `den*d > num`  and  `n^2 * (den*d - num)^2 > m^2 * den^2 * (n*Q - S^2)`
//!
//! because `sigma^2 == (n*Q - S^2) / n^2` and both sides are non-negative
//! once `den*d > num`, so squaring preserves the order.

use vstd::prelude::*;

verus! {

use crate::models::Lap;
use crate::models::MAX_LAPS;
use crate::models::MAX_LAP_TIME_MS;
use crate::math::TimeRatio;
use crate::math::Math;
use crate::math::all_at_most;
use crate::math::median_twice;
use crate::math::sum_of;
use crate::math::sum_sq_of;
use crate::math::sum_lap_times;
use crate::math::lemma_sum_bounds;
use crate::math::lemma_sum_sq_bounds;
use crate::math::lemma_variance_numerator_nonneg;

/// The typed failures of the core, surfaced to the caller; the core
/// never logs or substitutes defaults.
#[derive(Clone, Copy, PartialEq, Eq, Structural, Debug)]
pub enum AnalysisError {
    /// No laps to summarize; the caller must special-case this.
    EmptyInput,
    /// A lap references a driver, kart or heat that was not supplied.
    DanglingReference,
    /// Fewer than two ranked drivers in a heat: it cannot be rated.
    InsufficientCompetitors,
    /// A rating update could not be applied as one whole-heat unit.
    PartialPersistenceFailure,
}

/// Which center the outlier rule measures the spread against.
#[derive(Clone, Copy, PartialEq, Eq, Structural, Debug)]
pub enum CenterStrategy {
    /// The median of the lap set: robust against the very values being
    /// classified, and the default.
    Median,
    /// The arithmetic mean, as a documented alternative.
    Mean,
}

/// Venue-specific outlier configuration.
#[derive(Clone, Copy, PartialEq, Eq, Structural, Debug)]
pub struct OutlierConfig {
    pub center: CenterStrategy,
    /// How many standard deviations above the center a lap may lie.
    pub sigma_multiplier: u64,
    /// Laps faster than this many milliseconds are impossibly fast.
    pub floor: u64,
}

impl OutlierConfig {
    /// The multiplier bound keeps the squared comparison inside `u128`.
    pub open spec fn wf(self) -> bool {
        0 < self.sigma_multiplier <= 1000
    }
}

impl Default for OutlierConfig {
    /// Two standard deviations above the median, 45-second floor.
    fn default() -> (c: OutlierConfig)
        ensures
            c.center == CenterStrategy::Median,
            c.sigma_multiplier == 2,
            c.floor == 45_000,
            c.wf(),
    {
        OutlierConfig { center: CenterStrategy::Median, sigma_multiplier: 2, floor: 45_000 }
    }
}

/// The lap times of a lap set, in order.
pub open spec fn lap_times_of(laps: Seq<Lap>) -> Seq<u64> {
    laps.map_values(|l: Lap| l.lap_time)
}

/// Every lap has an acceptable time.
pub open spec fn laps_wf(laps: Seq<Lap>) -> bool {
    forall|i: int| 0 <= i < laps.len() ==> (#[trigger] laps[i]).wf()
}

/// The smallest value of a non-empty sequence.
pub open spec fn min_of(s: Seq<u64>) -> u64
    recommends
        s.len() > 0,
    decreases s.len(),
{
    if s.len() <= 1 {
        s[0]
    } else if s.last() < min_of(s.drop_last()) {
        s.last()
    } else {
        min_of(s.drop_last())
    }
}

/// `min_of` is a value of the sequence and a lower bound of it: the
/// textbook minimum.
pub proof fn lemma_min_of_ensures(s: Seq<u64>)
    requires
        s.len() > 0,
    ensures
        s.contains(min_of(s)),
        forall|i: int| 0 <= i < s.len() ==> min_of(s) <= s[i],
    decreases s.len(),
{
    if s.len() > 1 {
        lemma_min_of_ensures(s.drop_last());
        let m = min_of(s.drop_last());
        assert(s.drop_last().contains(m) ==> s.contains(m));
        assert(forall|i: int| 0 <= i < s.len() - 1 ==> s[i] == s.drop_last()[i]);
    }
}

/// Numerator of the configured center of a lap-time set.
pub open spec fn center_num(s: Seq<u64>, c: CenterStrategy) -> int {
    match c {
        CenterStrategy::Median => median_twice(s),
        CenterStrategy::Mean => sum_of(s),
    }
}

/// Denominator of the configured center of a lap-time set.
pub open spec fn center_den(s: Seq<u64>, c: CenterStrategy) -> int {
    match c {
        CenterStrategy::Median => 2,
        CenterStrategy::Mean => s.len() as int,
    }
}

/// Whether `d` lies strictly above `center + m * sigma` over the lap-time
/// set `s`: the exact integer form described at the top of this module.
pub open spec fn exceeds_spread(d: u64, s: Seq<u64>, cfg: OutlierConfig) -> bool {
    let n = s.len() as int;
    let m = cfg.sigma_multiplier as int;
    let num = center_num(s, cfg.center);
    let den = center_den(s, cfg.center);
    let variance_num = n * sum_sq_of(s) - sum_of(s) * sum_of(s);
    den * d > num && (n * n) * ((den * d - num) * (den * d - num)) > (m * m) * ((den * den)
        * variance_num)
}

/// A lap time is an outlier over the set `s` iff it exceeds the spread
/// bound or is below the configured floor.
pub open spec fn is_outlier(d: u64, s: Seq<u64>, cfg: OutlierConfig) -> bool {
    d < cfg.floor || exceeds_spread(d, s, cfg)
}

/// The predicate picking the outliers of a lap set, measured against the
/// fixed lap-time set `times`.
pub open spec fn outlier_pred(times: Seq<u64>, cfg: OutlierConfig) -> spec_fn(Lap) -> bool {
    |l: Lap| is_outlier(l.lap_time, times, cfg)
}

/// The predicate picking the normal laps.
pub open spec fn normal_pred(times: Seq<u64>, cfg: OutlierConfig) -> spec_fn(Lap) -> bool {
    |l: Lap| !is_outlier(l.lap_time, times, cfg)
}

/// The normal laps of a set, in their original order.
pub open spec fn normal_laps(laps: Seq<Lap>, cfg: OutlierConfig) -> Seq<Lap> {
    laps.filter(normal_pred(lap_times_of(laps), cfg))
}

/// The outlier laps of a set, in their original order.
pub open spec fn outlier_laps(laps: Seq<Lap>, cfg: OutlierConfig) -> Seq<Lap> {
    laps.filter(outlier_pred(lap_times_of(laps), cfg))
}

/// Descriptive statistics of a non-empty lap set.
#[derive(Clone, Copy, PartialEq, Eq, Structural, Debug)]
pub struct LapsStats {
    pub fastest_lap_time: u64,
    pub avg_lap_time: TimeRatio,
    pub median_lap_time: TimeRatio,
}

/// What `stats` returns on a non-empty lap set.
pub open spec fn spec_stats(laps: Seq<Lap>) -> LapsStats {
    let times = lap_times_of(laps);
    LapsStats {
        fastest_lap_time: min_of(times),
        avg_lap_time: TimeRatio { num: sum_of(times) as u64, den: times.len() as u64 },
        median_lap_time: TimeRatio { num: median_twice(times) as u64, den: 2 },
    }
}

/// Fastest, average and median lap of a lap set; `EmptyInput` when there
/// are no laps, and never any other failure.
pub fn stats(laps: &Vec<Lap>) -> (r: Result<LapsStats, AnalysisError>)
    requires
        laps@.len() <= MAX_LAPS,
        laps_wf(laps@),
    ensures
        match r {
            Result::Ok(st) => laps@.len() > 0 && st == spec_stats(laps@),
            Result::Err(e) => laps@.len() == 0 && e == AnalysisError::EmptyInput,
        },
{
    if laps.len() == 0 {
        return Err(AnalysisError::EmptyInput);
    }
    let times = lap_times(laps);
    let fastest = min_lap_time(&times);
    let avg = Math::mean(&times);
    let median = Math::median(&times);
    proof {
        lemma_sum_bounds(times@, MAX_LAP_TIME_MS);
    }
    Ok(LapsStats { fastest_lap_time: fastest, avg_lap_time: avg, median_lap_time: median })
}

/// Split a lap set into (normal, outliers), both preserving the original
/// order; `EmptyInput` when there are no laps, and never any other
/// failure.
pub fn classify(laps: &Vec<Lap>, config: &OutlierConfig) -> (r: Result<
    (Vec<Lap>, Vec<Lap>),
    AnalysisError,
>)
    requires
        laps@.len() <= MAX_LAPS,
        laps_wf(laps@),
        config.wf(),
    ensures
        match r {
            Result::Ok(split) => laps@.len() > 0 && split.0@ == normal_laps(laps@, *config)
                && split.1@ == outlier_laps(laps@, *config),
            Result::Err(e) => laps@.len() == 0 && e == AnalysisError::EmptyInput,
        },
{
    if laps.len() == 0 {
        return Err(AnalysisError::EmptyInput);
    }
    let times = lap_times(laps);
    let flags = outlier_flags(&times, config);
    let mut normal: Vec<Lap> = Vec::new();
    let mut outliers: Vec<Lap> = Vec::new();
    let ghost times_seq = times@;
    let ghost cfg = *config;
    let mut i: usize = 0;
    proof {
        reveal(Seq::filter);
        assert(laps@.subrange(0, 0) =~= Seq::<Lap>::empty());
    }
    while i < laps.len()
        invariant
            i <= laps@.len(),
            cfg == *config,
            times_seq == lap_times_of(laps@),
            flags@.len() == laps@.len(),
            forall|k: int|
                0 <= k < flags@.len() ==> flags@[k] == is_outlier(times_seq[k], times_seq, cfg),
            normal@ == laps@.subrange(0, i as int).filter(normal_pred(times_seq, cfg)),
            outliers@ == laps@.subrange(0, i as int).filter(outlier_pred(times_seq, cfg)),
        decreases laps@.len() - i,
    {
        proof {
            reveal(Seq::filter);
            assert(laps@.subrange(0, i + 1).drop_last() =~= laps@.subrange(0, i as int));
            assert(laps@.subrange(0, i + 1).last() == laps@[i as int]);
            assert(times_seq[i as int] == laps@[i as int].lap_time);
        }
        if flags[i] {
            outliers.push(laps[i]);
        } else {
            normal.push(laps[i]);
        }
        i = i + 1;
    }
    proof {
        assert(laps@.subrange(0, laps@.len() as int) =~= laps@);
    }
    Ok((normal, outliers))
}

/// For each lap time, whether it is an outlier over the whole set.
pub fn outlier_flags(times: &Vec<u64>, config: &OutlierConfig) -> (flags: Vec<bool>)
    requires
        0 < times@.len() <= MAX_LAPS,
        all_at_most(times@, MAX_LAP_TIME_MS),
        config.wf(),
    ensures
        flags@.len() == times@.len(),
        forall|k: int|
            0 <= k < flags@.len() ==> flags@[k] == is_outlier(times@[k], times@, *config),
{
    let n: u64 = times.len() as u64;
    let total: u64 = sum_lap_times(times);
    let total_sq: u128 = sum_sq_lap_times(times);
    proof {
        lemma_variance_numerator_nonneg(times@);
        lemma_sum_sq_bounds(times@, MAX_LAP_TIME_MS);
        lemma_sum_bounds(times@, MAX_LAP_TIME_MS);
        assert((n as int) * sum_sq_of(times@) <= (MAX_LAPS as int) * ((MAX_LAPS as int) * (
        MAX_LAP_TIME_MS as int * MAX_LAP_TIME_MS as int))) by (nonlinear_arith)
            requires
                0 < n as int <= MAX_LAPS as int,
                0 <= sum_sq_of(times@) <= (n as int) * (MAX_LAP_TIME_MS as int
                    * MAX_LAP_TIME_MS as int),
        ;
    }
    let variance_num: u128 = (n as u128) * total_sq - (total as u128) * (total as u128);
    let (num, den): (u64, u64) = match config.center {
        CenterStrategy::Median => {
            let med = Math::median(times);
            proof {
                crate::math::lemma_sorted_durations_ensures(times@);
            }
            (med.num, 2)
        },
        CenterStrategy::Mean => (total, n),
    };
    proof {
        assert(num as int <= (den as int) * (MAX_LAP_TIME_MS as int)) by {
            if config.center is Median {
                let t = crate::math::sorted_durations(times@);
                crate::math::lemma_sorted_durations_ensures(times@);
                let mid = (times@.len() / 2) as int;
                assert(t[mid] <= MAX_LAP_TIME_MS);
                if times@.len() % 2 == 0 {
                    assert(t[mid - 1] <= MAX_LAP_TIME_MS);
                }
            }
        }
    }
    let mut flags: Vec<bool> = Vec::new();
    let ghost times_seq = times@;
    let ghost cfg = *config;
    let mut i: usize = 0;
    while i < times.len()
        invariant
            i <= times@.len() <= MAX_LAPS,
            all_at_most(times@, MAX_LAP_TIME_MS),
            cfg == *config,
            cfg.wf(),
            times_seq == times@,
            0 < n as int == times_seq.len(),
            total == sum_of(times_seq),
            total_sq == sum_sq_of(times_seq),
            variance_num == (n as int) * sum_sq_of(times_seq) - sum_of(times_seq) * sum_of(
                times_seq,
            ),
            num as int == center_num(times_seq, cfg.center),
            den as int == center_den(times_seq, cfg.center),
            1 <= den as int <= MAX_LAPS as int,
            num as int <= (den as int) * (MAX_LAP_TIME_MS as int),
            flags@.len() == i,
            forall|k: int|
                0 <= k < i ==> flags@[k] == is_outlier(times_seq[k], times_seq, cfg),
        decreases times@.len() - i,
    {
        let d = times[i];
        let out = if d < config.floor {
            true
        } else {
            exceeds_spread_exec(
                d,
                num,
                den,
                config.sigma_multiplier,
                n,
                variance_num,
                Ghost(times_seq),
            )
        };
        flags.push(out);
        i = i + 1;
    }
    flags
}

/// The exact integer comparison of `d` against `num/den + m * sigma`
/// over the lap-time set `s`.
fn exceeds_spread_exec(
    d: u64,
    num: u64,
    den: u64,
    m: u64,
    n: u64,
    variance_num: u128,
    Ghost(s): Ghost<Seq<u64>>,
) -> (r: bool)
    requires
        0 < n as int == s.len() <= MAX_LAPS as int,
        all_at_most(s, MAX_LAP_TIME_MS),
        d <= MAX_LAP_TIME_MS,
        0 < m <= 1000,
        1 <= den as int <= MAX_LAPS as int,
        num as int <= (den as int) * (MAX_LAP_TIME_MS as int),
        variance_num == (n as int) * sum_sq_of(s) - sum_of(s) * sum_of(s),
    ensures
        r == ((den as int) * d > num && ((n as int) * (n as int)) * (((den as int) * d - num) * ((
        den as int) * d - num)) > ((m as int) * (m as int)) * (((den as int) * (den as int))
            * variance_num)),
{
    proof {
        lemma_sum_sq_bounds(s, MAX_LAP_TIME_MS);
        lemma_sum_bounds(s, MAX_LAP_TIME_MS);
        lemma_variance_numerator_nonneg(s);
    }
    proof {
        assert((den as int) * (d as int) <= 36_000_000_000) by (nonlinear_arith)
            requires
                1 <= den as int <= 10_000,
                0 <= d as int <= 3_600_000,
        ;
    }
    let dd: u128 = (den as u128) * (d as u128);
    if dd <= num as u128 {
        return false;
    }
    let diff: u128 = dd - (num as u128);
    proof {
        assert(dd as int <= 36_000_000_000) by (nonlinear_arith)
            requires
                dd as int == (den as int) * (d as int),
                1 <= den as int <= 10_000,
                0 <= d as int <= 3_600_000,
        ;
        assert((diff as int) * (diff as int) <= 1_296_000_000_000_000_000_000)
            by (nonlinear_arith)
            requires
                0 <= diff as int <= 36_000_000_000,
        ;
        assert((n as int) * (n as int) <= 100_000_000) by (nonlinear_arith)
            requires
                0 < n as int <= 10_000,
        ;
        assert(((n as int) * (n as int)) * ((diff as int) * (diff as int))
            <= 129_600_000_000_000_000_000_000_000_000) by (nonlinear_arith)
            requires
                0 <= (n as int) * (n as int) <= 100_000_000,
                0 <= (diff as int) * (diff as int) <= 1_296_000_000_000_000_000_000,
        ;
        assert(variance_num as int <= (n as int) * sum_sq_of(s)) by {
            assert(sum_of(s) * sum_of(s) >= 0) by (nonlinear_arith);
        }
        assert((n as int) * sum_sq_of(s) <= 1_296_000_000_000_000_000_000) by (nonlinear_arith)
            requires
                0 < n as int <= 10_000,
                0 <= sum_sq_of(s) <= (n as int) * 12_960_000_000_000,
        ;
        assert((den as int) * (den as int) <= 100_000_000) by (nonlinear_arith)
            requires
                1 <= den as int <= 10_000,
        ;
        assert(((den as int) * (den as int)) * (variance_num as int)
            <= 129_600_000_000_000_000_000_000_000_000) by (nonlinear_arith)
            requires
                0 <= (den as int) * (den as int) <= 100_000_000,
                0 <= variance_num as int <= 1_296_000_000_000_000_000_000,
        ;
        assert((m as int) * (m as int) <= 1_000_000) by (nonlinear_arith)
            requires
                0 < m as int <= 1000,
        ;
        assert(((m as int) * (m as int)) * (((den as int) * (den as int)) * (variance_num as int))
            <= 129_600_000_000_000_000_000_000_000_000_000_000) by (nonlinear_arith)
            requires
                0 <= (m as int) * (m as int) <= 1_000_000,
                0 <= ((den as int) * (den as int)) * (variance_num as int)
                    <= 129_600_000_000_000_000_000_000_000_000,
        ;
    }
    let lhs: u128 = ((n as u128) * (n as u128)) * (diff * diff);
    let rhs: u128 = ((m as u128) * (m as u128)) * (((den as u128) * (den as u128)) * variance_num);
    lhs > rhs
}

/// Sum of squares of a vector of lap times; bounded, so a `u128` holds it.
pub fn sum_sq_lap_times(nums: &Vec<u64>) -> (total: u128)
    requires
        nums@.len() <= MAX_LAPS,
        all_at_most(nums@, MAX_LAP_TIME_MS),
    ensures
        total == sum_sq_of(nums@),
{
    let mut total: u128 = 0;
    let mut i: usize = 0;
    proof {
        assert(nums@.subrange(0, 0) =~= Seq::<u64>::empty());
    }
    while i < nums.len()
        invariant
            i <= nums@.len() <= MAX_LAPS,
            all_at_most(nums@, MAX_LAP_TIME_MS),
            total == sum_sq_of(nums@.subrange(0, i as int)),
        decreases nums@.len() - i,
    {
        proof {
            let pre = nums@.subrange(0, i as int);
            let post = nums@.subrange(0, i + 1);
            assert(post.drop_last() =~= pre);
            assert(post.last() == nums@[i as int]);
            lemma_sum_sq_bounds(pre, MAX_LAP_TIME_MS);
            assert(pre.len() * (MAX_LAP_TIME_MS as int * MAX_LAP_TIME_MS as int) <= 10_000i128
                as int * (MAX_LAP_TIME_MS as int * MAX_LAP_TIME_MS as int)) by (nonlinear_arith)
                requires
                    0 <= pre.len() <= 10_000,
            ;
            assert((nums@[i as int] as int) * (nums@[i as int] as int) <= MAX_LAP_TIME_MS as int
                * MAX_LAP_TIME_MS as int) by (nonlinear_arith)
                requires
                    0 <= nums@[i as int] <= MAX_LAP_TIME_MS,
            ;
        }
        total = total + (nums[i] as u128) * (nums[i] as u128);
        i = i + 1;
    }
    proof {
        assert(nums@.subrange(0, nums@.len() as int) =~= nums@);
    }
    total
}

/// The lap times of a lap vector, in order.
pub fn lap_times(laps: &Vec<Lap>) -> (times: Vec<u64>)
    ensures
        times@ == lap_times_of(laps@),
        laps_wf(laps@) ==> all_at_most(times@, MAX_LAP_TIME_MS),
{
    let mut times: Vec<u64> = Vec::new();
    let mut i: usize = 0;
    while i < laps.len()
        invariant
            i <= laps@.len(),
            times@ =~= laps@.subrange(0, i as int).map_values(|l: Lap| l.lap_time),
        decreases laps@.len() - i,
    {
        proof {
            assert(laps@.subrange(0, i + 1).drop_last() =~= laps@.subrange(0, i as int));
        }
        times.push(laps[i].lap_time);
        proof {
            assert(times@ =~= laps@.subrange(0, i + 1).map_values(|l: Lap| l.lap_time));
        }
        i = i + 1;
    }
    proof {
        assert(laps@.subrange(0, laps@.len() as int) =~= laps@);
        assert(times@ =~= lap_times_of(laps@));
    }
    times
}

/// The smallest lap time of a non-empty vector.
pub fn min_lap_time(nums: &Vec<u64>) -> (m: u64)
    requires
        nums@.len() > 0,
    ensures
        m == min_of(nums@),
{
    let mut m: u64 = nums[0];
    let mut i: usize = 1;
    proof {
        assert(nums@.subrange(0, 1) =~= seq![nums@[0]]);
    }
    while i < nums.len()
        invariant
            1 <= i <= nums@.len(),
            m == min_of(nums@.subrange(0, i as int)),
        decreases nums@.len() - i,
    {
        proof {
            let pre = nums@.subrange(0, i as int);
            let post = nums@.subrange(0, i + 1);
            assert(post.drop_last() =~= pre);
            assert(post.last() == nums@[i as int]);
        }
        if nums[i] < m {
            m = nums[i];
        }
        i = i + 1;
    }
    proof {
        assert(nums@.subrange(0, nums@.len() as int) =~= nums@);
    }
    m
}

/// Splitting on any predicate partitions a sequence: the two parts
/// together hold exactly the original laps.
proof fn lemma_filter_partition(s: Seq<Lap>, p: spec_fn(Lap) -> bool, q: spec_fn(Lap) -> bool)
    requires
        forall|l: Lap| #[trigger] q(l) == !p(l),
    ensures
        s.filter(p).len() + s.filter(q).len() == s.len(),
        s.filter(p).to_multiset().add(s.filter(q).to_multiset()) == s.to_multiset(),
    decreases s.len(),
{
    broadcast use vstd::seq_lib::group_to_multiset_ensures;

    reveal(Seq::filter);
    if s.len() == 0 {
        assert(s.filter(p).to_multiset().add(s.filter(q).to_multiset()) =~= s.to_multiset());
    } else {
        let t = s.drop_last();
        lemma_filter_partition(t, p, q);
        assert(s =~= t.push(s.last()));
        if p(s.last()) {
            assert(s.filter(p) == t.filter(p).push(s.last()));
            assert(s.filter(p).to_multiset().add(s.filter(q).to_multiset()) =~= s.to_multiset());
        } else {
            assert(s.filter(q) == t.filter(q).push(s.last()));
            assert(s.filter(p).to_multiset().add(s.filter(q).to_multiset()) =~= s.to_multiset());
        }
    }
}

/// Classification is a partition: every lap lands in exactly one of the
/// normal and the outlier part, and together they hold the original set.
pub proof fn lemma_classify_partition(laps: Seq<Lap>, cfg: OutlierConfig)
    ensures
        normal_laps(laps, cfg).len() + outlier_laps(laps, cfg).len() == laps.len(),
        normal_laps(laps, cfg).to_multiset().add(outlier_laps(laps, cfg).to_multiset())
            == laps.to_multiset(),
{
    let times = lap_times_of(laps);
    lemma_filter_partition(laps, normal_pred(times, cfg), outlier_pred(times, cfg));
}

/// For every non-empty lap set the statistics meet the textbook
/// definitions: the fastest lap is a lap time and a lower bound of all
/// of them, and the median is read off a non-decreasing rearrangement
/// of the times (the middle element doubled when the count is odd, the
/// sum of the two central elements when it is even).
pub proof fn lemma_stats_textbook(laps: Seq<Lap>)
    requires
        laps.len() > 0,
        laps_wf(laps),
    ensures
        lap_times_of(laps).contains(spec_stats(laps).fastest_lap_time),
        forall|i: int|
            0 <= i < laps.len() ==> spec_stats(laps).fastest_lap_time <= lap_times_of(laps)[i],
        crate::math::is_sorted(crate::math::sorted_durations(lap_times_of(laps))),
        crate::math::sorted_durations(lap_times_of(laps)).to_multiset() == lap_times_of(
            laps,
        ).to_multiset(),
        spec_stats(laps).median_lap_time.num as int == median_twice(lap_times_of(laps)),
        spec_stats(laps).median_lap_time.den == 2,
{
    let times = lap_times_of(laps);
    lemma_min_of_ensures(times);
    crate::math::lemma_sorted_durations_ensures(times);
    let t = crate::math::sorted_durations(times);
    let mid = (times.len() / 2) as int;
    assert(t[mid] <= MAX_LAP_TIME_MS);
    if times.len() % 2 == 0 {
        assert(t[mid - 1] <= MAX_LAP_TIME_MS);
    }
    assert(0 <= median_twice(times) <= 2 * MAX_LAP_TIME_MS);
}

/// `stats` is pure: both results of two calls on the same laps equal
/// `spec_stats` of those laps, hence each other.
pub proof fn lemma_stats_pure(laps: Seq<Lap>, r1: LapsStats, r2: LapsStats)
    requires
        r1 == spec_stats(laps),
        r2 == spec_stats(laps),
    ensures
        r1 == r2,
{
}

/// `classify` is pure: two results over the same laps and configuration
/// are identical.
pub proof fn lemma_classify_pure(
    laps: Seq<Lap>,
    cfg: OutlierConfig,
    r1: (Seq<Lap>, Seq<Lap>),
    r2: (Seq<Lap>, Seq<Lap>),
)
    requires
        r1.0 == normal_laps(laps, cfg) && r1.1 == outlier_laps(laps, cfg),
        r2.0 == normal_laps(laps, cfg) && r2.1 == outlier_laps(laps, cfg),
    ensures
        r1 == r2,
{
}

} // verus!
