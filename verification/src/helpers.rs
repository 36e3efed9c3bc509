//! Per-driver lap breakdowns for the read-facing layer: a driver's laps
//! in a heat, their fastest lap, exact average, and the split into
//! normal and outlier laps.

use vstd::prelude::*;

verus! {

use vstd::std_specs::cmp::PartialEqSpec;
use crate::models::Lap;
use crate::models::Driver;
use crate::models::Kart;
use crate::models::MAX_LAPS;
use crate::models::MAX_LAP_TIME_MS;
use crate::math::TimeRatio;
use crate::math::Math;
use crate::math::median_twice;
use crate::math::sum_of;
use crate::stats::AnalysisError;
use crate::stats::OutlierConfig;
use crate::stats::is_outlier;
use crate::stats::lap_times_of;
use crate::stats::laps_wf;

pub struct Helpers {}

/// `s` holds an element that `eq_spec` equates with `x`.
pub open spec fn contains_eq<T: PartialEqSpec>(s: Seq<T>, x: T) -> bool {
    exists|i: int| 0 <= i < s.len() && (#[trigger] s[i]).eq_spec(&x)
}

impl Helpers {
    /// The elements of `a` that `b` does not hold, in order: `a` minus
    /// `b` as sets, by the type's own equality.
    pub fn get_difference_between_vectors<T: PartialEq + PartialEqSpec + Copy>(
        a: &Vec<T>,
        b: &Vec<T>,
    ) -> (r: Vec<T>)
        requires
            T::obeys_eq_spec(),
        ensures
            r@ == a@.filter(|x: T| !contains_eq(b@, x)),
    {
        let mut difference: Vec<T> = Vec::new();
        let mut i: usize = 0;
        proof {
            reveal(Seq::filter);
            assert(a@.subrange(0, 0) =~= Seq::<T>::empty());
        }
        while i < a.len()
            invariant
                i <= a@.len(),
                T::obeys_eq_spec(),
                difference@ == a@.subrange(0, i as int).filter(|x: T| !contains_eq(b@, x)),
            decreases a@.len() - i,
        {
            let x = a[i];
            let mut j: usize = 0;
            while j < b.len() && b[j] != x
                invariant
                    j <= b@.len(),
                    T::obeys_eq_spec(),
                    x == a@[i as int],
                    forall|k: int| 0 <= k < j ==> !(#[trigger] b@[k]).eq_spec(&x),
                decreases b@.len() - j,
            {
                j = j + 1;
            }
            let found = j < b.len();
            proof {
                if found {
                    assert(b@[j as int].eq_spec(&x));
                    assert(contains_eq(b@, x));
                } else {
                    assert(!contains_eq(b@, x));
                }
            }
            proof {
                reveal(Seq::filter);
                assert(a@.subrange(0, i + 1).drop_last() =~= a@.subrange(0, i as int));
                assert(a@.subrange(0, i + 1).last() == a@[i as int]);
            }
            if !found {
                difference.push(x);
            }
            i = i + 1;
        }
        proof {
            assert(a@.subrange(0, a@.len() as int) =~= a@);
        }
        difference
    }
}

/// A lap as shown in a per-driver breakdown: its number in the heat and
/// its time in milliseconds.
#[derive(Clone, Copy, Eq, Debug)]
pub struct TemplateDataLap {
    pub lap_in_heat: i32,
    pub lap_time: u64,
}

impl PartialEq for TemplateDataLap {
    fn eq(&self, other: &TemplateDataLap) -> (r: bool) {
        self.lap_in_heat == other.lap_in_heat && self.lap_time == other.lap_time
    }
}

impl vstd::std_specs::cmp::PartialEqSpecImpl for TemplateDataLap {
    open spec fn obeys_eq_spec() -> bool {
        true
    }

    open spec fn eq_spec(&self, other: &TemplateDataLap) -> bool {
        self.lap_in_heat == other.lap_in_heat && self.lap_time == other.lap_time
    }
}

/// A driver's laps in a heat with the derived figures the read side
/// shows.
#[derive(Clone, Debug)]
pub struct TemplateDataDriver {
    pub driver_name: String,
    pub fastest_lap: TemplateDataLap,
    pub total_laps: usize,
    pub all_laps: Vec<TemplateDataLap>,
    pub outlier_laps: Vec<TemplateDataLap>,
    pub normal_laps: Vec<TemplateDataLap>,
    /// The number of the kart the driver drove.
    pub kart: i32,
    pub avg_lap_time: TimeRatio,
}

/// The name of a driver and the number of one of their laps.
#[derive(Clone, Debug)]
pub struct LapInfo {
    pub driver_name: String,
    pub lap_in_heat: i32,
}

pub struct LapHelper {}

pub struct DriverHelpers {}

/// The lap times of a breakdown lap sequence, in order.
pub open spec fn template_lap_times(laps: Seq<TemplateDataLap>) -> Seq<u64> {
    laps.map_values(|l: TemplateDataLap| l.lap_time)
}

/// Picks the breakdown laps that are outliers against the fixed
/// lap-time set `times`.
pub open spec fn template_outlier_pred(times: Seq<u64>, cfg: OutlierConfig) -> spec_fn(
    TemplateDataLap,
) -> bool {
    |l: TemplateDataLap| is_outlier(l.lap_time, times, cfg)
}

/// All lap times at most the accepted maximum.
pub open spec fn template_laps_wf(laps: Seq<TemplateDataLap>) -> bool {
    forall|i: int| 0 <= i < laps.len() ==> 0 < (#[trigger] laps[i]).lap_time <= MAX_LAP_TIME_MS
}

impl LapHelper {
    /// The median of the laps' times, as an exact ratio; the center the
    /// default outlier rule measures against.
    pub fn get_center_of_laps(lap_times: &Vec<TemplateDataLap>) -> (r: TimeRatio)
        requires
            lap_times@.len() > 0,
            template_laps_wf(lap_times@),
        ensures
            r.num == median_twice(template_lap_times(lap_times@)),
            r.den == 2,
    {
        let times = template_times(lap_times);
        Math::median(&times)
    }

    /// The laps lying outside the configured spread around the center,
    /// or under the venue floor, in their original order.
    pub fn get_outlier_laps(laps: &Vec<TemplateDataLap>, config: &OutlierConfig) -> (r: Vec<
        TemplateDataLap,
    >)
        requires
            0 < laps@.len() <= MAX_LAPS,
            template_laps_wf(laps@),
            config.wf(),
        ensures
            r@ == laps@.filter(template_outlier_pred(template_lap_times(laps@), *config)),
    {
        let times = template_times(laps);
        let flags = crate::stats::outlier_flags(&times, config);
        let mut outliers: Vec<TemplateDataLap> = Vec::new();
        let mut i: usize = 0;
        proof {
            reveal(Seq::filter);
            assert(laps@.subrange(0, 0) =~= Seq::<TemplateDataLap>::empty());
        }
        while i < laps.len()
            invariant
                i <= laps@.len(),
                flags@.len() == laps@.len(),
                times@ == template_lap_times(laps@),
                forall|k: int|
                    0 <= k < flags@.len() ==> flags@[k] == is_outlier(
                        times@[k],
                        times@,
                        *config,
                    ),
                outliers@ == laps@.subrange(0, i as int).filter(
                    template_outlier_pred(template_lap_times(laps@), *config),
                ),
            decreases laps@.len() - i,
        {
            proof {
                reveal(Seq::filter);
                assert(laps@.subrange(0, i + 1).drop_last() =~= laps@.subrange(0, i as int));
                assert(laps@.subrange(0, i + 1).last() == laps@[i as int]);
                assert(times@[i as int] == laps@[i as int].lap_time);
            }
            if flags[i] {
                outliers.push(laps[i]);
            }
            i = i + 1;
        }
        proof {
            assert(laps@.subrange(0, laps@.len() as int) =~= laps@);
        }
        outliers
    }
}

/// The times of a breakdown lap vector, in order.
fn template_times(laps: &Vec<TemplateDataLap>) -> (times: Vec<u64>)
    ensures
        times@ == template_lap_times(laps@),
        template_laps_wf(laps@) ==> crate::math::all_at_most(times@, MAX_LAP_TIME_MS),
{
    let mut times: Vec<u64> = Vec::new();
    let mut i: usize = 0;
    while i < laps.len()
        invariant
            i <= laps@.len(),
            times@ =~= laps@.subrange(0, i as int).map_values(|l: TemplateDataLap| l.lap_time),
        decreases laps@.len() - i,
    {
        proof {
            assert(laps@.subrange(0, i + 1).drop_last() =~= laps@.subrange(0, i as int));
        }
        times.push(laps[i].lap_time);
        proof {
            assert(times@ =~= laps@.subrange(0, i + 1).map_values(
                |l: TemplateDataLap| l.lap_time,
            ));
        }
        i = i + 1;
    }
    proof {
        assert(laps@.subrange(0, laps@.len() as int) =~= laps@);
        assert(times@ =~= template_lap_times(laps@));
    }
    times
}


/// Picks the laps of one driver.
pub open spec fn driver_lap_pred(driver_id: i32) -> spec_fn(Lap) -> bool {
    |l: Lap| l.driver == driver_id
}

/// A lap reduced to what the breakdown shows.
pub open spec fn to_template(l: Lap) -> TemplateDataLap {
    TemplateDataLap { lap_in_heat: l.lap_in_heat, lap_time: l.lap_time }
}

/// Picks the breakdown laps that are not outliers.
pub open spec fn template_normal_pred(times: Seq<u64>, cfg: OutlierConfig) -> spec_fn(
    TemplateDataLap,
) -> bool {
    |l: TemplateDataLap| !is_outlier(l.lap_time, times, cfg)
}

/// The first lap carrying the smallest time of a non-empty sequence.
pub open spec fn first_min(s: Seq<TemplateDataLap>) -> TemplateDataLap
    recommends
        s.len() > 0,
    decreases s.len(),
{
    if s.len() <= 1 {
        s[0]
    } else if s.last().lap_time < first_min(s.drop_last()).lap_time {
        s.last()
    } else {
        first_min(s.drop_last())
    }
}

/// Index of the first kart with the given id, or -1 when there is none.
pub open spec fn spec_find_kart(karts: Seq<Kart>, id: i32) -> int
    decreases karts.len(),
{
    if karts.len() == 0 {
        -1
    } else if karts[0].id == id {
        0
    } else if spec_find_kart(karts.drop_first(), id) < 0 {
        -1
    } else {
        spec_find_kart(karts.drop_first(), id) + 1
    }
}

proof fn lemma_find_kart_at(karts: Seq<Kart>, id: i32, j: int)
    requires
        0 <= j < karts.len(),
        karts[j].id == id,
        forall|k: int| 0 <= k < j ==> karts[k].id != id,
    ensures
        spec_find_kart(karts, id) == j,
    decreases j,
{
    if j > 0 {
        assert(karts.drop_first()[j - 1].id == id);
        assert(forall|k: int| 0 <= k < j - 1 ==> karts.drop_first()[k].id != id);
        lemma_find_kart_at(karts.drop_first(), id, j - 1);
    }
}

proof fn lemma_find_kart_none(karts: Seq<Kart>, id: i32)
    requires
        forall|k: int| 0 <= k < karts.len() ==> karts[k].id != id,
    ensures
        spec_find_kart(karts, id) < 0,
    decreases karts.len(),
{
    if karts.len() > 0 {
        assert(forall|k: int| 0 <= k < karts.len() - 1 ==> karts.drop_first()[k].id != id);
        lemma_find_kart_none(karts.drop_first(), id);
    }
}

/// Find the first kart with the given id.
fn find_kart(karts: &Vec<Kart>, id: i32) -> (r: Option<usize>)
    ensures
        match r {
            Option::Some(j) => j as int == spec_find_kart(karts@, id) && j < karts@.len(),
            Option::None => spec_find_kart(karts@, id) < 0,
        },
{
    let mut j: usize = 0;
    while j < karts.len() && karts[j].id != id
        invariant
            j <= karts@.len(),
            forall|k: int| 0 <= k < j ==> karts@[k].id != id,
        decreases karts@.len() - j,
    {
        j = j + 1;
    }
    if j < karts.len() {
        proof {
            lemma_find_kart_at(karts@, id, j as int);
        }
        Some(j)
    } else {
        proof {
            lemma_find_kart_none(karts@, id);
        }
        None
    }
}

/// Two predicates that agree on the elements filter alike.
proof fn lemma_filter_congruent<A>(s: Seq<A>, p: spec_fn(A) -> bool, q: spec_fn(A) -> bool)
    requires
        forall|i: int| 0 <= i < s.len() ==> p(#[trigger] s[i]) == q(s[i]),
    ensures
        s.filter(p) == s.filter(q),
    decreases s.len(),
{
    reveal(Seq::filter);
    if s.len() > 0 {
        assert(forall|i: int|
            0 <= i < s.drop_last().len() ==> p(#[trigger] s.drop_last()[i]) == q(
                s.drop_last()[i],
            ));
        lemma_filter_congruent(s.drop_last(), p, q);
    }
}

/// Keep only the laps of one driver, in their original order.
pub fn laps_of_driver(laps: &Vec<Lap>, driver_id: i32) -> (r: Vec<Lap>)
    ensures
        r@ == laps@.filter(driver_lap_pred(driver_id)),
{
    let mut mine: Vec<Lap> = Vec::new();
    let mut i: usize = 0;
    proof {
        reveal(Seq::filter);
        assert(laps@.subrange(0, 0) =~= Seq::<Lap>::empty());
    }
    while i < laps.len()
        invariant
            i <= laps@.len(),
            mine@ == laps@.subrange(0, i as int).filter(driver_lap_pred(driver_id)),
        decreases laps@.len() - i,
    {
        proof {
            reveal(Seq::filter);
            assert(laps@.subrange(0, i + 1).drop_last() =~= laps@.subrange(0, i as int));
            assert(laps@.subrange(0, i + 1).last() == laps@[i as int]);
        }
        if laps[i].driver == driver_id {
            mine.push(laps[i]);
        }
        i = i + 1;
    }
    proof {
        assert(laps@.subrange(0, laps@.len() as int) =~= laps@);
    }
    mine
}

/// The breakdown view of each lap, in order.
fn to_template_vec(laps: &Vec<Lap>) -> (r: Vec<TemplateDataLap>)
    ensures
        r@ == laps@.map_values(|l: Lap| to_template(l)),
        laps_wf(laps@) ==> template_laps_wf(r@),
{
    let mut r: Vec<TemplateDataLap> = Vec::new();
    let mut i: usize = 0;
    while i < laps.len()
        invariant
            i <= laps@.len(),
            r@ =~= laps@.subrange(0, i as int).map_values(|l: Lap| to_template(l)),
        decreases laps@.len() - i,
    {
        proof {
            assert(laps@.subrange(0, i + 1).drop_last() =~= laps@.subrange(0, i as int));
        }
        r.push(TemplateDataLap { lap_in_heat: laps[i].lap_in_heat, lap_time: laps[i].lap_time });
        proof {
            assert(r@ =~= laps@.subrange(0, i + 1).map_values(|l: Lap| to_template(l)));
        }
        i = i + 1;
    }
    proof {
        assert(laps@.subrange(0, laps@.len() as int) =~= laps@);
        if laps_wf(laps@) {
            assert forall|k: int| 0 <= k < r@.len() implies 0 < (#[trigger] r@[k]).lap_time
                <= MAX_LAP_TIME_MS by {
                assert(r@[k] == to_template(laps@[k]));
                assert(laps@[k].wf());
            }
        }
    }
    r
}

/// The first lap carrying the smallest time of a non-empty vector.
fn fastest_template_lap(laps: &Vec<TemplateDataLap>) -> (r: TemplateDataLap)
    requires
        laps@.len() > 0,
    ensures
        r == first_min(laps@),
{
    let mut r = laps[0];
    let mut i: usize = 1;
    proof {
        assert(laps@.subrange(0, 1) =~= seq![laps@[0]]);
    }
    while i < laps.len()
        invariant
            1 <= i <= laps@.len(),
            r == first_min(laps@.subrange(0, i as int)),
        decreases laps@.len() - i,
    {
        proof {
            let pre = laps@.subrange(0, i as int);
            let post = laps@.subrange(0, i + 1);
            assert(post.drop_last() =~= pre);
            assert(post.last() == laps@[i as int]);
        }
        if laps[i].lap_time < r.lap_time {
            r = laps[i];
        }
        i = i + 1;
    }
    proof {
        assert(laps@.subrange(0, laps@.len() as int) =~= laps@);
    }
    r
}

impl DriverHelpers {
    /// One driver's share of a heat's laps, with their fastest lap,
    /// exact average, the normal/outlier split, and the number of the
    /// kart they drove (taken from their last lap).  `EmptyInput` when
    /// the driver drove none of the laps; a kart that was not supplied
    /// is a `DanglingReference`.
    pub fn get_stats_for_laps(
        driver: &Driver,
        laps: &Vec<Lap>,
        karts: &Vec<Kart>,
        config: &OutlierConfig,
    ) -> (r: Result<TemplateDataDriver, AnalysisError>)
        requires
            laps@.len() <= MAX_LAPS,
            laps_wf(laps@),
            config.wf(),
        ensures
            ({
                let dl = laps@.filter(driver_lap_pred(driver.id));
                let all = dl.map_values(|l: Lap| to_template(l));
                let times = template_lap_times(all);
                match r {
                    Result::Ok(t) => {
                        &&& dl.len() > 0
                        &&& spec_find_kart(karts@, dl.last().kart_id) >= 0
                        &&& t.driver_name@ == driver.name@
                        &&& t.all_laps@ == all
                        &&& t.total_laps == all.len()
                        &&& t.fastest_lap == first_min(all)
                        &&& t.avg_lap_time.num == sum_of(times)
                        &&& t.avg_lap_time.den == all.len()
                        &&& t.outlier_laps@ == all.filter(template_outlier_pred(times, *config))
                        &&& t.normal_laps@ == all.filter(template_normal_pred(times, *config))
                        &&& t.kart == karts@[spec_find_kart(karts@, dl.last().kart_id)].number
                    },
                    Result::Err(e) => {
                        ||| e == AnalysisError::EmptyInput && dl.len() == 0
                        ||| e == AnalysisError::DanglingReference && dl.len() > 0
                            && spec_find_kart(karts@, dl.last().kart_id) < 0
                    },
                }
            }),
    {
        let mine = laps_of_driver(laps, driver.id);
        if mine.len() == 0 {
            return Err(AnalysisError::EmptyInput);
        }
        proof {
            crate::grouping::lemma_filter_preserves_wf(laps@, driver_lap_pred(driver.id));
        }
        let kart_index = match find_kart(karts, mine[mine.len() - 1].kart_id) {
            Option::Some(j) => j,
            Option::None => {
                return Err(AnalysisError::DanglingReference);
            },
        };
        let all = to_template_vec(&mine);
        let ghost dl = laps@.filter(driver_lap_pred(driver.id));
        let ghost all_seq = all@;
        let ghost times_seq = template_lap_times(all@);
        let fastest = fastest_template_lap(&all);
        let times = template_times(&all);
        let total = crate::math::sum_lap_times(&times);
        let outliers = LapHelper::get_outlier_laps(&all, config);
        let normal = Helpers::get_difference_between_vectors(&all, &outliers);
        proof {
            // the difference-based removal is exactly the filter by the
            // negated outlier rule: equal laps classify alike
            let op = template_outlier_pred(times_seq, *config);
            let np = template_normal_pred(times_seq, *config);
            let dp = |x: TemplateDataLap| !contains_eq(outliers@, x);
            assert forall|i: int| 0 <= i < all_seq.len() implies dp(#[trigger] all_seq[i]) == np(
                all_seq[i],
            ) by {
                let x = all_seq[i];
                if op(x) {
                    all_seq.lemma_filter_contains(op, i);
                    let w = choose|w: int|
                        0 <= w < outliers@.len() && #[trigger] outliers@[w] == x;
                    assert(outliers@[w].eq_spec(&x));
                    assert(contains_eq(outliers@, x));
                }
                if contains_eq(outliers@, x) {
                    let k = choose|k: int|
                        0 <= k < outliers@.len() && (#[trigger] outliers@[k]).eq_spec(&x);
                    crate::grouping::lemma_filter_element(all_seq, op, k);
                    assert(op(outliers@[k]));
                    assert(outliers@[k].lap_time == x.lap_time);
                }
            }
            lemma_filter_congruent(all_seq, dp, np);
        }
        let avg = TimeRatio { num: total, den: mine.len() as u64 };
        Ok(
            TemplateDataDriver {
                driver_name: driver.name.clone(),
                fastest_lap: fastest,
                total_laps: all.len(),
                all_laps: all,
                outlier_laps: outliers,
                normal_laps: normal,
                kart: karts[kart_index].number,
                avg_lap_time: avg,
            },
        )
    }
}

/// A driver's aggregate figures over a lap set.
#[derive(Clone, Debug)]
pub struct DriverStats {
    pub name: String,
    pub fastest_lap_time: u64,
    pub avg_lap_time: TimeRatio,
    pub median_lap_time: TimeRatio,
    pub total_laps: usize,
    pub total_heats: usize,
    /// The driver's current rating mean, in millionths.
    pub rating: i64,
}

impl Driver {
    /// This driver's statistics over their share of the given laps:
    /// fastest, exact average and median lap, lap and heat counts, and
    /// their current rating.  `EmptyInput` when they drove none.
    pub fn get_stats_of_laps(&self, laps: &Vec<Lap>) -> (r: Result<DriverStats, AnalysisError>)
        requires
            laps@.len() <= MAX_LAPS,
            laps_wf(laps@),
        ensures
            ({
                let dl = laps@.filter(driver_lap_pred(self.id));
                let times = lap_times_of(dl);
                match r {
                    Result::Ok(st) => {
                        &&& dl.len() > 0
                        &&& st.name@ == self.name@
                        &&& st.rating == self.rating
                        &&& st.total_laps == dl.len()
                        &&& st.total_heats == crate::grouping::distinct_keys(
                            crate::grouping::heat_keyed(dl),
                        ).len()
                        &&& st.fastest_lap_time == crate::stats::min_of(times)
                        &&& st.avg_lap_time.num == sum_of(times)
                        &&& st.avg_lap_time.den == dl.len()
                        &&& st.median_lap_time.num == median_twice(times)
                        &&& st.median_lap_time.den == 2
                    },
                    Result::Err(e) => e == AnalysisError::EmptyInput && dl.len() == 0,
                }
            }),
    {
        let mine = laps_of_driver(laps, self.id);
        if mine.len() == 0 {
            return Err(AnalysisError::EmptyInput);
        }
        proof {
            crate::grouping::lemma_filter_preserves_wf(laps@, driver_lap_pred(self.id));
        }
        let times = crate::stats::lap_times(&mine);
        let fastest = crate::stats::min_lap_time(&times);
        let avg = Math::mean(&times);
        let median = Math::median(&times);
        let heats = crate::models::Heat::amount_from_laps(&mine);
        Ok(
            DriverStats {
                name: self.name.clone(),
                fastest_lap_time: fastest,
                avg_lap_time: avg,
                median_lap_time: median,
                total_laps: mine.len(),
                total_heats: heats,
                rating: self.rating,
            },
        )
    }
}


/// Milliseconds of session time before lap `i` of a driver's sequence.
pub open spec fn time_before(laps: Seq<TemplateDataLap>, i: int) -> int
    decreases i,
{
    if i <= 0 {
        0
    } else {
        time_before(laps, i - 1) + laps[i - 1].lap_time
    }
}

/// Lap `i` is running at `t` milliseconds into the session: it starts
/// no later than `t` and ends no earlier.
pub open spec fn running_at(laps: Seq<TemplateDataLap>, t: int, i: int) -> bool {
    time_before(laps, i) <= t <= time_before(laps, i) + laps[i].lap_time
}

/// The first lap running at `t`, looking from `i` on; -1 when none is.
pub open spec fn first_running_from(laps: Seq<TemplateDataLap>, t: int, i: int) -> int
    decreases laps.len() - i,
{
    if i < 0 || i >= laps.len() {
        -1
    } else if running_at(laps, t, i) {
        i
    } else {
        first_running_from(laps, t, i + 1)
    }
}

/// Index of the first lap running at `t`, or -1 when the session is
/// over (or has not started) by then.
pub open spec fn lap_running_at(laps: Seq<TemplateDataLap>, t: int) -> int {
    first_running_from(laps, t, 0)
}

proof fn lemma_first_running_at(laps: Seq<TemplateDataLap>, t: int, i: int, j: int)
    requires
        0 <= i <= j < laps.len(),
        running_at(laps, t, j),
        forall|k: int| i <= k < j ==> !running_at(laps, t, k),
    ensures
        first_running_from(laps, t, i) == j,
    decreases j - i,
{
    if i < j {
        lemma_first_running_at(laps, t, i + 1, j);
    }
}

proof fn lemma_first_running_none(laps: Seq<TemplateDataLap>, t: int, i: int)
    requires
        0 <= i <= laps.len(),
        forall|k: int| i <= k < laps.len() ==> !running_at(laps, t, k),
    ensures
        first_running_from(laps, t, i) < 0,
    decreases laps.len() - i,
{
    if i < laps.len() {
        lemma_first_running_none(laps, t, i + 1);
    }
}

/// Find the first lap running at `t` milliseconds into the session.
fn find_running_lap(laps: &Vec<TemplateDataLap>, t: u64) -> (r: Option<usize>)
    requires
        laps@.len() <= MAX_LAPS,
        template_laps_wf(laps@),
    ensures
        match r {
            Option::Some(i) => i as int == lap_running_at(laps@, t as int) && i < laps@.len(),
            Option::None => lap_running_at(laps@, t as int) < 0,
        },
{
    let mut start: u64 = 0;
    let mut i: usize = 0;
    while i < laps.len()
        invariant
            i <= laps@.len() <= MAX_LAPS,
            template_laps_wf(laps@),
            start == time_before(laps@, i as int),
            start <= i * MAX_LAP_TIME_MS,
            forall|k: int| 0 <= k < i ==> !running_at(laps@, t as int, k),
        decreases laps@.len() - i,
    {
        proof {
            assert(i * MAX_LAP_TIME_MS <= MAX_LAPS * MAX_LAP_TIME_MS) by (nonlinear_arith)
                requires
                    0 <= i <= MAX_LAPS,
            ;
            assert((i + 1) * MAX_LAP_TIME_MS == i * MAX_LAP_TIME_MS + MAX_LAP_TIME_MS)
                by (nonlinear_arith);
        }
        let end = start + laps[i].lap_time;
        if start <= t && t <= end {
            proof {
                lemma_first_running_at(laps@, t as int, 0, i as int);
            }
            return Some(i);
        }
        start = end;
        i = i + 1;
    }
    proof {
        lemma_first_running_none(laps@, t as int, 0);
    }
    None
}

/// Picks the drivers whose session covers time `t`.
pub open spec fn has_lap_at(t: int) -> spec_fn(TemplateDataDriver) -> bool {
    |d: TemplateDataDriver| lap_running_at(d.all_laps@, t) >= 0
}

/// For each driver whose session covers `t`, their name and the lap
/// they were on, in input order.
pub open spec fn laps_at_time_of(ds: Seq<TemplateDataDriver>, t: int) -> Seq<
    (Seq<char>, TemplateDataLap),
> {
    ds.filter(has_lap_at(t)).map_values(
        |d: TemplateDataDriver| (d.driver_name@, d.all_laps@[lap_running_at(d.all_laps@, t)]),
    )
}

impl LapHelper {
    /// Which lap each driver was on, `at_time` milliseconds into the
    /// session; drivers whose session is over by then are left out.
    pub fn get_laps_at_time(drivers: &Vec<TemplateDataDriver>, at_time: u64) -> (r: Vec<
        (String, TemplateDataLap),
    >)
        requires
            forall|i: int|
                0 <= i < drivers@.len() ==> (#[trigger] drivers@[i]).all_laps@.len() <= MAX_LAPS
                    && template_laps_wf(drivers@[i].all_laps@),
        ensures
            r@.map_values(|p: (String, TemplateDataLap)| (p.0@, p.1)) == laps_at_time_of(
                drivers@,
                at_time as int,
            ),
    {
        let mut r: Vec<(String, TemplateDataLap)> = Vec::new();
        let mut i: usize = 0;
        proof {
            assert(drivers@.subrange(0, 0) =~= Seq::<TemplateDataDriver>::empty());
            assert(r@.map_values(|p: (String, TemplateDataLap)| (p.0@, p.1)) =~~= laps_at_time_of(
                drivers@.subrange(0, 0),
                at_time as int,
            ));
            reveal(Seq::filter);
        }
        while i < drivers.len()
            invariant
                i <= drivers@.len(),
                forall|k: int|
                    0 <= k < drivers@.len() ==> (#[trigger] drivers@[k]).all_laps@.len()
                        <= MAX_LAPS && template_laps_wf(drivers@[k].all_laps@),
                r@.map_values(|p: (String, TemplateDataLap)| (p.0@, p.1)) == laps_at_time_of(
                    drivers@.subrange(0, i as int),
                    at_time as int,
                ),
            decreases drivers@.len() - i,
        {
            let ghost pre = drivers@.subrange(0, i as int);
            let ghost post = drivers@.subrange(0, i + 1);
            proof {
                assert(post =~= pre.push(drivers@[i as int]));
                crate::grouping::lemma_filter_push(
                    pre,
                    has_lap_at(at_time as int),
                    drivers@[i as int],
                );
            }
            let d = &drivers[i];
            match find_running_lap(&d.all_laps, at_time) {
                Option::Some(idx) => {
                    r.push((d.driver_name.clone(), d.all_laps[idx]));
                    proof {
                        assert(lap_running_at(drivers@[i as int].all_laps@, at_time as int)
                            == idx as int);
                        assert(has_lap_at(at_time as int)(drivers@[i as int]));
                        assert(r@.last().0@ == drivers@[i as int].driver_name@);
                        assert(r@.last().1 == drivers@[i as int].all_laps@[idx as int]);
                        let f = |p: (String, TemplateDataLap)| (p.0@, p.1);
                        let t = at_time as int;
                        assert(post.filter(has_lap_at(t)) == pre.filter(has_lap_at(t)).push(
                            drivers@[i as int],
                        ));
                        assert(laps_at_time_of(post, t).len() == laps_at_time_of(pre, t).len()
                            + 1);
                        assert(r@.map_values(f).len() == laps_at_time_of(post, t).len());
                        assert(r@.map_values(f)[r@.len() - 1] == f(r@[r@.len() - 1]));
                        assert(f(r@[r@.len() - 1]) == (drivers@[i as int].driver_name@, drivers@[
                            i as int
                        ].all_laps@[idx as int]));
                        assert(laps_at_time_of(post, t)[r@.len() - 1] == (drivers@[
                            i as int
                        ].driver_name@, drivers@[i as int].all_laps@[idx as int]));
                        assert forall|k: int| 0 <= k < r@.len() - 1 implies r@.map_values(f)[k]
                            == laps_at_time_of(post, t)[k] by {
                            assert(r@.map_values(f)[k] == f(r@[k]));
                            assert(laps_at_time_of(post, t)[k] == laps_at_time_of(pre, t)[k]);
                        }
                        assert(r@.map_values(|p: (String, TemplateDataLap)| (p.0@, p.1))
                            =~~= laps_at_time_of(post, at_time as int));
                    }
                },
                Option::None => {
                    proof {
                        assert(!has_lap_at(at_time as int)(drivers@[i as int]));
                        assert(r@.map_values(|p: (String, TemplateDataLap)| (p.0@, p.1))
                            =~~= laps_at_time_of(post, at_time as int));
                    }
                },
            }
            i = i + 1;
        }
        proof {
            assert(drivers@.subrange(0, drivers@.len() as int) =~= drivers@);
        }
        r
    }
}

} // verus!
