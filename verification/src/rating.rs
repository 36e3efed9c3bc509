//! The rating engine: derives a heat's finishing order from its laps,
//! assembles the ranked outcome handed to the external Bayesian rating
//! model, and writes the model's answer back into the driver records as
//! one whole-heat unit.
//!
//! The model itself (one updated `(mu, sigma)` per competitor, computed
//! from the ranked outcome) is an external collaborator: the caller runs
//! it between `UnratedHeat::prepare` and `PendingRating::commit`.  Heats
//! must be committed one at a time in non-decreasing start-time order;
//! the `UnratedHeat` -> `PendingRating` -> `RatedHeat` progression makes
//! one application per heat explicit.

use vstd::prelude::*;

verus! {

use crate::models::Lap;
use crate::models::Driver;
use crate::models::Heat;
use crate::models::Rating;
use crate::models::heat_pred;
use crate::stats::AnalysisError;

/// One competitor of a heat, ranked by effective heat performance.
#[derive(Clone, Copy, PartialEq, Eq, Structural, Debug)]
pub struct RankedDriver {
    pub driver: i32,
    /// The driver's best (minimum) lap time in the heat, in milliseconds.
    pub best_time: u64,
    /// 1-based finishing position; 1 is fastest.
    pub rank: usize,
}

/// Some lap of the set is driven by `d`.
pub open spec fn drives_in(laps: Seq<Lap>, d: i32) -> bool {
    exists|i: int| 0 <= i < laps.len() && (#[trigger] laps[i]).driver == d
}

/// `t` is the best (minimum) lap time of driver `d` in the lap set.
pub open spec fn is_best_of(laps: Seq<Lap>, d: i32, t: u64) -> bool {
    &&& exists|i: int|
        0 <= i < laps.len() && (#[trigger] laps[i]).driver == d && laps[i].lap_time == t
    &&& forall|i: int|
        0 <= i < laps.len() && (#[trigger] laps[i]).driver == d ==> t <= laps[i].lap_time
}

/// The ranking order: ascending best time, ties broken by ascending
/// driver id.  The upstream timing system leaves ties unordered, so the
/// tie-break is this engine's documented, deterministic choice.
pub open spec fn ranked_before(a: RankedDriver, b: RankedDriver) -> bool {
    a.best_time < b.best_time || (a.best_time == b.best_time && a.driver < b.driver)
}

/// `r` is the finishing order of the lap set: strictly sorted by
/// `ranked_before`, covering exactly the drivers of the laps, each with
/// their best time and their 1-based position.
pub open spec fn properly_ranked(laps: Seq<Lap>, r: Seq<RankedDriver>) -> bool {
    &&& forall|i: int, j: int| 0 <= i < j < r.len() ==> ranked_before(#[trigger] r[i], #[trigger] r[j])
    &&& forall|i: int|
        0 <= i < r.len() ==> is_best_of(laps, (#[trigger] r[i]).driver, r[i].best_time)
    &&& forall|d: i32|
        #[trigger] drives_in(laps, d) <==> exists|i: int|
            0 <= i < r.len() && (#[trigger] r[i]).driver == d
    &&& forall|i: int| 0 <= i < r.len() ==> (#[trigger] r[i]).rank == i + 1
}

/// At least two distinct drivers appear in the lap set.
pub open spec fn two_competitors(laps: Seq<Lap>) -> bool {
    exists|i: int, j: int|
        0 <= i < laps.len() && 0 <= j < laps.len() && (#[trigger] laps[i]).driver != (
        #[trigger] laps[j]).driver
}

/// Pairwise distinct drivers.
spec fn distinct_drivers(r: Seq<RankedDriver>) -> bool {
    forall|i: int, j: int| 0 <= i < j < r.len() ==> (#[trigger] r[i]).driver != (#[trigger] r[j]).driver
}

/// Rank the drivers of a heat's laps by their effective heat
/// performance: each driver's best lap time, ascending, ties broken by
/// driver id, positions 1-based.  A heat with fewer than two distinct
/// drivers cannot be rated.
pub fn rank_drivers(laps: &Vec<Lap>) -> (r: Result<Vec<RankedDriver>, AnalysisError>)
    ensures
        match r {
            Result::Ok(rd) => rd@.len() >= 2 && properly_ranked(laps@, rd@),
            Result::Err(e) => e == AnalysisError::InsufficientCompetitors && !two_competitors(
                laps@,
            ),
        },
{
    // 1. collect each driver's best lap time, in order of first appearance
    let mut bests: Vec<RankedDriver> = Vec::new();
    let mut t: usize = 0;
    proof {
        assert(laps@.subrange(0, 0) =~= Seq::<Lap>::empty());
    }
    while t < laps.len()
        invariant
            t <= laps@.len(),
            distinct_drivers(bests@),
            forall|i: int|
                0 <= i < bests@.len() ==> is_best_of(
                    laps@.subrange(0, t as int),
                    (#[trigger] bests@[i]).driver,
                    bests@[i].best_time,
                ),
            forall|d: i32|
                #[trigger] drives_in(laps@.subrange(0, t as int), d) <==> exists|i: int|
                    0 <= i < bests@.len() && (#[trigger] bests@[i]).driver == d,
        decreases laps@.len() - t,
    {
        let ghost pre = laps@.subrange(0, t as int);
        let ghost post = laps@.subrange(0, t + 1);
        proof {
            assert(post =~= pre.push(laps@[t as int]));
            assert(post.drop_last() =~= pre);
            assert forall|d: i32| #[trigger] drives_in(post, d) implies d == laps@[t as int].driver
                || drives_in(pre, d) by {
                let i = choose|i: int| 0 <= i < post.len() && (#[trigger] post[i]).driver == d;
                if i < pre.len() {
                    assert(pre[i].driver == d);
                }
            }
            assert forall|d: i32| drives_in(pre, d) implies #[trigger] drives_in(post, d) by {
                let i = choose|i: int| 0 <= i < pre.len() && (#[trigger] pre[i]).driver == d;
                assert(post[i].driver == d);
            }
            assert(post[pre.len() as int].driver == laps@[t as int].driver);
            assert(drives_in(post, laps@[t as int].driver));
        }
        let lap = laps[t];
        let mut j: usize = 0;
        while j < bests.len() && bests[j].driver != lap.driver
            invariant
                j <= bests@.len(),
                forall|i: int| 0 <= i < j ==> (#[trigger] bests@[i]).driver != lap.driver,
            decreases bests@.len() - j,
        {
            j = j + 1;
        }
        if j < bests.len() {
            let ghost prev = bests@;
            if lap.lap_time < bests[j].best_time {
                let updated = RankedDriver {
                    driver: lap.driver,
                    best_time: lap.lap_time,
                    rank: 0,
                };
                bests.set(j, updated);
                proof {
                    assert(bests@ == prev.update(j as int, updated));
                }
            }
            proof {
                assert forall|i: int| 0 <= i < bests@.len() implies is_best_of(
                    post,
                    (#[trigger] bests@[i]).driver,
                    bests@[i].best_time,
                ) by {
                    if i == j {
                        assert(is_best_of(pre, prev[i].driver, prev[i].best_time));
                        if lap.lap_time < prev[j as int].best_time {
                            assert(post[pre.len() as int].driver == bests@[i].driver);
                        } else {
                            let w = choose|w: int|
                                0 <= w < pre.len() && (#[trigger] pre[w]).driver == prev[i].driver
                                    && pre[w].lap_time == prev[i].best_time;
                            assert(post[w].driver == bests@[i].driver);
                        }
                    } else {
                        assert(is_best_of(pre, prev[i].driver, prev[i].best_time));
                        let w = choose|w: int|
                            0 <= w < pre.len() && (#[trigger] pre[w]).driver == prev[i].driver
                                && pre[w].lap_time == prev[i].best_time;
                        assert(post[w].driver == bests@[i].driver);
                    }
                }
                assert(forall|i: int|
                    0 <= i < bests@.len() ==> (#[trigger] bests@[i]).driver == prev[i].driver);
                assert forall|d: i32| #[trigger] drives_in(post, d) implies exists|i: int|
                    0 <= i < bests@.len() && (#[trigger] bests@[i]).driver == d by {
                    if drives_in(pre, d) {
                        let i = choose|i: int|
                            0 <= i < prev.len() && (#[trigger] prev[i]).driver == d;
                        assert(bests@[i].driver == d);
                    } else {
                        assert(d == lap.driver);
                        assert(bests@[j as int].driver == d);
                    }
                }
                assert forall|d: i32|
                    (exists|i: int| 0 <= i < bests@.len() && (#[trigger] bests@[i]).driver == d)
                        implies #[trigger] drives_in(post, d) by {
                    let i = choose|i: int|
                        0 <= i < bests@.len() && (#[trigger] bests@[i]).driver == d;
                    assert(prev[i].driver == d);
                    assert(drives_in(pre, d));
                }
            }
        } else {
            let ghost prev = bests@;
            proof {
                assert(!drives_in(pre, lap.driver)) by {
                    if drives_in(pre, lap.driver) {
                        let i = choose|i: int|
                            0 <= i < prev.len() && (#[trigger] prev[i]).driver == lap.driver;
                    }
                }
            }
            bests.push(RankedDriver { driver: lap.driver, best_time: lap.lap_time, rank: 0 });
            proof {
                assert forall|i: int| 0 <= i < bests@.len() implies is_best_of(
                    post,
                    (#[trigger] bests@[i]).driver,
                    bests@[i].best_time,
                ) by {
                    if i < prev.len() {
                        assert(is_best_of(pre, prev[i].driver, prev[i].best_time));
                        let w = choose|w: int|
                            0 <= w < pre.len() && (#[trigger] pre[w]).driver == prev[i].driver
                                && pre[w].lap_time == prev[i].best_time;
                        assert(post[w].driver == bests@[i].driver);
                    } else {
                        assert(post[pre.len() as int].driver == lap.driver);
                        assert forall|w: int|
                            0 <= w < post.len() && (#[trigger] post[w]).driver == lap.driver
                                implies lap.lap_time <= post[w].lap_time by {
                            if w < pre.len() {
                                assert(pre[w].driver == lap.driver);
                                assert(drives_in(pre, lap.driver));
                            }
                        }
                    }
                }
                assert forall|d: i32| #[trigger] drives_in(post, d) implies exists|i: int|
                    0 <= i < bests@.len() && (#[trigger] bests@[i]).driver == d by {
                    if drives_in(pre, d) {
                        let i = choose|i: int|
                            0 <= i < prev.len() && (#[trigger] prev[i]).driver == d;
                        assert(bests@[i].driver == d);
                    } else {
                        assert(d == lap.driver);
                        assert(bests@[prev.len() as int].driver == d);
                    }
                }
                assert forall|d: i32|
                    (exists|i: int| 0 <= i < bests@.len() && (#[trigger] bests@[i]).driver == d)
                        implies #[trigger] drives_in(post, d) by {
                    let i = choose|i: int|
                        0 <= i < bests@.len() && (#[trigger] bests@[i]).driver == d;
                    if i < prev.len() {
                        assert(prev[i].driver == d);
                        assert(drives_in(pre, d));
                    } else {
                        assert(d == lap.driver);
                    }
                }
            }
        }
        t = t + 1;
    }
    proof {
        assert(laps@.subrange(0, laps@.len() as int) =~= laps@);
    }
    if bests.len() < 2 {
        proof {
            assert(!two_competitors(laps@)) by {
                if two_competitors(laps@) {
                    let (i, j) = choose|i: int, j: int|
                        0 <= i < laps@.len() && 0 <= j < laps@.len() && (#[trigger] laps@[i]).driver
                            != (#[trigger] laps@[j]).driver;
                    assert(drives_in(laps@, laps@[i].driver));
                    assert(drives_in(laps@, laps@[j].driver));
                    let a = choose|a: int|
                        0 <= a < bests@.len() && (#[trigger] bests@[a]).driver == laps@[i].driver;
                    let b = choose|b: int|
                        0 <= b < bests@.len() && (#[trigger] bests@[b]).driver == laps@[j].driver;
                    assert(a != b);
                }
            }
        }
        return Err(AnalysisError::InsufficientCompetitors);
    }
    proof {
        assert(two_competitors(laps@)) by {
            let d0 = bests@[0].driver;
            let d1 = bests@[1].driver;
            assert(drives_in(laps@, d0));
            assert(drives_in(laps@, d1));
            let i = choose|i: int| 0 <= i < laps@.len() && (#[trigger] laps@[i]).driver == d0;
            let j = choose|j: int| 0 <= j < laps@.len() && (#[trigger] laps@[j]).driver == d1;
        }
    }
    // 2. sort ascending by (best time, driver id)
    let sorted = sort_ranked(bests);
    // 3. fill in the 1-based positions
    let ranked = assign_ranks(sorted);
    proof {
        assert forall|i: int, j: int| 0 <= i < j < ranked@.len() implies ranked_before(
            #[trigger] ranked@[i],
            #[trigger] ranked@[j],
        ) by {
            assert(ranked_before(sorted@[i], sorted@[j]));
        }
        assert forall|i: int| 0 <= i < ranked@.len() implies is_best_of(
            laps@,
            (#[trigger] ranked@[i]).driver,
            ranked@[i].best_time,
        ) by {
            assert(sorted@.contains(sorted@[i]));
            assert(bests@.contains(sorted@[i]));
            let w = choose|w: int| 0 <= w < bests@.len() && bests@[w] == sorted@[i];
        }
        assert forall|d: i32| #[trigger] drives_in(laps@, d) implies exists|i: int|
            0 <= i < ranked@.len() && (#[trigger] ranked@[i]).driver == d by {
            let b = choose|b: int| 0 <= b < bests@.len() && (#[trigger] bests@[b]).driver == d;
            assert(bests@.contains(bests@[b]));
            assert(sorted@.contains(bests@[b]));
            let w = choose|w: int| 0 <= w < sorted@.len() && sorted@[w] == bests@[b];
            assert(ranked@[w].driver == d);
        }
        assert forall|d: i32|
            (exists|i: int| 0 <= i < ranked@.len() && (#[trigger] ranked@[i]).driver == d) implies
            #[trigger] drives_in(laps@, d) by {
            let i = choose|i: int| 0 <= i < ranked@.len() && (#[trigger] ranked@[i]).driver == d;
            assert(sorted@.contains(sorted@[i]));
            assert(bests@.contains(sorted@[i]));
            let w = choose|w: int| 0 <= w < bests@.len() && bests@[w] == sorted@[i];
            assert(is_best_of(laps@, d, bests@[w].best_time));
        }
    }
    Ok(ranked)
}

/// Sort ranked entries ascending by `(best_time, driver)`; the drivers
/// stay pairwise distinct and the entries are kept.
fn sort_ranked(v: Vec<RankedDriver>) -> (r: Vec<RankedDriver>)
    requires
        distinct_drivers(v@),
    ensures
        r@.len() == v@.len(),
        distinct_drivers(r@),
        forall|i: int, j: int| 0 <= i < j < r@.len() ==> ranked_before(#[trigger] r@[i], #[trigger] r@[j]),
        forall|x: RankedDriver| r@.contains(x) <==> v@.contains(x),
{
    let mut r: Vec<RankedDriver> = Vec::new();
    let mut t: usize = 0;
    proof {
        assert(v@.subrange(0, 0) =~= Seq::<RankedDriver>::empty());
    }
    while t < v.len()
        invariant
            t <= v@.len(),
            r@.len() == t,
            distinct_drivers(v@),
            forall|i: int, j: int|
                0 <= i < j < r@.len() ==> ranked_before(#[trigger] r@[i], #[trigger] r@[j]),
            forall|x: RankedDriver| r@.contains(x) <==> v@.subrange(0, t as int).contains(x),
        decreases v@.len() - t,
    {
        let ghost pre = v@.subrange(0, t as int);
        let ghost post = v@.subrange(0, t + 1);
        proof {
            assert(post =~= pre.push(v@[t as int]));
        }
        let x = v[t];
        proof {
            // x's driver differs from every driver already placed
            assert forall|i: int| 0 <= i < r@.len() implies (#[trigger] r@[i]).driver != x.driver
                by {
                assert(r@.contains(r@[i]));
                assert(pre.contains(r@[i]));
                let w = choose|w: int| 0 <= w < pre.len() && pre[w] == r@[i];
                assert(v@[w] == r@[i]);
                assert(v@[t as int].driver == x.driver);
            }
        }
        let mut j: usize = 0;
        while j < r.len() && !ranked_before_exec(&x, &r[j])
            invariant
                j <= r@.len(),
                forall|i: int| 0 <= i < j ==> !ranked_before(x, #[trigger] r@[i]),
            decreases r@.len() - j,
        {
            j = j + 1;
        }
        let ghost prev = r@;
        r.insert(j, x);
        proof {
            assert forall|a: int, b: int| 0 <= a < b < r@.len() implies ranked_before(
                #[trigger] r@[a],
                #[trigger] r@[b],
            ) by {
                let jj = j as int;
                if b < jj {
                    assert(r@[a] == prev[a] && r@[b] == prev[b]);
                } else if a > jj {
                    assert(r@[a] == prev[a - 1] && r@[b] == prev[b - 1]);
                } else if a == jj {
                    assert(r@[a] == x && r@[b] == prev[b - 1]);
                } else if b == jj {
                    // prev[a] is not after x and has a distinct driver, so
                    // it is strictly before x
                    assert(r@[a] == prev[a] && r@[b] == x);
                    assert(!ranked_before(x, prev[a]));
                    assert(prev.contains(prev[a]));
                    assert(pre.contains(prev[a]));
                    let w = choose|w: int| 0 <= w < pre.len() && pre[w] == prev[a];
                    assert(v@[w] == prev[a]);
                    assert(prev[a].driver != x.driver);
                } else {
                    // a < jj < b
                    assert(r@[a] == prev[a] && r@[b] == prev[b - 1]);
                    if b - 1 == jj {
                        assert(!ranked_before(x, prev[a]));
                        assert(prev.contains(prev[a]));
                        assert(pre.contains(prev[a]));
                        let w = choose|w: int| 0 <= w < pre.len() && pre[w] == prev[a];
                        assert(v@[w] == prev[a]);
                        assert(prev[a].driver != x.driver);
                    }
                }
            }
            assert forall|y: RankedDriver| r@.contains(y) implies post.contains(y) by {
                let w = choose|w: int| 0 <= w < r@.len() && r@[w] == y;
                if w == j as int {
                    assert(post[pre.len() as int] == y);
                } else {
                    assert(prev.contains(y));
                    let u = choose|u: int| 0 <= u < pre.len() && pre[u] == y;
                    assert(post[u] == y);
                }
            }
            assert forall|y: RankedDriver| post.contains(y) implies r@.contains(y) by {
                let w = choose|w: int| 0 <= w < post.len() && post[w] == y;
                if w == pre.len() as int {
                    assert(r@[j as int] == y);
                } else {
                    assert(pre[w] == y);
                    assert(prev.contains(y));
                    let u = choose|u: int| 0 <= u < prev.len() && prev[u] == y;
                    if u < j as int {
                        assert(r@[u] == y);
                    } else {
                        assert(r@[u + 1] == y);
                    }
                }
            }
        }
        t = t + 1;
    }
    proof {
        assert(v@.subrange(0, v@.len() as int) =~= v@);
        assert forall|i: int, j: int| 0 <= i < j < r@.len() implies (#[trigger] r@[i]).driver != (
        #[trigger] r@[j]).driver by {
            assert(r@.contains(r@[i]));
            assert(r@.contains(r@[j]));
            assert(v@.contains(r@[i]));
            assert(v@.contains(r@[j]));
            let w1 = choose|w: int| 0 <= w < v@.len() && v@[w] == r@[i];
            let w2 = choose|w: int| 0 <= w < v@.len() && v@[w] == r@[j];
            if r@[i].driver == r@[j].driver {
                // two entries of v with one driver are one entry, but a
                // strict order never relates an element to itself
                assert(w1 == w2);
                assert(ranked_before(r@[i], r@[j]));
                assert(false);
            }
        }
        assert forall|i: int| 0 <= i < r@.len() implies v@.contains(#[trigger] r@[i]) by {
            assert(r@.contains(r@[i]));
        }
    }
    r
}

/// Index of the first driver record with the given id, or -1 when there
/// is none.
pub open spec fn spec_find_driver(ds: Seq<Driver>, id: i32) -> int
    decreases ds.len(),
{
    if ds.len() == 0 {
        -1
    } else if ds[0].id == id {
        0
    } else if spec_find_driver(ds.drop_first(), id) < 0 {
        -1
    } else {
        spec_find_driver(ds.drop_first(), id) + 1
    }
}

proof fn lemma_find_driver_at(ds: Seq<Driver>, id: i32, j: int)
    requires
        0 <= j < ds.len(),
        ds[j].id == id,
        forall|k: int| 0 <= k < j ==> ds[k].id != id,
    ensures
        spec_find_driver(ds, id) == j,
    decreases j,
{
    if j > 0 {
        assert(ds.drop_first()[j - 1].id == id);
        assert(forall|k: int| 0 <= k < j - 1 ==> ds.drop_first()[k].id != id);
        lemma_find_driver_at(ds.drop_first(), id, j - 1);
    }
}

proof fn lemma_find_driver_none(ds: Seq<Driver>, id: i32)
    requires
        forall|k: int| 0 <= k < ds.len() ==> ds[k].id != id,
    ensures
        spec_find_driver(ds, id) < 0,
    decreases ds.len(),
{
    if ds.len() > 0 {
        assert(forall|k: int| 0 <= k < ds.len() - 1 ==> ds.drop_first()[k].id != id);
        lemma_find_driver_none(ds.drop_first(), id);
    }
}

/// Find the first driver record with the given id.
fn find_driver(drivers: &Vec<Driver>, id: i32) -> (r: Option<usize>)
    ensures
        match r {
            Option::Some(j) => j as int == spec_find_driver(drivers@, id) && j < drivers@.len(),
            Option::None => spec_find_driver(drivers@, id) < 0,
        },
{
    let mut j: usize = 0;
    while j < drivers.len() && drivers[j].id != id
        invariant
            j <= drivers@.len(),
            forall|k: int| 0 <= k < j ==> drivers@[k].id != id,
        decreases drivers@.len() - j,
    {
        j = j + 1;
    }
    if j < drivers.len() {
        proof {
            lemma_find_driver_at(drivers@, id, j as int);
        }
        Some(j)
    } else {
        proof {
            lemma_find_driver_none(drivers@, id);
        }
        None
    }
}

/// The priors handed to the rating model: one single-member team per
/// ranked driver, in finishing order, each carrying the driver's current
/// rating.  A ranked driver without a record is a `DanglingReference`:
/// every participant must already hold priors from ingestion.
pub fn heat_priors(ranked: &Vec<RankedDriver>, drivers: &Vec<Driver>) -> (r: Result<
    Vec<Rating>,
    AnalysisError,
>)
    ensures
        match r {
            Result::Ok(p) => p@.len() == ranked@.len() && forall|i: int|
                0 <= i < p@.len() ==> spec_find_driver(drivers@, (#[trigger] ranked@[i]).driver)
                    >= 0 && p@[i] == (Rating {
                    rating: drivers@[spec_find_driver(drivers@, ranked@[i].driver)].rating,
                    uncertainty: drivers@[spec_find_driver(
                        drivers@,
                        ranked@[i].driver,
                    )].uncertainty,
                }),
            Result::Err(e) => e == AnalysisError::DanglingReference && exists|i: int|
                0 <= i < ranked@.len() && spec_find_driver(
                    drivers@,
                    (#[trigger] ranked@[i]).driver,
                ) < 0,
        },
{
    let mut priors: Vec<Rating> = Vec::new();
    let mut i: usize = 0;
    while i < ranked.len()
        invariant
            i <= ranked@.len(),
            priors@.len() == i,
            forall|k: int|
                0 <= k < i ==> spec_find_driver(drivers@, (#[trigger] ranked@[k]).driver) >= 0
                    && priors@[k] == (Rating {
                    rating: drivers@[spec_find_driver(drivers@, ranked@[k].driver)].rating,
                    uncertainty: drivers@[spec_find_driver(
                        drivers@,
                        ranked@[k].driver,
                    )].uncertainty,
                }),
        decreases ranked@.len() - i,
    {
        match find_driver(drivers, ranked[i].driver) {
            Option::None => {
                return Err(AnalysisError::DanglingReference);
            },
            Option::Some(j) => {
                let d = &drivers[j];
                priors.push(Rating { rating: d.rating, uncertainty: d.uncertainty });
            },
        }
        i = i + 1;
    }
    Ok(priors)
}

/// Index of the first ranked entry for the given driver, or -1.
pub open spec fn spec_rank_index(ranked: Seq<RankedDriver>, id: i32) -> int
    decreases ranked.len(),
{
    if ranked.len() == 0 {
        -1
    } else if ranked[0].driver == id {
        0
    } else if spec_rank_index(ranked.drop_first(), id) < 0 {
        -1
    } else {
        spec_rank_index(ranked.drop_first(), id) + 1
    }
}

proof fn lemma_rank_index_at(ranked: Seq<RankedDriver>, id: i32, j: int)
    requires
        0 <= j < ranked.len(),
        ranked[j].driver == id,
        forall|k: int| 0 <= k < j ==> ranked[k].driver != id,
    ensures
        spec_rank_index(ranked, id) == j,
    decreases j,
{
    if j > 0 {
        assert(ranked.drop_first()[j - 1].driver == id);
        assert(forall|k: int| 0 <= k < j - 1 ==> ranked.drop_first()[k].driver != id);
        lemma_rank_index_at(ranked.drop_first(), id, j - 1);
    }
}

proof fn lemma_rank_index_none(ranked: Seq<RankedDriver>, id: i32)
    requires
        forall|k: int| 0 <= k < ranked.len() ==> ranked[k].driver != id,
    ensures
        spec_rank_index(ranked, id) < 0,
    decreases ranked.len(),
{
    if ranked.len() > 0 {
        assert(forall|k: int| 0 <= k < ranked.len() - 1 ==> ranked.drop_first()[k].driver != id);
        lemma_rank_index_none(ranked.drop_first(), id);
    }
}

/// Find the first ranked entry for the given driver.
fn find_rank(ranked: &Vec<RankedDriver>, id: i32) -> (r: Option<usize>)
    ensures
        match r {
            Option::Some(j) => j as int == spec_rank_index(ranked@, id) && j < ranked@.len(),
            Option::None => spec_rank_index(ranked@, id) < 0,
        },
{
    let mut j: usize = 0;
    while j < ranked.len() && ranked[j].driver != id
        invariant
            j <= ranked@.len(),
            forall|k: int| 0 <= k < j ==> ranked@[k].driver != id,
        decreases ranked@.len() - j,
    {
        j = j + 1;
    }
    if j < ranked.len() {
        proof {
            lemma_rank_index_at(ranked@, id, j as int);
        }
        Some(j)
    } else {
        proof {
            lemma_rank_index_none(ranked@, id);
        }
        None
    }
}

/// What one updated driver record must be: the old record, with the
/// rating replaced by the model's answer when the driver was ranked.
pub open spec fn updated_driver(
    old_driver: Driver,
    updated: Driver,
    ranked: Seq<RankedDriver>,
    new_ratings: Seq<Rating>,
) -> bool {
    let i = spec_rank_index(ranked, old_driver.id);
    &&& updated.id == old_driver.id
    &&& updated.name@ == old_driver.name@
    &&& if i >= 0 {
        updated.rating == new_ratings[i].rating && updated.uncertainty
            == new_ratings[i].uncertainty
    } else {
        updated.rating == old_driver.rating && updated.uncertainty == old_driver.uncertainty
    }
}

/// Write one heat's outcome back into the driver records, all or
/// nothing: every ranked driver takes the model's rating at their
/// position, every other record is unchanged.  An answer whose length
/// does not match the ranking cannot be applied as one unit and is
/// refused whole, never half-applied.
pub fn apply_ratings(drivers: &Vec<Driver>, ranked: &Vec<RankedDriver>, new_ratings: &Vec<Rating>)
    -> (r: Result<Vec<Driver>, AnalysisError>)
    ensures
        match r {
            Result::Ok(out) => new_ratings@.len() == ranked@.len() && out@.len() == drivers@.len()
                && forall|j: int|
                0 <= j < out@.len() ==> updated_driver(
                    drivers@[j],
                    #[trigger] out@[j],
                    ranked@,
                    new_ratings@,
                ),
            Result::Err(e) => e == AnalysisError::PartialPersistenceFailure && new_ratings@.len()
                != ranked@.len(),
        },
{
    if new_ratings.len() != ranked.len() {
        return Err(AnalysisError::PartialPersistenceFailure);
    }
    let mut out: Vec<Driver> = Vec::new();
    let mut j: usize = 0;
    while j < drivers.len()
        invariant
            j <= drivers@.len(),
            out@.len() == j,
            new_ratings@.len() == ranked@.len(),
            forall|k: int|
                0 <= k < j ==> updated_driver(
                    drivers@[k],
                    #[trigger] out@[k],
                    ranked@,
                    new_ratings@,
                ),
        decreases drivers@.len() - j,
    {
        let d = &drivers[j];
        match find_rank(ranked, d.id) {
            Option::Some(i) => {
                out.push(
                    Driver {
                        id: d.id,
                        name: d.name.clone(),
                        rating: new_ratings[i].rating,
                        uncertainty: new_ratings[i].uncertainty,
                    },
                );
            },
            Option::None => {
                out.push(
                    Driver {
                        id: d.id,
                        name: d.name.clone(),
                        rating: d.rating,
                        uncertainty: d.uncertainty,
                    },
                );
            },
        }
        j = j + 1;
    }
    Ok(out)
}

/// A heat whose outcome has not been applied to the ratings yet.
pub struct UnratedHeat {
    heat: Heat,
}

/// A heat's ranked outcome, waiting for the rating model's answer.
pub struct PendingRating {
    heat: Heat,
    ranked: Vec<RankedDriver>,
    priors: Vec<Rating>,
}

/// Evidence that a heat's outcome has been applied, exactly once.
pub struct RatedHeat {
    heat: Heat,
}

impl UnratedHeat {
    pub closed spec fn spec_heat(self) -> Heat {
        self.heat
    }

    pub fn new(heat: Heat) -> (u: UnratedHeat)
        ensures
            u.spec_heat() == heat,
    {
        UnratedHeat { heat }
    }

    /// Rank this heat's laps and collect the participating drivers'
    /// priors.  Consuming the heat makes one preparation per heat
    /// explicit; the caller must work through heats in non-decreasing
    /// start-time order, since each answer depends on the ratings the
    /// earlier heats left behind.
    pub fn prepare(self, laps: &Vec<Lap>, drivers: &Vec<Driver>) -> (r: Result<
        PendingRating,
        AnalysisError,
    >)
        ensures
            match r {
                Result::Ok(p) => {
                    let hl = laps@.filter(heat_pred(self.spec_heat().id));
                    &&& p.spec_heat() == self.spec_heat()
                    &&& p.spec_ranked().len() >= 2
                    &&& properly_ranked(hl, p.spec_ranked())
                    &&& p.spec_priors().len() == p.spec_ranked().len()
                    &&& forall|i: int|
                        0 <= i < p.spec_ranked().len() ==> spec_find_driver(
                            drivers@,
                            (#[trigger] p.spec_ranked()[i]).driver,
                        ) >= 0 && p.spec_priors()[i] == (Rating {
                            rating: drivers@[spec_find_driver(
                                drivers@,
                                p.spec_ranked()[i].driver,
                            )].rating,
                            uncertainty: drivers@[spec_find_driver(
                                drivers@,
                                p.spec_ranked()[i].driver,
                            )].uncertainty,
                        })
                },
                Result::Err(e) => {
                    let hl = laps@.filter(heat_pred(self.spec_heat().id));
                    ||| e == AnalysisError::InsufficientCompetitors && !two_competitors(hl)
                    ||| e == AnalysisError::DanglingReference && exists|d: i32|
                        #[trigger] drives_in(hl, d) && spec_find_driver(drivers@, d) < 0
                },
            },
    {
        let heat_laps = self.heat.filter_other_heat_laps(laps);
        let ranked = match rank_drivers(&heat_laps) {
            Result::Ok(ranked) => ranked,
            Result::Err(e) => {
                return Err(e);
            },
        };
        let priors = match heat_priors(&ranked, drivers) {
            Result::Ok(priors) => priors,
            Result::Err(e) => {
                proof {
                    let hl = laps@.filter(heat_pred(self.spec_heat().id));
                    let i = choose|i: int|
                        0 <= i < ranked@.len() && spec_find_driver(
                            drivers@,
                            (#[trigger] ranked@[i]).driver,
                        ) < 0;
                    assert(is_best_of(hl, ranked@[i].driver, ranked@[i].best_time));
                    assert(drives_in(hl, ranked@[i].driver));
                }
                return Err(e);
            },
        };
        Ok(PendingRating { heat: self.heat, ranked, priors })
    }
}

impl PendingRating {
    pub closed spec fn spec_heat(self) -> Heat {
        self.heat
    }

    pub closed spec fn spec_ranked(self) -> Seq<RankedDriver> {
        self.ranked@
    }

    pub closed spec fn spec_priors(self) -> Seq<Rating> {
        self.priors@
    }

    /// The finishing order, rank 1 first.
    pub fn ranked(&self) -> (r: &Vec<RankedDriver>)
        ensures
            r@ == self.spec_ranked(),
    {
        &self.ranked
    }

    /// The priors of the ranked drivers, in finishing order.
    pub fn priors(&self) -> (r: &Vec<Rating>)
        ensures
            r@ == self.spec_priors(),
    {
        &self.priors
    }

    pub fn heat(&self) -> (r: &Heat)
        ensures
            *r == self.spec_heat(),
    {
        &self.heat
    }

    /// Apply the model's answer to the driver records, as one unit, and
    /// mark the heat rated.  Consuming the pending outcome rules out a
    /// second application of the same heat without an explicit new
    /// `UnratedHeat`.
    pub fn commit(self, drivers: &Vec<Driver>, new_ratings: &Vec<Rating>) -> (r: Result<
        (RatedHeat, Vec<Driver>),
        AnalysisError,
    >)
        ensures
            match r {
                Result::Ok(done) => done.0.spec_heat() == self.spec_heat() && new_ratings@.len()
                    == self.spec_ranked().len() && done.1@.len() == drivers@.len() && forall|j: int|
                    0 <= j < done.1@.len() ==> updated_driver(
                        drivers@[j],
                        #[trigger] done.1@[j],
                        self.spec_ranked(),
                        new_ratings@,
                    ),
                Result::Err(e) => e == AnalysisError::PartialPersistenceFailure
                    && new_ratings@.len() != self.spec_ranked().len(),
            },
    {
        let out = match apply_ratings(drivers, &self.ranked, new_ratings) {
            Result::Ok(out) => out,
            Result::Err(e) => {
                return Err(e);
            },
        };
        Ok((RatedHeat { heat: self.heat }, out))
    }
}

impl RatedHeat {
    pub closed spec fn spec_heat(self) -> Heat {
        self.heat
    }

    pub fn heat(&self) -> (r: &Heat)
        ensures
            *r == self.spec_heat(),
    {
        &self.heat
    }
}

/// The strict ranking order, executably.
fn ranked_before_exec(a: &RankedDriver, b: &RankedDriver) -> (r: bool)
    ensures
        r == ranked_before(*a, *b),
{
    a.best_time < b.best_time || (a.best_time == b.best_time && a.driver < b.driver)
}

/// Overwrite each entry's position with its 1-based index; every other
/// field is kept.
fn assign_ranks(v: Vec<RankedDriver>) -> (r: Vec<RankedDriver>)
    ensures
        r@.len() == v@.len(),
        forall|i: int|
            0 <= i < r@.len() ==> (#[trigger] r@[i]).driver == v@[i].driver && r@[i].best_time
                == v@[i].best_time && r@[i].rank == i + 1,
{
    let mut r = v;
    let mut i: usize = 0;
    while i < r.len()
        invariant
            i <= r@.len(),
            r@.len() == v@.len(),
            forall|k: int|
                0 <= k < r@.len() ==> (#[trigger] r@[k]).driver == v@[k].driver && r@[k].best_time
                    == v@[k].best_time,
            forall|k: int| 0 <= k < i ==> (#[trigger] r@[k]).rank == k + 1,
        decreases r@.len() - i,
    {
        let entry = RankedDriver {
            driver: r[i].driver,
            best_time: r[i].best_time,
            rank: i + 1,
        };
        r.set(i, entry);
        i = i + 1;
    }
    r
}

} // verus!
