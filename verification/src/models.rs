//! The normalized data model: laps, drivers, heats and karts, together
//! with the bounds under which the statistics are computed exactly.

use vstd::prelude::*;

verus! {

/// Upper bound on a lap time in milliseconds (one hour).  Together with
/// `MAX_LAPS` it keeps every intermediate product of the exact variance
/// arithmetic inside `u128`.
pub const MAX_LAP_TIME_MS: u64 = 3_600_000;

/// Upper bound on the number of laps a single statistic is computed over.
pub const MAX_LAPS: usize = 10_000;

/// Default rating mean for a newly seen driver, in millionths (25.0).
pub const DEFAULT_RATING: i64 = 25_000_000;

/// Default rating uncertainty for a newly seen driver, in millionths
/// (25/3, truncated).
pub const DEFAULT_UNCERTAINTY: i64 = 8_333_333;

/// One timed circuit driven by one driver, in one kart, during one heat.
/// `lap_time` is in whole milliseconds.
#[derive(Clone, Copy, PartialEq, Eq, Structural, Debug)]
pub struct Lap {
    pub id: i32,
    pub heat: i32,
    pub driver: i32,
    pub lap_in_heat: i32,
    pub lap_time: u64,
    pub kart_id: i32,
}

/// Picks the laps of one heat.
pub open spec fn heat_pred(heat_id: i32) -> spec_fn(Lap) -> bool {
    |l: Lap| l.heat == heat_id
}

impl Lap {
    /// A lap time the statistics accept: positive and at most an hour.
    pub open spec fn wf(self) -> bool {
        0 < self.lap_time <= MAX_LAP_TIME_MS
    }

    /// The first lap driven in exactly the given time, if any.
    pub fn find_laptime_in_laps(laptime: u64, laps: &Vec<Lap>) -> (r: Option<Lap>)
        ensures
            match r {
                Option::Some(l) => exists|i: int|
                    {
                        &&& 0 <= i < laps@.len()
                        &&& (#[trigger] laps@[i]).lap_time == laptime
                        &&& l == laps@[i]
                        &&& forall|k: int| 0 <= k < i ==> (#[trigger] laps@[k]).lap_time != laptime
                    },
                Option::None => forall|k: int|
                    0 <= k < laps@.len() ==> (#[trigger] laps@[k]).lap_time != laptime,
            },
    {
        let mut i: usize = 0;
        while i < laps.len() && laps[i].lap_time != laptime
            invariant
                i <= laps@.len(),
                forall|k: int| 0 <= k < i ==> (#[trigger] laps@[k]).lap_time != laptime,
            decreases laps@.len() - i,
        {
            i = i + 1;
        }
        if i < laps.len() {
            proof {
                assert(laps@[i as int].lap_time == laptime);
            }
            Some(laps[i])
        } else {
            None
        }
    }
}

/// A competitor.  `rating` and `uncertainty` are the mean and standard
/// deviation of the driver's estimated skill under the external Bayesian
/// rating model, held in millionths.
#[derive(Clone, Debug)]
pub struct Driver {
    pub id: i32,
    pub name: String,
    pub rating: i64,
    pub uncertainty: i64,
}

/// A skill rating: mean and uncertainty in millionths.
#[derive(Clone, Copy, PartialEq, Eq, Structural, Debug)]
pub struct Rating {
    pub rating: i64,
    pub uncertainty: i64,
}

impl Driver {
    /// A new driver starts from the model's default priors.
    pub fn new(id: i32, name: String) -> (d: Driver)
        ensures
            d.id == id,
            d.name@ == name@,
            d.rating == DEFAULT_RATING,
            d.uncertainty == DEFAULT_UNCERTAINTY,
    {
        Driver { id, name, rating: DEFAULT_RATING, uncertainty: DEFAULT_UNCERTAINTY }
    }

    /// The driver's current rating as a value.
    pub fn current_rating(&self) -> (r: Rating)
        ensures
            r.rating == self.rating,
            r.uncertainty == self.uncertainty,
    {
        Rating { rating: self.rating, uncertainty: self.uncertainty }
    }

    /// Replace the driver's rating state; every other field is kept.
    pub fn set_rating(&mut self, new_rating: Rating)
        ensures
            final(self).id == old(self).id,
            final(self).name@ == old(self).name@,
            final(self).rating == new_rating.rating,
            final(self).uncertainty == new_rating.uncertainty,
    {
        self.rating = new_rating.rating;
        self.uncertainty = new_rating.uncertainty;
    }
}

/// One race or qualifying session.  `start_date` is in seconds since the
/// Unix epoch; sessions before 1970 do not occur.
#[derive(Clone, Debug)]
pub struct Heat {
    pub id: i32,
    pub heat_id: String,
    pub heat_type: String,
    pub start_date: i64,
}

impl Heat {
    pub open spec fn wf(self) -> bool {
        0 <= self.start_date
    }

    /// The calendar day the heat started, as days since the Unix epoch.
    pub open spec fn spec_day(self) -> i64 {
        (self.start_date / 86_400) as i64
    }

    /// The calendar day the heat started, as days since the Unix epoch.
    pub fn day(&self) -> (d: i64)
        requires
            self.wf(),
        ensures
            d == self.spec_day(),
    {
        self.start_date / 86_400
    }

    /// Keep only the laps of this heat, in their original order.
    pub fn filter_other_heat_laps(&self, laps: &Vec<Lap>) -> (r: Vec<Lap>)
        ensures
            r@ == laps@.filter(heat_pred(self.id)),
    {
        let mut heat_laps: Vec<Lap> = Vec::new();
        let mut i: usize = 0;
        proof {
            reveal(Seq::filter);
            assert(laps@.subrange(0, 0) =~= Seq::<Lap>::empty());
        }
        while i < laps.len()
            invariant
                i <= laps.len(),
                heat_laps@ == laps@.subrange(0, i as int).filter(heat_pred(self.id)),
            decreases laps.len() - i,
        {
            proof {
                reveal(Seq::filter);
                assert(laps@.subrange(0, i + 1).drop_last() =~= laps@.subrange(0, i as int));
                assert(laps@.subrange(0, i + 1).last() == laps@[i as int]);
            }
            if laps[i].heat == self.id {
                heat_laps.push(laps[i]);
            }
            i = i + 1;
        }
        proof {
            assert(laps@.subrange(0, laps@.len() as int) =~= laps@);
        }
        heat_laps
    }
}

/// A kart; `is_child_kart` is unknown for karts seen only in old data.
#[derive(Clone, Copy, Debug)]
pub struct Kart {
    pub id: i32,
    pub number: i32,
    pub is_child_kart: Option<bool>,
}

} // verus!
