//! Aggregation: laps grouped by driver, by kart, or by the calendar day
//! of their heat, each group in first-appearance order and holding its
//! laps in their original order.

use vstd::prelude::*;

verus! {

use crate::models::Lap;
use crate::models::Heat;
use crate::models::Kart;
use crate::models::Driver;
use crate::stats::AnalysisError;
use crate::stats::laps_wf;
use crate::stats::lap_times;
use crate::stats::lap_times_of;
use crate::stats::min_lap_time;
use crate::stats::min_of;
use crate::stats::LapsStats;
use crate::math::Math;
use crate::math::TimeRatio;
use crate::math::median_twice;
use crate::math::sum_of;
use crate::models::MAX_LAPS;
use crate::models::MAX_LAP_TIME_MS;
use crate::models::heat_pred;

/// A lap tagged with the key it is grouped under.
#[derive(Clone, Copy, PartialEq, Eq, Structural, Debug)]
pub struct KeyedLap {
    pub key: i64,
    pub lap: Lap,
}

/// One group: a key and every lap carrying it, in input order.
#[derive(Clone, Debug)]
pub struct LapGroup {
    pub key: i64,
    pub laps: Vec<Lap>,
}

/// Picks the pairs carrying key `k`.
pub open spec fn key_pred(k: i64) -> spec_fn(KeyedLap) -> bool {
    |p: KeyedLap| p.key == k
}

/// The laps grouped under `k`, in input order.
pub open spec fn group_of(pairs: Seq<KeyedLap>, k: i64) -> Seq<Lap> {
    pairs.filter(key_pred(k)).map_values(|p: KeyedLap| p.lap)
}

/// The keys of a pair sequence in order of first appearance, each once.
pub open spec fn distinct_keys(pairs: Seq<KeyedLap>) -> Seq<i64>
    decreases pairs.len(),
{
    if pairs.len() == 0 {
        Seq::<i64>::empty()
    } else {
        let rest = distinct_keys(pairs.drop_last());
        if rest.contains(pairs.last().key) {
            rest
        } else {
            rest.push(pairs.last().key)
        }
    }
}

/// The keys of a group sequence, in order.
pub open spec fn group_keys(groups: Seq<LapGroup>) -> Seq<i64> {
    groups.map_values(|g: LapGroup| g.key)
}

pub proof fn lemma_distinct_keys_ensures(pairs: Seq<KeyedLap>)
    ensures
        distinct_keys(pairs).no_duplicates(),
        forall|k: i64|
            distinct_keys(pairs).contains(k) <==> (exists|i: int|
                0 <= i < pairs.len() && (#[trigger] pairs[i]).key == k),
    decreases pairs.len(),
{
    if pairs.len() > 0 {
        lemma_distinct_keys_ensures(pairs.drop_last());
        assert forall|k: i64|
            distinct_keys(pairs).contains(k) <==> (exists|i: int|
                0 <= i < pairs.len() && (#[trigger] pairs[i]).key == k) by {
            let rest = distinct_keys(pairs.drop_last());
            if distinct_keys(pairs).contains(k) {
                if rest.contains(k) {
                    let i = choose|i: int|
                        0 <= i < pairs.drop_last().len() && (#[trigger] pairs.drop_last()[i]).key
                            == k;
                    assert(pairs[i].key == k);
                } else {
                    assert(pairs[pairs.len() - 1].key == k);
                }
            }
            if exists|i: int| 0 <= i < pairs.len() && (#[trigger] pairs[i]).key == k {
                let i = choose|i: int| 0 <= i < pairs.len() && (#[trigger] pairs[i]).key == k;
                if i < pairs.len() - 1 {
                    assert(pairs.drop_last()[i].key == k);
                    assert(rest.contains(k));
                    if !rest.contains(pairs.last().key) {
                        assert(distinct_keys(pairs) == rest.push(pairs.last().key));
                        assert(rest.push(pairs.last().key).contains(k)) by {
                            let j = choose|j: int| 0 <= j < rest.len() && rest[j] == k;
                            assert(rest.push(pairs.last().key)[j] == k);
                        }
                    }
                } else {
                    let last = pairs.last().key;
                    if !rest.contains(last) {
                        assert(distinct_keys(pairs)[rest.len() as int] == last);
                    }
                }
            }
        }
    }
}

/// Appending one element extends a filter by that element exactly when
/// it satisfies the predicate.
pub proof fn lemma_filter_push<A>(s: Seq<A>, pred: spec_fn(A) -> bool, x: A)
    ensures
        pred(x) ==> s.push(x).filter(pred) == s.filter(pred).push(x),
        !pred(x) ==> s.push(x).filter(pred) == s.filter(pred),
{
    reveal(Seq::filter);
    assert(s.push(x).drop_last() =~= s);
    assert(s.push(x).last() == x);
}

/// An element of a filtered sequence is an element of the original.
pub proof fn lemma_filter_element<A>(s: Seq<A>, pred: spec_fn(A) -> bool, i: int)
    requires
        0 <= i < s.filter(pred).len(),
    ensures
        s.contains(s.filter(pred)[i]),
        pred(s.filter(pred)[i]),
    decreases s.len(),
{
    reveal(Seq::filter);
    if s.len() > 0 {
        let t = s.drop_last();
        if i < t.filter(pred).len() {
            lemma_filter_element(t, pred, i);
            let x = t.filter(pred)[i];
            let w = choose|w: int| 0 <= w < t.len() && t[w] == x;
            assert(s[w] == x);
        } else {
            assert(s[s.len() - 1] == s.filter(pred)[i]);
        }
    }
}

/// Group a keyed lap sequence: one group per distinct key, in order of
/// first appearance, each holding exactly its laps in input order.
pub fn group_laps_by_key(pairs: &Vec<KeyedLap>) -> (groups: Vec<LapGroup>)
    ensures
        group_keys(groups@) == distinct_keys(pairs@),
        forall|i: int|
            0 <= i < groups@.len() ==> (#[trigger] groups@[i]).laps@ == group_of(
                pairs@,
                groups@[i].key,
            ),
        forall|i: int| 0 <= i < groups@.len() ==> (#[trigger] groups@[i]).laps@.len() > 0,
{
    let mut groups: Vec<LapGroup> = Vec::new();
    let mut t: usize = 0;
    proof {
        assert(pairs@.subrange(0, 0) =~= Seq::<KeyedLap>::empty());
        assert(group_keys(groups@) =~= distinct_keys(pairs@.subrange(0, 0)));
    }
    while t < pairs.len()
        invariant
            t <= pairs@.len(),
            group_keys(groups@) == distinct_keys(pairs@.subrange(0, t as int)),
            group_keys(groups@).no_duplicates(),
            forall|i: int|
                0 <= i < groups@.len() ==> (#[trigger] groups@[i]).laps@ == group_of(
                    pairs@.subrange(0, t as int),
                    groups@[i].key,
                ),
            forall|i: int| 0 <= i < groups@.len() ==> (#[trigger] groups@[i]).laps@.len() > 0,
        decreases pairs@.len() - t,
    {
        let p = pairs[t];
        let ghost pre = pairs@.subrange(0, t as int);
        let ghost post = pairs@.subrange(0, t + 1);
        proof {
            assert(post.drop_last() =~= pre);
            assert(post =~= pre.push(pairs@[t as int]));
        }
        // find the group already holding this key, if any
        let mut j: usize = 0;
        while j < groups.len() && groups[j].key != p.key
            invariant
                j <= groups@.len(),
                forall|i: int| 0 <= i < j ==> (#[trigger] groups@[i]).key != p.key,
            decreases groups@.len() - j,
        {
            j = j + 1;
        }
        if j < groups.len() {
            let ghost prev = groups@;
            proof {
                assert(prev[j as int].key == p.key);
                assert(group_keys(prev)[j as int] == p.key);
                assert(group_keys(prev).contains(p.key));
                assert(distinct_keys(post) == distinct_keys(pre));
            }
            let mut grp = groups.remove(j);
            grp.laps.push(p.lap);
            proof {
                lemma_filter_push(pre, key_pred(grp.key), pairs@[t as int]);
                assert(group_of(post, grp.key) =~= group_of(pre, grp.key).push(p.lap));
            }
            groups.insert(j, grp);
            proof {
                assert(groups@ =~= prev.update(j as int, groups@[j as int]));
                assert(group_keys(groups@) =~= group_keys(prev));
                assert forall|i: int| 0 <= i < groups@.len() implies (#[trigger] groups@[i]).laps@
                    == group_of(post, groups@[i].key) by {
                    if i != j {
                        assert(groups@[i] == prev[i]);
                        assert(group_keys(prev)[i] == prev[i].key);
                        assert(groups@[i].key != p.key);
                        lemma_filter_push(pre, key_pred(groups@[i].key), pairs@[t as int]);
                    }
                }
            }
        } else {
            let ghost prev = groups@;
            proof {
                assert(!group_keys(prev).contains(p.key)) by {
                    if group_keys(prev).contains(p.key) {
                        let i = choose|i: int|
                            0 <= i < group_keys(prev).len() && group_keys(prev)[i] == p.key;
                        assert(prev[i].key == p.key);
                    }
                }
                assert(distinct_keys(post) == distinct_keys(pre).push(p.key));
                assert(pre.filter(key_pred(p.key)) =~= Seq::<KeyedLap>::empty()) by {
                    if pre.filter(key_pred(p.key)).len() > 0 {
                        lemma_filter_element(pre, key_pred(p.key), 0);
                        let q = pre.filter(key_pred(p.key))[0];
                        let w = choose|w: int| 0 <= w < pre.len() && pre[w] == q;
                        lemma_distinct_keys_ensures(pre);
                        assert(distinct_keys(pre).contains(p.key));
                    }
                }
            }
            let mut laps: Vec<Lap> = Vec::new();
            laps.push(p.lap);
            groups.push(LapGroup { key: p.key, laps });
            proof {
                lemma_filter_push(pre, key_pred(p.key), pairs@[t as int]);
                assert(group_of(post, p.key) =~= seq![p.lap]);
                assert(group_keys(groups@) =~= group_keys(prev).push(p.key));
                assert forall|i: int| 0 <= i < groups@.len() implies (#[trigger] groups@[i]).laps@
                    == group_of(post, groups@[i].key) by {
                    if i < groups@.len() - 1 {
                        assert(groups@[i] == prev[i]);
                        assert(group_keys(prev)[i] == prev[i].key);
                        assert(groups@[i].key != p.key);
                        lemma_filter_push(pre, key_pred(groups@[i].key), pairs@[t as int]);
                    } else {
                        assert(groups@[i].laps@ =~= seq![p.lap]);
                    }
                }
            }
        }
        t = t + 1;
    }
    proof {
        assert(pairs@.subrange(0, pairs@.len() as int) =~= pairs@);
    }
    groups
}

/// Total number of laps held by a group sequence.
pub open spec fn sum_group_sizes(groups: Seq<LapGroup>) -> int
    decreases groups.len(),
{
    if groups.len() == 0 {
        0
    } else {
        sum_group_sizes(groups.drop_last()) + groups.last().laps@.len()
    }
}

/// Sum, over the keys `ks`, of how many pairs carry each key.
spec fn sum_filter_lens(pairs: Seq<KeyedLap>, ks: Seq<i64>) -> int
    decreases ks.len(),
{
    if ks.len() == 0 {
        0
    } else {
        sum_filter_lens(pairs, ks.drop_last()) + pairs.filter(key_pred(ks.last())).len()
    }
}

proof fn lemma_sum_filter_empty(ks: Seq<i64>)
    ensures
        sum_filter_lens(Seq::<KeyedLap>::empty(), ks) == 0,
    decreases ks.len(),
{
    reveal(Seq::filter);
    if ks.len() > 0 {
        lemma_sum_filter_empty(ks.drop_last());
    }
}

/// Appending one pair raises the total by one exactly when its key is
/// among the (distinct) keys summed over.
proof fn lemma_sum_filter_push(pairs: Seq<KeyedLap>, ks: Seq<i64>, x: KeyedLap)
    requires
        ks.no_duplicates(),
    ensures
        sum_filter_lens(pairs.push(x), ks) == sum_filter_lens(pairs, ks) + if ks.contains(x.key) {
            1int
        } else {
            0int
        },
    decreases ks.len(),
{
    if ks.len() > 0 {
        let k = ks.last();
        let rest = ks.drop_last();
        assert(rest.no_duplicates());
        lemma_sum_filter_push(pairs, rest, x);
        lemma_filter_push(pairs, key_pred(k), x);
        if x.key == k {
            assert(!rest.contains(k)) by {
                if rest.contains(k) {
                    let j = choose|j: int| 0 <= j < rest.len() && rest[j] == k;
                    assert(ks[j] == k && ks[ks.len() - 1] == k);
                }
            }
            assert(ks[ks.len() - 1] == x.key);
            assert(ks.contains(x.key));
        } else {
            assert(ks.contains(x.key) <==> rest.contains(x.key)) by {
                if ks.contains(x.key) {
                    let j = choose|j: int| 0 <= j < ks.len() && ks[j] == x.key;
                    assert(rest[j] == x.key);
                }
                if rest.contains(x.key) {
                    let j = choose|j: int| 0 <= j < rest.len() && rest[j] == x.key;
                    assert(ks[j] == x.key);
                }
            }
        }
    }
}

/// With distinct keys covering every pair, the per-key counts add up to
/// the total number of pairs.
proof fn lemma_sum_filter_total(pairs: Seq<KeyedLap>, ks: Seq<i64>)
    requires
        ks.no_duplicates(),
        forall|i: int| 0 <= i < pairs.len() ==> ks.contains((#[trigger] pairs[i]).key),
    ensures
        sum_filter_lens(pairs, ks) == pairs.len(),
    decreases pairs.len(),
{
    if pairs.len() == 0 {
        assert(pairs =~= Seq::<KeyedLap>::empty());
        lemma_sum_filter_empty(ks);
    } else {
        let t = pairs.drop_last();
        assert(forall|i: int| 0 <= i < t.len() ==> ks.contains((#[trigger] t[i]).key));
        lemma_sum_filter_total(t, ks);
        lemma_sum_filter_push(t, ks, pairs.last());
        assert(t.push(pairs.last()) =~= pairs);
        assert(ks.contains(pairs[pairs.len() - 1].key));
    }
}

proof fn lemma_group_sizes_eq(pairs: Seq<KeyedLap>, groups: Seq<LapGroup>)
    requires
        forall|i: int|
            0 <= i < groups.len() ==> (#[trigger] groups[i]).laps@ == group_of(
                pairs,
                groups[i].key,
            ),
    ensures
        sum_group_sizes(groups) == sum_filter_lens(pairs, group_keys(groups)),
    decreases groups.len(),
{
    if groups.len() > 0 {
        let t = groups.drop_last();
        lemma_group_sizes_eq(pairs, t);
        assert(group_keys(t) =~= group_keys(groups).drop_last());
        assert(group_keys(groups).last() == groups.last().key);
        assert(groups.last().laps@.len() == group_of(pairs, groups.last().key).len()) by {
            assert(groups[groups.len() - 1].laps@ == group_of(pairs, groups[groups.len() - 1].key));
        }
    }
}

/// Aggregation completeness: for a grouping whose distinct keys cover
/// every pair exactly once, the per-group counts sum to the total input
/// count.  The hypotheses are exactly what `group_laps_by_key` ensures.
pub proof fn lemma_grouping_complete(pairs: Seq<KeyedLap>, groups: Seq<LapGroup>)
    requires
        group_keys(groups).no_duplicates(),
        forall|i: int|
            0 <= i < groups.len() ==> (#[trigger] groups[i]).laps@ == group_of(
                pairs,
                groups[i].key,
            ),
        forall|i: int| 0 <= i < pairs.len() ==> group_keys(groups).contains((#[trigger] pairs[i]).key),
    ensures
        sum_group_sizes(groups) == pairs.len(),
{
    lemma_group_sizes_eq(pairs, groups);
    lemma_sum_filter_total(pairs, group_keys(groups));
}

/// The keys a grouping returned by `group_laps_by_key` carries are
/// distinct and cover every pair, so `lemma_grouping_complete` applies.
pub proof fn lemma_grouped_by_key_complete(pairs: Seq<KeyedLap>, groups: Seq<LapGroup>)
    requires
        group_keys(groups) == distinct_keys(pairs),
        forall|i: int|
            0 <= i < groups.len() ==> (#[trigger] groups[i]).laps@ == group_of(
                pairs,
                groups[i].key,
            ),
    ensures
        sum_group_sizes(groups) == pairs.len(),
{
    lemma_distinct_keys_ensures(pairs);
    assert(forall|i: int|
        0 <= i < pairs.len() ==> group_keys(groups).contains((#[trigger] pairs[i]).key));
    lemma_grouping_complete(pairs, groups);
}

/// Laps tagged by their driver.
pub open spec fn driver_keyed(laps: Seq<Lap>) -> Seq<KeyedLap> {
    laps.map_values(|l: Lap| KeyedLap { key: l.driver as i64, lap: l })
}

/// Laps tagged by their kart.
pub open spec fn kart_keyed(laps: Seq<Lap>) -> Seq<KeyedLap> {
    laps.map_values(|l: Lap| KeyedLap { key: l.kart_id as i64, lap: l })
}

/// The laps of each driver, one group per driver in order of first
/// appearance.
pub fn laps_per_driver(laps: &Vec<Lap>) -> (groups: Vec<LapGroup>)
    ensures
        group_keys(groups@) == distinct_keys(driver_keyed(laps@)),
        forall|i: int|
            0 <= i < groups@.len() ==> (#[trigger] groups@[i]).laps@ == group_of(
                driver_keyed(laps@),
                groups@[i].key,
            ),
        forall|i: int| 0 <= i < groups@.len() ==> (#[trigger] groups@[i]).laps@.len() > 0,
{
    let mut pairs: Vec<KeyedLap> = Vec::new();
    let mut i: usize = 0;
    while i < laps.len()
        invariant
            i <= laps@.len(),
            pairs@ =~= laps@.subrange(0, i as int).map_values(
                |l: Lap| KeyedLap { key: l.driver as i64, lap: l },
            ),
        decreases laps@.len() - i,
    {
        pairs.push(KeyedLap { key: laps[i].driver as i64, lap: laps[i] });
        proof {
            assert(laps@.subrange(0, i + 1).drop_last() =~= laps@.subrange(0, i as int));
            assert(pairs@ =~= laps@.subrange(0, i + 1).map_values(
                |l: Lap| KeyedLap { key: l.driver as i64, lap: l },
            ));
        }
        i = i + 1;
    }
    proof {
        assert(laps@.subrange(0, laps@.len() as int) =~= laps@);
        assert(pairs@ =~= driver_keyed(laps@));
    }
    group_laps_by_key(&pairs)
}

/// The laps of each kart, one group per kart in order of first
/// appearance.
pub fn laps_per_kart(laps: &Vec<Lap>) -> (groups: Vec<LapGroup>)
    ensures
        group_keys(groups@) == distinct_keys(kart_keyed(laps@)),
        forall|i: int|
            0 <= i < groups@.len() ==> (#[trigger] groups@[i]).laps@ == group_of(
                kart_keyed(laps@),
                groups@[i].key,
            ),
        forall|i: int| 0 <= i < groups@.len() ==> (#[trigger] groups@[i]).laps@.len() > 0,
{
    let mut pairs: Vec<KeyedLap> = Vec::new();
    let mut i: usize = 0;
    while i < laps.len()
        invariant
            i <= laps@.len(),
            pairs@ =~= laps@.subrange(0, i as int).map_values(
                |l: Lap| KeyedLap { key: l.kart_id as i64, lap: l },
            ),
        decreases laps@.len() - i,
    {
        pairs.push(KeyedLap { key: laps[i].kart_id as i64, lap: laps[i] });
        proof {
            assert(laps@.subrange(0, i + 1).drop_last() =~= laps@.subrange(0, i as int));
            assert(pairs@ =~= laps@.subrange(0, i + 1).map_values(
                |l: Lap| KeyedLap { key: l.kart_id as i64, lap: l },
            ));
        }
        i = i + 1;
    }
    proof {
        assert(laps@.subrange(0, laps@.len() as int) =~= laps@);
        assert(pairs@ =~= kart_keyed(laps@));
    }
    group_laps_by_key(&pairs)
}

/// Index of the first heat with the given id, or -1 when there is none.
pub open spec fn spec_find_heat(heats: Seq<Heat>, id: i32) -> int
    decreases heats.len(),
{
    if heats.len() == 0 {
        -1
    } else if heats[0].id == id {
        0
    } else if spec_find_heat(heats.drop_first(), id) < 0 {
        -1
    } else {
        spec_find_heat(heats.drop_first(), id) + 1
    }
}

proof fn lemma_find_heat_at(heats: Seq<Heat>, id: i32, j: int)
    requires
        0 <= j < heats.len(),
        heats[j].id == id,
        forall|k: int| 0 <= k < j ==> heats[k].id != id,
    ensures
        spec_find_heat(heats, id) == j,
    decreases j,
{
    if j > 0 {
        assert(heats[0].id != id);
        assert(heats.drop_first()[j - 1].id == id);
        assert(forall|k: int| 0 <= k < j - 1 ==> heats.drop_first()[k].id != id);
        lemma_find_heat_at(heats.drop_first(), id, j - 1);
    }
}

proof fn lemma_find_heat_none(heats: Seq<Heat>, id: i32)
    requires
        forall|k: int| 0 <= k < heats.len() ==> heats[k].id != id,
    ensures
        spec_find_heat(heats, id) < 0,
    decreases heats.len(),
{
    if heats.len() > 0 {
        assert(forall|k: int| 0 <= k < heats.len() - 1 ==> heats.drop_first()[k].id != id);
        lemma_find_heat_none(heats.drop_first(), id);
    }
}

/// Find the first heat with the given id.
fn find_heat(heats: &Vec<Heat>, id: i32) -> (r: Option<usize>)
    ensures
        match r {
            Option::Some(j) => j as int == spec_find_heat(heats@, id) && j < heats@.len(),
            Option::None => spec_find_heat(heats@, id) < 0,
        },
{
    let mut j: usize = 0;
    while j < heats.len() && heats[j].id != id
        invariant
            j <= heats@.len(),
            forall|k: int| 0 <= k < j ==> heats@[k].id != id,
        decreases heats@.len() - j,
    {
        j = j + 1;
    }
    if j < heats.len() {
        proof {
            lemma_find_heat_at(heats@, id, j as int);
        }
        Some(j)
    } else {
        proof {
            lemma_find_heat_none(heats@, id);
        }
        None
    }
}

/// Tags a lap with the calendar day of its heat.
pub open spec fn day_key_fn(heats: Seq<Heat>) -> spec_fn(Lap) -> KeyedLap {
    |l: Lap| KeyedLap { key: heats[spec_find_heat(heats, l.heat)].spec_day(), lap: l }
}

/// Laps tagged by the calendar day of their (already resolved) heat.
pub open spec fn day_keyed(laps: Seq<Lap>, heats: Seq<Heat>) -> Seq<KeyedLap> {
    laps.map_values(day_key_fn(heats))
}

/// Every lap's heat is among the supplied heats.
pub open spec fn all_heats_resolved(laps: Seq<Lap>, heats: Seq<Heat>) -> bool {
    forall|i: int| 0 <= i < laps.len() ==> spec_find_heat(heats, (#[trigger] laps[i]).heat) >= 0
}

/// The laps of each calendar day, one group per day in order of first
/// appearance.  A lap whose heat was not supplied is a hard
/// `DanglingReference`: referential integrity was the ingestion's duty.
pub fn laps_per_day(laps: &Vec<Lap>, heats: &Vec<Heat>) -> (r: Result<Vec<LapGroup>, AnalysisError>)
    requires
        forall|i: int| 0 <= i < heats@.len() ==> (#[trigger] heats@[i]).wf(),
    ensures
        match r {
            Result::Ok(groups) => all_heats_resolved(laps@, heats@) && group_keys(groups@)
                == distinct_keys(day_keyed(laps@, heats@)) && (forall|i: int|
                0 <= i < groups@.len() ==> (#[trigger] groups@[i]).laps@ == group_of(
                    day_keyed(laps@, heats@),
                    groups@[i].key,
                )) && (forall|i: int|
                0 <= i < groups@.len() ==> (#[trigger] groups@[i]).laps@.len() > 0),
            Result::Err(e) => e == AnalysisError::DanglingReference && !all_heats_resolved(
                laps@,
                heats@,
            ),
        },
{
    let mut pairs: Vec<KeyedLap> = Vec::new();
    let mut i: usize = 0;
    while i < laps.len()
        invariant
            i <= laps@.len(),
            forall|k: int| 0 <= k < heats@.len() ==> (#[trigger] heats@[k]).wf(),
            forall|k: int|
                0 <= k < i ==> spec_find_heat(heats@, (#[trigger] laps@[k]).heat) >= 0,
            pairs@ =~= laps@.subrange(0, i as int).map_values(day_key_fn(heats@)),
        decreases laps@.len() - i,
    {
        let found = find_heat(heats, laps[i].heat);
        match found {
            Option::None => {
                proof {
                    assert(spec_find_heat(heats@, laps@[i as int].heat) < 0);
                }
                return Err(AnalysisError::DanglingReference);
            },
            Option::Some(j) => {
                let day = heats[j].day();
                pairs.push(KeyedLap { key: day, lap: laps[i] });
                proof {
                    assert(laps@.subrange(0, i + 1).drop_last() =~= laps@.subrange(0, i as int));
                    assert(j as int == spec_find_heat(heats@, laps@[i as int].heat));
                    assert(day == heats@[spec_find_heat(heats@, laps@[i as int].heat)].spec_day());
                    assert(pairs@.last() == day_key_fn(heats@)(laps@[i as int]));
                    assert(pairs@ =~= laps@.subrange(0, i + 1).map_values(day_key_fn(heats@)));
                }
                i = i + 1;
            },
        }
    }
    proof {
        assert(laps@.subrange(0, laps@.len() as int) =~= laps@);
        assert(pairs@ =~= day_keyed(laps@, heats@));
    }
    Ok(group_laps_by_key(&pairs))
}


/// Picks the laps driven in a given kart.
pub open spec fn kart_pred(kart_id: i32) -> spec_fn(Lap) -> bool {
    |l: Lap| l.kart_id == kart_id
}

/// Filtering keeps every lap well-formed.
pub proof fn lemma_filter_preserves_wf(laps: Seq<Lap>, pred: spec_fn(Lap) -> bool)
    requires
        laps_wf(laps),
    ensures
        laps_wf(laps.filter(pred)),
        laps.filter(pred).len() <= laps.len(),
{
    assert forall|j: int| 0 <= j < laps.filter(pred).len() implies (#[trigger] laps.filter(
        pred,
    )[j]).wf() by {
        lemma_filter_element(laps, pred, j);
        let x = laps.filter(pred)[j];
        let w = choose|w: int| 0 <= w < laps.len() && laps[w] == x;
    }
    laps.lemma_filter_len(pred);
}

/// A group drawn from well-formed pairs holds well-formed laps, and no
/// more of them than there are pairs.
proof fn lemma_group_laps_wf(pairs: Seq<KeyedLap>, k: i64)
    requires
        forall|i: int| 0 <= i < pairs.len() ==> (#[trigger] pairs[i]).lap.wf(),
    ensures
        laps_wf(group_of(pairs, k)),
        group_of(pairs, k).len() <= pairs.len(),
{
    let f = pairs.filter(key_pred(k));
    assert forall|j: int| 0 <= j < group_of(pairs, k).len() implies (#[trigger] group_of(
        pairs,
        k,
    )[j]).wf() by {
        assert(group_of(pairs, k)[j] == f[j].lap);
        lemma_filter_element(pairs, key_pred(k), j);
        let w = choose|w: int| 0 <= w < pairs.len() && pairs[w] == f[j];
    }
    pairs.lemma_filter_len(key_pred(k));
}

/// The pairs built by `day_keyed` carry the original laps.
proof fn lemma_day_keyed_wf(laps: Seq<Lap>, heats: Seq<Heat>)
    requires
        laps_wf(laps),
    ensures
        forall|i: int| 0 <= i < day_keyed(laps, heats).len() ==> (#[trigger] day_keyed(
            laps,
            heats,
        )[i]).lap.wf(),
        day_keyed(laps, heats).len() == laps.len(),
{
    assert forall|i: int| 0 <= i < day_keyed(laps, heats).len() implies (#[trigger] day_keyed(
        laps,
        heats,
    )[i]).lap.wf() by {
        assert(day_keyed(laps, heats)[i] == day_key_fn(heats)(laps[i]));
    }
}

/// Keep only the laps of one kart, in their original order.
pub fn laps_of_kart(laps: &Vec<Lap>, kart_id: i32) -> (r: Vec<Lap>)
    ensures
        r@ == laps@.filter(kart_pred(kart_id)),
{
    let mut mine: Vec<Lap> = Vec::new();
    let mut i: usize = 0;
    proof {
        reveal(Seq::filter);
        assert(laps@.subrange(0, 0) =~= Seq::<Lap>::empty());
    }
    while i < laps.len()
        invariant
            i <= laps@.len(),
            mine@ == laps@.subrange(0, i as int).filter(kart_pred(kart_id)),
        decreases laps@.len() - i,
    {
        proof {
            assert(laps@.subrange(0, i + 1).drop_last() =~= laps@.subrange(0, i as int));
            lemma_filter_push(
                laps@.subrange(0, i as int),
                kart_pred(kart_id),
                laps@[i as int],
            );
            assert(laps@.subrange(0, i + 1) =~= laps@.subrange(0, i as int).push(
                laps@[i as int],
            ));
        }
        if laps[i].kart_id == kart_id {
            mine.push(laps[i]);
        }
        i = i + 1;
    }
    proof {
        assert(laps@.subrange(0, laps@.len() as int) =~= laps@);
    }
    mine
}

impl Kart {
    /// This kart's laps grouped by the calendar day of their heat.
    pub fn get_laps_per_day(&self, laps: &Vec<Lap>, heats: &Vec<Heat>) -> (r: Result<
        Vec<LapGroup>,
        AnalysisError,
    >)
        requires
            forall|i: int| 0 <= i < heats@.len() ==> (#[trigger] heats@[i]).wf(),
        ensures
            match r {
                Result::Ok(groups) => all_heats_resolved(laps@.filter(kart_pred(self.id)), heats@)
                    && group_keys(groups@) == distinct_keys(
                    day_keyed(laps@.filter(kart_pred(self.id)), heats@),
                ) && (forall|i: int|
                    0 <= i < groups@.len() ==> (#[trigger] groups@[i]).laps@ == group_of(
                        day_keyed(laps@.filter(kart_pred(self.id)), heats@),
                        groups@[i].key,
                    )) && (forall|i: int|
                    0 <= i < groups@.len() ==> (#[trigger] groups@[i]).laps@.len() > 0),
                Result::Err(e) => e == AnalysisError::DanglingReference && !all_heats_resolved(
                    laps@.filter(kart_pred(self.id)),
                    heats@,
                ),
            },
    {
        let mine = laps_of_kart(laps, self.id);
        laps_per_day(&mine, heats)
    }

    /// The fastest lap time of this kart on each day.
    pub fn get_minimum_laptime_per_day(&self, laps: &Vec<Lap>, heats: &Vec<Heat>) -> (r: Result<
        Vec<(i64, u64)>,
        AnalysisError,
    >)
        requires
            forall|i: int| 0 <= i < heats@.len() ==> (#[trigger] heats@[i]).wf(),
        ensures
            match r {
                Result::Ok(rows) => {
                    let pairs = day_keyed(laps@.filter(kart_pred(self.id)), heats@);
                    &&& all_heats_resolved(laps@.filter(kart_pred(self.id)), heats@)
                    &&& rows@.len() == distinct_keys(pairs).len()
                    &&& forall|i: int|
                        0 <= i < rows@.len() ==> (#[trigger] rows@[i]).0 == distinct_keys(pairs)[i]
                            && rows@[i].1 == min_of(
                            lap_times_of(group_of(pairs, distinct_keys(pairs)[i])),
                        )
                },
                Result::Err(e) => e == AnalysisError::DanglingReference && !all_heats_resolved(
                    laps@.filter(kart_pred(self.id)),
                    heats@,
                ),
            },
    {
        let groups = match self.get_laps_per_day(laps, heats) {
            Result::Ok(groups) => groups,
            Result::Err(e) => {
                return Err(e);
            },
        };
        let ghost pairs = day_keyed(laps@.filter(kart_pred(self.id)), heats@);
        let mut rows: Vec<(i64, u64)> = Vec::new();
        let mut i: usize = 0;
        while i < groups.len()
            invariant
                i <= groups@.len(),
                rows@.len() == i,
                group_keys(groups@) == distinct_keys(pairs),
                forall|k: int|
                    0 <= k < groups@.len() ==> (#[trigger] groups@[k]).laps@ == group_of(
                        pairs,
                        groups@[k].key,
                    ),
                forall|k: int| 0 <= k < groups@.len() ==> (#[trigger] groups@[k]).laps@.len() > 0,
                forall|k: int|
                    0 <= k < i ==> (#[trigger] rows@[k]).0 == distinct_keys(pairs)[k]
                        && rows@[k].1 == min_of(
                        lap_times_of(group_of(pairs, distinct_keys(pairs)[k])),
                    ),
            decreases groups@.len() - i,
        {
            let g = &groups[i];
            let times = lap_times(&g.laps);
            let m = min_lap_time(&times);
            proof {
                assert(group_keys(groups@)[i as int] == groups@[i as int].key);
            }
            rows.push((g.key, m));
            i = i + 1;
        }
        Ok(rows)
    }

    /// The median lap time of this kart on each day, as an exact ratio.
    pub fn get_median_laptime_per_day(&self, laps: &Vec<Lap>, heats: &Vec<Heat>) -> (r: Result<
        Vec<(i64, TimeRatio)>,
        AnalysisError,
    >)
        requires
            forall|i: int| 0 <= i < heats@.len() ==> (#[trigger] heats@[i]).wf(),
            laps_wf(laps@),
        ensures
            match r {
                Result::Ok(rows) => {
                    let pairs = day_keyed(laps@.filter(kart_pred(self.id)), heats@);
                    &&& all_heats_resolved(laps@.filter(kart_pred(self.id)), heats@)
                    &&& rows@.len() == distinct_keys(pairs).len()
                    &&& forall|i: int|
                        0 <= i < rows@.len() ==> (#[trigger] rows@[i]).0 == distinct_keys(pairs)[i]
                            && rows@[i].1.num == median_twice(
                            lap_times_of(group_of(pairs, distinct_keys(pairs)[i])),
                        ) && rows@[i].1.den == 2
                },
                Result::Err(e) => e == AnalysisError::DanglingReference && !all_heats_resolved(
                    laps@.filter(kart_pred(self.id)),
                    heats@,
                ),
            },
    {
        let groups = match self.get_laps_per_day(laps, heats) {
            Result::Ok(groups) => groups,
            Result::Err(e) => {
                return Err(e);
            },
        };
        let ghost pairs = day_keyed(laps@.filter(kart_pred(self.id)), heats@);
        proof {
            lemma_filter_preserves_wf(laps@, kart_pred(self.id));
            lemma_day_keyed_wf(laps@.filter(kart_pred(self.id)), heats@);
        }
        let mut rows: Vec<(i64, TimeRatio)> = Vec::new();
        let mut i: usize = 0;
        while i < groups.len()
            invariant
                i <= groups@.len(),
                rows@.len() == i,
                group_keys(groups@) == distinct_keys(pairs),
                forall|k: int|
                    0 <= k < pairs.len() ==> (#[trigger] pairs[k]).lap.wf(),
                forall|k: int|
                    0 <= k < groups@.len() ==> (#[trigger] groups@[k]).laps@ == group_of(
                        pairs,
                        groups@[k].key,
                    ),
                forall|k: int| 0 <= k < groups@.len() ==> (#[trigger] groups@[k]).laps@.len() > 0,
                forall|k: int|
                    0 <= k < i ==> (#[trigger] rows@[k]).0 == distinct_keys(pairs)[k]
                        && rows@[k].1.num == median_twice(
                        lap_times_of(group_of(pairs, distinct_keys(pairs)[k])),
                    ) && rows@[k].1.den == 2,
            decreases groups@.len() - i,
        {
            let g = &groups[i];
            proof {
                lemma_group_laps_wf(pairs, groups@[i as int].key);
                assert(group_keys(groups@)[i as int] == groups@[i as int].key);
            }
            let times = lap_times(&g.laps);
            let med = Math::median(&times);
            rows.push((g.key, med));
            i = i + 1;
        }
        Ok(rows)
    }

    /// The average lap time of this kart on each day, as an exact ratio.
    pub fn get_laps_avg_per_day(&self, laps: &Vec<Lap>, heats: &Vec<Heat>) -> (r: Result<
        Vec<(i64, TimeRatio)>,
        AnalysisError,
    >)
        requires
            forall|i: int| 0 <= i < heats@.len() ==> (#[trigger] heats@[i]).wf(),
            laps_wf(laps@),
            laps@.len() <= MAX_LAPS,
        ensures
            match r {
                Result::Ok(rows) => {
                    let pairs = day_keyed(laps@.filter(kart_pred(self.id)), heats@);
                    &&& all_heats_resolved(laps@.filter(kart_pred(self.id)), heats@)
                    &&& rows@.len() == distinct_keys(pairs).len()
                    &&& forall|i: int|
                        0 <= i < rows@.len() ==> (#[trigger] rows@[i]).0 == distinct_keys(pairs)[i]
                            && rows@[i].1.num == sum_of(
                            lap_times_of(group_of(pairs, distinct_keys(pairs)[i])),
                        ) && rows@[i].1.den == group_of(pairs, distinct_keys(pairs)[i]).len()
                },
                Result::Err(e) => e == AnalysisError::DanglingReference && !all_heats_resolved(
                    laps@.filter(kart_pred(self.id)),
                    heats@,
                ),
            },
    {
        let groups = match self.get_laps_per_day(laps, heats) {
            Result::Ok(groups) => groups,
            Result::Err(e) => {
                return Err(e);
            },
        };
        let ghost pairs = day_keyed(laps@.filter(kart_pred(self.id)), heats@);
        proof {
            lemma_filter_preserves_wf(laps@, kart_pred(self.id));
            lemma_day_keyed_wf(laps@.filter(kart_pred(self.id)), heats@);
        }
        let mut rows: Vec<(i64, TimeRatio)> = Vec::new();
        let mut i: usize = 0;
        while i < groups.len()
            invariant
                i <= groups@.len(),
                rows@.len() == i,
                pairs.len() <= MAX_LAPS,
                group_keys(groups@) == distinct_keys(pairs),
                forall|k: int|
                    0 <= k < pairs.len() ==> (#[trigger] pairs[k]).lap.wf(),
                forall|k: int|
                    0 <= k < groups@.len() ==> (#[trigger] groups@[k]).laps@ == group_of(
                        pairs,
                        groups@[k].key,
                    ),
                forall|k: int| 0 <= k < groups@.len() ==> (#[trigger] groups@[k]).laps@.len() > 0,
                forall|k: int|
                    0 <= k < i ==> (#[trigger] rows@[k]).0 == distinct_keys(pairs)[k]
                        && rows@[k].1.num == sum_of(
                        lap_times_of(group_of(pairs, distinct_keys(pairs)[k])),
                    ) && rows@[k].1.den == group_of(pairs, distinct_keys(pairs)[k]).len(),
            decreases groups@.len() - i,
        {
            let g = &groups[i];
            proof {
                lemma_group_laps_wf(pairs, groups@[i as int].key);
                assert(group_keys(groups@)[i as int] == groups@[i as int].key);
            }
            let times = lap_times(&g.laps);
            let avg = Math::mean(&times);
            rows.push((g.key, avg));
            i = i + 1;
        }
        Ok(rows)
    }
}


/// Laps tagged by their heat.
pub open spec fn heat_keyed(laps: Seq<Lap>) -> Seq<KeyedLap> {
    laps.map_values(|l: Lap| KeyedLap { key: l.heat as i64, lap: l })
}

/// The distinct keys of a keyed lap vector, in first-appearance order.
pub fn distinct_key_list(pairs: &Vec<KeyedLap>) -> (r: Vec<i64>)
    ensures
        r@ == distinct_keys(pairs@),
{
    let mut r: Vec<i64> = Vec::new();
    let mut t: usize = 0;
    proof {
        assert(pairs@.subrange(0, 0) =~= Seq::<KeyedLap>::empty());
        assert(r@ =~= distinct_keys(pairs@.subrange(0, 0)));
    }
    while t < pairs.len()
        invariant
            t <= pairs@.len(),
            r@ == distinct_keys(pairs@.subrange(0, t as int)),
        decreases pairs@.len() - t,
    {
        let ghost pre = pairs@.subrange(0, t as int);
        let ghost post = pairs@.subrange(0, t + 1);
        proof {
            assert(post.drop_last() =~= pre);
        }
        let key = pairs[t].key;
        let mut j: usize = 0;
        while j < r.len() && r[j] != key
            invariant
                j <= r@.len(),
                forall|k: int| 0 <= k < j ==> r@[k] != key,
            decreases r@.len() - j,
        {
            j = j + 1;
        }
        if j == r.len() {
            proof {
                assert(!r@.contains(key));
            }
            r.push(key);
        } else {
            proof {
                assert(r@[j as int] == key);
                assert(r@.contains(key));
            }
        }
        t = t + 1;
    }
    proof {
        assert(pairs@.subrange(0, pairs@.len() as int) =~= pairs@);
    }
    r
}

impl Heat {
    /// The statistics of every driver of this heat: one entry per
    /// driver of the heat's laps, in order of first appearance, each
    /// over exactly that driver's laps.
    pub fn get_driver_stats(&self, laps: &Vec<Lap>) -> (r: Vec<(i64, LapsStats)>)
        requires
            laps@.len() <= MAX_LAPS,
            laps_wf(laps@),
        ensures
            ({
                let own = laps@.filter(heat_pred(self.id));
                let pairs = driver_keyed(own);
                &&& r@.len() == distinct_keys(pairs).len()
                &&& forall|i: int|
                    0 <= i < r@.len() ==> (#[trigger] r@[i]).0 == distinct_keys(pairs)[i]
                        && r@[i].1 == crate::stats::spec_stats(
                        group_of(pairs, distinct_keys(pairs)[i]),
                    )
            }),
    {
        let own = self.filter_other_heat_laps(laps);
        proof {
            lemma_filter_preserves_wf(laps@, heat_pred(self.id));
        }
        let groups = laps_per_driver(&own);
        let ghost pairs = driver_keyed(own@);
        proof {
            assert forall|k: int| 0 <= k < pairs.len() implies (#[trigger] pairs[k]).lap.wf() by {
                assert(pairs[k] == (KeyedLap { key: own@[k].driver as i64, lap: own@[k] }));
            }
        }
        let mut r: Vec<(i64, LapsStats)> = Vec::new();
        let mut i: usize = 0;
        while i < groups.len()
            invariant
                i <= groups@.len(),
                r@.len() == i,
                pairs.len() <= MAX_LAPS,
                group_keys(groups@) == distinct_keys(pairs),
                forall|k: int| 0 <= k < pairs.len() ==> (#[trigger] pairs[k]).lap.wf(),
                forall|k: int|
                    0 <= k < groups@.len() ==> (#[trigger] groups@[k]).laps@ == group_of(
                        pairs,
                        groups@[k].key,
                    ),
                forall|k: int| 0 <= k < groups@.len() ==> (#[trigger] groups@[k]).laps@.len() > 0,
                forall|k: int|
                    0 <= k < i ==> (#[trigger] r@[k]).0 == distinct_keys(pairs)[k] && r@[k].1
                        == crate::stats::spec_stats(group_of(pairs, distinct_keys(pairs)[k])),
            decreases groups@.len() - i,
        {
            let g = &groups[i];
            let ghost grp = group_of(pairs, distinct_keys(pairs)[i as int]);
            proof {
                lemma_group_laps_wf(pairs, groups@[i as int].key);
                assert(group_keys(groups@)[i as int] == groups@[i as int].key);
            }
            let times = lap_times(&g.laps);
            let fastest = min_lap_time(&times);
            let avg = Math::mean(&times);
            let med = Math::median(&times);
            let st = LapsStats {
                fastest_lap_time: fastest,
                avg_lap_time: avg,
                median_lap_time: med,
            };
            proof {
                crate::math::lemma_sum_bounds(times@, MAX_LAP_TIME_MS);
                crate::math::lemma_sorted_durations_ensures(times@);
                let t = crate::math::sorted_durations(times@);
                let mid = (times@.len() / 2) as int;
                assert(t[mid] <= MAX_LAP_TIME_MS);
                if times@.len() % 2 == 0 {
                    assert(t[mid - 1] <= MAX_LAP_TIME_MS);
                }
                assert(st == crate::stats::spec_stats(grp));
            }
            r.push((g.key, st));
            i = i + 1;
        }
        r
    }

    /// The laps of each heat, one group per heat id in order of first
    /// appearance.
    pub fn get_laps_per_heat(laps: &Vec<Lap>) -> (groups: Vec<LapGroup>)
        ensures
            group_keys(groups@) == distinct_keys(heat_keyed(laps@)),
            forall|i: int|
                0 <= i < groups@.len() ==> (#[trigger] groups@[i]).laps@ == group_of(
                    heat_keyed(laps@),
                    groups@[i].key,
                ),
            forall|i: int| 0 <= i < groups@.len() ==> (#[trigger] groups@[i]).laps@.len() > 0,
    {
        let mut pairs: Vec<KeyedLap> = Vec::new();
        let mut i: usize = 0;
        while i < laps.len()
            invariant
                i <= laps@.len(),
                pairs@ =~= laps@.subrange(0, i as int).map_values(
                    |l: Lap| KeyedLap { key: l.heat as i64, lap: l },
                ),
            decreases laps@.len() - i,
        {
            pairs.push(KeyedLap { key: laps[i].heat as i64, lap: laps[i] });
            proof {
                assert(laps@.subrange(0, i + 1).drop_last() =~= laps@.subrange(0, i as int));
                assert(pairs@ =~= laps@.subrange(0, i + 1).map_values(
                    |l: Lap| KeyedLap { key: l.heat as i64, lap: l },
                ));
            }
            i = i + 1;
        }
        proof {
            assert(laps@.subrange(0, laps@.len() as int) =~= laps@);
            assert(pairs@ =~= heat_keyed(laps@));
        }
        group_laps_by_key(&pairs)
    }

    /// How many distinct heats a lap set was driven in.
    pub fn amount_from_laps(laps: &Vec<Lap>) -> (n: usize)
        ensures
            n == distinct_keys(heat_keyed(laps@)).len(),
    {
        let mut pairs: Vec<KeyedLap> = Vec::new();
        let mut i: usize = 0;
        while i < laps.len()
            invariant
                i <= laps@.len(),
                pairs@ =~= laps@.subrange(0, i as int).map_values(
                    |l: Lap| KeyedLap { key: l.heat as i64, lap: l },
                ),
            decreases laps@.len() - i,
        {
            pairs.push(KeyedLap { key: laps[i].heat as i64, lap: laps[i] });
            proof {
                assert(laps@.subrange(0, i + 1).drop_last() =~= laps@.subrange(0, i as int));
                assert(pairs@ =~= laps@.subrange(0, i + 1).map_values(
                    |l: Lap| KeyedLap { key: l.heat as i64, lap: l },
                ));
            }
            i = i + 1;
        }
        proof {
            assert(laps@.subrange(0, laps@.len() as int) =~= laps@);
            assert(pairs@ =~= heat_keyed(laps@));
        }
        let keys = distinct_key_list(&pairs);
        keys.len()
    }
}

impl Driver {
    /// How many distinct drivers a lap set was driven by.
    pub fn count_from_laps(laps: &Vec<Lap>) -> (n: usize)
        ensures
            n == distinct_keys(driver_keyed(laps@)).len(),
    {
        let mut pairs: Vec<KeyedLap> = Vec::new();
        let mut i: usize = 0;
        while i < laps.len()
            invariant
                i <= laps@.len(),
                pairs@ =~= laps@.subrange(0, i as int).map_values(
                    |l: Lap| KeyedLap { key: l.driver as i64, lap: l },
                ),
            decreases laps@.len() - i,
        {
            pairs.push(KeyedLap { key: laps[i].driver as i64, lap: laps[i] });
            proof {
                assert(laps@.subrange(0, i + 1).drop_last() =~= laps@.subrange(0, i as int));
                assert(pairs@ =~= laps@.subrange(0, i + 1).map_values(
                    |l: Lap| KeyedLap { key: l.driver as i64, lap: l },
                ));
            }
            i = i + 1;
        }
        proof {
            assert(laps@.subrange(0, laps@.len() as int) =~= laps@);
            assert(pairs@ =~= driver_keyed(laps@));
        }
        let keys = distinct_key_list(&pairs);
        keys.len()
    }
}

} // verus!
