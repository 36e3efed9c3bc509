use karting_groningen_analytics::grouping::{laps_per_day, laps_per_driver, laps_per_kart};
use karting_groningen_analytics::models::{Driver, Heat, Kart, Lap};
use karting_groningen_analytics::stats::AnalysisError;

fn grp_lap(id: i32, heat: i32, driver: i32, kart_id: i32, lap_time_ms: u64) -> Lap {
    Lap { id, heat, driver, lap_in_heat: 1, lap_time: lap_time_ms, kart_id }
}

fn grp_heat(id: i32, start_date: i64) -> Heat {
    Heat { id, heat_id: format!("H{}", id), heat_type: "race".to_string(), start_date }
}

#[test]
fn groups_by_driver_cover_every_lap_once() {
    let laps = vec![
        grp_lap(1, 1, 7, 1, 50_000),
        grp_lap(2, 1, 8, 2, 51_000),
        grp_lap(3, 1, 7, 1, 52_000),
        grp_lap(4, 1, 9, 3, 53_000),
    ];
    let groups = laps_per_driver(&laps);
    assert_eq!(groups.len(), 3);
    // first-appearance order of the driver keys
    let keys: Vec<i64> = groups.iter().map(|g| g.key).collect();
    assert_eq!(keys, vec![7, 8, 9]);
    let counts: Vec<usize> = groups.iter().map(|g| g.laps.len()).collect();
    assert_eq!(counts, vec![2, 1, 1]);
    // aggregation completeness: the group counts sum to the input count
    assert_eq!(counts.iter().sum::<usize>(), laps.len());
    // each group holds exactly its driver's laps, in input order
    assert_eq!(groups[0].laps[0].id, 1);
    assert_eq!(groups[0].laps[1].id, 3);
}

#[test]
fn groups_by_kart_cover_every_lap_once() {
    let laps = vec![
        grp_lap(1, 1, 7, 4, 50_000),
        grp_lap(2, 1, 8, 5, 51_000),
        grp_lap(3, 1, 9, 4, 52_000),
    ];
    let groups = laps_per_kart(&laps);
    let keys: Vec<i64> = groups.iter().map(|g| g.key).collect();
    assert_eq!(keys, vec![4, 5]);
    let total: usize = groups.iter().map(|g| g.laps.len()).sum();
    assert_eq!(total, laps.len());
}

#[test]
fn groups_by_day_follow_the_heat_start() {
    const DAY: i64 = 86_400;
    let heats = vec![grp_heat(1, 10 * DAY + 3_600), grp_heat(2, 11 * DAY)];
    let laps = vec![
        grp_lap(1, 1, 7, 1, 50_000),
        grp_lap(2, 2, 7, 1, 51_000),
        grp_lap(3, 1, 8, 2, 52_000),
    ];
    let groups = laps_per_day(&laps, &heats).unwrap();
    let keys: Vec<i64> = groups.iter().map(|g| g.key).collect();
    assert_eq!(keys, vec![10, 11]);
    assert_eq!(groups[0].laps.len(), 2);
    assert_eq!(groups[1].laps.len(), 1);
}

#[test]
fn unresolved_heat_is_dangling() {
    let heats = vec![grp_heat(1, 86_400)];
    let laps = vec![grp_lap(1, 99, 7, 1, 50_000)];
    assert!(matches!(laps_per_day(&laps, &heats), Err(AnalysisError::DanglingReference)));
}

#[test]
fn kart_day_statistics_are_exact() {
    const DAY: i64 = 86_400;
    let heats = vec![grp_heat(1, 20 * DAY), grp_heat(2, 21 * DAY)];
    let kart = Kart { id: 4, number: 17, is_child_kart: Some(false) };
    let laps = vec![
        grp_lap(1, 1, 7, 4, 50_000),
        grp_lap(2, 1, 8, 4, 54_000),
        grp_lap(3, 2, 7, 4, 47_000),
        // another kart's lap is not counted
        grp_lap(4, 1, 7, 5, 40_000),
    ];
    let minima = kart.get_minimum_laptime_per_day(&laps, &heats).unwrap();
    assert_eq!(minima, vec![(20, 50_000), (21, 47_000)]);

    let medians = kart.get_median_laptime_per_day(&laps, &heats).unwrap();
    assert_eq!(medians.len(), 2);
    assert_eq!(medians[0].0, 20);
    // median of [50.0, 54.0] s is 52.0 s, held as (2 * median, 2)
    assert_eq!(medians[0].1.num, 104_000);
    assert_eq!(medians[0].1.den, 2);

    let averages = kart.get_laps_avg_per_day(&laps, &heats).unwrap();
    assert_eq!(averages[0].0, 20);
    assert_eq!(averages[0].1.num, 104_000);
    assert_eq!(averages[0].1.den, 2);
    assert_eq!(averages[1].1.num, 47_000);
    assert_eq!(averages[1].1.den, 1);
}

#[test]
fn heat_and_driver_counts() {
    let laps = vec![
        grp_lap(1, 1, 7, 1, 50_000),
        grp_lap(2, 1, 8, 1, 51_000),
        grp_lap(3, 2, 7, 1, 52_000),
    ];
    assert_eq!(Heat::amount_from_laps(&laps), 2);
    assert_eq!(Driver::count_from_laps(&laps), 2);
}

#[test]
fn filter_other_heat_laps_keeps_own_laps() {
    let heat = grp_heat(1, 86_400);
    let laps = vec![
        grp_lap(1, 1, 7, 1, 50_000),
        grp_lap(2, 2, 7, 1, 51_000),
        grp_lap(3, 1, 8, 1, 52_000),
    ];
    let own = heat.filter_other_heat_laps(&laps);
    let ids: Vec<i32> = own.iter().map(|l| l.id).collect();
    assert_eq!(ids, vec![1, 3]);
}

#[test]
fn find_laptime_returns_first_match() {
    let laps = vec![
        grp_lap(1, 1, 7, 1, 50_000),
        grp_lap(2, 1, 8, 1, 47_000),
        grp_lap(3, 1, 9, 1, 47_000),
    ];
    let found = Lap::find_laptime_in_laps(47_000, &laps).unwrap();
    assert_eq!(found.id, 2);
    assert!(Lap::find_laptime_in_laps(41_000, &laps).is_none());
}

#[test]
fn heat_driver_stats_per_driver() {
    let heat = grp_heat(1, 86_400);
    let laps = vec![
        grp_lap(1, 1, 7, 1, 50_000),
        grp_lap(2, 1, 7, 1, 52_000),
        grp_lap(3, 1, 8, 2, 47_000),
        // a lap of another heat is left out
        grp_lap(4, 2, 7, 1, 40_000),
    ];
    let rows = heat.get_driver_stats(&laps);
    assert_eq!(rows.len(), 2);
    assert_eq!(rows[0].0, 7);
    assert_eq!(rows[0].1.fastest_lap_time, 50_000);
    assert_eq!(rows[0].1.avg_lap_time.num, 102_000);
    assert_eq!(rows[0].1.avg_lap_time.den, 2);
    assert_eq!(rows[0].1.median_lap_time.num, 102_000);
    assert_eq!(rows[1].0, 8);
    assert_eq!(rows[1].1.fastest_lap_time, 47_000);
}
