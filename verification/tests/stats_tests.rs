use karting_groningen_analytics::models::Lap;
use karting_groningen_analytics::stats::{
    classify, stats, AnalysisError, CenterStrategy, OutlierConfig,
};

fn mk_lap(id: i32, driver: i32, lap_in_heat: i32, lap_time_ms: u64) -> Lap {
    Lap { id, heat: 1, driver, lap_in_heat, lap_time: lap_time_ms, kart_id: 1 }
}

fn laps_from_ms(times: &[u64]) -> Vec<Lap> {
    times
        .iter()
        .enumerate()
        .map(|(i, &t)| mk_lap(i as i32, 1, i as i32 + 1, t))
        .collect()
}

fn times_of(laps: &[Lap]) -> Vec<u64> {
    laps.iter().map(|l| l.lap_time).collect()
}

#[test]
fn stats_median_odd_count() {
    let laps = laps_from_ms(&[50_000, 40_000, 60_000]);
    let st = stats(&laps).unwrap();
    assert_eq!(st.fastest_lap_time, 40_000);
    // median of [40, 50, 60] s is 50 s; held as (2 * median, 2)
    assert_eq!(st.median_lap_time.num, 100_000);
    assert_eq!(st.median_lap_time.den, 2);
    assert_eq!(st.avg_lap_time.num, 150_000);
    assert_eq!(st.avg_lap_time.den, 3);
}

#[test]
fn stats_median_even_count() {
    let laps = laps_from_ms(&[47_000, 50_000, 46_000, 49_000]);
    let st = stats(&laps).unwrap();
    assert_eq!(st.fastest_lap_time, 46_000);
    // sorted [46, 47, 49, 50] s: median is (47 + 49) / 2 = 48 s
    assert_eq!(st.median_lap_time.num, 96_000);
    assert_eq!(st.median_lap_time.den, 2);
    assert_eq!(st.avg_lap_time.num, 192_000);
    assert_eq!(st.avg_lap_time.den, 4);
}

#[test]
fn stats_empty_input() {
    let laps: Vec<Lap> = Vec::new();
    assert_eq!(stats(&laps), Err(AnalysisError::EmptyInput));
}

#[test]
fn stats_is_pure() {
    let laps = laps_from_ms(&[47_000, 50_000, 46_000, 49_000]);
    let first = stats(&laps).unwrap();
    let second = stats(&laps).unwrap();
    assert_eq!(first, second);
}

#[test]
fn classify_is_pure() {
    let laps = laps_from_ms(&[46_000, 47_000, 48_000, 49_000, 200_000]);
    let config = OutlierConfig::default();
    let first = classify(&laps, &config).unwrap();
    let second = classify(&laps, &config).unwrap();
    assert_eq!(times_of(&first.0), times_of(&second.0));
    assert_eq!(times_of(&first.1), times_of(&second.1));
}

#[test]
fn classify_floor_always_catches_fast_lap() {
    // 40.0 s is under the 45.0 s floor, an outlier whatever sigma says
    let laps = laps_from_ms(&[40_000, 46_000, 47_000, 48_000]);
    for multiplier in [1, 2, 1000] {
        let config = OutlierConfig {
            center: CenterStrategy::Median,
            sigma_multiplier: multiplier,
            floor: 45_000,
        };
        let (_normal, outliers) = classify(&laps, &config).unwrap();
        assert!(times_of(&outliers).contains(&40_000));
    }
}

#[test]
fn classify_sigma_rule_catches_slow_lap() {
    // around the 48.0 s median, 200.0 s lies far past two standard
    // deviations (sigma is about 61.0 s here)
    let laps = laps_from_ms(&[46_000, 47_000, 48_000, 49_000, 200_000]);
    let config = OutlierConfig::default();
    let (normal, outliers) = classify(&laps, &config).unwrap();
    assert_eq!(times_of(&outliers), vec![200_000]);
    assert_eq!(times_of(&normal), vec![46_000, 47_000, 48_000, 49_000]);
}

#[test]
fn classify_partitions_input() {
    let cases: Vec<Vec<u64>> = vec![
        vec![40_000, 46_000, 47_000, 48_000],
        vec![46_000, 47_000, 48_000, 49_000, 200_000],
        vec![50_000],
        vec![45_000, 45_000, 45_000],
    ];
    for times in cases {
        let laps = laps_from_ms(&times);
        let config = OutlierConfig::default();
        let (normal, outliers) = classify(&laps, &config).unwrap();
        assert_eq!(normal.len() + outliers.len(), laps.len());
        let mut together: Vec<u64> = times_of(&normal);
        together.extend(times_of(&outliers));
        together.sort_unstable();
        let mut expected = times.clone();
        expected.sort_unstable();
        assert_eq!(together, expected);
    }
}

#[test]
fn classify_mean_center_is_a_different_rule() {
    // with the mean (78.0 s) as center, 200.0 s stays inside
    // mean + 2 * sigma (about 200.016 s), so nothing is flagged
    let laps = laps_from_ms(&[46_000, 47_000, 48_000, 49_000, 200_000]);
    let config = OutlierConfig {
        center: CenterStrategy::Mean,
        sigma_multiplier: 2,
        floor: 45_000,
    };
    let (normal, outliers) = classify(&laps, &config).unwrap();
    assert!(outliers.is_empty());
    assert_eq!(normal.len(), 5);
}

#[test]
fn classify_floor_is_strict() {
    // exactly 45.0 s is allowed; one millisecond under it is not
    let laps = laps_from_ms(&[45_000, 45_000, 45_000, 44_999]);
    let config = OutlierConfig::default();
    let (_normal, outliers) = classify(&laps, &config).unwrap();
    assert_eq!(times_of(&outliers), vec![44_999]);
}

#[test]
fn classify_empty_input() {
    let laps: Vec<Lap> = Vec::new();
    let config = OutlierConfig::default();
    assert!(matches!(classify(&laps, &config), Err(AnalysisError::EmptyInput)));
}
