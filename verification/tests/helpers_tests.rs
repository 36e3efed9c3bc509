use karting_groningen_analytics::api::{ApiKart, Paginated};
use karting_groningen_analytics::helpers::{
    DriverHelpers, Helpers, LapHelper, TemplateDataDriver, TemplateDataLap,
};
use karting_groningen_analytics::math::TimeRatio;
use karting_groningen_analytics::models::{Driver, Kart, Lap};
use karting_groningen_analytics::stats::{AnalysisError, OutlierConfig};

fn tdl(lap_in_heat: i32, lap_time_ms: u64) -> TemplateDataLap {
    TemplateDataLap { lap_in_heat, lap_time: lap_time_ms }
}

fn drv_lap(id: i32, driver: i32, lap_in_heat: i32, lap_time_ms: u64, kart_id: i32) -> Lap {
    Lap { id, heat: 1, driver, lap_in_heat, lap_time: lap_time_ms, kart_id }
}

#[test]
fn difference_removes_matching_laps() {
    let a = vec![tdl(1, 50_000), tdl(2, 51_000), tdl(3, 52_000)];
    let b = vec![tdl(2, 51_000)];
    let diff = Helpers::get_difference_between_vectors(&a, &b);
    assert_eq!(diff, vec![tdl(1, 50_000), tdl(3, 52_000)]);
}

#[test]
fn difference_with_empty_subtrahend() {
    let a = vec![tdl(1, 50_000), tdl(2, 51_000)];
    let b: Vec<TemplateDataLap> = Vec::new();
    assert_eq!(Helpers::get_difference_between_vectors(&a, &b), a);
}

#[test]
fn center_of_laps_is_the_median() {
    let laps = vec![tdl(1, 50_000), tdl(2, 46_000), tdl(3, 54_000), tdl(4, 47_000)];
    let center = LapHelper::get_center_of_laps(&laps);
    // sorted [46, 47, 50, 54] s: median (47 + 50) / 2 = 48.5 s
    assert_eq!(center.num, 97_000);
    assert_eq!(center.den, 2);
}

#[test]
fn outlier_laps_against_the_median() {
    let laps = vec![
        tdl(1, 46_000),
        tdl(2, 47_000),
        tdl(3, 48_000),
        tdl(4, 49_000),
        tdl(5, 200_000),
    ];
    let config = OutlierConfig::default();
    let outliers = LapHelper::get_outlier_laps(&laps, &config);
    assert_eq!(outliers, vec![tdl(5, 200_000)]);
}

#[test]
fn driver_breakdown_splits_normal_and_outliers() {
    let laps = vec![
        drv_lap(1, 7, 1, 46_000, 4),
        drv_lap(2, 7, 2, 47_000, 4),
        drv_lap(3, 7, 3, 48_000, 4),
        drv_lap(4, 7, 4, 49_000, 4),
        drv_lap(5, 7, 5, 200_000, 4),
        // another driver's lap is not part of the breakdown
        drv_lap(6, 8, 1, 40_000, 5),
    ];
    let driver = Driver::new(7, "ada".to_string());
    let karts = vec![Kart { id: 4, number: 17, is_child_kart: None }];
    let config = OutlierConfig::default();
    let t = DriverHelpers::get_stats_for_laps(&driver, &laps, &karts, &config).unwrap();
    assert_eq!(t.driver_name, "ada");
    assert_eq!(t.total_laps, 5);
    assert_eq!(t.fastest_lap, tdl(1, 46_000));
    assert_eq!(t.kart, 17);
    assert_eq!(t.avg_lap_time.num, 46_000 + 47_000 + 48_000 + 49_000 + 200_000);
    assert_eq!(t.avg_lap_time.den, 5);
    assert_eq!(t.outlier_laps, vec![tdl(5, 200_000)]);
    assert_eq!(
        t.normal_laps,
        vec![tdl(1, 46_000), tdl(2, 47_000), tdl(3, 48_000), tdl(4, 49_000)]
    );
}

#[test]
fn driver_breakdown_fastest_is_first_minimum() {
    let laps = vec![
        drv_lap(1, 7, 1, 47_000, 4),
        drv_lap(2, 7, 2, 46_000, 4),
        drv_lap(3, 7, 3, 46_000, 4),
    ];
    let driver = Driver::new(7, "ada".to_string());
    let karts = vec![Kart { id: 4, number: 17, is_child_kart: None }];
    let t = DriverHelpers::get_stats_for_laps(&driver, &laps, &karts, &OutlierConfig::default())
        .unwrap();
    // the first lap carrying the minimum wins
    assert_eq!(t.fastest_lap, tdl(2, 46_000));
}

#[test]
fn driver_breakdown_without_laps_is_empty_input() {
    let laps = vec![drv_lap(1, 8, 1, 47_000, 4)];
    let driver = Driver::new(7, "ada".to_string());
    let karts = vec![Kart { id: 4, number: 17, is_child_kart: None }];
    assert!(matches!(
        DriverHelpers::get_stats_for_laps(&driver, &laps, &karts, &OutlierConfig::default()),
        Err(AnalysisError::EmptyInput)
    ));
}

#[test]
fn driver_breakdown_unknown_kart_is_dangling() {
    let laps = vec![drv_lap(1, 7, 1, 47_000, 4), drv_lap(2, 7, 2, 48_000, 9)];
    let driver = Driver::new(7, "ada".to_string());
    let karts = vec![Kart { id: 4, number: 17, is_child_kart: None }];
    assert!(matches!(
        DriverHelpers::get_stats_for_laps(&driver, &laps, &karts, &OutlierConfig::default()),
        Err(AnalysisError::DanglingReference)
    ));
}

#[test]
fn driver_stats_aggregate_counts_and_figures() {
    let laps = vec![
        drv_lap(1, 7, 1, 50_000, 4),
        drv_lap(2, 7, 2, 52_000, 4),
        Lap { id: 3, heat: 2, driver: 7, lap_in_heat: 1, lap_time: 48_000, kart_id: 4 },
        drv_lap(4, 8, 1, 41_000, 4),
    ];
    let driver = Driver::new(7, "ada".to_string());
    let st = driver.get_stats_of_laps(&laps).unwrap();
    assert_eq!(st.name, "ada");
    assert_eq!(st.total_laps, 3);
    assert_eq!(st.total_heats, 2);
    assert_eq!(st.fastest_lap_time, 48_000);
    assert_eq!(st.avg_lap_time.num, 150_000);
    assert_eq!(st.avg_lap_time.den, 3);
    assert_eq!(st.median_lap_time.num, 100_000);
    assert_eq!(st.median_lap_time.den, 2);
}

#[test]
fn paginated_offset() {
    let page = Paginated { limit: 25, page: 3 };
    assert_eq!(page.offset(), 75);
}

#[test]
fn api_kart_defaults_unknown_child_flag() {
    let grown_up = Kart { id: 1, number: 5, is_child_kart: None };
    let child = Kart { id: 2, number: 6, is_child_kart: Some(true) };
    assert_eq!(ApiKart::new(&grown_up).is_child_kart, false);
    assert_eq!(ApiKart::new(&child).is_child_kart, true);
    assert_eq!(ApiKart::new(&child).number, 6);
}

#[test]
fn laps_at_time_find_the_running_lap() {
    let ada = TemplateDataDriver {
        driver_name: "ada".to_string(),
        fastest_lap: tdl(1, 50_000),
        total_laps: 2,
        all_laps: vec![tdl(1, 50_000), tdl(2, 52_000)],
        outlier_laps: vec![],
        normal_laps: vec![tdl(1, 50_000), tdl(2, 52_000)],
        kart: 17,
        avg_lap_time: TimeRatio { num: 102_000, den: 2 },
    };
    let grace = TemplateDataDriver {
        driver_name: "grace".to_string(),
        fastest_lap: tdl(1, 48_000),
        total_laps: 1,
        all_laps: vec![tdl(1, 48_000)],
        outlier_laps: vec![],
        normal_laps: vec![tdl(1, 48_000)],
        kart: 18,
        avg_lap_time: TimeRatio { num: 48_000, den: 1 },
    };
    let drivers = vec![ada, grace];
    // 51 s in: ada is on her second lap, grace has already finished
    let at = LapHelper::get_laps_at_time(&drivers, 51_000);
    assert_eq!(at.len(), 1);
    assert_eq!(at[0].0, "ada");
    assert_eq!(at[0].1, tdl(2, 52_000));
    // 20 s in: everybody is on their first lap
    let early = LapHelper::get_laps_at_time(&drivers, 20_000);
    assert_eq!(early.len(), 2);
    assert_eq!(early[1].0, "grace");
    assert_eq!(early[1].1, tdl(1, 48_000));
}

#[test]
fn driver_breakdown_with_mean_center() {
    // the documented mean-based alternative keeps the slow lap: the
    // mean is dragged so far up that 200.0 s stays inside the spread
    let laps = vec![
        drv_lap(1, 7, 1, 46_000, 4),
        drv_lap(2, 7, 2, 47_000, 4),
        drv_lap(3, 7, 3, 48_000, 4),
        drv_lap(4, 7, 4, 49_000, 4),
        drv_lap(5, 7, 5, 200_000, 4),
    ];
    let driver = Driver::new(7, "ada".to_string());
    let karts = vec![Kart { id: 4, number: 17, is_child_kart: None }];
    let config = OutlierConfig {
        center: karting_groningen_analytics::stats::CenterStrategy::Mean,
        sigma_multiplier: 2,
        floor: 45_000,
    };
    let t = DriverHelpers::get_stats_for_laps(&driver, &laps, &karts, &config).unwrap();
    assert!(t.outlier_laps.is_empty());
    assert_eq!(t.normal_laps.len(), 5);
}
