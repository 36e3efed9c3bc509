use karting_groningen_analytics::models::{
    Driver, Heat, Lap, Rating, DEFAULT_RATING, DEFAULT_UNCERTAINTY,
};
use karting_groningen_analytics::rating::{apply_ratings, heat_priors, rank_drivers, UnratedHeat};
use skillratings::weng_lin::{weng_lin_multi_team, WengLinConfig, WengLinRating};
use skillratings::MultiTeamOutcome;

use karting_groningen_analytics::stats::AnalysisError;

const MICRO: f64 = 1_000_000.0;

fn heat_lap(heat: i32, driver: i32, lap_in_heat: i32, lap_time_ms: u64) -> Lap {
    Lap { id: driver * 100 + lap_in_heat, heat, driver, lap_in_heat, lap_time: lap_time_ms, kart_id: 1 }
}

fn default_driver(id: i32, name: &str) -> Driver {
    Driver::new(id, name.to_string())
}

/// Runs the external Bayesian model on the priors of a prepared heat,
/// exactly as the application does: one single-member team per ranked
/// driver, ranks 1..n.
fn run_model(priors: &[Rating]) -> Vec<Rating> {
    let teams: Vec<Vec<WengLinRating>> = priors
        .iter()
        .map(|p| {
            vec![WengLinRating {
                rating: p.rating as f64 / MICRO,
                uncertainty: p.uncertainty as f64 / MICRO,
            }]
        })
        .collect();
    let mut teams_and_ranks: Vec<(&[WengLinRating], MultiTeamOutcome)> = Vec::new();
    for (position, team) in teams.iter().enumerate() {
        teams_and_ranks.push((&team[..], MultiTeamOutcome::new(position + 1)));
    }
    let new_ratings = weng_lin_multi_team(&teams_and_ranks[..], &WengLinConfig::default());
    new_ratings
        .iter()
        .map(|team| Rating {
            rating: (team[0].rating * MICRO).round() as i64,
            uncertainty: (team[0].uncertainty * MICRO).round() as i64,
        })
        .collect()
}

/// Applies one heat's outcome to the driver records through the
/// prepare/commit state machine, or panics when the heat cannot be
/// rated.
fn rate_heat(heat: Heat, laps: &Vec<Lap>, drivers: Vec<Driver>) -> Vec<Driver> {
    let pending = UnratedHeat::new(heat).prepare(laps, &drivers).unwrap();
    let new_ratings = run_model(pending.priors());
    let (_rated, updated) = pending.commit(&drivers, &new_ratings).unwrap();
    updated
}

fn mk_heat(id: i32, start_date: i64) -> Heat {
    Heat {
        id,
        heat_id: format!("H{}", id),
        heat_type: "race".to_string(),
        start_date,
    }
}

#[test]
fn ranking_end_to_end() {
    // driver 1: 49.8 s and 50.2 s; driver 2: 51.0 s
    let laps = vec![
        heat_lap(1, 1, 1, 49_800),
        heat_lap(1, 1, 2, 50_200),
        heat_lap(1, 2, 1, 51_000),
    ];
    let ranked = rank_drivers(&laps).unwrap();
    assert_eq!(ranked.len(), 2);
    assert_eq!(ranked[0].driver, 1);
    assert_eq!(ranked[0].best_time, 49_800);
    assert_eq!(ranked[0].rank, 1);
    assert_eq!(ranked[1].driver, 2);
    assert_eq!(ranked[1].best_time, 51_000);
    assert_eq!(ranked[1].rank, 2);

    let drivers = vec![default_driver(1, "ada"), default_driver(2, "grace")];
    let priors = heat_priors(&ranked, &drivers).unwrap();
    assert_eq!(priors.len(), 2);
    let new_ratings = run_model(&priors);
    assert_eq!(new_ratings.len(), 2);
    let updated = apply_ratings(&drivers, &ranked, &new_ratings).unwrap();
    assert!(updated[0].rating > DEFAULT_RATING);
    assert!(updated[1].rating < DEFAULT_RATING);
}

#[test]
fn winner_gains_loser_drops_both_tighten() {
    // equal priors, driver 10 finishes first, driver 20 second
    let laps = vec![heat_lap(5, 10, 1, 47_000), heat_lap(5, 20, 1, 48_500)];
    let drivers = vec![default_driver(10, "a"), default_driver(20, "b")];
    let updated = rate_heat(mk_heat(5, 1_000_000), &laps, drivers);
    let a = updated.iter().find(|d| d.id == 10).unwrap();
    let b = updated.iter().find(|d| d.id == 20).unwrap();
    assert!(a.rating > DEFAULT_RATING);
    assert!(b.rating < DEFAULT_RATING);
    assert!(a.uncertainty < DEFAULT_UNCERTAINTY);
    assert!(b.uncertainty < DEFAULT_UNCERTAINTY);
}

#[test]
fn heat_order_is_not_commutative() {
    // heat 1: driver 1 beats driver 2; heat 2: driver 2 beats driver 1
    let laps1 = vec![heat_lap(1, 1, 1, 47_000), heat_lap(1, 2, 1, 48_000)];
    let laps2 = vec![heat_lap(2, 1, 1, 48_000), heat_lap(2, 2, 1, 47_000)];
    let fresh = || vec![default_driver(1, "a"), default_driver(2, "b")];

    let forward = rate_heat(
        mk_heat(2, 2_000_000),
        &laps2,
        rate_heat(mk_heat(1, 1_000_000), &laps1, fresh()),
    );
    let backward = rate_heat(
        mk_heat(1, 1_000_000),
        &laps1,
        rate_heat(mk_heat(2, 2_000_000), &laps2, fresh()),
    );
    let ratings = |ds: &[Driver]| -> Vec<(i32, i64, i64)> {
        ds.iter().map(|d| (d.id, d.rating, d.uncertainty)).collect()
    };
    assert_ne!(ratings(&forward), ratings(&backward));
}

#[test]
fn tie_broken_by_driver_id() {
    let laps = vec![heat_lap(1, 7, 1, 47_000), heat_lap(1, 3, 1, 47_000)];
    let ranked = rank_drivers(&laps).unwrap();
    assert_eq!(ranked[0].driver, 3);
    assert_eq!(ranked[1].driver, 7);
}

#[test]
fn single_driver_cannot_be_rated() {
    let laps = vec![heat_lap(1, 1, 1, 47_000), heat_lap(1, 1, 2, 48_000)];
    assert_eq!(rank_drivers(&laps), Err(AnalysisError::InsufficientCompetitors));
}

#[test]
fn missing_prior_is_dangling() {
    let laps = vec![heat_lap(1, 1, 1, 47_000), heat_lap(1, 2, 1, 48_000)];
    let ranked = rank_drivers(&laps).unwrap();
    let drivers = vec![default_driver(1, "a")];
    assert_eq!(heat_priors(&ranked, &drivers), Err(AnalysisError::DanglingReference));
}

#[test]
fn short_model_answer_is_refused_whole() {
    let laps = vec![heat_lap(1, 1, 1, 47_000), heat_lap(1, 2, 1, 48_000)];
    let ranked = rank_drivers(&laps).unwrap();
    let drivers = vec![default_driver(1, "a"), default_driver(2, "b")];
    let truncated = vec![Rating { rating: 26_000_000, uncertainty: 8_000_000 }];
    assert!(matches!(
        apply_ratings(&drivers, &ranked, &truncated),
        Err(AnalysisError::PartialPersistenceFailure)
    ));
}

#[test]
fn unranked_drivers_keep_their_rating() {
    let laps = vec![heat_lap(1, 1, 1, 47_000), heat_lap(1, 2, 1, 48_000)];
    let ranked = rank_drivers(&laps).unwrap();
    let drivers = vec![
        default_driver(1, "a"),
        default_driver(2, "b"),
        default_driver(3, "spectator"),
    ];
    let priors = heat_priors(&ranked, &drivers).unwrap();
    let updated = apply_ratings(&drivers, &ranked, &run_model(&priors)).unwrap();
    let spectator = updated.iter().find(|d| d.id == 3).unwrap();
    assert_eq!(spectator.rating, DEFAULT_RATING);
    assert_eq!(spectator.uncertainty, DEFAULT_UNCERTAINTY);
}
