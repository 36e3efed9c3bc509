use karting_groningen_analytics::cache::{str_contains, Redis};
use karting_groningen_analytics::game::{str_eq, Game};

#[test]
fn cache_set_and_get() {
    let mut cache = Redis::new();
    cache.set_data("/api/drivers/all", "[1,2,3]");
    assert_eq!(cache.get_data("/api/drivers/all"), Some("[1,2,3]".to_string()));
    assert_eq!(cache.get_data("/api/heats/all"), None);
}

#[test]
fn cache_overwrites_existing_key() {
    let mut cache = Redis::new();
    cache.set_data("k", "old");
    cache.set_data("k", "new");
    assert_eq!(cache.get_data("k"), Some("new".to_string()));
    assert_eq!(cache.keys("").len(), 1);
}

#[test]
fn cache_has_data() {
    let mut cache = Redis::new();
    assert!(!cache.has_data("k"));
    cache.set_data("k", "v");
    assert!(cache.has_data("k"));
}

#[test]
fn cache_invalidate_drops_only_that_key() {
    let mut cache = Redis::new();
    cache.set_data("a", "1");
    cache.set_data("b", "2");
    assert!(cache.invalidate("a"));
    assert!(!cache.invalidate("a"));
    assert_eq!(cache.get_data("a"), None);
    assert_eq!(cache.get_data("b"), Some("2".to_string()));
}

#[test]
fn cache_keys_by_fragment() {
    let mut cache = Redis::new();
    cache.set_data("/api/drivers/all", "x");
    cache.set_data("/api/drivers/ada", "y");
    cache.set_data("/api/heats/all", "z");
    let driver_keys = cache.keys("drivers");
    assert_eq!(driver_keys, vec!["/api/drivers/all".to_string(), "/api/drivers/ada".to_string()]);
    let all_keys = cache.keys("");
    assert_eq!(all_keys.len(), 3);
    assert!(cache.keys("karts").is_empty());
}

#[test]
fn substring_search() {
    assert!(str_contains("/api/drivers/all", "drivers"));
    assert!(str_contains("abc", ""));
    assert!(!str_contains("abc", "abcd"));
    assert!(str_contains("abc", "abc"));
    assert!(!str_contains("abc", "ac"));
}

#[test]
fn string_equality() {
    assert!(str_eq("iRacing", "iRacing"));
    assert!(!str_eq("iRacing", "iracing"));
    assert!(!str_eq("ac", "acc"));
    assert!(str_eq("", ""));
}

#[test]
fn game_from_string() {
    assert_eq!(Game::from_string("iRacing"), Some(Game::Iracing));
    assert_eq!(Game::from_string("ac"), Some(Game::AssettoCorsa));
    assert_eq!(Game::from_string("acc"), Some(Game::AssettoCorsaCompetitione));
    assert_eq!(Game::from_string("rfactor"), None);
    assert_eq!(Game::from_string(""), None);
}
