use aim::cache::{get_cached_return_matrix, preload_keys, ReturnMatrixCacheMap, ReturnMatrixKey};
use aim::matrix::ReturnMatrixAPI;

fn raw(date: &str, value: i32) -> ReturnMatrixAPI {
    ReturnMatrixAPI { date: date.to_string(), value }
}

#[test]
fn key_drops_month_unless_daily() {
    let a = ReturnMatrixKey::new("monthly", "VN30", "July");
    let b = ReturnMatrixKey::new("monthly", "VN30", "");
    assert!(a == b);
    assert_eq!(a.month, "");
    let d = ReturnMatrixKey::new("daily", "VN30", "July");
    assert_eq!(d.month, "July");
    assert!(d != ReturnMatrixKey::new("daily", "VN30", "June"));
    assert!(a != ReturnMatrixKey::new("monthly", "HNX30", ""));
}

#[test]
fn get_or_fetch_fetches_once() {
    let mut cache = ReturnMatrixCacheMap::new();
    let mut fetches = 0;
    for _ in 0..2 {
        if get_cached_return_matrix(&cache, "quarterly", "HNX30", "").is_none() {
            fetches += 1;
            let data = vec![raw("15/02/2023", 100)];
            cache.store_fetched("quarterly", "HNX30", "", &data);
        }
    }
    assert_eq!(fetches, 1);
    assert_eq!(cache.len(), 1);
    let entry = cache.get("quarterly", "HNX30", "").expect("entry");
    assert_eq!(entry.columns, vec!["Q1", "Q2", "Q3", "Q4"]);
    assert_eq!(entry.rows.len(), 2);
    assert_eq!(entry.rows[0].ticker, "2023");
    assert_eq!(entry.rows[0].values, vec![100, 0, 0, 0]);
    // The month is ignored for quarterly lookups.
    assert!(cache.get("quarterly", "HNX30", "March").is_some());
    assert!(cache.get("quarterly", "VN30", "").is_none());
}

#[test]
fn daily_slots_are_per_month() {
    let mut cache = ReturnMatrixCacheMap::new();
    let data = vec![raw("02/03/2024", 5), raw("02/04/2024", 6)];
    cache.store_fetched("daily", "VN30", "March", &data);
    assert!(cache.get("daily", "VN30", "April").is_none());
    let e = cache.get("daily", "VN30", "March").expect("entry");
    assert_eq!(e.columns.len(), 31);
    assert_eq!(e.rows[0].values[1], 5);
    cache.store_fetched("daily", "VN30", "April", &data);
    assert_eq!(cache.len(), 2);
    cache.store_fetched("daily", "VN30", "April", &data);
    assert_eq!(cache.len(), 2);
}

#[test]
fn preload_covers_every_slot_once() {
    let keys = preload_keys();
    assert_eq!(keys.len(), 75);
    assert!(keys[0] == ReturnMatrixKey::new("daily", "VNINDEX", "January"));
    assert!(keys[13] == ReturnMatrixKey::new("daily", "HNXINDEX", "February"));
    assert!(keys[60] == ReturnMatrixKey::new("weekly", "VNINDEX", ""));
    assert!(keys[74] == ReturnMatrixKey::new("quarterly", "HNX30", ""));
    for i in 0..keys.len() {
        for j in (i + 1)..keys.len() {
            assert!(keys[i] != keys[j]);
        }
    }
}
