use std::sync::Arc;

use blood_money::cache::{PriceCache, RealmValuation};
use blood_money::scheduler::{remaining_sleep, run_group_task};
use blood_money::topology::RealmInfo;
use blood_money::valuation::{AuctionListing, ItemValue, TradeableItem};

fn realm(slug: &str, connected: &[&str]) -> RealmInfo {
    RealmInfo {
        name: String::from(slug),
        slug: String::from(slug),
        connected_realms: connected.iter().map(|s| String::from(*s)).collect(),
    }
}

fn catalog() -> Vec<TradeableItem> {
    vec![TradeableItem { id: 1, name: String::from("item"), quantity: 1 }]
}

fn three_realm_cache() -> PriceCache {
    let realms = vec![
        realm("alpha", &["alpha", "beta"]),
        realm("beta", &["alpha", "beta"]),
        realm("gamma", &["gamma"]),
    ];
    PriceCache::new(&realms, &catalog())
}

fn snapshot(v: &RealmValuation) -> (u64, Vec<ItemValue>) {
    (v.last_update, v.auction_values.as_ref().clone())
}

#[test]
fn new_cache_has_zeroed_slots() {
    let cache = three_realm_cache();
    let alpha = cache.get(&String::from("alpha")).unwrap();
    assert_eq!(snapshot(alpha), (0, vec![ItemValue { id: 1, value: 0 }]));
    let gamma = cache.get(&String::from("gamma")).unwrap();
    assert_eq!(snapshot(gamma), (0, vec![ItemValue { id: 1, value: 0 }]));
    assert!(cache.get(&String::from("unknown")).is_none());
}

#[test]
fn update_group_replaces_every_member_slot() {
    let mut cache = three_realm_cache();
    let group = vec![String::from("alpha"), String::from("beta")];
    let values = Arc::new(vec![ItemValue { id: 1, value: 42 }]);
    cache.update_group(&group, 1700, &values);
    let alpha = cache.get(&String::from("alpha")).unwrap();
    assert_eq!(snapshot(alpha), (1700, vec![ItemValue { id: 1, value: 42 }]));
    let beta = cache.get(&String::from("beta")).unwrap();
    assert_eq!(snapshot(beta), (1700, vec![ItemValue { id: 1, value: 42 }]));
    // The other group's slot is untouched.
    let gamma = cache.get(&String::from("gamma")).unwrap();
    assert_eq!(snapshot(gamma), (0, vec![ItemValue { id: 1, value: 0 }]));
}

#[test]
fn reader_sees_whole_snapshots_only() {
    // Two updates publish two distinct timestamp-and-values pairs; what a
    // reader gets is always one of the published pairs, never the timestamp
    // of one paired with the values of the other.
    let mut cache = three_realm_cache();
    let group = vec![String::from("alpha"), String::from("beta")];
    let first = Arc::new(vec![ItemValue { id: 1, value: 10 }]);
    let second = Arc::new(vec![ItemValue { id: 1, value: 20 }]);
    cache.update_group(&group, 100, &first);
    let held = cache.get(&String::from("alpha")).unwrap();
    let held_snapshot = snapshot(held);
    cache.update_group(&group, 200, &second);
    // The old reference kept its complete pair.
    assert_eq!(held_snapshot, (100, vec![ItemValue { id: 1, value: 10 }]));
    // A fresh read gets the complete new pair.
    let fresh = cache.get(&String::from("alpha")).unwrap();
    assert_eq!(snapshot(fresh), (200, vec![ItemValue { id: 1, value: 20 }]));
}

#[test]
fn no_update_leaves_cache_unchanged() {
    let mut cache = three_realm_cache();
    let group = vec![String::from("alpha"), String::from("beta")];
    let values = Arc::new(vec![ItemValue { id: 1, value: 42 }]);
    cache.update_group(&group, 1700, &values);
    // The lead realm's fetch came back "no update": every slot keeps both its
    // timestamp and its values.
    run_group_task(&mut cache, &group, &catalog(), None);
    let alpha = cache.get(&String::from("alpha")).unwrap();
    assert_eq!(snapshot(alpha), (1700, vec![ItemValue { id: 1, value: 42 }]));
    let beta = cache.get(&String::from("beta")).unwrap();
    assert_eq!(snapshot(beta), (1700, vec![ItemValue { id: 1, value: 42 }]));
    let gamma = cache.get(&String::from("gamma")).unwrap();
    assert_eq!(snapshot(gamma), (0, vec![ItemValue { id: 1, value: 0 }]));
}

#[test]
fn fresh_listings_are_valued_and_published() {
    let mut cache = three_realm_cache();
    let group = vec![String::from("alpha"), String::from("beta")];
    let listings = vec![
        AuctionListing { item: 1, buyout: 100, quantity: 10 },
        AuctionListing { item: 1, buyout: 200, quantity: 90 },
    ];
    run_group_task(&mut cache, &group, &catalog(), Some((1234, listings)));
    let alpha = cache.get(&String::from("alpha")).unwrap();
    assert_eq!(snapshot(alpha), (1234, vec![ItemValue { id: 1, value: 2 }]));
    let beta = cache.get(&String::from("beta")).unwrap();
    assert_eq!(snapshot(beta), (1234, vec![ItemValue { id: 1, value: 2 }]));
    let gamma = cache.get(&String::from("gamma")).unwrap();
    assert_eq!(snapshot(gamma), (0, vec![ItemValue { id: 1, value: 0 }]));
}

#[test]
fn sleep_covers_the_rest_of_the_period() {
    assert_eq!(remaining_sleep(0, 50, 100), 50);
    assert_eq!(remaining_sleep(20, 30, 100), 90);
}

#[test]
fn overrun_cycle_sleeps_zero() {
    // A cycle longer than the period never yields a negative wait; the next
    // cycle starts immediately.
    assert_eq!(remaining_sleep(0, 150, 100), 0);
    assert_eq!(remaining_sleep(0, 100, 100), 0);
}
