use blescan::device_tracker::DeviceTracker;
use blescan::peripheral::Peripheral;
use blescan::signature::Signature;
use blescan::time::Duration;

fn named(name: &str) -> Peripheral {
    Peripheral::new(Some(name.to_string()), vec![])
}

#[test]
fn bounded_eviction_drops_the_least_recently_seen() {
    let mut tracker = DeviceTracker::new(2);
    tracker.update(named("A"), -10, 0);
    tracker.update(named("B"), -20, 1000);
    tracker.update(named("C"), -30, 2000);
    assert_eq!(tracker.device_count(), 2);
    let devices = tracker.get_sorted();
    let signatures: Vec<Signature> = devices.into_iter().map(|d| d.signature).collect();
    assert!(signatures.contains(&Signature::Named("B".to_string())));
    assert!(signatures.contains(&Signature::Named("C".to_string())));
    assert!(!signatures.contains(&Signature::Named("A".to_string())));
}

#[test]
fn update_refreshes_a_known_signature_in_place() {
    let mut tracker = DeviceTracker::new(2);
    tracker.update(named("A"), -10, 0);
    tracker.update(named("A"), -40, 1000);
    assert_eq!(tracker.device_count(), 1);
    let devices = tracker.get_sorted();
    assert_eq!(devices[0].rssi, -40);
    assert_eq!(devices[0].age_secs(3000), 2);
}

#[test]
fn unresolvable_update_changes_nothing() {
    let mut tracker = DeviceTracker::new(2);
    let before = tracker.get_sequence();
    tracker.update(Peripheral::new(None, vec![]), -10, 0);
    assert_eq!(tracker.device_count(), 0);
    assert_eq!(tracker.get_sequence(), before);
}

#[test]
fn sequence_increases_on_every_state_change() {
    let mut tracker = DeviceTracker::new(3);
    let s0 = tracker.get_sequence();
    tracker.update(named("A"), -10, 0);
    let s1 = tracker.get_sequence();
    assert_ne!(s1, s0);
    tracker.update(named("A"), -12, 500);
    let s2 = tracker.get_sequence();
    assert_ne!(s2, s1);
    // a prune that removes nothing leaves the sequence alone
    tracker.prune_old(Duration::seconds(30), 1000);
    assert_eq!(tracker.get_sequence(), s2);
    // a prune that removes something bumps it once for the whole pass
    tracker.update(named("B"), -20, 1000);
    let s3 = tracker.get_sequence();
    tracker.prune_old(Duration::seconds(1), 60_000);
    let s4 = tracker.get_sequence();
    assert_ne!(s4, s3);
    assert_eq!(tracker.device_count(), 0);
}

#[test]
fn prune_old_keeps_fresh_entries() {
    let mut tracker = DeviceTracker::new(5);
    tracker.update(named("old"), -10, 0);
    tracker.update(named("fresh"), -20, 9_000);
    tracker.prune_old(Duration::seconds(5), 10_000);
    assert_eq!(tracker.device_count(), 1);
    let devices = tracker.get_sorted();
    assert_eq!(devices[0].signature, Signature::Named("fresh".to_string()));
}

#[test]
fn get_sorted_is_strongest_first() {
    let mut tracker = DeviceTracker::new(5);
    tracker.update(named("quiet"), -80, 0);
    tracker.update(named("loud"), -10, 0);
    tracker.update(named("middle"), -40, 0);
    let devices = tracker.get_sorted();
    let rssi: Vec<i32> = devices.iter().map(|d| d.rssi).collect();
    assert_eq!(rssi, vec![-10, -40, -80]);
}
