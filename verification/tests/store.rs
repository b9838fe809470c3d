use blescan::device_state::DeviceState;
use blescan::discover::DiscoveryEvent;
use blescan::signature::Signature;
use blescan::snapshot::Snapshot;
use blescan::state::State;
use blescan::time::Timestamp;

#[test]
fn starting_state() {
    let state = State::default();
    assert_eq!(state.snapshot(), Snapshot(vec![]));
}

#[test]
fn initial_discovery() {
    let mut state = State::default();
    state.discover(&vec![DiscoveryEvent::new(
        Timestamp::from_seconds(0),
        Signature::Named("Device 1".to_string()),
        -10,
    )]);
    assert_eq!(
        state.snapshot(),
        Snapshot(vec![DeviceState::new(
            Timestamp::from_seconds(0),
            Signature::Named("Device 1".to_string()),
            -10
        )])
    );
}

#[test]
fn updated_state() {
    let mut state = State::default();
    state.discover(&vec![DiscoveryEvent::new(
        Timestamp::from_seconds(0),
        Signature::Named("Device 1".to_string()),
        -10,
    )]);
    state.discover(&vec![DiscoveryEvent::new(
        Timestamp::from_seconds(0),
        Signature::Named("Device 1".to_string()),
        -20,
    )]);
    assert_eq!(
        state.snapshot(),
        Snapshot(vec![DeviceState::new(
            Timestamp::from_seconds(0),
            Signature::Named("Device 1".to_string()),
            -20
        )])
    );
}

#[test]
fn merge_is_idempotent() {
    let events = vec![
        DiscoveryEvent::new(
            Timestamp::from_seconds(1),
            Signature::Named("A".to_string()),
            -10,
        ),
        DiscoveryEvent::new(
            Timestamp::from_seconds(2),
            Signature::Anonymous("deadbeef".to_string()),
            -20,
        ),
        DiscoveryEvent::new(
            Timestamp::from_seconds(3),
            Signature::Named("A".to_string()),
            -30,
        ),
    ];
    let mut once = State::default();
    once.discover(&events);
    let mut twice = State::default();
    twice.discover(&events);
    twice.discover(&events);
    assert_eq!(once.snapshot(), twice.snapshot());
    assert_eq!(once.snapshot().0.len(), 2);
}

#[test]
fn snapshot_is_ordered_by_signature_not_insertion() {
    let mut forward = State::default();
    forward.discover(&vec![
        DiscoveryEvent::new(
            Timestamp::from_seconds(1),
            Signature::Named("zed".to_string()),
            -1,
        ),
        DiscoveryEvent::new(
            Timestamp::from_seconds(1),
            Signature::Named("apple".to_string()),
            -2,
        ),
        DiscoveryEvent::new(
            Timestamp::from_seconds(1),
            Signature::Anonymous("zzz".to_string()),
            -3,
        ),
    ]);
    let mut backward = State::default();
    backward.discover(&vec![
        DiscoveryEvent::new(
            Timestamp::from_seconds(1),
            Signature::Anonymous("zzz".to_string()),
            -3,
        ),
        DiscoveryEvent::new(
            Timestamp::from_seconds(1),
            Signature::Named("apple".to_string()),
            -2,
        ),
        DiscoveryEvent::new(
            Timestamp::from_seconds(1),
            Signature::Named("zed".to_string()),
            -1,
        ),
    ]);
    let snapshot = forward.snapshot();
    assert_eq!(snapshot, backward.snapshot());
    // every Anonymous signature precedes every Named one
    assert_eq!(
        snapshot.0[0].signature,
        Signature::Anonymous("zzz".to_string())
    );
    assert_eq!(
        snapshot.0[1].signature,
        Signature::Named("apple".to_string())
    );
    assert_eq!(snapshot.0[2].signature, Signature::Named("zed".to_string()));
}
