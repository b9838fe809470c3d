use blescan::device_state::DeviceState;
use blescan::signature::Signature;
use blescan::snapshot::{Comparison, RssiComparison, Snapshot};
use blescan::time::{Duration, Timestamp};

#[test]
fn order_by_age_oldest_last() {
    let initial_order = Snapshot(vec![
        DeviceState::new(
            Timestamp::from_seconds(1),
            Signature::Named("1".to_string()),
            -1,
        ),
        DeviceState::new(
            Timestamp::from_seconds(2),
            Signature::Named("2".to_string()),
            -1,
        ),
        DeviceState::new(
            Timestamp::from_seconds(3),
            Signature::Named("3".to_string()),
            -1,
        ),
    ]);
    let expected_order = Snapshot(vec![
        DeviceState::new(
            Timestamp::from_seconds(3),
            Signature::Named("3".to_string()),
            -1,
        ),
        DeviceState::new(
            Timestamp::from_seconds(2),
            Signature::Named("2".to_string()),
            -1,
        ),
        DeviceState::new(
            Timestamp::from_seconds(1),
            Signature::Named("1".to_string()),
            -1,
        ),
    ]);
    let actual_order = initial_order.order_by_age_and_volume();
    assert_eq!(actual_order, expected_order);
}

#[test]
fn order_by_volume_when_same_age() {
    let initial_order = Snapshot(vec![
        DeviceState::new(
            Timestamp::from_seconds(3),
            Signature::Named("1".to_string()),
            -3,
        ),
        DeviceState::new(
            Timestamp::from_seconds(3),
            Signature::Named("2".to_string()),
            -2,
        ),
        DeviceState::new(
            Timestamp::from_seconds(3),
            Signature::Named("3".to_string()),
            -1,
        ),
    ]);
    let expected_order = Snapshot(vec![
        DeviceState::new(
            Timestamp::from_seconds(3),
            Signature::Named("3".to_string()),
            -1,
        ),
        DeviceState::new(
            Timestamp::from_seconds(3),
            Signature::Named("2".to_string()),
            -2,
        ),
        DeviceState::new(
            Timestamp::from_seconds(3),
            Signature::Named("1".to_string()),
            -3,
        ),
    ]);
    let actual_order = initial_order.order_by_age_and_volume();
    fn just_rssi(v: &Vec<DeviceState>) -> Vec<i16> {
        v.iter().map(|d| d.rssi.clone()).collect()
    }
    assert_eq!(just_rssi(&actual_order.0), just_rssi(&expected_order.0));
    assert_eq!(actual_order, expected_order);
}

#[test]
fn relative_age() {
    let snapshot = Snapshot(vec![
        DeviceState::new(
            Timestamp::from_seconds(1),
            Signature::Named("1".to_string()),
            -1,
        ),
        DeviceState::new(
            Timestamp::from_seconds(2),
            Signature::Named("2".to_string()),
            -1,
        ),
        DeviceState::new(
            Timestamp::from_seconds(3),
            Signature::Named("3".to_string()),
            -1,
        ),
    ]);
    let now = Timestamp::from_seconds(10);
    let expected_comparisons = vec![
        (
            snapshot.0[0].clone(),
            Comparison {
                relative_age: Duration::seconds(9),
                rssi: RssiComparison::New,
            },
        ),
        (
            snapshot.0[1].clone(),
            Comparison {
                relative_age: Duration::seconds(8),
                rssi: RssiComparison::New,
            },
        ),
        (
            snapshot.0[2].clone(),
            Comparison {
                relative_age: Duration::seconds(7),
                rssi: RssiComparison::New,
            },
        ),
    ];
    let actual_comparisons = snapshot.compared_to(now, Snapshot::default());
    assert_eq!(actual_comparisons, expected_comparisons);
}

#[test]
fn relative_volume() {
    let previous = Snapshot(vec![
        DeviceState::new(
            Timestamp::from_seconds(1),
            Signature::Named("1".to_string()),
            -10,
        ),
        DeviceState::new(
            Timestamp::from_seconds(2),
            Signature::Named("2".to_string()),
            -10,
        ),
        DeviceState::new(
            Timestamp::from_seconds(3),
            Signature::Named("3".to_string()),
            -10,
        ),
    ]);
    let now = Timestamp::from_seconds(10);
    let current = Snapshot(vec![
        DeviceState::new(
            Timestamp::from_seconds(1),
            Signature::Named("1".to_string()),
            -5,
        ),
        DeviceState::new(
            Timestamp::from_seconds(2),
            Signature::Named("2".to_string()),
            -15,
        ),
        DeviceState::new(
            Timestamp::from_seconds(3),
            Signature::Named("3".to_string()),
            -10,
        ),
        DeviceState::new(
            Timestamp::from_seconds(4),
            Signature::Named("4".to_string()),
            -10,
        ),
    ]);
    let expected_comparisons = vec![
        (
            current.0[0].clone(),
            Comparison {
                relative_age: Duration::seconds(9),
                rssi: RssiComparison::Louder,
            },
        ),
        (
            current.0[1].clone(),
            Comparison {
                relative_age: Duration::seconds(8),
                rssi: RssiComparison::Quieter,
            },
        ),
        (
            current.0[2].clone(),
            Comparison {
                relative_age: Duration::seconds(7),
                rssi: RssiComparison::Same,
            },
        ),
        (
            current.0[3].clone(),
            Comparison {
                relative_age: Duration::seconds(6),
                rssi: RssiComparison::New,
            },
        ),
    ];
    let actual_comparisons = current.compared_to(now, previous);

    fn just_rssi(v: &Vec<(DeviceState, Comparison)>) -> Vec<RssiComparison> {
        v.iter().map(|(_, c)| c.rssi.clone()).collect()
    }
    assert_eq!(
        just_rssi(&actual_comparisons),
        just_rssi(&expected_comparisons)
    );
    assert_eq!(actual_comparisons, expected_comparisons);
}

#[test]
fn trend_classification() {
    let previous = Snapshot(vec![DeviceState::new(
        Timestamp::from_seconds(1),
        Signature::Named("A".to_string()),
        -10,
    )]);
    let current = Snapshot(vec![
        DeviceState::new(
            Timestamp::from_seconds(2),
            Signature::Named("A".to_string()),
            -5,
        ),
        DeviceState::new(
            Timestamp::from_seconds(2),
            Signature::Named("B".to_string()),
            -10,
        ),
    ]);
    let now = Timestamp::from_seconds(3);
    let comparisons = current.compared_to(now, previous.clone());
    assert_eq!(comparisons[0].1.rssi, RssiComparison::Louder);
    assert_eq!(comparisons[1].1.rssi, RssiComparison::New);

    let quieter = Snapshot(vec![DeviceState::new(
        Timestamp::from_seconds(2),
        Signature::Named("A".to_string()),
        -15,
    )]);
    assert_eq!(
        quieter.compared_to(now, previous.clone())[0].1.rssi,
        RssiComparison::Quieter
    );
    let same = Snapshot(vec![DeviceState::new(
        Timestamp::from_seconds(2),
        Signature::Named("A".to_string()),
        -10,
    )]);
    assert_eq!(
        same.compared_to(now, previous)[0].1.rssi,
        RssiComparison::Same
    );
}

#[test]
fn clock_skew_reads_as_negative_age() {
    let snapshot = Snapshot(vec![DeviceState::new(
        Timestamp::from_seconds(10),
        Signature::Named("A".to_string()),
        -1,
    )]);
    let now = Timestamp::from_seconds(7);
    let comparisons = snapshot.compared_to(now, Snapshot::default());
    assert_eq!(comparisons[0].1.relative_age, Duration::seconds(-3));
}

#[test]
fn full_ties_keep_their_relative_order() {
    let initial = Snapshot(vec![
        DeviceState::new(
            Timestamp::from_seconds(3),
            Signature::Named("X".to_string()),
            -5,
        ),
        DeviceState::new(
            Timestamp::from_seconds(3),
            Signature::Named("Y".to_string()),
            -5,
        ),
    ]);
    let ordered = initial.order_by_age_and_volume();
    assert_eq!(ordered, initial);
}
