use blescan::discover::DiscoveryEvent;
use blescan::history::{events_to_jsonl, EventSinkFormat};
use blescan::signature::Signature;
use blescan::time::{Duration, Timestamp};

#[test]
fn truncate_to_seconds() {
    let d = Duration::milliseconds(1234);
    let expected = Duration::seconds(1);
    let actual = d.truncate_to_seconds();
    assert_eq!(actual, expected);
}

#[test]
fn truncate_to_seconds_rounds_toward_zero() {
    assert_eq!(
        Duration::milliseconds(-1234).truncate_to_seconds(),
        Duration::seconds(-1)
    );
    assert_eq!(Duration::milliseconds(999).num_seconds(), 0);
}

#[test]
fn jsonl_format_matching() {
    let valid = "foop.jsonl";

    assert_eq!(
        EventSinkFormat::create_from_file(valid).unwrap(),
        EventSinkFormat::JSONL(valid.into())
    );
}

#[test]
fn jsonl_format_not_matching() {
    let invalid = vec!["foop.json", "farp", "feep.sqllite"];

    for i in invalid {
        assert!(EventSinkFormat::create_from_file(i).is_err());
    }
}

#[test]
fn sqlite_format_matching() {
    let valid = "foop.sqlite";

    assert_eq!(
        EventSinkFormat::create_from_file(valid).unwrap(),
        EventSinkFormat::SQLITE(valid.into())
    );
}

#[test]
fn format_not_matching() {
    let invalid = vec!["foop.json", "farp", "feep.txt"];

    for i in invalid {
        assert!(EventSinkFormat::create_from_file(i).is_err());
    }
}

#[test]
fn history_sink_multiple_events() {
    let events = vec![
        DiscoveryEvent::new(
            Timestamp::from_seconds(1),
            Signature::Named("Device 1".to_string()),
            -20,
        ),
        DiscoveryEvent::new(
            Timestamp::from_seconds(2),
            Signature::Anonymous("503eb25838435ebb288f3b657b9f9031".to_string()),
            -30,
        ),
    ];
    let actual = events_to_jsonl(&events);

    assert_eq!(actual.is_empty(), false);
    let expected = "{\"date_time\":\"1970-01-01T00:00:01Z\",\"signature\":{\"Named\":\"Device 1\"},\"rssi\":-20}\n\
{\"date_time\":\"1970-01-01T00:00:02Z\",\"signature\":{\"Anonymous\":\"503eb25838435ebb288f3b657b9f9031\"},\"rssi\":-30}\n";
    assert_eq!(actual, expected);
}

#[test]
fn jsonl_sink_multiple_events() {
    let events = vec![
        DiscoveryEvent::new(
            Timestamp::from_seconds(1),
            Signature::Named("Device 1".to_string()),
            -20,
        ),
        DiscoveryEvent::new(
            Timestamp::from_seconds(2),
            Signature::Anonymous("503eb25838435ebb288f3b657b9f9031".to_string()),
            -30,
        ),
    ];
    let actual = events_to_jsonl(&events);

    assert_eq!(actual.is_empty(), false);
    let expected = "{\"date_time\":\"1970-01-01T00:00:01Z\",\"signature\":{\"Named\":\"Device 1\"},\"rssi\":-20}\n\
{\"date_time\":\"1970-01-01T00:00:02Z\",\"signature\":{\"Anonymous\":\"503eb25838435ebb288f3b657b9f9031\"},\"rssi\":-30}\n";
    assert_eq!(actual, expected);
}
