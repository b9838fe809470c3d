use blescan::compact::decode_compact;
use blescan::device_tracker::DeviceTracker;
use blescan::peripheral::Peripheral;
use blescan::signature::Signature;

fn named(name: &str) -> Peripheral {
    Peripheral::new(Some(name.to_string()), vec![])
}

#[test]
fn compact_form_is_exact_json() {
    let mut tracker = DeviceTracker::new(5);
    tracker.update(named("a"), -20, 0);
    tracker.update(named("b"), -10, 1000);
    let json = tracker.to_json().unwrap();
    assert_eq!(
        json,
        "{\"seq\":2,\"count\":2,\"devices\":[\
         {\"signature\":{\"Named\":\"b\"},\"rssi\":-10},\
         {\"signature\":{\"Named\":\"a\"},\"rssi\":-20}]}"
    );
}

#[test]
fn compact_form_round_trips() {
    let mut tracker = DeviceTracker::new(5);
    tracker.update(named("Device 1"), -20, 0);
    tracker.update(
        Peripheral::new(None, vec![(0x004C, vec![1, 2, 3])]),
        -30,
        1000,
    );
    let json = tracker.to_json().unwrap();
    let chars: Vec<char> = json.chars().collect();
    let (seq, count, devices) = decode_compact(&chars).unwrap();
    assert_eq!(seq, tracker.get_sequence());
    assert_eq!(count, 2);
    assert_eq!(devices.len(), 2);
    let sorted = tracker.get_sorted();
    for (i, d) in sorted.iter().enumerate() {
        assert_eq!(devices[i].0, d.signature);
        assert_eq!(devices[i].1, d.rssi);
    }
}

#[test]
fn compact_form_count_may_exceed_the_listed_devices() {
    let mut tracker = DeviceTracker::new(15);
    let mut t: u64 = 0;
    for name in [
        "a", "b", "c", "d", "e", "f", "g", "h", "i", "j", "k", "l",
    ] {
        tracker.update(named(name), -30, t);
        t += 1000;
    }
    let json = tracker.to_json().unwrap();
    let chars: Vec<char> = json.chars().collect();
    let (_, count, devices) = decode_compact(&chars).unwrap();
    assert_eq!(count, 12);
    assert_eq!(devices.len(), 10);
}

#[test]
fn escaped_names_survive_the_round_trip() {
    let mut tracker = DeviceTracker::new(5);
    tracker.update(named("say \"hi\"\n\\done\u{1}"), -20, 0);
    let json = tracker.to_json().unwrap();
    let chars: Vec<char> = json.chars().collect();
    let (_, count, devices) = decode_compact(&chars).unwrap();
    assert_eq!(count, 1);
    assert_eq!(
        devices[0].0,
        Signature::Named("say \"hi\"\n\\done\u{1}".to_string())
    );
}

#[test]
fn malformed_compact_forms_are_refused() {
    let cases = [
        "",
        "{\"seq\":1,\"count\":1,\"devices\":[]",
        "{\"seq\":-1,\"count\":0,\"devices\":[]}",
        "{\"seq\":1,\"count\":0,\"devices\":[]}trailing",
        "{\"seq\":1,\"count\":0,\"devices\":[{\"signature\":{\"Named\":\"a\"},\"rssi\":oops}]}",
        "{\"seq\":99999999999999999999,\"count\":0,\"devices\":[]}",
    ];
    for case in cases {
        let chars: Vec<char> = case.chars().collect();
        assert!(decode_compact(&chars).is_none(), "accepted: {case}");
    }
}

#[test]
fn empty_tracker_serializes_to_the_empty_report() {
    let tracker = DeviceTracker::new(3);
    assert_eq!(
        tracker.to_json().unwrap(),
        "{\"seq\":0,\"count\":0,\"devices\":[]}"
    );
}

#[test]
fn decode_accepts_the_wire_form() {
    let text =
        "{\"seq\":7,\"count\":3,\"devices\":[{\"signature\":{\"Anonymous\":\"1Zw8a\"},\"rssi\":-42},\
         {\"signature\":{\"Named\":\"lamp\"},\"rssi\":0}]}";
    let chars: Vec<char> = text.chars().collect();
    let (seq, count, devices) = decode_compact(&chars).unwrap();
    assert_eq!(seq, 7);
    assert_eq!(count, 3);
    assert_eq!(
        devices,
        vec![
            (Signature::Anonymous("1Zw8a".to_string()), -42),
            (Signature::Named("lamp".to_string()), 0),
        ]
    );
}
