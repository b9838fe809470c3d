use blescan::peripheral::Peripheral;
use blescan::scan_mode::ScanMode;
use blescan::signature::Signature;

#[test]
fn derivation_is_deterministic_whatever_the_map_order() {
    let forward = Peripheral::new(
        None,
        vec![(0x0001, vec![9]), (0x004C, vec![1, 2, 3])],
    );
    let backward = Peripheral::new(
        None,
        vec![(0x004C, vec![1, 2, 3]), (0x0001, vec![9])],
    );
    let a = forward.try_into_signature().unwrap();
    let b = backward.try_into_signature().unwrap();
    assert_eq!(a, b);
    assert!(matches!(a, Signature::Anonymous(_)));
}

#[test]
fn name_takes_priority_over_manufacturer_data() {
    let peripheral = Peripheral::new(
        Some("Foo".to_string()),
        vec![(0x004C, vec![1, 2, 3])],
    );
    assert_eq!(
        peripheral.try_into_signature(),
        Some(Signature::Named("Foo".to_string()))
    );
}

#[test]
fn unresolvable_observation_is_dropped() {
    let peripheral = Peripheral::new(None, vec![]);
    assert_eq!(peripheral.try_into_signature(), None);
}

#[test]
fn anonymous_signature_is_stable() {
    let peripheral = Peripheral::new(None, vec![(0x004C, vec![1, 2, 3]), (0x0001, vec![9])]);
    let first = peripheral.try_into_signature().unwrap();
    let second = peripheral.try_into_signature().unwrap();
    assert_eq!(first, second);
    // the digest and encoding are pinned: the same payloads must hash to the
    // same identifier across processes and restarts
    assert_eq!(first, Signature::Anonymous("DPWzVvkgA0C".to_string()));
}

#[test]
fn payload_changes_the_anonymous_signature() {
    let one = Peripheral::new(None, vec![(0x004C, vec![1, 2, 3])]);
    let other = Peripheral::new(None, vec![(0x004C, vec![1, 2, 4])]);
    assert_ne!(
        one.try_into_signature().unwrap(),
        other.try_into_signature().unwrap()
    );
}

#[test]
fn normalised_string_prefixes_the_variant() {
    assert_eq!(
        Signature::Named("foo".to_string()).normalised_string(),
        "Named:foo"
    );
    assert_eq!(
        Signature::Anonymous("abc".to_string()).normalised_string(),
        "Anonymous:abc"
    );
}

#[test]
fn anonymous_precedes_named_in_the_total_order() {
    let anon = Signature::Anonymous("zzz".to_string());
    let named = Signature::Named("aaa".to_string());
    assert!(anon.le(&named));
    assert!(!named.le(&anon));
    assert!(Signature::Named("a".to_string()).le(&Signature::Named("ab".to_string())));
    assert!(anon.le(&anon));
}

#[test]
fn scan_mode_parses_case_insensitively() {
    assert_eq!(ScanMode::from_str("local"), Ok(ScanMode::Local));
    assert_eq!(ScanMode::from_str("LOCAL"), Ok(ScanMode::Local));
    assert_eq!(ScanMode::from_str("Mote"), Ok(ScanMode::Mote));
    assert_eq!(
        ScanMode::from_str("remote"),
        Err("Invalid scan mode: remote. Must be 'local' or 'mote'".to_string())
    );
}

#[test]
fn partial_order_follows_the_normalised_form() {
    let anon = Signature::Anonymous("zzz".to_string());
    let named = Signature::Named("aaa".to_string());
    assert!(anon < named);
    assert!(Signature::Named("a".to_string()) < Signature::Named("ab".to_string()));
    assert!(anon <= anon.clone());
}
