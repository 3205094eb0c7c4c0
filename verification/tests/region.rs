use locale_codes::codes::region::{
    all_codes, load_regions_from_json, lookup, regions_from_entries, LoadError, RegionRegistry,
};

const REGIONS: &[u8] = br#"{
    "1": "World",
    "2": "Africa",
    "19": "Americas",
    "21": "Northern America",
    "150": "Europe",
    "155": "Western Europe",
    "276": "Germany",
    "484": "Mexico"
}"#;

fn registry() -> RegionRegistry {
    load_regions_from_json(REGIONS).expect("the dataset is well formed")
}

#[test]
fn test_region_codes() {
    let codes = all_codes(&registry());
    assert!(codes.len() > 0);
}

#[test]
fn test_good_region_code() {
    let registry = registry();
    match lookup(&registry, 21) {
        None => panic!("was expecting a region"),
        Some(region) => assert_eq!(region.name, "Northern America"),
    }
}

#[test]
fn test_bad_region_code() {
    let registry = registry();
    match lookup(&registry, 0) {
        None => (),
        Some(_) => panic!("was expecting a None in response"),
    }
}

#[test]
fn region_lookup_returns_record_with_its_own_code() {
    let registry = registry();
    for code in all_codes(&registry) {
        assert_eq!(lookup(&registry, code).unwrap().code, code);
    }
    assert_eq!(lookup(&registry, 484).unwrap().name, "Mexico");
    assert_eq!(lookup(&registry, 276).unwrap().name, "Germany");
}

#[test]
fn region_codes_count_the_entries_of_the_dataset() {
    let registry = registry();
    let mut codes = all_codes(&registry);
    codes.sort();
    assert_eq!(codes, vec![1, 2, 19, 21, 150, 155, 276, 484]);
}

#[test]
fn region_lookup_twice_gives_the_same_record() {
    let registry = registry();
    assert!(std::ptr::eq(
        lookup(&registry, 150).unwrap(),
        lookup(&registry, 150).unwrap()
    ));
    assert!(lookup(&registry, 151).is_none());
    assert!(lookup(&registry, 151).is_none());
}

#[test]
fn region_document_that_is_not_json_is_malformed() {
    for document in [
        &b""[..],
        b"{",
        b"[]",
        b"\"21\"",
        b"{\"21\": 21}",
        b"{\"21\": \"Northern America\",}",
        b"{\"21\": \"Northern America\"} x",
        b"{21: \"Northern America\"}",
        b"{\"21\": null}",
        b"{\"21\": \"\xff\"}",
    ] {
        assert!(matches!(
            load_regions_from_json(document),
            Err(LoadError::Malformed)
        ));
    }
}

#[test]
fn region_key_that_is_not_a_number_is_invalid() {
    for document in [
        &br#"{"": "World"}"#[..],
        br#"{"1": "World", "two": "Africa"}"#,
        br#"{"-1": "World"}"#,
        br#"{" 1": "World"}"#,
        br#"{"1.0": "World"}"#,
        br#"{"65536": "World"}"#,
        br#"{"0x10": "World"}"#,
    ] {
        assert!(matches!(
            load_regions_from_json(document),
            Err(LoadError::InvalidCode)
        ));
    }
}

#[test]
fn region_empty_document_gives_empty_registry() {
    let registry = load_regions_from_json(b"{}").unwrap();
    assert!(all_codes(&registry).is_empty());
    assert!(lookup(&registry, 1).is_none());
}

#[test]
fn region_keys_are_read_as_decimal_numbers() {
    let registry = load_regions_from_json(br#"{"021": "A", "+5": "B", "65535": "C", "0": "D"}"#)
        .unwrap();
    assert_eq!(lookup(&registry, 21).unwrap().name, "A");
    assert_eq!(lookup(&registry, 5).unwrap().name, "B");
    assert_eq!(lookup(&registry, 65535).unwrap().name, "C");
    assert_eq!(lookup(&registry, 0).unwrap().name, "D");
    assert_eq!(all_codes(&registry).len(), 4);
}

#[test]
fn region_document_strings_are_decoded() {
    let registry =
        load_regions_from_json(b"{\"\\u0032\\u0031\": \"Am\\u00e9rique \\\"du\\\" Nord\\n\"}")
            .unwrap();
    assert_eq!(lookup(&registry, 21).unwrap().name, "Amérique \"du\" Nord\n");
}

#[test]
fn region_repeated_key_keeps_the_last_name() {
    let registry = load_regions_from_json(br#"{"21": "first", "21": "second"}"#).unwrap();
    assert_eq!(all_codes(&registry), vec![21]);
    assert_eq!(lookup(&registry, 21).unwrap().name, "second");
}

#[test]
fn region_two_notations_of_one_code_give_one_record() {
    let registry = load_regions_from_json(br#"{"21": "plain", "021": "padded"}"#).unwrap();
    assert_eq!(all_codes(&registry), vec![21]);
    let name = lookup(&registry, 21).unwrap().name.as_str();
    assert!(name == "plain" || name == "padded");
}

#[test]
fn regions_from_entries_keeps_the_order_and_the_last_of_equal_codes() {
    let entries = vec![
        ("2".to_string(), "Africa".to_string()),
        ("1".to_string(), "World".to_string()),
        ("02".to_string(), "Afrika".to_string()),
        ("3".to_string(), "North America".to_string()),
    ];
    let registry = regions_from_entries(entries).unwrap();
    assert_eq!(all_codes(&registry), vec![2, 1, 3]);
    assert_eq!(lookup(&registry, 2).unwrap().name, "Afrika");
    assert_eq!(lookup(&registry, 2).unwrap().code, 2);
    assert_eq!(lookup(&registry, 1).unwrap().name, "World");
}

#[test]
fn regions_from_entries_fails_on_a_key_that_is_not_a_number() {
    let entries = vec![
        ("1".to_string(), "World".to_string()),
        ("x".to_string(), "Africa".to_string()),
    ];
    assert!(matches!(
        regions_from_entries(entries),
        Err(LoadError::InvalidCode)
    ));
}
