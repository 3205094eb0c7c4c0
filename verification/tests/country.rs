use locale_codes::codes::country::{
    all_codes, find_misfiled, lookup, lookup_by_long_code, lookup_by_short_code,
    make_country_lookup, CountryInfo, CountryRegistry,
};
use locale_codes::store::TextStore;

fn country(
    code: &str,
    short_code: &str,
    country_code: u16,
    region_code: Option<u16>,
    sub_region_code: Option<u16>,
    intermediate_region_code: Option<u16>,
) -> CountryInfo {
    CountryInfo {
        code: code.to_string(),
        short_code: short_code.to_string(),
        country_code,
        region_code,
        sub_region_code,
        intermediate_region_code,
    }
}

fn sample() -> Vec<(String, CountryInfo)> {
    vec![
        country("ATA", "AQ", 10, None, None, None),
        country("DEU", "DE", 276, Some(150), Some(155), None),
        country("MEX", "MX", 484, Some(19), Some(419), Some(13)),
        country("USA", "US", 840, Some(19), Some(21), None),
    ]
    .into_iter()
    .map(|info| (info.code.clone(), info))
    .collect()
}

fn registry() -> CountryRegistry {
    CountryRegistry::new(TextStore::from_entries(sample())).0
}

#[test]
fn test_country_codes() {
    let codes = all_codes(&registry());
    assert!(codes.len() > 0);
}

#[test]
fn test_good_country_code() {
    let registry = registry();
    match lookup(&registry, "DEU") {
        None => panic!("was expecting a country"),
        Some(country) => {
            assert_eq!(country.short_code, "DE");
            assert_eq!(country.country_code, 276);
        }
    }
}

#[test]
fn test_good_country_short_code() {
    let registry = registry();
    match lookup(&registry, "DE") {
        None => panic!("was expecting a country"),
        Some(country) => {
            assert_eq!(country.code, "DEU");
            assert_eq!(country.country_code, 276);
        }
    }
}

#[test]
fn test_bad_country_code() {
    let registry = registry();
    match lookup(&registry, "XXX") {
        None => (),
        Some(_) => panic!("was expecting a None in response"),
    }
}

#[test]
fn country_lookup_returns_record_with_its_own_code() {
    let registry = registry();
    for code in all_codes(&registry) {
        let found = lookup_by_long_code(&registry, &code).expect("every code resolves");
        assert_eq!(found.code, code);
    }
}

#[test]
fn country_short_code_finds_the_same_record_as_long_code() {
    let registry = registry();
    for (short_code, code) in [("AQ", "ATA"), ("DE", "DEU"), ("MX", "MEX"), ("US", "USA")] {
        let by_short = lookup_by_short_code(&registry, short_code).unwrap();
        let by_long = lookup_by_long_code(&registry, code).unwrap();
        assert!(std::ptr::eq(by_short, by_long));
        assert!(std::ptr::eq(lookup(&registry, short_code).unwrap(), by_long));
        assert!(std::ptr::eq(lookup(&registry, code).unwrap(), by_long));
    }
}

#[test]
fn country_lookup_of_unknown_codes_is_none() {
    let registry = registry();
    assert!(lookup(&registry, "XX").is_none());
    assert!(lookup(&registry, "ZZZ").is_none());
    assert!(lookup_by_short_code(&registry, "XX").is_none());
    assert!(lookup_by_long_code(&registry, "ZZZ").is_none());
}

#[test]
fn country_lookup_is_exact() {
    let registry = registry();
    assert!(lookup(&registry, "deu").is_none());
    assert!(lookup(&registry, "de").is_none());
    assert!(lookup(&registry, "DE ").is_none());
    assert!(lookup(&registry, " DE").is_none());
}

#[test]
fn country_codes_count_the_entries_of_the_dataset() {
    let registry = registry();
    let codes = all_codes(&registry);
    assert_eq!(codes.len(), sample().len());
    assert_eq!(codes, vec!["ATA", "DEU", "MEX", "USA"]);
    for code in &codes {
        assert!(lookup(&registry, code).is_some());
    }
}

#[test]
fn country_lookup_twice_gives_the_same_record() {
    let registry = registry();
    let first = lookup(&registry, "MEX").unwrap();
    let second = lookup(&registry, "MEX").unwrap();
    assert!(std::ptr::eq(first, second));
    assert_eq!(first.country_code, 484);
    assert_eq!(first.region_code, Some(19));
    assert_eq!(first.sub_region_code, Some(419));
    assert_eq!(first.intermediate_region_code, Some(13));
    assert!(lookup(&registry, "QQQ").is_none());
    assert!(lookup(&registry, "QQQ").is_none());
}

#[test]
fn country_index_files_the_code_under_each_short_code() {
    let countries = TextStore::from_entries(sample());
    let (index, repeated) = make_country_lookup(&countries);
    assert_eq!(repeated, None);
    assert_eq!(index.len(), 4);
    assert_eq!(index.get("DE").map(String::as_str), Some("DEU"));
    assert_eq!(index.get("AQ").map(String::as_str), Some("ATA"));
    assert_eq!(index.get("DEU"), None);
}

#[test]
fn country_index_keeps_the_last_of_two_equal_short_codes() {
    let mut entries = sample();
    entries.push(("DDR".to_string(), country("DDR", "DE", 278, None, None, None)));
    let registry = CountryRegistry::new(TextStore::from_entries(entries)).0;
    assert_eq!(all_codes(&registry).len(), 5);
    assert_eq!(lookup(&registry, "DE").unwrap().code, "DDR");
    assert_eq!(lookup(&registry, "DEU").unwrap().country_code, 276);
    assert_eq!(lookup(&registry, "DDR").unwrap().country_code, 278);
}

#[test]
fn country_short_code_resolves_to_the_code_that_the_record_carries() {
    let entries = vec![("AAA".to_string(), country("BBB", "AB", 1, None, None, None))];
    let registry = CountryRegistry::new(TextStore::from_entries(entries)).0;
    assert_eq!(lookup(&registry, "AAA").unwrap().code, "BBB");
    assert!(lookup(&registry, "BBB").is_none());
    assert!(lookup(&registry, "AB").is_none());
    assert!(lookup_by_short_code(&registry, "AB").is_none());
    let countries = TextStore::from_entries(vec![(
        "AAA".to_string(),
        country("BBB", "AB", 1, None, None, None),
    )]);
    let (index, _) = make_country_lookup(&countries);
    assert_eq!(index.get("AB").map(String::as_str), Some("BBB"));
}

#[test]
fn country_short_code_of_a_misfiled_record_finds_what_is_stored_under_its_code() {
    let mut entries = sample();
    entries.push(("AAA".to_string(), country("DEU", "AB", 1, None, None, None)));
    let registry = CountryRegistry::new(TextStore::from_entries(entries)).0;
    assert_eq!(lookup(&registry, "AB").unwrap().country_code, 276);
    assert_eq!(lookup(&registry, "AAA").unwrap().country_code, 1);
}

#[test]
fn country_registry_may_be_empty() {
    let registry = CountryRegistry::new(TextStore::new()).0;
    assert!(all_codes(&registry).is_empty());
    assert!(lookup(&registry, "DEU").is_none());
    assert!(lookup(&registry, "DE").is_none());
}

#[test]
fn country_construction_reports_no_repeat_where_short_codes_are_distinct() {
    assert_eq!(CountryRegistry::new(TextStore::from_entries(sample())).1, None);
    assert_eq!(CountryRegistry::new(TextStore::new()).1, None);
    assert_eq!(make_country_lookup(&TextStore::from_entries(sample())).1, None);
}

#[test]
fn country_construction_reports_the_first_repeated_short_code() {
    let mut entries = sample();
    entries.push(("DDR".to_string(), country("DDR", "DE", 278, None, None, None)));
    entries.push(("UMI".to_string(), country("UMI", "US", 581, None, None, None)));
    entries.push(("XDE".to_string(), country("XDE", "DE", 999, None, None, None)));
    let (registry, repeated) = CountryRegistry::new(TextStore::from_entries(entries));
    assert_eq!(repeated, Some(4));
    assert_eq!(all_codes(&registry)[4], "DDR");
    assert_eq!(lookup(&registry, "DE").unwrap().code, "XDE");
    assert_eq!(lookup(&registry, "US").unwrap().code, "UMI");
}

#[test]
fn country_stored_under_another_code_is_reported_as_misfiled() {
    assert_eq!(find_misfiled(&registry()), None);
    assert_eq!(find_misfiled(&CountryRegistry::new(TextStore::new()).0), None);
    let mut entries = sample();
    entries.push(("AAA".to_string(), country("BBB", "AB", 1, None, None, None)));
    entries.push(("CCC".to_string(), country("ccc", "CC", 2, None, None, None)));
    let registry = CountryRegistry::new(TextStore::from_entries(entries)).0;
    assert_eq!(find_misfiled(&registry), Some(4));
    assert_eq!(all_codes(&registry)[4], "AAA");
}
