use locale_codes::codes::script::{
    all_alpha_codes, all_numeric_codes, find_misfiled, lookup_by_alpha, lookup_by_numeric,
    make_script_lookup, ScriptInfo, ScriptRegistry,
};
use locale_codes::store::TextStore;

fn script(alphabetic_code: &str, numeric_code: u16, name: &str, alias: Option<&str>) -> ScriptInfo {
    ScriptInfo {
        alphabetic_code: alphabetic_code.to_string(),
        numeric_code,
        name: name.to_string(),
        alias: alias.map(str::to_string),
    }
}

fn sample() -> Vec<(String, ScriptInfo)> {
    vec![
        script("Cyrl", 220, "Cyrillic", Some("Cyrillic")),
        script(
            "Hluw",
            80,
            "Anatolian Hieroglyphs (Luwian Hieroglyphs, Hittite Hieroglyphs)",
            Some("Anatolian_Hieroglyphs"),
        ),
        script("Latn", 215, "Latin", Some("Latin")),
        script("Zxxx", 997, "Code for unwritten documents", None),
    ]
    .into_iter()
    .map(|info| (info.alphabetic_code.clone(), info))
    .collect()
}

fn registry() -> ScriptRegistry {
    ScriptRegistry::new(TextStore::from_entries(sample())).0
}

#[test]
fn test_good_script_alpha_code() {
    let registry = registry();
    match lookup_by_alpha(&registry, "Hluw") {
        None => panic!("was expecting a script"),
        Some(script) => {
            assert_eq!(script.alphabetic_code.to_string(), "Hluw".to_string());
            assert_eq!(script.numeric_code, 80);
        }
    }
}

#[test]
fn test_bad_script_alpha_code() {
    let registry = registry();
    match lookup_by_alpha(&registry, &"UTF8") {
        None => (),
        Some(_) => panic!("was expecting a None in response"),
    }
}

#[test]
fn test_good_script_numeric_code() {
    let registry = registry();
    match lookup_by_numeric(&registry, &80) {
        None => panic!("was expecting a script"),
        Some(script) => {
            assert_eq!(script.alphabetic_code.to_string(), "Hluw".to_string());
            assert_eq!(script.numeric_code, 80);
        }
    }
}

#[test]
fn test_bad_script_numeric_code() {
    let registry = registry();
    match lookup_by_numeric(&registry, &0) {
        None => (),
        Some(_) => panic!("was expecting a None in response"),
    }
}

#[test]
fn test_script_codes() {
    let registry = registry();
    let codes = all_alpha_codes(&registry);
    assert!(codes.len() > 0);
    let numerics = all_numeric_codes(&registry);
    assert!(numerics.len() > 0);
}

#[test]
fn script_numeric_and_alphabetic_codes_find_the_same_record() {
    let registry = registry();
    for code in all_alpha_codes(&registry) {
        let by_alpha = lookup_by_alpha(&registry, &code).unwrap();
        assert_eq!(by_alpha.alphabetic_code, code);
        let by_numeric = lookup_by_numeric(&registry, &by_alpha.numeric_code).unwrap();
        assert!(std::ptr::eq(by_alpha, by_numeric));
    }
    for numeric in all_numeric_codes(&registry) {
        assert_eq!(
            lookup_by_numeric(&registry, &numeric).unwrap().numeric_code,
            numeric
        );
    }
}

#[test]
fn script_codes_count_the_entries_of_the_dataset() {
    let registry = registry();
    assert_eq!(
        all_alpha_codes(&registry),
        vec!["Cyrl", "Hluw", "Latn", "Zxxx"]
    );
    assert_eq!(all_numeric_codes(&registry), vec![220, 80, 215, 997]);
}

#[test]
fn script_lookup_is_exact() {
    let registry = registry();
    assert!(lookup_by_alpha(&registry, "hluw").is_none());
    assert!(lookup_by_alpha(&registry, "HLUW").is_none());
    assert!(lookup_by_alpha(&registry, "Arab").is_none());
    assert!(lookup_by_numeric(&registry, &81).is_none());
    assert!(lookup_by_numeric(&registry, &999).is_none());
}

#[test]
fn script_record_keeps_its_fields() {
    let registry = registry();
    let script = lookup_by_alpha(&registry, "Hluw").unwrap();
    assert_eq!(
        script.name,
        "Anatolian Hieroglyphs (Luwian Hieroglyphs, Hittite Hieroglyphs)"
    );
    assert_eq!(script.alias.as_deref(), Some("Anatolian_Hieroglyphs"));
    assert_eq!(lookup_by_alpha(&registry, "Zxxx").unwrap().alias, None);
}

#[test]
fn script_index_files_the_code_under_each_numeric_code() {
    let scripts = TextStore::from_entries(sample());
    let (index, repeated) = make_script_lookup(&scripts);
    assert_eq!(repeated, None);
    assert_eq!(index.len(), 4);
    assert_eq!(index.get(80).map(String::as_str), Some("Hluw"));
    assert_eq!(index.get(215).map(String::as_str), Some("Latn"));
    assert_eq!(index.get(216), None);
}

#[test]
fn script_index_keeps_the_last_of_two_equal_numeric_codes() {
    let mut entries = sample();
    entries.push(("Latf".to_string(), script("Latf", 215, "Latin (Fraktur variant)", None)));
    let registry = ScriptRegistry::new(TextStore::from_entries(entries)).0;
    assert_eq!(
        lookup_by_numeric(&registry, &215).unwrap().alphabetic_code,
        "Latf"
    );
    assert_eq!(lookup_by_alpha(&registry, "Latn").unwrap().numeric_code, 215);
    assert_eq!(all_numeric_codes(&registry), vec![220, 80, 215, 997]);
}

#[test]
fn script_construction_reports_the_first_repeated_numeric_code() {
    assert_eq!(ScriptRegistry::new(TextStore::from_entries(sample())).1, None);
    let mut entries = sample();
    entries.push(("Latf".to_string(), script("Latf", 215, "Latin (Fraktur variant)", None)));
    let (registry, repeated) = ScriptRegistry::new(TextStore::from_entries(entries));
    assert_eq!(repeated, Some(4));
    assert_eq!(all_alpha_codes(&registry)[4], "Latf");
}

#[test]
fn script_numeric_code_resolves_to_the_code_that_the_record_carries() {
    let entries = vec![(
        "Arab".to_string(),
        script("Aran", 161, "Arabic (Nastaliq variant)", None),
    )];
    let registry = ScriptRegistry::new(TextStore::from_entries(entries)).0;
    assert_eq!(lookup_by_alpha(&registry, "Arab").unwrap().numeric_code, 161);
    assert!(lookup_by_numeric(&registry, &161).is_none());
}

#[test]
fn script_stored_under_another_code_is_reported_as_misfiled() {
    assert_eq!(find_misfiled(&registry()), None);
    let mut entries = sample();
    entries.push(("Arab".to_string(), script("Aran", 161, "Arabic (Nastaliq variant)", None)));
    let registry = ScriptRegistry::new(TextStore::from_entries(entries)).0;
    assert_eq!(find_misfiled(&registry), Some(4));
}
