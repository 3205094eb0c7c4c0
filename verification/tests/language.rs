use locale_codes::codes::language::{
    all_codes, find_misfiled, lookup, lookup_by_long_code, lookup_by_short_code,
    make_language_lookup,
    LanguageClass, LanguageInfo, LanguageRegistry, LanguageType,
};
use locale_codes::store::TextStore;

fn language(
    code: &str,
    reference_name: &str,
    short_code: Option<&str>,
    class: LanguageClass,
    l_type: LanguageType,
) -> LanguageInfo {
    LanguageInfo {
        code: code.to_string(),
        reference_name: reference_name.to_string(),
        indigenous_name: None,
        other_names: None,
        bibliographic_code: None,
        terminology_code: None,
        short_code: short_code.map(str::to_string),
        class,
        l_type,
        family_members: None,
    }
}

fn sample() -> Vec<(String, LanguageInfo)> {
    let mut german = language(
        "deu",
        "German",
        Some("de"),
        LanguageClass::Individual,
        LanguageType::Living,
    );
    german.indigenous_name = Some("Deutsch".to_string());
    german.bibliographic_code = Some("ger".to_string());
    german.terminology_code = Some("deu".to_string());
    let mut chinese = language(
        "zho",
        "Chinese",
        Some("zh"),
        LanguageClass::MacroLanguage,
        LanguageType::Living,
    );
    chinese.family_members = Some(vec!["cmn".to_string(), "yue".to_string()]);
    vec![
        language("aab", "Alumu-Tesu", None, LanguageClass::Individual, LanguageType::Living),
        german,
        language("lat", "Latin", Some("la"), LanguageClass::Individual, LanguageType::Ancient),
        language("und", "Undetermined", None, LanguageClass::Special, LanguageType::Special),
        chinese,
    ]
    .into_iter()
    .map(|info| (info.code.clone(), info))
    .collect()
}

fn registry() -> LanguageRegistry {
    LanguageRegistry::new(TextStore::from_entries(sample())).0
}

#[test]
fn test_language_loading() {
    let registry = registry();
    match lookup(&registry, "aab") {
        None => println!("test_language_loading NO 'aab'"),
        Some(l) => println!("test_language_loading {:#?}", l),
    }
}

#[test]
fn language_lookup_by_long_code() {
    let registry = registry();
    let german = lookup(&registry, "deu").expect("was expecting a language");
    assert_eq!(german.code, "deu");
    assert_eq!(german.reference_name, "German");
    assert_eq!(german.indigenous_name.as_deref(), Some("Deutsch"));
    assert_eq!(german.bibliographic_code.as_deref(), Some("ger"));
    assert_eq!(german.short_code.as_deref(), Some("de"));
    assert!(matches!(german.class, LanguageClass::Individual));
    assert!(matches!(german.l_type, LanguageType::Living));
    let latin = lookup(&registry, "lat").unwrap();
    assert!(matches!(latin.l_type, LanguageType::Ancient));
}

#[test]
fn language_lookup_by_short_code() {
    let registry = registry();
    let by_short = lookup(&registry, "zh").expect("was expecting a language");
    assert_eq!(by_short.code, "zho");
    assert!(matches!(by_short.class, LanguageClass::MacroLanguage));
    assert_eq!(
        by_short.family_members,
        Some(vec!["cmn".to_string(), "yue".to_string()])
    );
    assert!(std::ptr::eq(by_short, lookup(&registry, "zho").unwrap()));
    assert!(std::ptr::eq(
        lookup_by_short_code(&registry, "de").unwrap(),
        lookup_by_long_code(&registry, "deu").unwrap()
    ));
}

#[test]
fn language_lookup_of_unknown_codes_is_none() {
    let registry = registry();
    assert!(lookup(&registry, "xxx").is_none());
    assert!(lookup(&registry, "xx").is_none());
    assert!(lookup(&registry, "DEU").is_none());
    assert!(lookup(&registry, "aa").is_none());
}

#[test]
fn language_without_short_code_is_not_in_the_index() {
    let languages = TextStore::from_entries(sample());
    let (index, repeated) = make_language_lookup(&languages);
    assert_eq!(repeated, None);
    assert_eq!(index.len(), 3);
    assert_eq!(index.get("de").map(String::as_str), Some("deu"));
    assert_eq!(index.get("la").map(String::as_str), Some("lat"));
    assert_eq!(index.get("zh").map(String::as_str), Some("zho"));
}

#[test]
fn language_codes_count_the_entries_of_the_dataset() {
    let registry = registry();
    let codes = all_codes(&registry);
    assert_eq!(codes.len(), 5);
    assert_eq!(codes, vec!["aab", "deu", "lat", "und", "zho"]);
    for code in &codes {
        assert_eq!(&lookup(&registry, code).unwrap().code, code);
    }
}

#[test]
fn language_index_keeps_the_last_of_two_equal_short_codes() {
    let mut entries = sample();
    entries.push((
        "gsw".to_string(),
        language(
            "gsw",
            "Swiss German",
            Some("de"),
            LanguageClass::Individual,
            LanguageType::Living,
        ),
    ));
    let registry = LanguageRegistry::new(TextStore::from_entries(entries)).0;
    assert_eq!(lookup(&registry, "de").unwrap().code, "gsw");
    assert_eq!(lookup(&registry, "deu").unwrap().reference_name, "German");
}

#[test]
fn language_construction_reports_the_first_repeated_short_code() {
    assert_eq!(LanguageRegistry::new(TextStore::from_entries(sample())).1, None);
    let mut entries = sample();
    entries.push((
        "lzh".to_string(),
        language(
            "lzh",
            "Literary Chinese",
            Some("zh"),
            LanguageClass::Individual,
            LanguageType::Historical,
        ),
    ));
    let (registry, repeated) = LanguageRegistry::new(TextStore::from_entries(entries));
    assert_eq!(repeated, Some(5));
    assert_eq!(all_codes(&registry)[5], "lzh");
    assert_eq!(lookup(&registry, "zh").unwrap().code, "lzh");
}

#[test]
fn languages_without_short_codes_are_no_repeats() {
    let entries = vec![
        (
            "aab".to_string(),
            language("aab", "Alumu-Tesu", None, LanguageClass::Individual, LanguageType::Living),
        ),
        (
            "und".to_string(),
            language("und", "Undetermined", None, LanguageClass::Special, LanguageType::Special),
        ),
    ];
    let (index, repeated) = make_language_lookup(&TextStore::from_entries(entries));
    assert_eq!(repeated, None);
    assert_eq!(index.len(), 0);
}

#[test]
fn language_stored_under_another_code_is_reported_as_misfiled() {
    assert_eq!(find_misfiled(&registry()), None);
    let entries = vec![(
        "ger".to_string(),
        language("deu", "German", Some("de"), LanguageClass::Individual, LanguageType::Living),
    )];
    let registry = LanguageRegistry::new(TextStore::from_entries(entries)).0;
    assert_eq!(find_misfiled(&registry), Some(0));
    assert_eq!(lookup(&registry, "ger").unwrap().code, "deu");
    assert!(lookup(&registry, "deu").is_none());
    assert!(lookup(&registry, "de").is_none());
}
