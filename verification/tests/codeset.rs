use locale_codes::codes::codeset::{
    all_names, find_misfiled, lookup, CodesetInfo, CodesetRegistry,
};
use locale_codes::store::TextStore;

fn codeset(name: &str, also_known_as: &[&str], mib_code: u32, source: Option<&str>) -> CodesetInfo {
    CodesetInfo {
        name: name.to_string(),
        also_known_as: also_known_as.iter().map(|a| a.to_string()).collect(),
        mib_code,
        source: source.map(str::to_string),
        references: None,
    }
}

fn sample() -> Vec<(String, CodesetInfo)> {
    vec![
        codeset(
            "US-ASCII",
            &["iso-ir-6", "ANSI_X3.4-1968", "ISO646-US", "us", "IBM367", "cp367"],
            3,
            Some("ANSI X3.4-1986"),
        ),
        codeset("ISO_8859-1:1987", &["iso-ir-100", "ISO-8859-1", "latin1"], 4, None),
        codeset("UTF-8", &[], 106, Some("RFC 3629")),
        codeset("UTF-16", &[], 1015, Some("RFC 2781")),
    ]
    .into_iter()
    .map(|info| (info.name.clone(), info))
    .collect()
}

fn registry() -> CodesetRegistry {
    CodesetRegistry::new(TextStore::from_entries(sample()))
}

#[test]
fn test_good_codeset_code() {
    let registry = registry();
    match lookup(&registry, "UTF-8") {
        None => panic!("was expecting a codeset"),
        Some(codeset) => assert_eq!(codeset.name.to_string(), "UTF-8".to_string()),
    }
}

#[test]
fn test_bad_codeset_code() {
    let registry = registry();
    match lookup(&registry, &"UTF-99") {
        None => (),
        Some(_) => panic!("was expecting a None in response"),
    }
}

#[test]
fn codeset_names_count_the_entries_of_the_dataset() {
    let registry = registry();
    let names = all_names(&registry);
    assert_eq!(names, vec!["US-ASCII", "ISO_8859-1:1987", "UTF-8", "UTF-16"]);
    for name in &names {
        assert_eq!(&lookup(&registry, name).unwrap().name, name);
    }
}

#[test]
fn codeset_lookup_is_by_name_and_exact() {
    let registry = registry();
    assert!(lookup(&registry, "utf-8").is_none());
    assert!(lookup(&registry, "UTF-8 ").is_none());
    assert!(lookup(&registry, "latin1").is_none());
    assert!(lookup(&registry, "U").is_none());
}

#[test]
fn codeset_record_keeps_its_fields() {
    let registry = registry();
    let ascii = lookup(&registry, "US-ASCII").unwrap();
    assert_eq!(ascii.mib_code, 3);
    assert_eq!(ascii.also_known_as.len(), 6);
    assert_eq!(ascii.also_known_as[1], "ANSI_X3.4-1968");
    assert_eq!(ascii.source.as_deref(), Some("ANSI X3.4-1986"));
    assert_eq!(ascii.references, None);
    assert!(std::ptr::eq(ascii, lookup(&registry, "US-ASCII").unwrap()));
}

#[test]
fn codeset_stored_under_another_name_is_reported_as_misfiled() {
    assert_eq!(find_misfiled(&registry()), None);
    let mut entries = sample();
    entries.push(("latin1".to_string(), codeset("ISO_8859-1:1987", &[], 4, None)));
    let registry = CodesetRegistry::new(TextStore::from_entries(entries));
    assert_eq!(find_misfiled(&registry), Some(4));
    assert_eq!(lookup(&registry, "latin1").unwrap().name, "ISO_8859-1:1987");
}

#[test]
fn codeset_lookup_of_the_empty_name_is_none() {
    let registry = registry();
    assert!(lookup(&registry, "").is_none());
    assert!(lookup(&CodesetRegistry::new(TextStore::new()), "").is_none());
}
