use vector_search_service::Metadata;

fn meta(pairs: &[(&str, &str)]) -> Metadata {
    let mut out = Metadata::new();
    for (key, value) in pairs {
        out.insert(key.to_string(), value.to_string());
    }
    out
}

fn sorted_pairs(metadata: &Metadata) -> Vec<(String, String)> {
    let mut pairs = metadata.to_pairs();
    pairs.sort();
    pairs
}

#[test]
fn filter_matches_equal_pair() {
    assert!(meta(&[("type", "a")]).matches(&meta(&[("type", "a")])));
}

#[test]
fn filter_fails_on_missing_key() {
    assert!(!meta(&[("type", "a")]).matches(&meta(&[("type", "a"), ("region", "us")])));
}

#[test]
fn filter_fails_on_other_value() {
    assert!(!meta(&[("type", "a")]).matches(&meta(&[("type", "b")])));
}

#[test]
fn filter_matches_superset() {
    assert!(meta(&[("type", "a"), ("region", "us")]).matches(&meta(&[("type", "a")])));
    let both = meta(&[("region", "us"), ("type", "a")]);
    assert!(both.matches(&meta(&[("type", "a"), ("region", "us")])));
}

#[test]
fn empty_filter_matches_everything() {
    assert!(meta(&[]).matches(&Metadata::new()));
    assert!(meta(&[("type", "a")]).matches(&Metadata::new()));
    assert!(!Metadata::new().matches(&meta(&[("type", "a")])));
}

#[test]
fn filter_is_exact_on_keys_and_values() {
    assert!(!meta(&[("type", "a")]).matches(&meta(&[("Type", "a")])));
    assert!(!meta(&[("type", "a")]).matches(&meta(&[("type", "A")])));
    assert!(!meta(&[("type", "ab")]).matches(&meta(&[("type", "a")])));
    assert!(!meta(&[("type", "")]).matches(&meta(&[("type", "a")])));
    assert!(meta(&[("", "")]).matches(&meta(&[("", "")])));
}

#[test]
fn insert_returns_the_value_before() {
    let mut metadata = Metadata::new();
    assert_eq!(metadata.insert("a".to_string(), "1".to_string()), None);
    assert_eq!(metadata.insert("b".to_string(), "2".to_string()), None);
    assert_eq!(metadata.insert("a".to_string(), "3".to_string()), Some("1".to_string()));
    assert_eq!(metadata.get(&"a".to_string()), Some(&"3".to_string()));
    assert_eq!(metadata.get(&"b".to_string()), Some(&"2".to_string()));
    assert_eq!(metadata.get(&"c".to_string()), None);
    assert_eq!(
        sorted_pairs(&metadata),
        vec![("a".to_string(), "3".to_string()), ("b".to_string(), "2".to_string())]
    );
}

#[test]
fn pairs_hold_each_key_once() {
    let mut metadata = Metadata::new();
    for round in 0..3 {
        for key in ["x", "y", "z"] {
            metadata.insert(key.to_string(), format!("{}{}", key, round));
        }
    }
    assert_eq!(
        sorted_pairs(&metadata),
        vec![
            ("x".to_string(), "x2".to_string()),
            ("y".to_string(), "y2".to_string()),
            ("z".to_string(), "z2".to_string()),
        ]
    );
    assert!(Metadata::new().to_pairs().is_empty());
}

#[test]
fn clone_holds_the_same_pairs() {
    let metadata = meta(&[("a", "1"), ("b", "2")]);
    let mut copy = metadata.clone();
    assert_eq!(sorted_pairs(&copy), sorted_pairs(&metadata));
    copy.insert("a".to_string(), "9".to_string());
    assert_eq!(metadata.get(&"a".to_string()), Some(&"1".to_string()));
    assert_eq!(copy.get(&"a".to_string()), Some(&"9".to_string()));
}
