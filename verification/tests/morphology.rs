use community_analyzer::morphology::{
    extract_nouns_fallback, is_english_stop_word, LinderaMorphology, Morphology,
    WhitespaceMorphology,
};

#[test]
fn test_whitespace_morphology_basic() {
    let m = WhitespaceMorphology::new();
    let ns = m.extract_nouns("Hello World rust API a");
    assert!(ns.contains(&"hello".to_string()));
    assert!(ns.contains(&"world".to_string()));
    assert!(ns.contains(&"rust".to_string()));
    assert!(ns.contains(&"api".to_string()));
    // single-char "a" dropped
    assert!(!ns.contains(&"a".to_string()));
}

#[test]
fn test_whitespace_morphology_empty() {
    let m = WhitespaceMorphology;
    assert!(m.extract_nouns("").is_empty());
    assert!(m.extract_nouns("   ").is_empty());
}

#[test]
fn test_lindera_morphology_extracts_something() {
    let m = LinderaMorphology::new();
    // Either lindera (IPADIC) or the fallback must yield some CJK content.
    let ns = m.extract_nouns("東京タワーは日本の観光名所です");
    assert!(!ns.is_empty(), "expected nouns from Japanese text");
}

#[test]
fn test_whitespace_morphology_order_and_tabs() {
    let m = WhitespaceMorphology::default();
    let ns = m.extract_nouns("\tAlpha\nBETA  x  Gamma\r\n");
    assert_eq!(ns, vec!["alpha".to_string(), "beta".to_string(), "gamma".to_string()]);
}

#[test]
fn test_fallback_runs_and_words() {
    let ns = extract_nouns_fallback("東京タワーは日本の観光名所です。the API and db_v2 x");
    assert_eq!(
        ns,
        vec![
            "東京".to_string(),
            "タワー".to_string(),
            "日本".to_string(),
            "観光名所".to_string(),
            "API".to_string(),
            "db_v2".to_string(),
        ]
    );
}

#[test]
fn test_stop_words() {
    assert!(is_english_stop_word("the"));
    assert!(is_english_stop_word("their"));
    assert!(!is_english_stop_word("The"));
    assert!(!is_english_stop_word("database"));
}
