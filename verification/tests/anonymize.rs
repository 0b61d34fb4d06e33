use community_analyzer::anonymize::Anonymizer;
use regex::Regex;

#[test]
fn test_anon_stable_within_instance() {
    let mut a = Anonymizer::with_salt(true, [1u8; 16]);
    let x = a.anon("USER_ALICE");
    let y = a.anon("USER_ALICE");
    assert_eq!(x, y);
    assert_ne!(x, a.anon("USER_BOB"));
}

#[test]
fn test_anon_format() {
    let mut a = Anonymizer::with_salt(true, [9u8; 16]);
    let re = Regex::new(r"^ANON-[0-9a-f]{6}$").unwrap();
    assert!(re.is_match(&a.anon("USER_ALICE")));
}

#[test]
fn test_disabled_passthrough() {
    let mut a = Anonymizer::with_salt(false, [3u8; 16]);
    assert_eq!(a.anon("USER_ALICE"), "USER_ALICE");
}

#[test]
fn test_with_salt_deterministic() {
    let mut a = Anonymizer::with_salt(true, [42u8; 16]);
    let mut b = Anonymizer::with_salt(true, [42u8; 16]);
    assert_eq!(a.anon("USER_ALICE"), b.anon("USER_ALICE"));
}

#[test]
fn test_two_new_instances_differ() {
    let mut a = Anonymizer::new(true).unwrap();
    let mut b = Anonymizer::new(true).unwrap();
    assert_ne!(a.anon("USER_ALICE"), b.anon("USER_ALICE"));
}

#[test]
fn test_write_map_disabled_or_empty_writes_nothing() {
    let mut a = Anonymizer::with_salt(false, [1u8; 16]);
    a.anon("USER_ALICE");
    assert!(a.map_tsv().is_none());

    let b = Anonymizer::with_salt(true, [1u8; 16]);
    assert!(b.map_tsv().is_none());
}

#[test]
fn test_write_map_roundtrip() {
    let mut a = Anonymizer::with_salt(true, [7u8; 16]);
    let ca = a.anon("USER_ALICE");
    let cb = a.anon("USER_BOB");
    let body = a.map_tsv().expect("map text");
    assert!(body.starts_with("# anon\toriginal"));
    assert!(body.contains(&format!("{ca}\tUSER_ALICE")));
    assert!(body.contains(&format!("{cb}\tUSER_BOB")));
}

#[test]
fn test_map_rows_sorted_and_recorded_once() {
    let mut a = Anonymizer::with_salt(true, [5u8; 16]);
    for u in ["U3", "U1", "U2", "U1", "U3"] {
        a.anon(u);
    }
    let rows = a.map_rows();
    assert_eq!(rows.len(), 3);
    for w in rows.windows(2) {
        assert!(w[0] < w[1]);
    }
    for (code, original) in &rows {
        assert_eq!(code.len(), 11);
        assert!(code.starts_with("ANON-"));
        assert!(["U1", "U2", "U3"].contains(&original.as_str()));
    }
    let text = a.map_tsv().unwrap();
    assert_eq!(text.lines().count(), 4);
    assert!(text.ends_with('\n'));
}

#[test]
fn test_anon_code_depends_on_salt() {
    let mut a = Anonymizer::with_salt(true, [1u8; 16]);
    let mut b = Anonymizer::with_salt(true, [2u8; 16]);
    assert_ne!(a.anon("USER_ALICE"), b.anon("USER_ALICE"));
    assert!(a.is_enabled());
    assert!(!Anonymizer::with_salt(false, [0u8; 16]).is_enabled());
}
