use community_analyzer::config::PatternDict;
use community_analyzer::text::patterns::PatternMatcher;

fn matcher() -> PatternMatcher {
    PatternMatcher::build(&PatternDict::default()).expect("build matcher")
}

#[test]
fn test_count_hedging() {
    let m = matcher();
    assert!(m.count_hedging("とりあえずFYIで雑に書きます") >= 2);
}

#[test]
fn test_surface_agreement() {
    let m = matcher();
    assert!(m.contains_surface_agreement("承知しました"));
    assert!(!m.contains_surface_agreement("反対です"));
}

#[test]
fn test_conclusion_marker() {
    let m = matcher();
    assert!(m.contains_conclusion_marker("結論はAで決定"));
}

#[test]
fn test_unresolved_marker() {
    let m = matcher();
    assert!(m.contains_unresolved_marker("これは保留"));
}

#[test]
fn test_count_dissent() {
    let m = matcher();
    assert!(m.count_dissent("ただ、しかし、とはいえ違う") >= 3);
}

#[test]
fn test_count_incomplete() {
    let m = matcher();
    assert!(m.count_incomplete("えーと、うーん") >= 1);
}

#[test]
fn test_count_commitment() {
    let m = matcher();
    assert!(m.count_commitment("対応します．あとでやっておきます") >= 2);
    assert!(m.contains_commitment("引き取ります"));
    assert!(!m.contains_commitment("ただの雑談"));
}

#[test]
fn test_action_mention() {
    let m = matcher();
    assert!(m.contains_action_mention("修正しました"));
    assert!(m.count_action_mention("マージしました．クローズ") >= 2);
    assert!(!m.contains_action_mention("ただの雑談"));
}

#[test]
fn test_empty_pattern_list_is_graceful() {
    let dict = PatternDict {
        hedging: vec![],
        self_defense: vec![],
        surface_agreement: vec![],
        incomplete: vec![],
        unresolved_marker: vec![],
        conclusion_marker: vec![],
    };
    let m = PatternMatcher::build(&dict).expect("build with empty patterns");
    assert_eq!(m.count_hedging("とりあえず雑に"), 0);
    assert!(!m.contains_surface_agreement("承知しました"));
    assert!(m.count_dissent("しかし") >= 1);
    assert!(m.contains_commitment("対応します"));
    assert!(m.contains_action_mention("完了しました"));
}

#[test]
fn test_matching_ignores_ascii_case_and_empty_phrases() {
    let dict = PatternDict {
        hedging: vec!["fyi".to_string(), String::new()],
        self_defense: vec![],
        surface_agreement: vec!["Sounds Good".to_string()],
        incomplete: vec![],
        unresolved_marker: vec![],
        conclusion_marker: vec![],
    };
    let m = PatternMatcher::build(&dict).unwrap();
    assert_eq!(m.count_hedging("FYI, Fyi and fyi"), 3);
    assert!(m.contains_surface_agreement("sounds good!"));
    assert_eq!(m.count_self_defense("anything"), 0);
}
