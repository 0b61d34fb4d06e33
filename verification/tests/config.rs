use community_analyzer::config::{ChannelEntry, CommConfig, RoleEntry};
use community_analyzer::models::{ChannelCategory, Role};

fn example_config() -> CommConfig {
    let mut cfg = CommConfig::default();
    cfg.roles.push(RoleEntry {
        user_id: "USER_ALICE".to_string(),
        role: Role::Exec,
        seniority_level: 5,
        team: Some("leadership".to_string()),
    });
    cfg.roles.push(RoleEntry {
        user_id: "USER_BOB".to_string(),
        role: Role::Manager,
        seniority_level: 4,
        team: Some("ai-team".to_string()),
    });
    cfg.channels.push(ChannelEntry {
        pattern: "^proj-.*".to_string(),
        category: ChannelCategory::Official,
        is_decision_channel: true,
    });
    cfg.channels.push(ChannelEntry {
        pattern: "^team-leads$".to_string(),
        category: ChannelCategory::Leadership,
        is_decision_channel: true,
    });
    cfg.channels.push(ChannelEntry {
        pattern: "^(times|random|zatsudan)-.*".to_string(),
        category: ChannelCategory::Casual,
        is_decision_channel: false,
    });
    cfg.channels.push(ChannelEntry {
        pattern: "^(dev|ai|ds|sec)-.*".to_string(),
        category: ChannelCategory::Tech,
        is_decision_channel: false,
    });
    cfg
}

#[test]
fn test_load_and_classify_channels() {
    let cfg = example_config();
    assert_eq!(cfg.classify_channel("proj-x"), ChannelCategory::Official);
    assert_eq!(cfg.classify_channel("team-leads"), ChannelCategory::Leadership);
    assert_eq!(cfg.classify_channel("times-foo"), ChannelCategory::Casual);
    assert_eq!(cfg.classify_channel("dev-bar"), ChannelCategory::Tech);
    assert_eq!(cfg.classify_channel("nomatch"), ChannelCategory::Unknown);
}

#[test]
fn test_channel_entry_decision_flag() {
    let cfg = example_config();
    assert!(cfg.channel_entry_for("proj-x").unwrap().is_decision_channel);
    assert!(!cfg.channel_entry_for("times-foo").unwrap().is_decision_channel);
    assert!(cfg.channel_entry_for("nomatch").is_none());
}

#[test]
fn test_role_for() {
    let cfg = example_config();
    assert_eq!(cfg.role_for("USER_ALICE"), Role::Exec);
    assert_eq!(cfg.role_for("USER_BOB"), Role::Manager);
    assert_eq!(cfg.role_for("ZZZ"), Role::Unknown);
}

#[test]
fn test_config_hash_is_deterministic_hex() {
    let json = br#"{"roles":[{"user_id":"USER_ALICE","role":"exec"}]}"#;
    let h1 = CommConfig::config_hash(json);
    let h2 = CommConfig::config_hash(json);
    assert_eq!(h1, h2);
    assert_eq!(h1.len(), 64);
    assert!(h1.chars().all(|c| c.is_ascii_hexdigit()));
    assert_ne!(h1, CommConfig::config_hash(b"{}"));
}

#[test]
fn test_config_hash_known_digest() {
    assert_eq!(
        CommConfig::config_hash(b"abc"),
        "ba7816bf8f01cfea414140de5dae2223b00361a396177a9cb410ff61f20015ad"
    );
}

#[test]
fn test_load_with_missing_sections_uses_defaults() {
    let mut cfg = CommConfig::default();
    cfg.roles.push(RoleEntry {
        user_id: "U1".to_string(),
        role: Role::Staff,
        seniority_level: 0,
        team: None,
    });
    assert!(!cfg.patterns.hedging.is_empty());
    assert!(cfg.patterns.incomplete.contains(&"えーと".to_string()));
    assert!(cfg.patterns.conclusion_marker.contains(&"結論".to_string()));
    assert!(cfg.nlp_sidecar.enabled);
    assert_eq!(cfg.nlp_sidecar.python, "uv run python");
    assert_eq!(cfg.nlp_sidecar.embed_batch_size, 32);
    assert_eq!(cfg.output.dir, "output/comm");
    assert_eq!(cfg.output.top_n, 20);
    assert_eq!(cfg.period.fiscal.fiscal_year_start_month, 4);
    assert_eq!(cfg.role_for("U1"), Role::Staff);
}

#[test]
fn test_first_matching_channel_entry_wins() {
    let mut cfg = example_config();
    cfg.channels.insert(
        0,
        ChannelEntry {
            pattern: "([".to_string(),
            category: ChannelCategory::Tech,
            is_decision_channel: false,
        },
    );
    // the invalid pattern is skipped
    assert_eq!(cfg.classify_channel("proj-x"), ChannelCategory::Official);
    cfg.roles.push(RoleEntry {
        user_id: "USER_ALICE".to_string(),
        role: Role::Staff,
        seniority_level: 1,
        team: None,
    });
    assert_eq!(cfg.role_for("USER_ALICE"), Role::Exec);
}
