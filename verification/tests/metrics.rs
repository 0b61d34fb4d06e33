use community_analyzer::config::{ChannelEntry, CommConfig, RoleEntry};
use community_analyzer::metrics::h1_justification::compute_h1;
use community_analyzer::metrics::h2_safety::compute_h2;
use community_analyzer::metrics::h3_power::{compute_h3, gini_parts, is_agreement};
use community_analyzer::metrics::h4_consensus::compute_h4;
use community_analyzer::metrics::h5_diversity::compute_h5;
use community_analyzer::models::{ChannelCategory, Role};
use community_analyzer::morphology::WhitespaceMorphology;
use community_analyzer::types::{AnalysisInput, Channel, Message, Reaction, User};

fn ts(secs: i64) -> i64 {
    secs * 1_000_000
}

fn msg(ch: &str, id: &str, u: &str, text: &str, t: i64, root: Option<&str>) -> Message {
    Message {
        id: id.to_string(),
        channel_id: ch.to_string(),
        author_id: u.to_string(),
        text: text.to_string(),
        timestamp: t,
        thread_root_id: root.map(String::from),
        reaction_count: 0,
    }
}

fn user(id: &str, role: Role) -> User {
    User {
        id: id.to_string(),
        display_name: id.to_string(),
        role,
    }
}

fn channel(id: &str, name: &str) -> Channel {
    Channel {
        id: id.to_string(),
        name: name.to_string(),
        category: None,
        is_decision_channel: false,
    }
}

fn rate(num: usize, den: usize) -> f64 {
    if den == 0 {
        0.0
    } else {
        num as f64 / den as f64
    }
}

#[test]
fn h1_justification_test_empty_messages_zero() {
    let cfg = CommConfig::default();
    let input = AnalysisInput {
        messages: &[],
        channels: &[],
        users: &[],
        reactions: &[],
        config: &cfg,
    };
    let m = compute_h1(&input).unwrap();
    assert_eq!(rate(m.manager_silent, m.manager_posts), 0.0);
    assert_eq!(rate(m.staff_silent, m.staff_posts), 0.0);
    assert_eq!(m.dissent_span_median_doubled, 0);
    assert!(m.dissent_spans.is_empty());
    assert_eq!(m.thread_count, 0);
}

#[test]
fn test_silence_rates_and_ratio() {
    let cfg = CommConfig::default();
    let users = vec![user("MGR1", Role::Manager), user("STF1", Role::Staff)];
    let msgs = vec![
        msg("C1", "M1", "MGR1", "提案A", ts(100), None),
        msg("C1", "M2", "STF1", "了解", ts(200), Some("M1")),
        msg("C1", "M3", "MGR1", "単独投稿", ts(5000), None),
        msg("C1", "M4", "STF1", "質問", ts(8000), None),
        msg("C1", "M5", "MGR1", "回答", ts(8100), Some("M4")),
    ];
    let input = AnalysisInput {
        messages: &msgs,
        channels: &[],
        users: &users,
        reactions: &[],
        config: &cfg,
    };
    let m = compute_h1(&input).unwrap();
    let mgr = rate(m.manager_silent, m.manager_posts);
    let staff = rate(m.staff_silent, m.staff_posts);
    assert!((mgr - 2.0 / 3.0).abs() < 1e-9);
    assert!((staff - 0.5).abs() < 1e-9);
    assert!((mgr / staff - 4.0 / 3.0).abs() < 1e-9);
}

#[test]
fn test_dissent_convergence_and_thread_count() {
    let cfg = CommConfig::default();
    let msgs = vec![
        msg("C1", "M1", "U1", "提案します", ts(100), None),
        msg("C1", "M2", "U2", "ただ、反対です", ts(200), Some("M1")),
        msg("C1", "M3", "U3", "しかし懸念があります", ts(2000), Some("M1")),
        msg("C2", "M4", "U1", "別スレ root", ts(5000), None),
        msg("C2", "M5", "U2", "別スレ reply", ts(5100), Some("M4")),
    ];
    let input = AnalysisInput {
        messages: &msgs,
        channels: &[],
        users: &[],
        reactions: &[],
        config: &cfg,
    };
    let m = compute_h1(&input).unwrap();
    // first dissent @200, last @2000 -> 30.0 min.
    let minutes = m.dissent_span_median_doubled as f64 / 2.0 / 60_000_000.0;
    assert!((minutes - 30.0).abs() < 1e-6);
    assert_eq!(m.thread_count, 2);
}

#[test]
fn h2_safety_test_empty_messages_zero() {
    let cfg = CommConfig::default();
    let input = AnalysisInput {
        messages: &[],
        channels: &[],
        users: &[],
        reactions: &[],
        config: &cfg,
    };
    let m = compute_h2(&input).unwrap();
    assert_eq!(m.sample_size, 0);
    assert_eq!(rate(m.hedging, m.sample_size), 0.0);
    assert!(m.escalation_delays.is_empty());
}

#[test]
fn test_rates_and_escalation() {
    let cfg = CommConfig::default();
    let msgs = vec![
        msg("C1", "M1", "U1", "とりあえずFYIで雑にメモ", ts(100), None),
        msg("C1", "M2", "U2", "障害が発生しました", ts(200), None),
        msg("C1", "M3", "U3", "確認します", ts(260), Some("M2")),
        msg("C1", "M4", "U4", "通常の発言です", ts(300), None),
    ];
    let input = AnalysisInput {
        messages: &msgs,
        channels: &[],
        users: &[],
        reactions: &[],
        config: &cfg,
    };
    let m = compute_h2(&input).unwrap();
    assert_eq!(m.sample_size, 4);
    assert!(rate(m.hedging, m.sample_size) > 0.0);
    // 200 -> 260 = 60s = 1 min.
    let minutes = m.escalation_delay_median_doubled as f64 / 2.0 / 60_000_000.0;
    assert!((minutes - 1.0).abs() < 1e-6);
}

#[test]
fn test_gini_bounds() {
    let gini = |v: Vec<u64>| -> f64 {
        let (num, total) = gini_parts(&v);
        let den = 2 * v.len() as u128 * total;
        if den == 0 {
            0.0
        } else {
            num as f64 / den as f64
        }
    };
    assert_eq!(gini(vec![]), 0.0);
    assert_eq!(gini(vec![0, 0]), 0.0);
    let g = gini(vec![0, 0, 10]);
    assert!((0.0..=1.0).contains(&g));
    assert_eq!(gini_parts(&vec![0, 0, 10]), (40, 10));
    assert_eq!(gini_parts(&vec![5, 5, 5]), (0, 15));
}

#[test]
fn test_compute_h3_bounds() {
    let mut cfg = CommConfig::default();
    cfg.roles.push(RoleEntry {
        user_id: "MGR".to_string(),
        role: Role::Manager,
        seniority_level: 4,
        team: None,
    });
    let msgs = vec![
        msg("C1", "M0", "MGR", "ルートメッセージ", ts(100), Some("M0")),
        msg("C1", "M1", "S1", "しかし別の見方があります", ts(110), Some("M0")),
        msg("C1", "M2", "S2", "確認しました", ts(120), Some("M0")),
        msg("C1", "M3", "S1", "通常発言", ts(130), None),
    ];
    let channels = vec![channel("C1", "general")];
    let input = AnalysisInput {
        messages: &msgs,
        channels: &channels,
        users: &[],
        reactions: &[],
        config: &cfg,
    };
    let m = compute_h3(&input).unwrap();
    let (acyclic, n) = m.hierarchy;
    assert_eq!(n, 3);
    assert!((acyclic as f64 / n as f64 - 1.0).abs() < 1e-9);
    let to_manager = rate(m.dissent_to_manager, m.replies_to_manager);
    assert!((0.0..=1.0).contains(&to_manager));
    assert!(to_manager > 0.0);
    assert_eq!((m.replies_to_manager, m.dissent_to_manager), (2, 1));
    let gini = m.gini_numerator as f64 / (2.0 * n as f64 * m.received_total as f64);
    assert!((0.0..=1.0).contains(&gini));
    assert_eq!(m.received, vec![2, 0, 0]);
    assert_eq!(m.channels.len(), 1);
    assert_eq!(m.channels[0].label, "general");
    assert_eq!(m.channels[0].counts, vec![1, 2, 1]);
}

#[test]
fn test_h3_scope_and_manager_reactions() {
    let mut cfg = CommConfig::default();
    cfg.roles.push(RoleEntry {
        user_id: "BOSS".to_string(),
        role: Role::Exec,
        seniority_level: 5,
        team: None,
    });
    let msgs = vec![
        msg("Z9", "A1", "BOSS", "方針です", ts(1), None),
        msg("C1", "A2", "U1", "hello", ts(2), None),
        msg("B2", "A3", "U2", "hi", ts(3), None),
        msg("B2", "A4", "U2", "again", ts(4), None),
    ];
    let channels = vec![channel("C1", "general"), channel("C0", "empty")];
    let reactions = vec![
        Reaction {
            message_id: "A1".to_string(),
            channel_id: "Z9".to_string(),
            user_id: "U1".to_string(),
            emoji_name: ":THUMBSUP:".to_string(),
        },
        Reaction {
            message_id: "A1".to_string(),
            channel_id: "Z9".to_string(),
            user_id: "BOSS".to_string(),
            emoji_name: "+1".to_string(),
        },
        Reaction {
            message_id: "A1".to_string(),
            channel_id: "Z9".to_string(),
            user_id: "U2".to_string(),
            emoji_name: "eyes".to_string(),
        },
    ];
    let input = AnalysisInput {
        messages: &msgs,
        channels: &channels,
        users: &[],
        reactions: &reactions,
        config: &cfg,
    };
    let m = compute_h3(&input).unwrap();
    let labels: Vec<&str> = m.channels.iter().map(|c| c.label.as_str()).collect();
    // declared channels first (those with messages), then the others ascending
    assert_eq!(labels, vec!["general", "B2", "Z9"]);
    assert_eq!(m.channels[1].counts, vec![2]);
    assert_eq!(m.manager_messages, 1);
    assert_eq!(m.manager_agreements, 1);
    assert!(is_agreement(" :Ok_Hand: "));
    assert!(is_agreement("👍"));
    assert!(!is_agreement("eyes"));
}

#[test]
fn h4_consensus_test_empty_messages_zero() {
    let cfg = CommConfig::default();
    let input = AnalysisInput {
        messages: &[],
        channels: &[],
        users: &[],
        reactions: &[],
        config: &cfg,
    };
    let m = compute_h4(&input).unwrap();
    assert_eq!(rate(m.surface_agreement, m.total), 0.0);
    assert_eq!(m.execution_delay_median_doubled, 0);
    assert_eq!(rate(m.dissent_after_agreement, m.agreement_events), 0.0);
}

#[test]
fn test_execution_delay_and_surface_rate() {
    let cfg = CommConfig::default();
    let msgs = vec![
        msg("C1", "M1", "U1", "対応します", ts(1000), None),
        msg("C1", "M2", "U2", "承知しました", ts(1100), None),
        msg("C1", "M3", "U1", "修正しました", ts(8200), None),
        msg("C1", "M4", "U3", "ただの雑談", ts(1200), None),
    ];
    let input = AnalysisInput {
        messages: &msgs,
        channels: &[],
        users: &[],
        reactions: &[],
        config: &cfg,
    };
    let m = compute_h4(&input).unwrap();
    let hours = m.execution_delay_median_doubled as f64 / 2.0 / 3_600_000_000.0;
    assert!((hours - 2.0).abs() < 1e-6);
    assert!((rate(m.surface_agreement, m.total) - 0.25).abs() < 1e-9);
}

#[test]
fn test_post_meeting_dissent_cross_channel() {
    let mut cfg = CommConfig::default();
    cfg.channels.push(ChannelEntry {
        pattern: "^decisions$".to_string(),
        category: ChannelCategory::Official,
        is_decision_channel: true,
    });
    let channels = vec![channel("C_DEC", "decisions"), channel("C_DM", "random")];
    let msgs = vec![
        msg("C_DEC", "M1", "U1", "承知しました", ts(10000), None),
        msg("C_DM", "M2", "U1", "ただ、しかし懸念があります", ts(13600), None),
    ];
    let input = AnalysisInput {
        messages: &msgs,
        channels: &channels,
        users: &[],
        reactions: &[],
        config: &cfg,
    };
    let m = compute_h4(&input).unwrap();
    assert!((rate(m.dissent_after_agreement, m.agreement_events) - 1.0).abs() < 1e-9);
}

#[test]
fn h5_diversity_test_empty_messages_zero() {
    let cfg = CommConfig::default();
    let input = AnalysisInput {
        messages: &[],
        channels: &[],
        users: &[],
        reactions: &[],
        config: &cfg,
    };
    let m = compute_h5(&input, &WhitespaceMorphology).unwrap();
    assert_eq!(rate(m.unresolved_threads, m.thread_count), 0.0);
    assert!(m.months.is_empty());
}

#[test]
fn test_unresolved_ratio_and_retention() {
    let cfg = CommConfig::default();
    let msgs = vec![
        msg("C1", "M1", "U1", "提案Aです", ts(1000), None),
        msg("C1", "M2", "U2", "結論はAで決定", ts(1500), Some("M1")),
        msg("C1", "M3", "U1", "提案Bです 保留", ts(5000), None),
        msg("C1", "M4", "U2", "まだ❓のままです", ts(8600), Some("M3")),
    ];
    let input = AnalysisInput {
        messages: &msgs,
        channels: &[],
        users: &[],
        reactions: &[],
        config: &cfg,
    };
    let m = compute_h5(&input, &WhitespaceMorphology).unwrap();
    assert!((rate(m.unresolved_threads, m.thread_count) - 0.5).abs() < 1e-9);
    let hours = m.retention_median_doubled as f64 / 2.0 / 3_600_000_000.0;
    assert!((hours - 1.0).abs() < 1e-6);
}

#[test]
fn test_novel_vocabulary_two_months() {
    let cfg = CommConfig::default();
    let msgs = vec![
        msg("C1", "M1", "U1", "database design meeting january", ts(1_735_732_800), None),
        msg("C1", "M2", "U2", "database design new architecture", ts(1_738_454_400), None),
    ];
    let input = AnalysisInput {
        messages: &msgs,
        channels: &[],
        users: &[],
        reactions: &[],
        config: &cfg,
    };
    let m = compute_h5(&input, &WhitespaceMorphology).unwrap();
    assert_eq!(m.months.len(), 2);
    assert!(m.months[0].month < m.months[1].month);
    assert_eq!(m.months[0].month, "2025-01");
    assert_eq!(m.months[1].month, "2025-02");
    // First month is all-novel.
    assert!((rate(m.months[0].novel, m.months[0].distinct) - 1.0).abs() < 1e-9);
    let second = rate(m.months[1].novel, m.months[1].distinct);
    assert!((0.0..=1.0).contains(&second));
    assert_eq!((m.months[1].novel, m.months[1].distinct), (2, 4));
}

#[test]
fn test_h3_dissent_rates_within_replies() {
    let mut cfg = CommConfig::default();
    cfg.roles.push(RoleEntry {
        user_id: "MGR".to_string(),
        role: Role::Manager,
        seniority_level: 4,
        team: None,
    });
    cfg.roles.push(RoleEntry {
        user_id: "S1".to_string(),
        role: Role::Staff,
        seniority_level: 1,
        team: None,
    });
    let msgs = vec![
        msg("C1", "M0", "MGR", "方針です", ts(100), None),
        msg("C1", "M1", "S1", "しかし懸念があります", ts(110), Some("M0")),
        msg("C1", "M2", "S2", "でも別案も", ts(120), Some("M0")),
        msg("C1", "S0", "S1", "提案です", ts(200), None),
        msg("C1", "S3", "MGR", "了解", ts(210), Some("S0")),
    ];
    let input = AnalysisInput {
        messages: &msgs,
        channels: &[],
        users: &[],
        reactions: &[],
        config: &cfg,
    };
    let m = compute_h3(&input).unwrap();
    assert!(m.dissent_to_manager <= m.replies_to_manager);
    assert!(m.dissent_to_staff <= m.replies_to_staff);
    assert!(m.replies_to_manager <= msgs.len());
    assert_eq!(m.replies_to_manager, 2);
    assert_eq!(m.replies_to_staff, 1);
    assert_eq!(m.dissent_to_staff, 0);
}

#[test]
fn test_h5_ratios_within_bounds() {
    let cfg = CommConfig::default();
    let msgs = vec![
        msg("C1", "R1", "U1", "結論: 採用", ts(1_735_732_800), None),
        msg("C1", "R2", "U2", "了解", ts(1_735_732_900), Some("R1")),
        msg("C1", "T1", "U1", "未整理ですが案です", ts(1_735_733_000), None),
        msg("C1", "T2", "U2", "保留で", ts(1_735_736_600), Some("T1")),
        msg("C1", "L", "U3", "alpha alpha beta", ts(1_738_454_400), None),
    ];
    let input = AnalysisInput {
        messages: &msgs,
        channels: &[],
        users: &[],
        reactions: &[],
        config: &cfg,
    };
    let m = compute_h5(&input, &WhitespaceMorphology).unwrap();
    assert_eq!(m.thread_count, 2);
    assert_eq!(m.unresolved_threads, 1);
    assert!(m.unresolved_threads <= m.thread_count);
    for mv in &m.months {
        assert!(mv.novel <= mv.distinct);
    }
}
