use community_analyzer::analysis::group_threads;
use community_analyzer::config::{ChannelEntry, CommConfig};
use community_analyzer::metrics::enrich::{
    capped_by_ts, category_of, is_proposal_exec, plan_h1, plan_h4, plan_h5, stance_dissent_spans,
};
use community_analyzer::models::ChannelCategory;
use community_analyzer::types::{AnalysisInput, Channel, Message, Reaction};

fn ts(secs: i64) -> i64 {
    secs * 1_000_000
}

fn msg(ch: &str, id: &str, u: &str, text: &str, t: i64, root: Option<&str>) -> Message {
    Message {
        id: id.to_string(),
        channel_id: ch.to_string(),
        author_id: u.to_string(),
        text: text.to_string(),
        timestamp: t,
        thread_root_id: root.map(String::from),
        reaction_count: 0,
    }
}

fn react(mid: &str, ch: &str, u: &str, e: &str) -> Reaction {
    Reaction {
        message_id: mid.to_string(),
        channel_id: ch.to_string(),
        user_id: u.to_string(),
        emoji_name: e.to_string(),
    }
}

fn channel(id: &str, name: &str) -> Channel {
    Channel {
        id: id.to_string(),
        name: name.to_string(),
        category: None,
        is_decision_channel: false,
    }
}

fn cfg_with_channels() -> CommConfig {
    let mut c = CommConfig::default();
    c.channels.push(ChannelEntry {
        pattern: "^proj-.*".into(),
        category: ChannelCategory::Official,
        is_decision_channel: true,
    });
    c.channels.push(ChannelEntry {
        pattern: "^times-.*".into(),
        category: ChannelCategory::Casual,
        is_decision_channel: false,
    });
    c
}

#[test]
fn test_agreement_reacted_ids() {
    let msgs = vec![
        msg("C1", "M1", "U1", "ok", ts(1), None),
        msg("C1", "M2", "U1", "no", ts(2), None),
        msg("C1", "M3", "U1", "plain", ts(3), None),
    ];
    let reactions = vec![react("M1", "C1", "U2", "+1"), react("M2", "C1", "U2", "eyes")];
    let cfg = CommConfig::default();
    let input = AnalysisInput {
        messages: &msgs,
        channels: &[],
        users: &[],
        reactions: &reactions,
        config: &cfg,
    };
    let plan = plan_h4(&input);
    let ids: Vec<&str> = plan.reacted.iter().map(|m| m.id.as_str()).collect();
    assert!(ids.contains(&"M1"));
    assert!(!ids.contains(&"M2"));
    assert!(!ids.contains(&"M3"));
}

#[test]
fn test_self_reaction_is_not_agreement() {
    let msgs = vec![msg("C1", "M1", "U1", "ok", ts(1), None)];
    let reactions = vec![react("M1", "C1", "U1", "+1")];
    let cfg = CommConfig::default();
    let input = AnalysisInput {
        messages: &msgs,
        channels: &[],
        users: &[],
        reactions: &reactions,
        config: &cfg,
    };
    assert!(plan_h4(&input).reacted.is_empty());
}

#[test]
fn test_h4_samples_by_category() {
    let cfg = cfg_with_channels();
    let channels = vec![channel("C_OFF", "proj-x"), channel("C_CAS", "times-foo")];
    let msgs = vec![
        msg("C_OFF", "O2", "U1", "b", ts(20), None),
        msg("C_CAS", "K1", "U2", "c", ts(5), None),
        msg("C_OFF", "O1", "U1", "a", ts(10), None),
        msg("C_X", "X1", "U3", "d", ts(1), None),
    ];
    let input = AnalysisInput {
        messages: &msgs,
        channels: &channels,
        users: &[],
        reactions: &[],
        config: &cfg,
    };
    assert_eq!(category_of(&input, "C_OFF"), ChannelCategory::Official);
    assert_eq!(category_of(&input, "C_X"), ChannelCategory::Unknown);
    let plan = plan_h4(&input);
    let public: Vec<&str> = plan.public.iter().map(|m| m.id.as_str()).collect();
    assert_eq!(public, vec!["O1", "O2"]);
    assert_eq!(plan.casual.len(), 1);

    let only_public = AnalysisInput {
        messages: &msgs[..1],
        channels: &channels,
        users: &[],
        reactions: &[],
        config: &cfg,
    };
    let plan = plan_h4(&only_public);
    assert!(plan.public.is_empty() && plan.casual.is_empty());
}

#[test]
fn test_capped_by_ts_stable() {
    let msgs = vec![
        msg("C", "a", "U", "", ts(3), None),
        msg("C", "b", "U", "", ts(1), None),
        msg("C", "c", "U", "", ts(3), None),
        msg("C", "d", "U", "", ts(2), None),
    ];
    let ids: Vec<String> = capped_by_ts(&msgs, 3).into_iter().map(|m| m.id).collect();
    assert_eq!(ids, vec!["b", "d", "a"]);
    assert_eq!(capped_by_ts(&msgs, 10).len(), 4);
}

#[test]
fn test_h1_plan_and_stance_spans() {
    let msgs = vec![
        msg("C1", "R1", "U1", "提案", ts(100), None),
        msg("C1", "X1", "U2", "反対", ts(160), Some("R1")),
        msg("C1", "X2", "U3", "反対", ts(400), Some("R1")),
        msg("C1", "R2", "U1", "single", ts(500), None),
        msg("C2", "R3", "U1", "two", ts(600), None),
        msg("C2", "Y1", "U2", "reply", ts(700), Some("R3")),
    ];
    let groups = group_threads(&msgs);
    let plan = plan_h1(&groups);
    // groups: (C1,R1) 3 msgs, (C1,R2) 1 msg, (C2,R3) 2 msgs
    assert_eq!(plan.change_threads, vec![0, 2]);
    assert_eq!(plan.regression_threads, vec![0]);
    assert_eq!(plan.stance_queue, vec![(0, 0), (0, 1), (0, 2), (2, 0), (2, 1)]);
    let disagree = vec![false, true, true, false, false];
    let (spans, median2) = stance_dissent_spans(&groups, &disagree);
    assert_eq!(spans, vec![ts(240) as i128]);
    assert_eq!(median2, 2 * ts(240) as i128);
}

#[test]
fn test_h5_plan() {
    let cfg = CommConfig::default();
    let jan = 1_735_732_800_i64;
    let feb = 1_738_454_400_i64;
    let mut msgs = Vec::new();
    for i in 0..4 {
        msgs.push(msg("C", &format!("J{i}"), "U", "雑談", ts(jan + i), None));
    }
    msgs.push(msg("C", "F0", "U", "雑談", ts(feb), None));
    msgs.push(msg("C", "P1", "U", "提案: A 案", ts(jan + 100), None));
    msgs.push(msg("C", "P2", "U2", "別案ですが", ts(jan + 110), Some("P1")));
    let input = AnalysisInput {
        messages: &msgs,
        channels: &[],
        users: &[],
        reactions: &[],
        config: &cfg,
    };
    let groups = group_threads(&msgs);
    let plan = plan_h5(&input, &groups);
    assert_eq!(plan.min_cluster_size, 4);
    assert_eq!(plan.proposal_threads.len(), 1);
    assert_eq!(plan.proposal_threads[0].len(), 2);
    assert_eq!(plan.months.len(), 1);
    assert_eq!(plan.months[0].0, "2025-01");
    assert_eq!(plan.months[0].1.len(), 6);
    assert!(is_proposal_exec("これはアイデアです"));
    assert!(!is_proposal_exec("雑談"));
}
