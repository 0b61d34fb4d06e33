use community_analyzer::config::{CommConfig, RoleEntry};
use community_analyzer::graph::ReplyGraph;
use community_analyzer::models::Role;
use community_analyzer::types::Message;

fn msg(ch: &str, id: &str, u: &str, t: i64, root: Option<&str>) -> Message {
    Message {
        id: id.to_string(),
        channel_id: ch.to_string(),
        author_id: u.to_string(),
        text: String::new(),
        timestamp: t,
        thread_root_id: root.map(String::from),
        reaction_count: 0,
    }
}

fn cycle_messages() -> Vec<Message> {
    vec![
        msg("C1", "R1", "A", 1, None),
        msg("C1", "R2", "B", 2, Some("R2")),
        msg("C1", "X1", "B", 3, Some("R1")),
        msg("C1", "X2", "A", 4, Some("R2")),
        msg("C1", "X3", "C", 5, Some("R1")),
        msg("C1", "X4", "C", 6, Some("R1")),
        msg("C1", "X5", "A", 7, Some("R1")),
        msg("C1", "X6", "C", 8, Some("ZZ")),
        msg("C2", "X7", "C", 9, Some("R2")),
    ]
}

#[test]
fn test_reply_graph_nodes_and_edges() {
    let mut cfg = CommConfig::default();
    cfg.roles.push(RoleEntry {
        user_id: "A".to_string(),
        role: Role::Manager,
        seniority_level: 3,
        team: None,
    });
    let msgs = cycle_messages();
    let g = ReplyGraph::build(&msgs, &cfg);
    assert_eq!(g.node_count(), 3);
    let ids: Vec<&str> = g.nodes().iter().map(|n| n.user_id.as_str()).collect();
    assert_eq!(ids, vec!["A", "B", "C"]);
    let counts: Vec<usize> = g.nodes().iter().map(|n| n.message_count).collect();
    assert_eq!(counts, vec![3, 2, 4]);
    assert_eq!(g.node_role("A"), Some(Role::Manager));
    assert_eq!(g.node_role("B"), Some(Role::Unknown));
    assert_eq!(g.node_role("Z"), None);
    let edges: Vec<(usize, usize, u32)> = g
        .edges()
        .iter()
        .map(|e| (e.from, e.to, e.weight.reply_count))
        .collect();
    // B->A, A->B, C->A (twice); the self reply, the missing root and the
    // root in another channel are skipped
    assert_eq!(edges, vec![(1, 0, 1), (0, 1, 1), (2, 0, 2)]);
}

#[test]
fn test_replies_received_sorted_desc() {
    let msgs = cycle_messages();
    let g = ReplyGraph::build(&msgs, &CommConfig::default());
    let r = g.replies_received();
    assert_eq!(
        r,
        vec![("A".to_string(), 3), ("B".to_string(), 1), ("C".to_string(), 0)]
    );
    let out = g.degree_weights(false);
    assert_eq!(
        out,
        vec![("A".to_string(), 1), ("B".to_string(), 1), ("C".to_string(), 2)]
    );
}

#[test]
fn test_hierarchy_score_counts_cycle_members() {
    let msgs = cycle_messages();
    let g = ReplyGraph::build(&msgs, &CommConfig::default());
    // A and B reply to each other; C only replies
    assert_eq!(g.hierarchy_score(), (1, 3));
    let empty = ReplyGraph::build(&[], &CommConfig::default());
    assert_eq!(empty.hierarchy_score(), (0, 0));
}
