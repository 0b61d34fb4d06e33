use community_analyzer::analysis::group_threads;
use community_analyzer::error::CommError;
use community_analyzer::period::{apply_filters, PeriodFilter};
use community_analyzer::types::Message;

const SEC: i64 = 1_000_000;

fn ts(secs: i64) -> i64 {
    secs * SEC
}

fn msg(ch: &str, id: &str, ts: i64, root: Option<&str>) -> Message {
    Message {
        id: id.to_string(),
        channel_id: ch.to_string(),
        author_id: "U".to_string(),
        text: String::new(),
        timestamp: ts,
        thread_root_id: root.map(String::from),
        reaction_count: 0,
    }
}

/// 00:00:00 UTC of a date, in seconds since the epoch.
fn day(y: i64, m: i64, d: i64) -> i64 {
    let yy = if m <= 2 { y - 1 } else { y };
    let era = yy.div_euclid(400);
    let yoe = yy - era * 400;
    let mp = if m > 2 { m - 3 } else { m + 9 };
    let doy = (153 * mp + 2) / 5 + d - 1;
    let doe = yoe * 365 + yoe / 4 - yoe / 100 + doy;
    (era * 146097 + doe - 719468) * 86_400
}

#[test]
fn test_group_threads_groups_and_orders() {
    let root = "M1";
    let msgs = vec![
        msg("C1", "M1", ts(100), None),
        msg("C1", "M2", ts(120), Some(root)),
        msg("C1", "M3", ts(110), Some(root)),
        msg("C2", "M4", ts(300), None),
        msg("C2", "M5", ts(310), Some("M4")),
    ];
    let groups = group_threads(&msgs);
    assert_eq!(groups.len(), 2);
    let g1 = groups
        .iter()
        .find(|g| g.channel_id == "C1" && g.thread_key == "M1")
        .expect("C1 thread");
    assert_eq!(g1.messages.len(), 3);
    assert_eq!(g1.messages[0].id, "M1");
    assert_eq!(g1.messages[1].id, "M3");
    assert_eq!(g1.messages[2].id, "M2");
}

#[test]
fn test_group_threads_root_as_self_id() {
    // Adapter encodes a root as `thread_root_id = Some(self.id)`.
    let msgs = vec![
        msg("C1", "M1", ts(100), Some("M1")),
        msg("C1", "M2", ts(110), Some("M1")),
    ];
    let groups = group_threads(&msgs);
    assert_eq!(groups.len(), 1);
    assert_eq!(groups[0].thread_key, "M1");
    assert_eq!(groups[0].messages.len(), 2);
}

#[test]
fn test_group_threads_sorted_by_channel_then_key() {
    let msgs = vec![
        msg("C2", "A", ts(1), None),
        msg("C1", "B", ts(2), None),
        msg("C1", "A", ts(3), None),
    ];
    let groups = group_threads(&msgs);
    let keys: Vec<(String, String)> = groups
        .iter()
        .map(|g| (g.channel_id.clone(), g.thread_key.clone()))
        .collect();
    assert_eq!(
        keys,
        vec![
            ("C1".to_string(), "A".to_string()),
            ("C1".to_string(), "B".to_string()),
            ("C2".to_string(), "A".to_string()),
        ]
    );
}

#[test]
fn test_quarter_fy_q4_with_april_start() {
    let pf = PeriodFilter::quarter("FY2025-Q4", 4).unwrap();
    let from = pf.from.unwrap();
    let to = pf.to.unwrap();
    assert_eq!(from, day(2026, 1, 1) * SEC);
    assert_eq!(to, (day(2026, 3, 31) + 86_399) * SEC);
}

#[test]
fn test_quarter_other_forms() {
    for spec in ["Q4-2025", "2025-Q4", "2025Q4", "FY2025-Q4"] {
        let pf = PeriodFilter::quarter(spec, 4).unwrap();
        assert!(pf.from.is_some());
        assert_eq!(pf.from, Some(day(2026, 1, 1) * SEC));
    }
}

#[test]
fn test_quarter_calendar_year_and_errors() {
    let pf = PeriodFilter::quarter(" q1-2024 ", 1).unwrap();
    assert_eq!(pf.from, Some(day(2024, 1, 1) * SEC));
    assert_eq!(pf.to, Some((day(2024, 3, 31) + 86_399) * SEC));
    let pf = PeriodFilter::quarter("2024Q4", 1).unwrap();
    assert_eq!(pf.to, Some((day(2024, 12, 31) + 86_399) * SEC));
    match PeriodFilter::quarter("2025-Q5", 4) {
        Err(CommError::Config(m)) => assert_eq!(m, "invalid --quarter '2025-Q5'"),
        _ => panic!("expected a config error"),
    }
    assert!(PeriodFilter::quarter("garbage", 4).is_err());
}

#[test]
fn test_last_relative_to_anchor() {
    let anchor = ts(1_700_000_000);
    let pf = PeriodFilter::last("3m", anchor).unwrap();
    assert_eq!(pf.to.unwrap(), anchor);
    let expected_from = anchor - 90 * 86_400 * SEC;
    assert_eq!(pf.from.unwrap(), expected_from);
}

#[test]
fn test_last_units_and_errors() {
    let anchor = ts(1_700_000_000);
    assert_eq!(PeriodFilter::last("2w", anchor).unwrap().from, Some(anchor - 14 * 86_400 * SEC));
    assert_eq!(PeriodFilter::last("1y", anchor).unwrap().from, Some(anchor - 365 * 86_400 * SEC));
    assert_eq!(PeriodFilter::last("30d", anchor).unwrap().from, Some(anchor - 30 * 86_400 * SEC));
    match PeriodFilter::last("", anchor) {
        Err(CommError::Config(m)) => assert_eq!(m, "empty --last spec"),
        _ => panic!("expected a config error"),
    }
    match PeriodFilter::last("xm", anchor) {
        Err(CommError::Config(m)) => assert_eq!(m, "invalid --last 'xm'"),
        _ => panic!("expected a config error"),
    }
    match PeriodFilter::last("3q", anchor) {
        Err(CommError::Config(m)) => assert_eq!(m, "invalid --last unit in '3q' (expected d|w|m|y)"),
        _ => panic!("expected a config error"),
    }
}

#[test]
fn test_invalid_date_is_err() {
    assert!(PeriodFilter::from_dates(Some("2025-13-99"), None).is_err());
}

#[test]
fn test_from_dates_bounds() {
    let pf = PeriodFilter::from_dates(Some(" 2025-04-01 "), Some("2026-03-31")).unwrap();
    assert_eq!(pf.from, Some(day(2025, 4, 1) * SEC));
    assert_eq!(pf.to, Some((day(2026, 3, 31) + 86_399) * SEC));
    let none = PeriodFilter::from_dates(None, None).unwrap();
    assert!(none.from.is_none() && none.to.is_none());
    match PeriodFilter::from_dates(None, Some("nope")) {
        Err(CommError::Config(m)) => assert!(m.starts_with("invalid date 'nope': ")),
        _ => panic!("expected a config error"),
    }
}

#[test]
fn test_apply_filters_basic() {
    let msgs = vec![
        msg("C1", "a", ts(100), None),
        msg("C1", "b", ts(200), None),
        msg("C2", "c", ts(300), None),
    ];
    let pf = PeriodFilter {
        from: Some(ts(150)),
        to: Some(ts(250)),
    };
    let filtered = apply_filters(&msgs, &pf, &[]);
    assert_eq!(filtered.len(), 1);
    assert_eq!(filtered[0].id, "b");

    let filtered = apply_filters(&msgs, &PeriodFilter::default(), &["C2".to_string()]);
    assert_eq!(filtered.len(), 1);
    assert_eq!(filtered[0].channel_id, "C2");
}

#[test]
fn test_period_contains_is_inclusive() {
    let pf = PeriodFilter { from: Some(10), to: Some(20) };
    assert!(pf.contains(10));
    assert!(pf.contains(20));
    assert!(!pf.contains(9));
    assert!(!pf.contains(21));
    assert!(PeriodFilter::default().contains(i64::MIN));
}

#[test]
fn test_grouping_partitions_messages() {
    let msgs = vec![
        msg("C2", "B", ts(50), None),
        msg("C1", "A", ts(30), None),
        msg("C1", "A2", ts(10), Some("A")),
        msg("C2", "B2", ts(70), Some("B")),
        msg("C1", "A3", ts(20), Some("A")),
        msg("C1", "X", ts(40), Some("X")),
    ];
    let groups = group_threads(&msgs);
    let total: usize = groups.iter().map(|g| g.messages.len()).sum();
    assert_eq!(total, msgs.len());
    for m in &msgs {
        let key = m.thread_root_id.clone().unwrap_or_else(|| m.id.clone());
        let owners = groups
            .iter()
            .filter(|g| g.channel_id == m.channel_id && g.thread_key == key)
            .count();
        assert_eq!(owners, 1);
    }
    for g in &groups {
        for w in g.messages.windows(2) {
            assert!(w[0].timestamp <= w[1].timestamp);
        }
    }
    let ids: Vec<&str> = groups[0].messages.iter().map(|m| m.id.as_str()).collect();
    assert_eq!(ids, vec!["A2", "A3", "A"]);
}

#[test]
fn test_quarter_starts_before_it_ends() {
    for fsm in 1..=12u32 {
        for q in 1..=4 {
            let spec = format!("FY2025-Q{q}");
            let pf = PeriodFilter::quarter(&spec, fsm).unwrap();
            let (from, to) = (pf.from.unwrap(), pf.to.unwrap());
            assert!(from < to);
            // about three months long
            let days = (to - from) / (86_400 * SEC);
            assert!((88..=92).contains(&days), "{spec} from month {fsm}: {days} days");
        }
    }
}

#[test]
fn test_quarter_spellings_same_filter() {
    let base = PeriodFilter::quarter("FY2025-Q4", 4).unwrap();
    for spec in [
        "Q4-2025", "2025-Q4", "2025Q4", "fy2025-q4", "  q4-2025\t", " 2025q4 ", "\n2025-q4",
    ] {
        let pf = PeriodFilter::quarter(spec, 4).unwrap();
        assert_eq!((pf.from, pf.to), (base.from, base.to), "{spec:?}");
    }
    for spec in ["Q5-2025", "2025-Q0", "FY2025-Q9", "2025/Q4"] {
        assert!(matches!(PeriodFilter::quarter(spec, 4), Err(CommError::Config(_))), "{spec:?}");
    }
}
