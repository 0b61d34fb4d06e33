use community_analyzer::config::{ModelSet, NlpSidecarConfig};
use community_analyzer::error::CommError;
use community_analyzer::sidecar::sidecar_command;
use community_analyzer::nlp::{
    ceil_sqrt, cluster_plan, download_all, download_models, fallback_bucketing,
    labels_from_clusters, parse_llm_stance_label, resolve_models, stance_from_label, ClusterPlan, MockNlp, Profile, StanceLabel,
};

#[test]
fn mock_sentiment_matches_python_contract() {
    // h = sum of code points; P=((h%201)-100)/100; M=(h%100)/100.
    let nlp = MockNlp;
    let text = "これはテスト";
    let h: u32 = text.chars().map(|c| c as u32).sum();
    let (p, m) = nlp.sentiment_centi(text);
    let polarity = p as f32 / 100.0;
    let magnitude = m as f32 / 100.0;
    assert!((polarity - (((h % 201) as i64 - 100) as f32 / 100.0)).abs() < 1e-9);
    assert!((magnitude - ((h % 100) as f32 / 100.0)).abs() < 1e-9);
    assert!((-1.0..=1.0).contains(&polarity));
    assert!((0.0..=1.0).contains(&magnitude));
}

#[test]
fn mock_sentiment_is_deterministic() {
    let nlp = MockNlp;
    let a = nlp.sentiment_centi("hello");
    let b = nlp.sentiment_centi("hello");
    assert_eq!(a, b);
    // "hello" = 532 -> 532 % 201 = 130 -> 30; 532 % 100 = 32
    assert_eq!(a, (30, 32));
}

#[test]
fn mock_stance_is_neutral_half() {
    let nlp = MockNlp;
    assert_eq!(nlp.stance_label(), StanceLabel::Neutral);
}

#[test]
fn mock_cluster_contract() {
    let nlp = MockNlp;
    let r = nlp.cluster(6, 2);
    // k = max(1, 6 / 2) = 3; labels[i] = i % 3.
    assert_eq!(r.num_clusters, 3);
    assert_eq!(r.labels, vec![0, 1, 2, 0, 1, 2]);

    // min_cluster_size 0 must not divide-by-zero (treated as 1).
    let r0 = nlp.cluster(6, 0);
    assert_eq!(r0.num_clusters, 6);

    // Empty input => k=max(1,0)=1, no labels.
    let re = nlp.cluster(0, 4);
    assert_eq!(re.num_clusters, 1);
    assert!(re.labels.is_empty());
}

#[test]
fn mock_embed_bytes_are_digest_prefix() {
    let nlp = MockNlp;
    // SHA-256("") starts with e3 b0 c4 42 98 fc 1c 14
    assert_eq!(nlp.embed_bytes(""), vec![0xe3, 0xb0, 0xc4, 0x42, 0x98, 0xfc, 0x1c, 0x14]);
    assert_eq!(nlp.embed_bytes("x").len(), 8);
}

#[test]
fn empty_input() {
    assert_eq!(cluster_plan(&vec![], 5), ClusterPlan::Empty);
    let r = fallback_bucketing(0);
    assert_eq!(r.num_clusters, 0);
    assert!(r.labels.is_empty());
}

#[test]
fn ragged_input_errors() {
    assert_eq!(cluster_plan(&vec![2, 1], 2), ClusterPlan::Ragged);
    assert_eq!(cluster_plan(&vec![0, 0], 2), ClusterPlan::Ragged);
}

#[test]
fn small_input_uses_fallback() {
    // n=3 < min_cluster_size=5 -> fallback k=ceil(sqrt(3))=2.
    assert_eq!(cluster_plan(&vec![2, 2, 2], 5), ClusterPlan::Bucket);
    let r = fallback_bucketing(3);
    assert_eq!(r.labels.len(), 3);
    assert!(r.num_clusters >= 1);
    assert_eq!(r.num_clusters, 2);
    assert_eq!(r.labels, vec![0, 1, 0]);
}

#[test]
fn test_cluster_plan_runs_hdbscan() {
    assert_eq!(cluster_plan(&vec![2; 12], 3), ClusterPlan::Hdbscan(3));
    assert_eq!(cluster_plan(&vec![2; 12], 0), ClusterPlan::Hdbscan(2));
}

#[test]
fn test_labels_from_clusters() {
    let r = labels_from_clusters(5, &vec![vec![0, 1], vec![3, 9]]);
    assert_eq!(r.num_clusters, 2);
    assert_eq!(r.labels, vec![0, 0, -1, 1, -1]);
    let none = labels_from_clusters(4, &vec![]);
    assert_eq!(none.num_clusters, 2);
    assert_eq!(none.labels, vec![0, 1, 0, 1]);
}

#[test]
fn test_ceil_sqrt() {
    assert_eq!(ceil_sqrt(0), 0);
    assert_eq!(ceil_sqrt(1), 1);
    assert_eq!(ceil_sqrt(4), 2);
    assert_eq!(ceil_sqrt(5), 3);
    assert_eq!(ceil_sqrt(100), 10);
    assert_eq!(ceil_sqrt(101), 11);
}

#[test]
fn test_download_plan() {
    let fast = download_models(Profile::Fast);
    assert_eq!(
        fast,
        vec![
            "cl-nagoya/ruri-v3-30m".to_string(),
            "Mizuiro-sakura/bert-base-japanese-v2-wrime-fine-tune".to_string(),
            "Formzu/bert-base-japanese-jsnli".to_string(),
        ]
    );
    let quality = download_models(Profile::Quality);
    assert_eq!(quality.len(), 4);
    assert_eq!(quality[3], "sbintuitions/sarashina2.2-3b-instruct-v0.1");
    assert_eq!(download_all().len(), 10);
    let ms = ModelSet::default_for(Profile::Balanced);
    assert_eq!(ms.embedding, "cl-nagoya/ruri-v3-130m");
    assert_eq!(ms.stance_mode, "nli");
    assert!(ms.stance_llm.is_empty());
    assert_eq!(Profile::from_str_lenient(" Quality "), Profile::Quality);
    assert_eq!(Profile::from_str_lenient("whatever"), Profile::Balanced);
}

#[test]
fn test_sidecar_command() {
    let mut cfg = NlpSidecarConfig::default();
    cfg.script = "tools/nlp.py".to_string();
    cfg.device = "cpu".to_string();
    let (program, args) = sidecar_command(&cfg, true).unwrap();
    assert_eq!(program, "uv");
    assert_eq!(
        args,
        vec!["run", "python", "tools/nlp.py", "--profile", "balanced", "--device", "cpu", "--mock"]
    );
    let (_, plain) = sidecar_command(&cfg, false).unwrap();
    assert_eq!(plain.len(), 7);
    cfg.python = " \t ".to_string();
    match sidecar_command(&cfg, false) {
        Err(CommError::Nlp(m)) => assert_eq!(m, "empty python command"),
        _ => panic!("expected an nlp error"),
    }
}

fn vocab() -> community_analyzer::wordpiece::WordPieceVocab {
    let lines: Vec<String> = ["[PAD]", "[UNK]", "[CLS]", "[SEP]", "東京", "##タワー", "タワー", "は", "東"]
        .iter()
        .map(|s| s.to_string())
        .collect();
    community_analyzer::wordpiece::WordPieceVocab::from_lines(lines)
}

#[test]
fn test_wordpiece_greedy_longest_match() {
    let v = vocab();
    assert_eq!((v.unk_id, v.cls_id, v.sep_id), (1, 2, 3));
    let mut out = Vec::new();
    v.wordpiece("東京タワー", &mut out);
    assert_eq!(out, vec![4, 5]);
    v.wordpiece("xyz", &mut out);
    assert_eq!(out, vec![4, 5, 1]);
    v.wordpiece("東x", &mut out);
    assert_eq!(out, vec![4, 5, 1, 1]);
    v.wordpiece("", &mut out);
    assert_eq!(out.len(), 4);
}

#[test]
fn test_wordpiece_encode_pair() {
    let v = vocab();
    let a = vec!["東京タワー".to_string(), "は".to_string()];
    let b = vec!["は".to_string()];
    let (ids, mask, types) = v.encode(&a, Some(&b));
    assert_eq!(ids, vec![2, 4, 5, 7, 3, 7, 3]);
    assert_eq!(mask, vec![1; 7]);
    assert_eq!(types, vec![0, 0, 0, 0, 0, 1, 1]);
    let (single, _, t) = v.encode(&a, None);
    assert_eq!(single, vec![2, 4, 5, 7, 3]);
    assert_eq!(t, vec![0; 5]);
}

#[test]
fn test_wordpiece_defaults_without_special_tokens() {
    let v = community_analyzer::wordpiece::WordPieceVocab::from_lines(vec!["a".to_string()]);
    assert_eq!((v.unk_id, v.cls_id, v.sep_id), (1, 2, 3));
}

#[test]
fn test_model_set_defaults_per_profile() {
    let mut cfg = NlpSidecarConfig::default();
    assert_eq!(cfg.profile(), Profile::Balanced);
    assert_eq!(cfg.model_set().embedding, "cl-nagoya/ruri-v3-130m");
    cfg.profile = " FAST ".to_string();
    assert_eq!(cfg.profile(), Profile::Fast);
    assert_eq!(cfg.model_set().embedding, "cl-nagoya/ruri-v3-30m");
    cfg.profile = "quality".to_string();
    let ms = cfg.model_set();
    assert_eq!(ms.stance_mode, "llm");
    assert_eq!(ms.stance_llm, "sbintuitions/sarashina2.2-3b-instruct-v0.1");
}

#[test]
fn test_model_set_configured_overrides() {
    let mut cfg = NlpSidecarConfig::default();
    cfg.models.balanced = Some(ModelSet {
        embedding: "my/embedder".to_string(),
        ..ModelSet::default()
    });
    let ms = cfg.model_set();
    assert_eq!(ms.embedding, "my/embedder");
    assert_eq!(ms.sentiment, "");
    // the fast profile is not configured: built-in models
    cfg.profile = "fast".to_string();
    assert_eq!(cfg.model_set().embedding, "cl-nagoya/ruri-v3-30m");
}

#[test]
fn test_resolve_models_fallbacks() {
    let mut cfg = NlpSidecarConfig::default();
    cfg.embed_batch_size = 0;
    cfg.models.balanced = Some(ModelSet::default());
    let r = resolve_models(&cfg);
    assert_eq!(r.stance_mode, "nli");
    assert_eq!(r.passage_prefix, "文章: ");
    assert_eq!(r.embed_batch_size, 1);
    assert_eq!(r.embedding_id, "");

    let mut cfg = NlpSidecarConfig::default();
    cfg.ruri_prefix.passage = "passage: ".to_string();
    cfg.embed_batch_size = 16;
    let r = resolve_models(&cfg);
    assert_eq!(r.passage_prefix, "passage: ");
    assert_eq!(r.embed_batch_size, 16);
    assert_eq!(r.stance_mode, "nli");
    assert_eq!(r.stance_id, "Formzu/bert-base-japanese-jsnli");
}

#[test]
fn parse_llm_stance_ok() {
    let s = parse_llm_stance_label(r#"回答: {"label": "disagree", "reason": "反対している"}"#).unwrap();
    assert_eq!(s, StanceLabel::Disagree);
}

#[test]
fn parse_llm_stance_clarify_and_garbage() {
    assert_eq!(parse_llm_stance_label(r#"{"label":"clarify"}"#).unwrap(), StanceLabel::Clarify);
    assert!(parse_llm_stance_label("no json here").is_none());
    assert!(parse_llm_stance_label(r#"{"label":"???"}"#).is_none());
}

#[test]
fn test_llm_stance_edge_cases() {
    // the first `}` closes the object; trailing text is ignored
    assert_eq!(
        parse_llm_stance_label(r#"x {"label": " Support "} y {"label": "neutral"}"#),
        Some(StanceLabel::Support)
    );
    // an unclosed object, a non-string label, a missing label
    assert!(parse_llm_stance_label(r#"{"label": "support""#).is_none());
    assert!(parse_llm_stance_label(r#"{"label": 3}"#).is_none());
    assert!(parse_llm_stance_label(r#"{"reason": "x"}"#).is_none());
    assert_eq!(stance_from_label("NEUTRAL"), Some(StanceLabel::Neutral));
    assert_eq!(stance_from_label("agree"), None);
}
