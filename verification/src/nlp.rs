//! NLP backend plumbing: stance labels, cluster results, the deterministic
//! mock backend's integer core, the bucketing fallback of the clusterer and
//! the model download plan of each profile.
//!
//! Inference itself (embeddings, sentiment scores, HDBSCAN) works on floats
//! and runs outside this crate; these functions decide and count around it.

use std::path::PathBuf;

use vstd::prelude::*;
use vstd::utf8::encode_utf8;

use crate::digest::{sha256, sha256_digest};
use crate::config::{ModelSet, NlpSidecarConfig};
use crate::strings::{lenient_key, owned, string_of, views};

verus! {

#[verifier::external_type_specification]
#[verifier::external_body]
pub struct ExPathBuf(PathBuf);

/// Discrete stance of a message relative to its thread context.
#[derive(Debug, Clone, Copy, PartialEq, Eq, Structural)]
pub enum StanceLabel {
    Support,
    Neutral,
    Disagree,
    Clarify,
}

/// The outcome of clustering a set of embeddings: `labels[i]` is the
/// cluster of point `i` (negative for noise); `num_clusters` counts the
/// clusters.
#[derive(Debug)]
pub struct ClusterResult {
    pub labels: Vec<i32>,
    pub num_clusters: u32,
}

/// Deterministic stub backend (no models, no network); the float parts of
/// its answers are derived from the integers computed here.
#[derive(Debug, Default, Clone, Copy)]
pub struct MockNlp;

/// Width of a mock embedding.
pub open spec fn mock_embed_dim() -> nat {
    8
}

/// Sum of the code points of `s`.
pub open spec fn code_point_sum(s: Seq<char>) -> nat
    decreases s.len(),
{
    if s.len() == 0 {
        0
    } else {
        code_point_sum(s.drop_last()) + (s.last() as u32) as nat
    }
}

/// `(100 * polarity, 100 * magnitude)` of the mock sentiment of a text whose
/// code points sum to `h`.
pub open spec fn mock_sentiment_centi(h: nat) -> (int, int) {
    ((h % 201) as int - 100, (h % 100) as int)
}

/// Round-robin labels `i % k` for `n` points.
pub open spec fn round_robin(labels: Seq<i32>, n: nat, k: nat) -> bool {
    &&& labels.len() == n
    &&& forall|i: int| 0 <= i < n ==> #[trigger] labels[i] == i % (k as int)
}

/// The mock cluster count: `max(1, n / max(1, min_cluster_size))`.
pub open spec fn mock_k(n: nat, min_cluster_size: nat) -> nat {
    let m = if min_cluster_size == 0 {
        1
    } else {
        min_cluster_size
    };
    let k = n / m;
    if k == 0 {
        1
    } else {
        k
    }
}

/// Round-robin labelling of `n` points into `k` clusters.
fn round_robin_labels(n: usize, k: usize) -> (r: Vec<i32>)
    requires
        0 < k <= i32::MAX,
    ensures
        round_robin(r@, n as nat, k as nat),
{
    let mut labels: Vec<i32> = Vec::new();
    let mut i: usize = 0;
    while i < n
        invariant
            i <= n,
            0 < k <= i32::MAX,
            labels@.len() == i,
            forall|j: int| 0 <= j < i ==> #[trigger] labels@[j] == j % (k as int),
        decreases n - i,
    {
        let l = i % k;
        labels.push(l as i32);
        i = i + 1;
    }
    labels
}

impl MockNlp {
    /// `h = Σ code points`; the mock sentiment is
    /// `polarity = ((h % 201) - 100) / 100`, `magnitude = (h % 100) / 100`.
    /// Returns the two numerators.
    pub fn sentiment_centi(&self, text: &str) -> (r: (i64, u32))
        requires
            code_point_sum(text@) <= u32::MAX,
        ensures
            r.0 == mock_sentiment_centi(code_point_sum(text@)).0,
            r.1 == mock_sentiment_centi(code_point_sum(text@)).1,
    {
        let mut h: u32 = 0;
        let mut consumed: Vec<char> = Vec::new();
        for c in it: text.chars()
            invariant
                consumed@ == it.seq().take(it.index() as int),
                h == code_point_sum(consumed@),
                it.seq() == text@,
                code_point_sum(text@) <= u32::MAX,
        {
            proof {
                lemma_code_point_sum_prefix(text@, it.index() as int + 1);
                assert(consumed@.push(c) =~= it.seq().take(it.index() as int + 1));
                assert(consumed@.push(c).drop_last() =~= consumed@);
            }
            h = h + c as u32;
            consumed.push(c);
        }
        proof {
            assert(consumed@ =~= text@);
        }
        ((h % 201) as i64 - 100, h % 100)
    }

    /// The mock stance is always `Neutral` (with score 0.5).
    pub fn stance_label(&self) -> (r: StanceLabel)
        ensures
            r == StanceLabel::Neutral,
    {
        StanceLabel::Neutral
    }

    /// The first 8 bytes of `SHA256(text)`, which the mock embedding
    /// L2-normalizes.
    pub fn embed_bytes(&self, text: &str) -> (r: Vec<u8>)
        ensures
            r@ == sha256_digest(encode_utf8(text@)).take(mock_embed_dim() as int),
    {
        let d = sha256(text.as_bytes());
        let mut r: Vec<u8> = Vec::new();
        let mut i: usize = 0;
        while i < 8
            invariant
                i <= 8,
                d@.len() == 32,
                r@ == d@.take(i as int),
            decreases 8 - i,
        {
            r.push(d[i]);
            i = i + 1;
            assert(r@ =~= d@.take(i as int));
        }
        r
    }

    /// Round-robin clusters: `k = max(1, n / max(1, min_cluster_size))`,
    /// `labels[i] = i % k`.
    pub fn cluster(&self, n: usize, min_cluster_size: usize) -> (r: ClusterResult)
        requires
            n <= i32::MAX,
        ensures
            r.num_clusters == mock_k(n as nat, min_cluster_size as nat),
            round_robin(r.labels@, n as nat, mock_k(n as nat, min_cluster_size as nat)),
    {
        let m = if min_cluster_size == 0 {
            1
        } else {
            min_cluster_size
        };
        let k0 = n / m;
        let k = if k0 == 0 {
            1
        } else {
            k0
        };
        assert(k <= n || k == 1) by (nonlinear_arith)
            requires
                m >= 1,
                k0 == n / m,
                k == if k0 == 0 { 1 } else { k0 },
        ;
        ClusterResult { labels: round_robin_labels(n, k), num_clusters: k as u32 }
    }
}

proof fn lemma_code_point_sum_prefix(s: Seq<char>, n: int)
    requires
        0 <= n <= s.len(),
    ensures
        code_point_sum(s.take(n)) <= code_point_sum(s),
    decreases s.len() - n,
{
    if n < s.len() {
        lemma_code_point_sum_prefix(s, n + 1);
        assert(s.take(n + 1).drop_last() =~= s.take(n));
    } else {
        assert(s.take(n) =~= s);
    }
}

/// `k` is the smallest count of buckets with `k * k >= n`.
pub open spec fn is_ceil_sqrt(k: nat, n: nat) -> bool {
    k * k >= n && (k == 0 || (k - 1) * (k - 1) < n)
}

fn square(k: u64) -> (r: u64)
    requires
        k <= 0x1_0000,
    ensures
        r == k * k,
{
    assert(k * k <= 0x1_0000_0000) by (nonlinear_arith)
        requires
            k <= 0x1_0000,
    ;
    k * k
}

/// `ceil(sqrt(n))`.
pub fn ceil_sqrt(n: usize) -> (k: usize)
    requires
        n <= u32::MAX,
    ensures
        is_ceil_sqrt(k as nat, n as nat),
{
    let mut k: usize = 0;
    while square(k as u64) < n as u64
        invariant
            k <= 0x1_0000,
            k == 0 || (k - 1) * (k - 1) < n,
            n <= u32::MAX,
        decreases 0x1_0000 - k,
    {
        proof {
            assert(k < 0x1_0000) by (nonlinear_arith)
                requires
                    k * k < n,
                    n <= u32::MAX,
                    k <= 0x1_0000,
            ;
        }
        k = k + 1;
    }
    k
}

/// `r` buckets `n` points round-robin into `ceil(sqrt(n))` clusters (none
/// for no points).
pub open spec fn is_bucketing(r: ClusterResult, n: nat) -> bool {
    &&& n == 0 ==> r.num_clusters == 0 && r.labels@.len() == 0
    &&& n > 0 ==> is_ceil_sqrt(r.num_clusters as nat, n) && round_robin(
        r.labels@,
        n,
        r.num_clusters as nat,
    )
}

/// Deterministic `k = ceil(sqrt(n))` round-robin bucketing (no clusters for
/// no points).
pub fn fallback_bucketing(n: usize) -> (r: ClusterResult)
    requires
        n <= i32::MAX,
    ensures
        is_bucketing(r, n as nat),
{
    if n == 0 {
        return ClusterResult { labels: Vec::new(), num_clusters: 0 };
    }
    let k = ceil_sqrt(n);
    assert(k >= 1 && k <= n) by (nonlinear_arith)
        requires
            k * k >= n,
            k == 0 || (k - 1) * (k - 1) < n,
            n >= 1,
    ;
    ClusterResult { labels: round_robin_labels(n, k), num_clusters: k as u32 }
}

/// What the clusterer does with `n` embeddings of the given widths before
/// any float arithmetic.
#[derive(Debug, PartialEq, Eq, Structural)]
pub enum ClusterPlan {
    /// No points: no clusters.
    Empty,
    /// Widths differ or are zero: an error.
    Ragged,
    /// Fewer points than the minimum cluster size: bucketing.
    Bucket,
    /// Run HDBSCAN with this minimum cluster size.
    Hdbscan(usize),
}

pub open spec fn spec_cluster_plan(widths: Seq<usize>, min_cluster_size: nat) -> ClusterPlan {
    let mcs = if min_cluster_size < 2 {
        2
    } else {
        min_cluster_size
    };
    if widths.len() == 0 {
        ClusterPlan::Empty
    } else if widths[0] == 0 || exists|i: int| 0 <= i < widths.len() && #[trigger] widths[i] != widths[0] {
        ClusterPlan::Ragged
    } else if widths.len() < mcs {
        ClusterPlan::Bucket
    } else {
        ClusterPlan::Hdbscan(mcs as usize)
    }
}

/// Decide how to cluster embeddings of the given widths.
pub fn cluster_plan(widths: &Vec<usize>, min_cluster_size: usize) -> (r: ClusterPlan)
    ensures
        r == spec_cluster_plan(widths@, min_cluster_size as nat),
{
    let mcs = if min_cluster_size < 2 {
        2
    } else {
        min_cluster_size
    };
    if widths.len() == 0 {
        return ClusterPlan::Empty;
    }
    let dim = widths[0];
    let mut i: usize = 0;
    while i < widths.len()
        invariant
            i <= widths.len(),
            dim == widths@[0],
            forall|j: int| 0 <= j < i ==> widths@[j] == dim,
        decreases widths.len() - i,
    {
        if widths[i] != dim {
            return ClusterPlan::Ragged;
        }
        i = i + 1;
    }
    if dim == 0 {
        ClusterPlan::Ragged
    } else if widths.len() < mcs {
        ClusterPlan::Bucket
    } else {
        ClusterPlan::Hdbscan(mcs)
    }
}

/// Labels from HDBSCAN clusters (each a list of point indices): point `i`
/// gets the position of the last cluster that lists it, `-1` when none does;
/// indices `>= n` are ignored.
pub open spec fn cluster_label(clusters: Seq<Seq<usize>>, i: int, c: int) -> int
    decreases c,
{
    if c <= 0 {
        -1
    } else if clusters[c - 1].contains(i as usize) {
        c - 1
    } else {
        cluster_label(clusters, i, c - 1)
    }
}

pub open spec fn nested_usize(v: Seq<Vec<usize>>) -> Seq<Seq<usize>> {
    v.map_values(|x: Vec<usize>| x@)
}

/// The result of a clustering run of `n` points that found `clusters`;
/// when it found none, the bucketing fallback.
pub fn labels_from_clusters(n: usize, clusters: &Vec<Vec<usize>>) -> (r: ClusterResult)
    requires
        n <= i32::MAX,
        clusters.len() <= i32::MAX,
    ensures
        clusters.len() == 0 ==> is_bucketing(r, n as nat),
        clusters.len() > 0 ==> r.num_clusters == clusters.len() && r.labels@.len() == n
            && forall|i: int|
            0 <= i < n ==> #[trigger] r.labels@[i] == cluster_label(
                nested_usize(clusters@),
                i,
                clusters.len() as int,
            ),
{
    if clusters.len() == 0 {
        return fallback_bucketing(n);
    }
    let ghost cs = nested_usize(clusters@);
    let mut labels: Vec<i32> = Vec::new();
    let mut i: usize = 0;
    while i < n
        invariant
            i <= n,
            labels@.len() == i,
            forall|j: int| 0 <= j < i ==> #[trigger] labels@[j] == -1,
        decreases n - i,
    {
        labels.push(-1);
        i = i + 1;
    }
    let mut c: usize = 0;
    while c < clusters.len()
        invariant
            c <= clusters.len() <= i32::MAX,
            cs == nested_usize(clusters@),
            labels@.len() == n,
            forall|j: int| 0 <= j < n ==> #[trigger] labels@[j] == cluster_label(cs, j, c as int),
        decreases clusters.len() - c,
    {
        let members = &clusters[c];
        assert(members@ == cs[c as int]);
        let ghost before = labels@;
        let mut q: usize = 0;
        while q < members.len()
            invariant
                q <= members.len(),
                c < clusters.len() <= i32::MAX,
                cs == nested_usize(clusters@),
                members@ == cs[c as int],
                labels@.len() == n,
                before.len() == n,
                forall|j: int|
                    0 <= j < n ==> #[trigger] labels@[j] == if members@.take(q as int).contains(
                        j as usize,
                    ) {
                        c as int
                    } else {
                        before[j] as int
                    },
            decreases members.len() - q,
        {
            let idx = members[q];
            let ghost prev = labels@;
            if idx < n {
                labels.set(idx, c as i32);
            }
            proof {
                let t = members@.take(q + 1);
                let t0 = members@.take(q as int);
                assert(t =~= t0.push(idx));
                assert forall|j: int| 0 <= j < n implies #[trigger] labels@[j] == if t.contains(
                    j as usize,
                ) {
                    c as int
                } else {
                    before[j] as int
                } by {
                    assert(prev[j] == if t0.contains(j as usize) {
                        c as int
                    } else {
                        before[j] as int
                    });
                    if j as usize == idx {
                        assert(t[q as int] == idx);
                        assert(t.contains(j as usize));
                    } else {
                        assert(labels@[j] == prev[j]);
                        if t0.contains(j as usize) {
                            let p = choose|p: int| 0 <= p < t0.len() && t0[p] == j as usize;
                            assert(t[p] == j as usize);
                        }
                        if t.contains(j as usize) {
                            let p = choose|p: int| 0 <= p < t.len() && t[p] == j as usize;
                            assert(p < q);
                            assert(t0[p] == j as usize);
                        }
                    }
                }
            }
            q = q + 1;
        }
        assert(members@.take(members.len() as int) =~= members@);
        c = c + 1;
    }
    ClusterResult { labels, num_clusters: clusters.len() as u32 }
}

/// First position `>= i` of `c` in `s`.
pub open spec fn char_from(s: Seq<char>, c: char, i: int) -> Option<int>
    decreases s.len() - i,
{
    if i < 0 || i >= s.len() {
        None
    } else if s[i] == c {
        Some(i)
    } else {
        char_from(s, c, i + 1)
    }
}

fn char_from_exec(v: &Vec<char>, c: char, i: usize) -> (r: Option<usize>)
    ensures
        r matches Some(k) ==> char_from(v@, c, i as int) == Some(k as int) && k < v@.len(),
        r is None ==> char_from(v@, c, i as int) is None,
{
    let mut j = i;
    while j < v.len()
        invariant
            j >= i,
            char_from(v@, c, i as int) == char_from(v@, c, j as int),
        decreases v.len() - j,
    {
        if v[j] == c {
            return Some(j);
        }
        j = j + 1;
    }
    None
}

/// The first `{ ... }` span of an LLM answer: from its first `{` to the
/// first `}` after it.
pub open spec fn brace_object(s: Seq<char>) -> Option<Seq<char>> {
    match char_from(s, '{', 0) {
        Some(a) => match char_from(s, '}', a) {
            Some(b) => Some(s.subrange(a, b + 1)),
            None => None,
        },
        None => None,
    }
}

/// The string value under the key `label` of the JSON object that `text`
/// holds (`None` when `text` is no JSON object or has no string `label`).
pub uninterp spec fn json_label_of(text: Seq<char>) -> Option<Seq<char>>;

/// `serde_json::from_str::<serde_json::Value>` followed by
/// `Value::get("label")` and `Value::as_str`: the string `label` of the
/// JSON object `text`, named by `json_label_of`.
#[verifier::external_body]
fn json_label(text: &str) -> (r: Option<String>)
    ensures
        match r {
            Some(l) => json_label_of(text@) == Some(l@),
            None => json_label_of(text@) is None,
        },
{
    let v: serde_json::Value = serde_json::from_str(text).ok()?;
    v.get("label")?.as_str().map(|l| l.to_string())
}

/// The stance a label names (trimmed, case-insensitive), if any.
pub open spec fn stance_of_label(l: Seq<char>) -> Option<StanceLabel> {
    let k = crate::strings::ascii_lower(crate::strings::trim(l));
    if k == "support"@ {
        Some(StanceLabel::Support)
    } else if k == "disagree"@ {
        Some(StanceLabel::Disagree)
    } else if k == "neutral"@ {
        Some(StanceLabel::Neutral)
    } else if k == "clarify"@ {
        Some(StanceLabel::Clarify)
    } else {
        None
    }
}

/// The stance a label names: `support`, `disagree`, `neutral` or `clarify`
/// (trimmed, any ASCII case).
pub fn stance_from_label(label: &str) -> (r: Option<StanceLabel>)
    ensures
        r == stance_of_label(label@),
{
    let k = lenient_key(label);
    if crate::strings::chars_eq_str(&k, "support") {
        Some(StanceLabel::Support)
    } else if crate::strings::chars_eq_str(&k, "disagree") {
        Some(StanceLabel::Disagree)
    } else if crate::strings::chars_eq_str(&k, "neutral") {
        Some(StanceLabel::Neutral)
    } else if crate::strings::chars_eq_str(&k, "clarify") {
        Some(StanceLabel::Clarify)
    } else {
        None
    }
}

/// The stance an LLM answer states: the `label` of the first `{ ... }`
/// JSON object in the answer.
pub open spec fn llm_stance(raw: Seq<char>) -> Option<StanceLabel> {
    match brace_object(raw) {
        Some(obj) => match json_label_of(obj) {
            Some(l) => stance_of_label(l),
            None => None,
        },
        None => None,
    }
}

/// Parse the stance label out of an LLM answer.
pub fn parse_llm_stance_label(raw: &str) -> (r: Option<StanceLabel>)
    ensures
        r == llm_stance(raw@),
{
    let v = crate::strings::chars_of(raw);
    let a = match char_from_exec(&v, '{', 0) {
        Some(a) => a,
        None => return None,
    };
    let b = match char_from_exec(&v, '}', a) {
        Some(b) => b,
        None => return None,
    };
    proof {
        assert(char_from(v@, '}', a as int) == Some(b as int));
        lemma_char_from_bounds(v@, '}', a as int);
    }
    let obj = string_of(&crate::strings::sub_chars(&v, a, b + 1));
    match json_label(obj.as_str()) {
        Some(l) => stance_from_label(l.as_str()),
        None => None,
    }
}

proof fn lemma_char_from_bounds(s: Seq<char>, c: char, i: int)
    ensures
        char_from(s, c, i) matches Some(k) ==> i <= k < s.len() && s[k] == c,
    decreases s.len() - i,
{
    if 0 <= i < s.len() && s[i] != c {
        lemma_char_from_bounds(s, c, i + 1);
    }
}

/// Inference profile: which model sizes to use.
#[derive(Debug, Clone, Copy, PartialEq, Eq, Structural)]
pub enum Profile {
    Fast,
    Balanced,
    Quality,
}

pub open spec fn profile_from_key(k: Seq<char>) -> Profile {
    if k == "fast"@ {
        Profile::Fast
    } else if k == "quality"@ {
        Profile::Quality
    } else {
        Profile::Balanced
    }
}

impl Profile {
    /// Parse a profile name (trimmed, case-insensitive); anything else is
    /// the default, `Balanced`.
    pub fn from_str_lenient(s: &str) -> (r: Profile)
        ensures
            r == profile_from_key(crate::strings::ascii_lower(crate::strings::trim(s@))),
    {
        let k = lenient_key(s);
        if crate::strings::chars_eq_str(&k, "fast") {
            Profile::Fast
        } else if crate::strings::chars_eq_str(&k, "quality") {
            Profile::Quality
        } else {
            Profile::Balanced
        }
    }
}

pub open spec fn spec_embedding_model(p: Profile) -> Seq<char> {
    match p {
        Profile::Fast => "cl-nagoya/ruri-v3-30m"@,
        Profile::Balanced => "cl-nagoya/ruri-v3-130m"@,
        Profile::Quality => "cl-nagoya/ruri-v3-310m"@,
    }
}

pub open spec fn spec_sentiment_model() -> Seq<char> {
    "Mizuiro-sakura/bert-base-japanese-v2-wrime-fine-tune"@
}

pub open spec fn spec_stance_model() -> Seq<char> {
    "Formzu/bert-base-japanese-jsnli"@
}

pub open spec fn spec_stance_llm(p: Profile) -> Seq<char> {
    match p {
        Profile::Quality => "sbintuitions/sarashina2.2-3b-instruct-v0.1"@,
        _ => seq![],
    }
}

pub open spec fn spec_stance_mode(p: Profile) -> Seq<char> {
    match p {
        Profile::Quality => "llm"@,
        _ => "nli"@,
    }
}

impl ModelSet {
    /// The built-in models of `profile`.
    pub fn default_for(profile: Profile) -> (r: ModelSet)
        ensures
            r.embedding@ == spec_embedding_model(profile),
            r.sentiment@ == spec_sentiment_model(),
            r.stance@ == spec_stance_model(),
            r.stance_mode@ == spec_stance_mode(profile),
            r.stance_llm@ == spec_stance_llm(profile),
    {
        let embedding = match profile {
            Profile::Fast => owned("cl-nagoya/ruri-v3-30m"),
            Profile::Balanced => owned("cl-nagoya/ruri-v3-130m"),
            Profile::Quality => owned("cl-nagoya/ruri-v3-310m"),
        };
        let (stance_mode, stance_llm) = match profile {
            Profile::Quality => (owned("llm"), owned("sbintuitions/sarashina2.2-3b-instruct-v0.1")),
            _ => (owned("nli"), String::new()),
        };
        ModelSet {
            embedding,
            sentiment: owned("Mizuiro-sakura/bert-base-japanese-v2-wrime-fine-tune"),
            stance: owned("Formzu/bert-base-japanese-jsnli"),
            stance_mode,
            stance_llm,
        }
    }
}

/// The non-empty ids of `ids`, in order.
pub open spec fn nonempty_ids(ids: Seq<Seq<char>>) -> Seq<Seq<char>>
    decreases ids.len(),
{
    if ids.len() == 0 {
        seq![]
    } else {
        let r = nonempty_ids(ids.drop_last());
        if ids.last().len() > 0 {
            r.push(ids.last())
        } else {
            r
        }
    }
}

/// The model repositories to fetch for `profile`: the embedding, sentiment
/// and stance models, and for `Quality` the stance LLM, skipping empty ids.
pub open spec fn download_plan(p: Profile) -> Seq<Seq<char>> {
    let base = seq![spec_embedding_model(p), spec_sentiment_model(), spec_stance_model()];
    nonempty_ids(
        if p == Profile::Quality {
            base.push(spec_stance_llm(p))
        } else {
            base
        },
    )
}

/// Append `id` to `out` unless it is empty.
fn push_nonempty(out: &mut Vec<String>, id: String)
    ensures
        views(final(out)@) == if id@.len() > 0 {
            views(old(out)@).push(id@)
        } else {
            views(old(out)@)
        },
{
    if crate::strings::chars_of(id.as_str()).len() > 0 {
        out.push(id);
        assert(views(out@) =~= views(old(out)@).push(id@));
    }
}

/// The model repositories to download for `profile`, in download order
/// (the host fetches each, e.g. through hf-hub, into its cache).
pub fn download_models(profile: Profile) -> (r: Vec<String>)
    ensures
        views(r@) == download_plan(profile),
{
    let ms = ModelSet::default_for(profile);
    let ghost ids = seq![ms.embedding@, ms.sentiment@, ms.stance@];
    assert(ids == seq![spec_embedding_model(profile), spec_sentiment_model(), spec_stance_model()]);
    let mut out: Vec<String> = Vec::new();
    assert(views(out@) =~= Seq::<Seq<char>>::empty());
    push_nonempty(&mut out, ms.embedding);
    assert(ids.take(1).drop_last() =~= Seq::<Seq<char>>::empty());
    assert(nonempty_ids(Seq::<Seq<char>>::empty()) == Seq::<Seq<char>>::empty());
    assert(ids.take(1).last() == ids[0]);
    assert(views(out@) == nonempty_ids(ids.take(1)));
    push_nonempty(&mut out, ms.sentiment);
    assert(ids.take(2).drop_last() =~= ids.take(1));
    assert(ids.take(2).last() == ids[1]);
    assert(views(out@) == nonempty_ids(ids.take(2)));
    push_nonempty(&mut out, ms.stance);
    assert(ids.take(3).drop_last() =~= ids.take(2));
    assert(ids.take(3).last() == ids[2]);
    assert(ids.take(3) =~= ids);
    assert(views(out@) == nonempty_ids(ids));
    match profile {
        Profile::Quality => {
            push_nonempty(&mut out, ms.stance_llm);
            assert(ids.push(spec_stance_llm(profile)).drop_last() =~= ids);
        },
        _ => {},
    }
    out
}

/// The model repositories of every profile (`fast`, `balanced`, `quality`),
/// in download order.
pub fn download_all() -> (r: Vec<String>)
    ensures
        views(r@) == download_plan(Profile::Fast) + download_plan(Profile::Balanced)
            + download_plan(Profile::Quality),
{
    let mut r = download_models(Profile::Fast);
    let b = download_models(Profile::Balanced);
    let q = download_models(Profile::Quality);
    let ghost r0 = r@;
    let mut bb = b;
    r.append(&mut bb);
    let mut qq = q;
    let ghost r1 = r@;
    r.append(&mut qq);
    assert(views(r1) =~= views(r0) + views(b@));
    assert(views(r@) =~= views(r1) + views(q@));
    r
}

/// Field-wise copy of a model set.
fn copy_model_set(m: &ModelSet) -> (r: ModelSet)
    ensures
        r.embedding@ == m.embedding@,
        r.sentiment@ == m.sentiment@,
        r.stance@ == m.stance@,
        r.stance_mode@ == m.stance_mode@,
        r.stance_llm@ == m.stance_llm@,
{
    ModelSet {
        embedding: m.embedding.clone(),
        sentiment: m.sentiment.clone(),
        stance: m.stance.clone(),
        stance_mode: m.stance_mode.clone(),
        stance_llm: m.stance_llm.clone(),
    }
}

/// The model set that the configuration names for `p`, if any.
pub open spec fn configured_set(cfg: NlpSidecarConfig, p: Profile) -> Option<ModelSet> {
    match p {
        Profile::Fast => cfg.models.fast,
        Profile::Balanced => cfg.models.balanced,
        Profile::Quality => cfg.models.quality,
    }
}

/// The models in use for the configured profile, as
/// `(embedding, sentiment, stance, stance mode, stance LLM)`: the
/// configured set for that profile when there is one, else the built-in set.
pub open spec fn spec_model_ids(cfg: NlpSidecarConfig) -> (Seq<char>, Seq<char>, Seq<char>, Seq<char>, Seq<char>) {
    let p = profile_from_key(crate::strings::ascii_lower(crate::strings::trim(cfg.profile@)));
    match configured_set(cfg, p) {
        Some(m) => (m.embedding@, m.sentiment@, m.stance@, m.stance_mode@, m.stance_llm@),
        None => (
            spec_embedding_model(p),
            spec_sentiment_model(),
            spec_stance_model(),
            spec_stance_mode(p),
            spec_stance_llm(p),
        ),
    }
}

impl NlpSidecarConfig {
    /// The configured profile (`balanced` unless it names another).
    pub fn profile(&self) -> (r: Profile)
        ensures
            r == profile_from_key(crate::strings::ascii_lower(crate::strings::trim(self.profile@))),
    {
        Profile::from_str_lenient(self.profile.as_str())
    }

    /// The model set for the configured profile: the configured one when
    /// present, else the built-in one.
    pub fn model_set(&self) -> (r: ModelSet)
        ensures
            (r.embedding@, r.sentiment@, r.stance@, r.stance_mode@, r.stance_llm@)
                == spec_model_ids(*self),
    {
        let p = self.profile();
        let configured = match p {
            Profile::Fast => &self.models.fast,
            Profile::Balanced => &self.models.balanced,
            Profile::Quality => &self.models.quality,
        };
        match configured {
            Some(m) => copy_model_set(m),
            None => ModelSet::default_for(p),
        }
    }
}

/// The inference settings the backend derives from the configuration.
pub struct ResolvedModels {
    pub embedding_id: String,
    pub sentiment_id: String,
    pub stance_id: String,
    /// The configured stance mode, `nli` when empty.
    pub stance_mode: String,
    pub stance_llm_id: String,
    /// The passage prefix of the embedding model, `文章: ` when unset.
    pub passage_prefix: String,
    /// The embedding batch size, at least 1.
    pub embed_batch_size: usize,
}

/// Resolve the model ids, stance mode, passage prefix and batch size.
pub fn resolve_models(cfg: &NlpSidecarConfig) -> (r: ResolvedModels)
    ensures
        r.embedding_id@ == spec_model_ids(*cfg).0,
        r.sentiment_id@ == spec_model_ids(*cfg).1,
        r.stance_id@ == spec_model_ids(*cfg).2,
        r.stance_mode@ == (if spec_model_ids(*cfg).3.len() == 0 {
            "nli"@
        } else {
            spec_model_ids(*cfg).3
        }),
        r.stance_llm_id@ == spec_model_ids(*cfg).4,
        r.passage_prefix@ == (if cfg.ruri_prefix.passage@.len() == 0 {
            "文章: "@
        } else {
            cfg.ruri_prefix.passage@
        }),
        r.embed_batch_size == (if cfg.embed_batch_size == 0 {
            1
        } else {
            cfg.embed_batch_size
        }),
{
    let ms = cfg.model_set();
    let stance_mode = if crate::strings::chars_of(ms.stance_mode.as_str()).len() == 0 {
        owned("nli")
    } else {
        ms.stance_mode
    };
    let passage_prefix = if crate::strings::chars_of(cfg.ruri_prefix.passage.as_str()).len() == 0 {
        owned("文章: ")
    } else {
        cfg.ruri_prefix.passage.clone()
    };
    ResolvedModels {
        embedding_id: ms.embedding,
        sentiment_id: ms.sentiment,
        stance_id: ms.stance,
        stance_mode,
        stance_llm_id: ms.stance_llm,
        passage_prefix,
        embed_batch_size: if cfg.embed_batch_size == 0 {
            1
        } else {
            cfg.embed_batch_size
        },
    }
}

/// Local files of one model repository.
pub struct ModelAssets {
    /// `model.safetensors` (single-file weights).
    pub weights: PathBuf,
    /// `config.json`.
    pub config: PathBuf,
    /// `tokenizer.json` if present, else `None` (callers fall back to `vocab.txt`).
    pub tokenizer_json: Option<PathBuf>,
    /// `vocab.txt` if present (WordPiece vocabulary).
    pub vocab_txt: Option<PathBuf>,
}

/// The mock backend always forms at least one cluster, and every label
/// names one of its clusters.
pub proof fn lemma_mock_cluster_labels(n: nat, min_cluster_size: nat, labels: Seq<i32>)
    requires
        round_robin(labels, n, mock_k(n, min_cluster_size)),
    ensures
        mock_k(n, min_cluster_size) >= 1,
        forall|i: int|
            0 <= i < labels.len() ==> 0 <= #[trigger] labels[i] < mock_k(n, min_cluster_size),
{
    let k = mock_k(n, min_cluster_size);
    assert forall|i: int| 0 <= i < labels.len() implies 0 <= #[trigger] labels[i] < k by {
        assert(labels[i] == i % (k as int));
    }
}

/// The mock sentiment's polarity lies in `[-1, 1]` and its magnitude in
/// `[0, 1)` (in hundredths).
pub proof fn lemma_mock_sentiment_range(h: nat)
    ensures
        -100 <= mock_sentiment_centi(h).0 <= 100,
        0 <= mock_sentiment_centi(h).1 < 100,
{
}

} // verus!
