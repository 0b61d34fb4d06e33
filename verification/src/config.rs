//! Communication-analysis configuration: role and channel mappings,
//! detection-phrase dictionaries, NLP and output settings.

use vstd::prelude::*;

use crate::models::{ChannelCategory, PeriodSpec, Role};
use crate::strings::{owned, owned_all, str_eq, views};

verus! {

/// Top-level communication-analysis configuration.
#[derive(Debug, Clone)]
pub struct CommConfig {
    pub period: PeriodSpec,
    pub roles: Vec<RoleEntry>,
    pub channels: Vec<ChannelEntry>,
    pub patterns: PatternDict,
    pub nlp_sidecar: NlpSidecarConfig,
    pub output: OutputConfig,
}

/// A single role-mapping entry; `user_id` is an opaque identifier.
#[derive(Debug, Clone)]
pub struct RoleEntry {
    pub user_id: String,
    pub role: Role,
    pub seniority_level: i32,
    pub team: Option<String>,
}

/// A single channel-category mapping entry (regex pattern -> category).
#[derive(Debug, Clone)]
pub struct ChannelEntry {
    pub pattern: String,
    pub category: ChannelCategory,
    pub is_decision_channel: bool,
}

pub open spec fn lit_views(lits: Seq<&str>) -> Seq<Seq<char>> {
    lits.map_values(|s: &str| s@)
}

pub open spec fn spec_default_hedging() -> Seq<Seq<char>> {
    seq![
        "仮説ですが"@,
        "未整理ですが"@,
        "とりあえず"@,
        "雑に"@,
        "間違ってたら"@,
        "違ったらすみません"@,
        "FYI"@,
        "ご参考まで"@,
        "メモ程度"@,
    ]
}

pub open spec fn spec_default_self_defense() -> Seq<Seq<char>> {
    seq![
        "間違っていたらすみません"@,
        "違ったらすみません"@,
        "詳しくないですが"@,
        "詳しくないんですけど"@,
        "経験浅いですが"@,
        "勘違いかもしれませんが"@,
    ]
}

pub open spec fn spec_default_surface_agreement() -> Seq<Seq<char>> {
    seq![
        "承知しました"@,
        "了解です"@,
        "わかりました"@,
        "賛成です"@,
        "問題ないです"@,
        "👍"@,
        ":+1:"@,
        ":ok:"@,
    ]
}

pub open spec fn spec_default_incomplete() -> Seq<Seq<char>> {
    seq!["えーと"@, "うーん"@, "いや，"@, "あの…"@, "その…"@]
}

pub open spec fn spec_default_unresolved_marker() -> Seq<Seq<char>> {
    seq!["❓"@, "未確定"@, "保留"@, "未整理"@]
}

pub open spec fn spec_default_conclusion_marker() -> Seq<Seq<char>> {
    seq!["結論"@, "採用"@, "決定"@, "FIX"@, "確定"@]
}

fn default_hedging() -> (r: Vec<String>)
    ensures
        views(r@) == spec_default_hedging(),
{
    let lits: [&str; 9] = [
        "仮説ですが",
        "未整理ですが",
        "とりあえず",
        "雑に",
        "間違ってたら",
        "違ったらすみません",
        "FYI",
        "ご参考まで",
        "メモ程度",
    ];
    let r = owned_all(&lits);
    assert(lits@.map_values(|s: &str| s@) =~= spec_default_hedging());
    r
}

fn default_self_defense() -> (r: Vec<String>)
    ensures
        views(r@) == spec_default_self_defense(),
{
    let lits: [&str; 6] = [
        "間違っていたらすみません",
        "違ったらすみません",
        "詳しくないですが",
        "詳しくないんですけど",
        "経験浅いですが",
        "勘違いかもしれませんが",
    ];
    let r = owned_all(&lits);
    assert(lits@.map_values(|s: &str| s@) =~= spec_default_self_defense());
    r
}

fn default_surface_agreement() -> (r: Vec<String>)
    ensures
        views(r@) == spec_default_surface_agreement(),
{
    let lits: [&str; 8] = [
        "承知しました",
        "了解です",
        "わかりました",
        "賛成です",
        "問題ないです",
        "👍",
        ":+1:",
        ":ok:",
    ];
    let r = owned_all(&lits);
    assert(lits@.map_values(|s: &str| s@) =~= spec_default_surface_agreement());
    r
}

fn default_incomplete() -> (r: Vec<String>)
    ensures
        views(r@) == spec_default_incomplete(),
{
    let lits: [&str; 5] = ["えーと", "うーん", "いや，", "あの…", "その…"];
    let r = owned_all(&lits);
    assert(lits@.map_values(|s: &str| s@) =~= spec_default_incomplete());
    r
}

fn default_unresolved_marker() -> (r: Vec<String>)
    ensures
        views(r@) == spec_default_unresolved_marker(),
{
    let lits: [&str; 4] = ["❓", "未確定", "保留", "未整理"];
    let r = owned_all(&lits);
    assert(lits@.map_values(|s: &str| s@) =~= spec_default_unresolved_marker());
    r
}

fn default_conclusion_marker() -> (r: Vec<String>)
    ensures
        views(r@) == spec_default_conclusion_marker(),
{
    let lits: [&str; 5] = ["結論", "採用", "決定", "FIX", "確定"];
    let r = owned_all(&lits);
    assert(lits@.map_values(|s: &str| s@) =~= spec_default_conclusion_marker());
    r
}

/// Detection pattern dictionary; defaults are built-in Japanese phrases.
#[derive(Debug, Clone)]
pub struct PatternDict {
    pub hedging: Vec<String>,
    pub self_defense: Vec<String>,
    pub surface_agreement: Vec<String>,
    pub incomplete: Vec<String>,
    pub unresolved_marker: Vec<String>,
    pub conclusion_marker: Vec<String>,
}

impl Default for PatternDict {
    fn default() -> (r: Self)
        ensures
            views(r.hedging@) == spec_default_hedging(),
            views(r.self_defense@) == spec_default_self_defense(),
            views(r.surface_agreement@) == spec_default_surface_agreement(),
            views(r.incomplete@) == spec_default_incomplete(),
            views(r.unresolved_marker@) == spec_default_unresolved_marker(),
            views(r.conclusion_marker@) == spec_default_conclusion_marker(),
    {
        PatternDict {
            hedging: default_hedging(),
            self_defense: default_self_defense(),
            surface_agreement: default_surface_agreement(),
            incomplete: default_incomplete(),
            unresolved_marker: default_unresolved_marker(),
            conclusion_marker: default_conclusion_marker(),
        }
    }
}

fn d_true() -> (b: bool)
    ensures
        b,
{
    true
}

fn d_py() -> (s: String)
    ensures
        s@ == "uv run python"@,
{
    owned("uv run python")
}

fn d_balanced() -> (s: String)
    ensures
        s@ == "balanced"@,
{
    owned("balanced")
}

fn d_32() -> (n: usize)
    ensures
        n == 32,
{
    32
}

/// NLP backend configuration.
#[derive(Debug, Clone)]
pub struct NlpSidecarConfig {
    pub enabled: bool,
    pub python: String,
    pub script: String,
    pub profile: String,
    pub device: String,
    pub embed_batch_size: usize,
    pub ruri_prefix: RuriPrefix,
    pub models: NlpModels,
}

impl Default for NlpSidecarConfig {
    fn default() -> (r: Self)
        ensures
            r.enabled,
            r.python@ == "uv run python"@,
            r.script@.len() == 0,
            r.profile@ == "balanced"@,
            r.device@.len() == 0,
            r.embed_batch_size == 32,
            r.ruri_prefix.query@.len() == 0,
            r.ruri_prefix.passage@.len() == 0,
            r.models.fast is None,
            r.models.balanced is None,
            r.models.quality is None,
    {
        NlpSidecarConfig {
            enabled: d_true(),
            python: d_py(),
            script: String::new(),
            profile: d_balanced(),
            device: String::new(),
            embed_batch_size: d_32(),
            ruri_prefix: RuriPrefix::default(),
            models: NlpModels::default(),
        }
    }
}

/// Query / passage prefixes for the embedding model.
#[derive(Debug, Clone)]
pub struct RuriPrefix {
    pub query: String,
    pub passage: String,
}

impl Default for RuriPrefix {
    fn default() -> (r: Self)
        ensures
            r.query@.len() == 0,
            r.passage@.len() == 0,
    {
        RuriPrefix { query: String::new(), passage: String::new() }
    }
}

/// Per-profile model sets.
#[derive(Debug, Clone)]
pub struct NlpModels {
    pub fast: Option<ModelSet>,
    pub balanced: Option<ModelSet>,
    pub quality: Option<ModelSet>,
}

impl Default for NlpModels {
    fn default() -> (r: Self)
        ensures
            r.fast is None,
            r.balanced is None,
            r.quality is None,
    {
        NlpModels { fast: None, balanced: None, quality: None }
    }
}

/// Model identifiers for one profile.
#[derive(Debug, Clone)]
pub struct ModelSet {
    pub embedding: String,
    pub sentiment: String,
    pub stance: String,
    pub stance_mode: String,
    pub stance_llm: String,
}

impl Default for ModelSet {
    fn default() -> (r: Self)
        ensures
            r.embedding@.len() == 0,
            r.sentiment@.len() == 0,
            r.stance@.len() == 0,
            r.stance_mode@.len() == 0,
            r.stance_llm@.len() == 0,
    {
        ModelSet {
            embedding: String::new(),
            sentiment: String::new(),
            stance: String::new(),
            stance_mode: String::new(),
            stance_llm: String::new(),
        }
    }
}

fn d_outdir() -> (s: String)
    ensures
        s@ == "output/comm"@,
{
    owned("output/comm")
}

fn d_20() -> (n: usize)
    ensures
        n == 20,
{
    20
}

/// Output configuration.
#[derive(Debug, Clone)]
pub struct OutputConfig {
    pub dir: String,
    pub anonymize_user_ids: bool,
    pub top_n: usize,
}

impl Default for OutputConfig {
    fn default() -> (r: Self)
        ensures
            r.dir@ == "output/comm"@,
            r.anonymize_user_ids,
            r.top_n == 20,
    {
        OutputConfig { dir: d_outdir(), anonymize_user_ids: d_true(), top_n: d_20() }
    }
}

impl Default for CommConfig {
    fn default() -> (r: Self)
        ensures
            r.roles@.len() == 0,
            r.channels@.len() == 0,
            r.period.from is None,
            r.period.to is None,
            r.period.fiscal.fiscal_year_start_month == 4,
            views(r.patterns.hedging@) == spec_default_hedging(),
            views(r.patterns.self_defense@) == spec_default_self_defense(),
            views(r.patterns.surface_agreement@) == spec_default_surface_agreement(),
            views(r.patterns.incomplete@) == spec_default_incomplete(),
            views(r.patterns.unresolved_marker@) == spec_default_unresolved_marker(),
            views(r.patterns.conclusion_marker@) == spec_default_conclusion_marker(),
            r.nlp_sidecar.enabled,
            r.nlp_sidecar.python@ == "uv run python"@,
            r.nlp_sidecar.profile@ == "balanced"@,
            r.nlp_sidecar.embed_batch_size == 32,
            r.output.dir@ == "output/comm"@,
            r.output.anonymize_user_ids,
            r.output.top_n == 20,
    {
        CommConfig {
            period: PeriodSpec::default(),
            roles: Vec::new(),
            channels: Vec::new(),
            patterns: PatternDict::default(),
            nlp_sidecar: NlpSidecarConfig::default(),
            output: OutputConfig::default(),
        }
    }
}

/// The role of the first entry mapping `uid`, `Unknown` if none does.
pub open spec fn role_lookup(roles: Seq<RoleEntry>, uid: Seq<char>) -> Role
    decreases roles.len(),
{
    if roles.len() == 0 {
        Role::Unknown
    } else if roles[0].user_id@ == uid {
        roles[0].role
    } else {
        role_lookup(roles.drop_first(), uid)
    }
}

impl CommConfig {
    /// Deterministic SHA-256 hex digest of the configuration's serialized
    /// (JSON) form, which the caller produces.
    pub fn config_hash(json: &[u8]) -> (r: String)
        ensures
            r@ == crate::digest::hex_text(crate::digest::sha256_digest(json@)),
            r@.len() == 64,
            forall|i: int| 0 <= i < 64 ==> crate::digest::is_hex_char(#[trigger] r@[i]),
    {
        crate::digest::sha256_hex(json)
    }

    /// Return the role for a given user id, or `Role::Unknown` if unmapped.
    pub fn role_for(&self, user_id: &str) -> (r: Role)
        ensures
            r == role_lookup(self.roles@, user_id@),
    {
        let mut k: usize = 0;
        assert(self.roles@.subrange(0, self.roles.len() as int) =~= self.roles@);
        while k < self.roles.len()
            invariant
                k <= self.roles.len(),
                role_lookup(self.roles@, user_id@) == role_lookup(
                    self.roles@.subrange(k as int, self.roles.len() as int),
                    user_id@,
                ),
            decreases self.roles.len() - k,
        {
            let e = &self.roles[k];
            proof {
                let rest = self.roles@.subrange(k as int, self.roles.len() as int);
                assert(rest[0] == self.roles@[k as int]);
                assert(rest.drop_first() =~= self.roles@.subrange(
                    k + 1,
                    self.roles.len() as int,
                ));
            }
            if str_eq(e.user_id.as_str(), user_id) {
                return e.role;
            }
            k = k + 1;
        }
        Role::Unknown
    }
}


#[verifier::external_type_specification]
#[verifier::external_body]
pub struct ExRegex(regex::Regex);

/// Whether `regex::Regex::new` accepts `pattern` (default syntax and limits).
pub uninterp spec fn regex_compiles(pattern: Seq<char>) -> bool;

/// Whether the regex compiled from `pattern` matches somewhere in `haystack`
/// (`regex::Regex::is_match`).
pub uninterp spec fn regex_finds(pattern: Seq<char>, haystack: Seq<char>) -> bool;

/// The pattern a compiled regex was built from.
pub uninterp spec fn regex_pattern(re: regex::Regex) -> Seq<char>;

/// Compiles `pattern` with `regex::Regex::new`. The contract claims that the
/// result is present exactly when the regex crate accepts the pattern, and
/// that the compiled value carries the pattern it was made from.
#[verifier::external_body]
fn compile_regex(pattern: &str) -> (r: Option<regex::Regex>)
    ensures
        r is Some <==> regex_compiles(pattern@),
        r matches Some(re) ==> regex_pattern(re) == pattern@,
{
    regex::Regex::new(pattern).ok()
}

/// `regex::Regex::is_match`: the contract claims the answer is the named
/// match relation of the regex's pattern and the haystack.
#[verifier::external_body]
fn regex_is_match(re: &regex::Regex, haystack: &str) -> (b: bool)
    ensures
        b == regex_finds(regex_pattern(*re), haystack@),
{
    re.is_match(haystack)
}

/// Whether a channel entry applies to a channel name: its pattern compiles
/// and matches the name.
pub open spec fn entry_matches(e: ChannelEntry, name: Seq<char>) -> bool {
    regex_compiles(e.pattern@) && regex_finds(e.pattern@, name)
}

/// Index of the first entry at or after `k` that applies to `name`.
pub open spec fn first_entry_from(entries: Seq<ChannelEntry>, name: Seq<char>, k: int) -> Option<
    int,
>
    decreases entries.len() - k,
{
    if k < 0 || k >= entries.len() {
        None
    } else if entry_matches(entries[k], name) {
        Some(k)
    } else {
        first_entry_from(entries, name, k + 1)
    }
}

/// The category of the first applying entry, `Unknown` if none applies.
pub open spec fn spec_classify(entries: Seq<ChannelEntry>, name: Seq<char>) -> ChannelCategory {
    match first_entry_from(entries, name, 0) {
        Some(i) => entries[i].category,
        None => ChannelCategory::Unknown,
    }
}

impl CommConfig {
    /// Return the first `ChannelEntry` whose regex pattern matches `name`;
    /// entries whose pattern does not compile are skipped.
    pub fn channel_entry_for(&self, name: &str) -> (r: Option<&ChannelEntry>)
        ensures
            r is Some <==> first_entry_from(self.channels@, name@, 0) is Some,
            r matches Some(e) ==> *e == self.channels@[first_entry_from(
                self.channels@,
                name@,
                0,
            )->0],
    {
        let mut k: usize = 0;
        while k < self.channels.len()
            invariant
                k <= self.channels.len(),
                first_entry_from(self.channels@, name@, 0) == first_entry_from(
                    self.channels@,
                    name@,
                    k as int,
                ),
            decreases self.channels.len() - k,
        {
            let entry = &self.channels[k];
            match compile_regex(entry.pattern.as_str()) {
                Some(re) => {
                    if regex_is_match(&re, name) {
                        return Some(entry);
                    }
                },
                None => {},
            }
            k = k + 1;
        }
        None
    }

    /// Classify a channel name by the first matching entry; `Unknown` when
    /// none matches.
    pub fn classify_channel(&self, name: &str) -> (r: ChannelCategory)
        ensures
            r == spec_classify(self.channels@, name@),
    {
        match self.channel_entry_for(name) {
            Some(e) => e.category,
            None => ChannelCategory::Unknown,
        }
    }
}

} // verus!
