//! Multi-category phrase matching over message text.
//!
//! One Aho-Corasick automaton (ASCII case-insensitive, standard match
//! semantics) is built per detection category: six from the configurable
//! [`PatternDict`] and three built-in lists (dissent, commitment, action
//! mention). Empty patterns are dropped before building.

use vstd::prelude::*;
use vstd::utf8::encode_utf8;

use crate::config::PatternDict;
use crate::error::CommError;
use crate::strings::{owned, owned_all, views};

verus! {

#[verifier::external_type_specification]
#[verifier::external_body]
pub struct ExAhoCorasick(aho_corasick::AhoCorasick);

/// The byte patterns an automaton was built from, in order.
pub uninterp spec fn ac_patterns(ac: aho_corasick::AhoCorasick) -> Seq<Seq<u8>>;

/// Whether an automaton was built with ASCII case-insensitive matching.
pub uninterp spec fn ac_ascii_ci(ac: aho_corasick::AhoCorasick) -> bool;

/// Number of non-overlapping matches that an ASCII case-insensitive
/// automaton with standard match semantics reports for `patterns` in
/// `haystack` (`find_iter(..).count()`).
pub uninterp spec fn ci_standard_match_count(patterns: Seq<Seq<u8>>, haystack: Seq<u8>) -> nat;

pub open spec fn ascii_lower_byte(b: u8) -> u8 {
    if 65 <= b && b <= 90 {
        (b + 32) as u8
    } else {
        b
    }
}

/// `p` occurs in `h` at offset `i`, ASCII letters compared without case.
pub open spec fn ci_occurs_at(p: Seq<u8>, h: Seq<u8>, i: int) -> bool {
    &&& 0 <= i
    &&& i + p.len() <= h.len()
    &&& forall|j: int| 0 <= j < p.len() ==> ascii_lower_byte(#[trigger] h[i + j]) == ascii_lower_byte(p[j])
}

/// Some pattern of `ps` occurs somewhere in `h`.
pub open spec fn ci_occurs_any(ps: Seq<Seq<u8>>, h: Seq<u8>) -> bool {
    exists|k: int, i: int| 0 <= k < ps.len() && #[trigger] ci_occurs_at(ps[k], h, i)
}

/// Some phrase of `ps` occurs in the UTF-8 encoding of `text`.
pub open spec fn has_phrase(ps: Seq<Seq<u8>>, text: Seq<char>) -> bool {
    ci_occurs_any(ps, encode_utf8(text))
}

/// The number of phrase matches reported for `text`.
pub open spec fn phrase_count(ps: Seq<Seq<u8>>, text: Seq<char>) -> nat {
    ci_standard_match_count(ps, encode_utf8(text))
}

/// Whether `AhoCorasickBuilder::new().ascii_case_insensitive(true)` builds
/// an automaton from these patterns (the builder fails only when the
/// automaton would exceed its size limits, which the patterns alone decide).
pub uninterp spec fn ac_builds(patterns: Seq<Seq<char>>) -> bool;

/// Builds an automaton with `AhoCorasickBuilder::new()
/// .ascii_case_insensitive(true).build(patterns)`. The contract claims that
/// the build succeeds exactly when the named condition `ac_builds` holds of
/// the patterns, that a built automaton holds exactly the UTF-8 bytes of the
/// given patterns and matches ASCII letters without case, and that a build
/// error is passed on as its message.
#[verifier::external_body]
fn build_ci_automaton(patterns: &Vec<String>) -> (r: Result<aho_corasick::AhoCorasick, String>)
    ensures
        r is Ok <==> ac_builds(views(patterns@)),
        r matches Ok(ac) ==> ac_ascii_ci(ac) && ac_patterns(ac) == views(patterns@).map_values(
            |s: Seq<char>| encode_utf8(s),
        ),
{
    match aho_corasick::AhoCorasickBuilder::new().ascii_case_insensitive(true).build(patterns) {
        Ok(ac) => Ok(ac),
        Err(e) => Err(e.to_string()),
    }
}

/// `AhoCorasick::is_match`: the contract claims that, for an ASCII
/// case-insensitive automaton, the answer is whether one of its patterns
/// occurs in the text's bytes.
#[verifier::external_body]
fn ac_is_match(ac: &aho_corasick::AhoCorasick, text: &str) -> (b: bool)
    ensures
        ac_ascii_ci(*ac) ==> b == ci_occurs_any(ac_patterns(*ac), encode_utf8(text@)),
{
    ac.is_match(text)
}

/// `AhoCorasick::find_iter(text).count()`: the contract names the count
/// and claims it is positive exactly when some pattern occurs.
#[verifier::external_body]
fn ac_count(ac: &aho_corasick::AhoCorasick, text: &str) -> (n: usize)
    ensures
        ac_ascii_ci(*ac) ==> n == ci_standard_match_count(ac_patterns(*ac), encode_utf8(text@)),
        ac_ascii_ci(*ac) ==> (n > 0 <==> ci_occurs_any(ac_patterns(*ac), encode_utf8(text@))),
{
    ac.find_iter(text).count()
}

/// `s` with its empty strings removed, order kept.
pub open spec fn nonempty_only(s: Seq<Seq<char>>) -> Seq<Seq<char>>
    decreases s.len(),
{
    if s.len() == 0 {
        seq![]
    } else {
        let r = nonempty_only(s.drop_last());
        if s.last().len() > 0 {
            r.push(s.last())
        } else {
            r
        }
    }
}

/// The byte patterns a phrase list contributes (empty phrases dropped).
pub open spec fn phrase_bytes(v: Seq<String>) -> Seq<Seq<u8>> {
    nonempty_only(views(v)).map_values(|s: Seq<char>| encode_utf8(s))
}

fn non_empty_patterns(v: &Vec<String>) -> (r: Vec<String>)
    ensures
        views(r@) == nonempty_only(views(v@)),
{
    let mut r: Vec<String> = Vec::new();
    let mut k: usize = 0;
    while k < v.len()
        invariant
            k <= v.len(),
            views(r@) == nonempty_only(views(v@).take(k as int)),
        decreases v.len() - k,
    {
        let ghost prev = r@;
        let s = &v[k];
        if !s.as_str().is_empty() {
            r.push(s.clone());
        }
        proof {
            assert(views(v@).take(k + 1).drop_last() =~= views(v@).take(k as int));
            assert(views(v@).take(k + 1).last() == v@[k as int]@);
            assert(views(r@) =~= nonempty_only(views(v@).take(k + 1)));
        }
        k = k + 1;
    }
    assert(views(v@).take(v.len() as int) =~= views(v@));
    r
}

/// Whether the automaton of a phrase list (empty phrases dropped) builds.
pub open spec fn list_builds(v: Seq<Seq<char>>) -> bool {
    ac_builds(nonempty_only(v))
}

fn build_ac(patterns: &Vec<String>) -> (r: Result<aho_corasick::AhoCorasick, CommError>)
    ensures
        r is Ok <==> list_builds(views(patterns@)),
        r matches Ok(ac) ==> ac_ascii_ci(ac) && ac_patterns(ac) == phrase_bytes(patterns@),
        r matches Err(e) ==> e is Config,
{
    let non_empty = non_empty_patterns(patterns);
    match build_ci_automaton(&non_empty) {
        Ok(ac) => Ok(ac),
        Err(msg) => {
            let mut m = owned("failed to build Aho-Corasick automaton: ");
            m.append(msg.as_str());
            Err(CommError::Config(m))
        },
    }
}

pub open spec fn spec_dissent_phrases() -> Seq<Seq<char>> {
    seq![
        "ただ"@,
        "しかし"@,
        "とはいえ"@,
        "とは言え"@,
        "逆に"@,
        "気になるのは"@,
        "でも"@,
        "ですが"@,
        "別の見方"@,
        "懸念"@,
        "とはいうものの"@,
        "とはいえども"@,
    ]
}

pub open spec fn spec_commitment_phrases() -> Seq<Seq<char>> {
    seq![
        "やります"@,
        "やってみます"@,
        "進めます"@,
        "対応します"@,
        "対応いたします"@,
        "対応します！"@,
        "やっておきます"@,
        "やっておく"@,
        "引き取ります"@,
        "巻き取ります"@,
        "着手します"@,
        "進めておきます"@,
        "やらせていただきます"@,
        "対応する"@,
    ]
}

pub open spec fn spec_action_mention_phrases() -> Seq<Seq<char>> {
    seq![
        "完了"@,
        "完了しました"@,
        "対応済"@,
        "対応しました"@,
        "対応した"@,
        "修正しました"@,
        "修正した"@,
        "終わりました"@,
        "終わった"@,
        "リリース"@,
        "リリースしました"@,
        "マージ"@,
        "マージしました"@,
        "done"@,
        "クローズ"@,
        "close"@,
        "解決"@,
        "解決しました"@,
        "済みました"@,
        "片付けました"@,
    ]
}

/// Built-in Japanese dissent / counter-argument cues.
fn dissent_phrases() -> (r: Vec<String>)
    ensures
        views(r@) == spec_dissent_phrases(),
{
    let lits: [&str; 12] = [
        "ただ",
        "しかし",
        "とはいえ",
        "とは言え",
        "逆に",
        "気になるのは",
        "でも",
        "ですが",
        "別の見方",
        "懸念",
        "とはいうものの",
        "とはいえども",
    ];
    let r = owned_all(&lits);
    assert(lits@.map_values(|s: &str| s@) =~= spec_dissent_phrases());
    r
}

/// Built-in Japanese commitment / promise-to-act cues.
fn commitment_phrases() -> (r: Vec<String>)
    ensures
        views(r@) == spec_commitment_phrases(),
{
    let lits: [&str; 14] = [
        "やります",
        "やってみます",
        "進めます",
        "対応します",
        "対応いたします",
        "対応します！",
        "やっておきます",
        "やっておく",
        "引き取ります",
        "巻き取ります",
        "着手します",
        "進めておきます",
        "やらせていただきます",
        "対応する",
    ];
    let r = owned_all(&lits);
    assert(lits@.map_values(|s: &str| s@) =~= spec_commitment_phrases());
    r
}

/// Built-in Japanese "action completed / mentioned" cues.
fn action_mention_phrases() -> (r: Vec<String>)
    ensures
        views(r@) == spec_action_mention_phrases(),
{
    let lits: [&str; 20] = [
        "完了",
        "完了しました",
        "対応済",
        "対応しました",
        "対応した",
        "修正しました",
        "修正した",
        "終わりました",
        "終わった",
        "リリース",
        "リリースしました",
        "マージ",
        "マージしました",
        "done",
        "クローズ",
        "close",
        "解決",
        "解決しました",
        "済みました",
        "片付けました",
    ];
    let r = owned_all(&lits);
    assert(lits@.map_values(|s: &str| s@) =~= spec_action_mention_phrases());
    r
}

/// The byte patterns of a built-in phrase list (none of them is empty).
pub open spec fn builtin_bytes(s: Seq<Seq<char>>) -> Seq<Seq<u8>> {
    nonempty_only(s).map_values(|x: Seq<char>| encode_utf8(x))
}

/// Whether all nine automata of a matcher build: the six phrase lists of
/// `dict` and the three built-in lists.
pub open spec fn dict_builds(dict: PatternDict) -> bool {
    &&& list_builds(views(dict.hedging@))
    &&& list_builds(views(dict.self_defense@))
    &&& list_builds(views(dict.incomplete@))
    &&& list_builds(views(dict.surface_agreement@))
    &&& list_builds(views(dict.unresolved_marker@))
    &&& list_builds(views(dict.conclusion_marker@))
    &&& list_builds(spec_dissent_phrases())
    &&& list_builds(spec_commitment_phrases())
    &&& list_builds(spec_action_mention_phrases())
}

/// Compiled multi-category matcher.
pub struct PatternMatcher {
    hedging: aho_corasick::AhoCorasick,
    self_defense: aho_corasick::AhoCorasick,
    incomplete: aho_corasick::AhoCorasick,
    surface_agreement: aho_corasick::AhoCorasick,
    unresolved_marker: aho_corasick::AhoCorasick,
    conclusion_marker: aho_corasick::AhoCorasick,
    dissent: aho_corasick::AhoCorasick,
    commitment: aho_corasick::AhoCorasick,
    action_mention: aho_corasick::AhoCorasick,
}

impl PatternMatcher {
    #[verifier::type_invariant]
    spec fn all_case_insensitive(self) -> bool {
        &&& ac_ascii_ci(self.hedging)
        &&& ac_ascii_ci(self.self_defense)
        &&& ac_ascii_ci(self.incomplete)
        &&& ac_ascii_ci(self.surface_agreement)
        &&& ac_ascii_ci(self.unresolved_marker)
        &&& ac_ascii_ci(self.conclusion_marker)
        &&& ac_ascii_ci(self.dissent)
        &&& ac_ascii_ci(self.commitment)
        &&& ac_ascii_ci(self.action_mention)
    }

    pub closed spec fn hedging_phrases(self) -> Seq<Seq<u8>> {
        ac_patterns(self.hedging)
    }

    pub closed spec fn self_defense_phrases(self) -> Seq<Seq<u8>> {
        ac_patterns(self.self_defense)
    }

    pub closed spec fn incomplete_phrases(self) -> Seq<Seq<u8>> {
        ac_patterns(self.incomplete)
    }

    pub closed spec fn surface_agreement_phrases(self) -> Seq<Seq<u8>> {
        ac_patterns(self.surface_agreement)
    }

    pub closed spec fn unresolved_marker_phrases(self) -> Seq<Seq<u8>> {
        ac_patterns(self.unresolved_marker)
    }

    pub closed spec fn conclusion_marker_phrases(self) -> Seq<Seq<u8>> {
        ac_patterns(self.conclusion_marker)
    }

    pub closed spec fn dissent_phrases(self) -> Seq<Seq<u8>> {
        ac_patterns(self.dissent)
    }

    pub closed spec fn commitment_phrases(self) -> Seq<Seq<u8>> {
        ac_patterns(self.commitment)
    }

    pub closed spec fn action_mention_phrases(self) -> Seq<Seq<u8>> {
        ac_patterns(self.action_mention)
    }

    /// The matcher that `build` makes from `dict` holds these phrases.
    pub open spec fn built_from(self, dict: PatternDict) -> bool {
        &&& self.hedging_phrases() == phrase_bytes(dict.hedging@)
        &&& self.self_defense_phrases() == phrase_bytes(dict.self_defense@)
        &&& self.incomplete_phrases() == phrase_bytes(dict.incomplete@)
        &&& self.surface_agreement_phrases() == phrase_bytes(dict.surface_agreement@)
        &&& self.unresolved_marker_phrases() == phrase_bytes(dict.unresolved_marker@)
        &&& self.conclusion_marker_phrases() == phrase_bytes(dict.conclusion_marker@)
        &&& self.dissent_phrases() == builtin_bytes(spec_dissent_phrases())
        &&& self.commitment_phrases() == builtin_bytes(spec_commitment_phrases())
        &&& self.action_mention_phrases() == builtin_bytes(spec_action_mention_phrases())
    }

    /// Build all category automata from the configured dictionary; this
    /// fails exactly when one of the nine automata does not build.
    pub fn build(dict: &PatternDict) -> (r: Result<Self, CommError>)
        ensures
            r is Ok <==> dict_builds(*dict),
            r matches Ok(m) ==> m.built_from(*dict),
            r matches Err(e) ==> e is Config,
    {
        let dissent_owned = dissent_phrases();
        let commitment_owned = commitment_phrases();
        let action_mention_owned = action_mention_phrases();
        let hedging = match build_ac(&dict.hedging) {
            Ok(ac) => ac,
            Err(e) => {
                return Err(e);
            },
        };
        let self_defense = match build_ac(&dict.self_defense) {
            Ok(ac) => ac,
            Err(e) => {
                return Err(e);
            },
        };
        let incomplete = match build_ac(&dict.incomplete) {
            Ok(ac) => ac,
            Err(e) => {
                return Err(e);
            },
        };
        let surface_agreement = match build_ac(&dict.surface_agreement) {
            Ok(ac) => ac,
            Err(e) => {
                return Err(e);
            },
        };
        let unresolved_marker = match build_ac(&dict.unresolved_marker) {
            Ok(ac) => ac,
            Err(e) => {
                return Err(e);
            },
        };
        let conclusion_marker = match build_ac(&dict.conclusion_marker) {
            Ok(ac) => ac,
            Err(e) => {
                return Err(e);
            },
        };
        let dissent = match build_ac(&dissent_owned) {
            Ok(ac) => ac,
            Err(e) => {
                return Err(e);
            },
        };
        let commitment = match build_ac(&commitment_owned) {
            Ok(ac) => ac,
            Err(e) => {
                return Err(e);
            },
        };
        let action_mention = match build_ac(&action_mention_owned) {
            Ok(ac) => ac,
            Err(e) => {
                return Err(e);
            },
        };
        Ok(PatternMatcher {
            hedging,
            self_defense,
            incomplete,
            surface_agreement,
            unresolved_marker,
            conclusion_marker,
            dissent,
            commitment,
            action_mention,
        })
    }

    pub fn count_hedging(&self, text: &str) -> (n: usize)
        ensures
            n == phrase_count(self.hedging_phrases(), text@),
            n > 0 <==> has_phrase(self.hedging_phrases(), text@),
    {
        proof {
            use_type_invariant(self);
        }
        ac_count(&self.hedging, text)
    }

    pub fn count_self_defense(&self, text: &str) -> (n: usize)
        ensures
            n == phrase_count(self.self_defense_phrases(), text@),
            n > 0 <==> has_phrase(self.self_defense_phrases(), text@),
    {
        proof {
            use_type_invariant(self);
        }
        ac_count(&self.self_defense, text)
    }

    pub fn count_incomplete(&self, text: &str) -> (n: usize)
        ensures
            n == phrase_count(self.incomplete_phrases(), text@),
            n > 0 <==> has_phrase(self.incomplete_phrases(), text@),
    {
        proof {
            use_type_invariant(self);
        }
        ac_count(&self.incomplete, text)
    }

    pub fn contains_surface_agreement(&self, text: &str) -> (b: bool)
        ensures
            b == has_phrase(self.surface_agreement_phrases(), text@),
    {
        proof {
            use_type_invariant(self);
        }
        ac_is_match(&self.surface_agreement, text)
    }

    pub fn contains_unresolved_marker(&self, text: &str) -> (b: bool)
        ensures
            b == has_phrase(self.unresolved_marker_phrases(), text@),
    {
        proof {
            use_type_invariant(self);
        }
        ac_is_match(&self.unresolved_marker, text)
    }

    pub fn contains_conclusion_marker(&self, text: &str) -> (b: bool)
        ensures
            b == has_phrase(self.conclusion_marker_phrases(), text@),
    {
        proof {
            use_type_invariant(self);
        }
        ac_is_match(&self.conclusion_marker, text)
    }

    pub fn count_dissent(&self, text: &str) -> (n: usize)
        ensures
            n == phrase_count(self.dissent_phrases(), text@),
            n > 0 <==> has_phrase(self.dissent_phrases(), text@),
    {
        proof {
            use_type_invariant(self);
        }
        ac_count(&self.dissent, text)
    }

    pub fn count_commitment(&self, text: &str) -> (n: usize)
        ensures
            n == phrase_count(self.commitment_phrases(), text@),
            n > 0 <==> has_phrase(self.commitment_phrases(), text@),
    {
        proof {
            use_type_invariant(self);
        }
        ac_count(&self.commitment, text)
    }

    pub fn contains_commitment(&self, text: &str) -> (b: bool)
        ensures
            b == has_phrase(self.commitment_phrases(), text@),
    {
        proof {
            use_type_invariant(self);
        }
        ac_is_match(&self.commitment, text)
    }

    pub fn count_action_mention(&self, text: &str) -> (n: usize)
        ensures
            n == phrase_count(self.action_mention_phrases(), text@),
            n > 0 <==> has_phrase(self.action_mention_phrases(), text@),
    {
        proof {
            use_type_invariant(self);
        }
        ac_count(&self.action_mention, text)
    }

    pub fn contains_action_mention(&self, text: &str) -> (b: bool)
        ensures
            b == has_phrase(self.action_mention_phrases(), text@),
    {
        proof {
            use_type_invariant(self);
        }
        ac_is_match(&self.action_mention, text)
    }
}

} // verus!
