//! Pluggable noun extraction (`Morphology` trait).
//!
//! `compute_h5` (novel-vocabulary rate) takes `&dyn Morphology`, so callers
//! can swap implementations:
//!
//! * [`WhitespaceMorphology`]: splits on ASCII whitespace, trims, lowercases
//!   and drops tokens shorter than 2 chars. A default for English-leaning
//!   text and for environments without a morphological analyzer.
//! * [`LinderaMorphology`]: Japanese noun extraction via lindera + IPADIC,
//!   with a character-class fallback (kanji runs, katakana runs and ASCII
//!   technical words minus stop words) when the dictionary is unavailable.
//!
//! Implementations are expected to be deterministic and side-effect free.

use std::borrow::Cow;

use lindera::dictionary::{load_dictionary, Dictionary};
use lindera::mode::Mode;
use lindera::segmenter::Segmenter;
use vstd::prelude::*;

use crate::config::lit_views;
use crate::strings::{
    chars_eq_str, chars_of, is_ascii_ws, owned, string_of, sub_chars, trim, trim_bounds, views,
};

verus! {

/// Pluggable content-noun extraction strategy.
pub trait Morphology {
    /// The content nouns that this extractor finds in `text`, in order.
    spec fn nouns_of(&self, text: Seq<char>) -> Seq<Seq<char>>;

    /// Extract content nouns from `text`; an empty `Vec` when none are found.
    fn extract_nouns(&self, text: &str) -> (r: Vec<String>)
        ensures
            views(r@) == self.nouns_of(text@),
    ;
}

/// What `str::to_lowercase` returns for `s` (Unicode lowercase mapping).
pub uninterp spec fn unicode_lower(s: Seq<char>) -> Seq<char>;

/// `str::to_lowercase`: the lowercase equivalent of `s` under the Unicode
/// `Lowercase` mapping, which on ASCII text maps `A`..=`Z` to `a`..=`z` and
/// keeps every other char.
#[verifier::external_body]
fn to_lowercase(s: &str) -> (r: String)
    ensures
        r@ == unicode_lower(s@),
        (forall|i: int| 0 <= i < s@.len() ==> (#[trigger] s@[i] as u32) < 128) ==> r@
            == crate::strings::ascii_lower(s@),
{
    s.to_lowercase()
}

/// Chars that `WhitespaceMorphology` keeps inside a token.
pub open spec fn non_ascii_ws(c: char) -> bool {
    !is_ascii_ws(c)
}

/// Chars of an ASCII technical word: ASCII letters, digits and `_`.
pub open spec fn is_word_char(c: char) -> bool {
    ('a' <= c <= 'z') || ('A' <= c <= 'Z') || ('0' <= c <= '9') || c == '_'
}

pub open spec fn keep_for(words: bool) -> spec_fn(char) -> bool {
    if words {
        |c: char| is_word_char(c)
    } else {
        |c: char| non_ascii_ws(c)
    }
}

/// After the first `n` chars of `s`: the finished runs of `keep` chars and
/// the run in progress.
pub open spec fn runs_acc(s: Seq<char>, keep: spec_fn(char) -> bool, n: int) -> (
    Seq<Seq<char>>,
    Seq<char>,
)
    decreases n,
{
    if n <= 0 {
        (seq![], seq![])
    } else {
        let (done, cur) = runs_acc(s, keep, n - 1);
        if keep(s[n - 1]) {
            (done, cur.push(s[n - 1]))
        } else if cur.len() > 0 {
            (done.push(cur), seq![])
        } else {
            (done, cur)
        }
    }
}

/// The maximal non-empty runs of `keep` chars of `s`, in order (the pieces
/// that `split` by the other chars yields, empty pieces dropped).
pub open spec fn runs_of(s: Seq<char>, keep: spec_fn(char) -> bool) -> Seq<Seq<char>> {
    let (done, cur) = runs_acc(s, keep, s.len() as int);
    if cur.len() > 0 {
        done.push(cur)
    } else {
        done
    }
}

/// The lowercased, trimmed tokens among the first `n` of `tokens` that keep
/// at least 2 chars.
pub open spec fn ws_nouns_acc(tokens: Seq<Seq<char>>, n: int) -> Seq<Seq<char>>
    decreases n,
{
    if n <= 0 {
        seq![]
    } else {
        let r = ws_nouns_acc(tokens, n - 1);
        let w = unicode_lower(trim(tokens[n - 1]));
        if w.len() >= 2 {
            r.push(w)
        } else {
            r
        }
    }
}

/// What `WhitespaceMorphology` extracts from `text`.
pub open spec fn whitespace_nouns(text: Seq<char>) -> Seq<Seq<char>> {
    let tokens = runs_of(text, keep_for(false));
    ws_nouns_acc(tokens, tokens.len() as int)
}

/// The maximal runs of the chars of `v` that `keep_for(words)` keeps.
fn char_runs(v: &Vec<char>, words: bool) -> (r: Vec<Vec<char>>)
    ensures
        r@.map_values(|x: Vec<char>| x@) == runs_of(v@, keep_for(words)),
{
    let ghost keep = keep_for(words);
    let mut done: Vec<Vec<char>> = Vec::new();
    let mut cur: Vec<char> = Vec::new();
    let mut k: usize = 0;
    while k < v.len()
        invariant
            k <= v.len(),
            keep == keep_for(words),
            (done@.map_values(|x: Vec<char>| x@), cur@) == runs_acc(v@, keep, k as int),
        decreases v.len() - k,
    {
        let c = v[k];
        let kept = if words {
            is_word_char_exec(c)
        } else {
            !is_ascii_ws_exec(c)
        };
        assert(kept == keep(c));
        if kept {
            cur.push(c);
        } else if cur.len() > 0 {
            let ghost d = done@;
            done.push(cur);
            cur = Vec::new();
            assert(done@.map_values(|x: Vec<char>| x@) =~= d.map_values(|x: Vec<char>| x@).push(
                runs_acc(v@, keep, k as int).1,
            ));
        }
        k = k + 1;
    }
    if cur.len() > 0 {
        let ghost d = done@;
        done.push(cur);
        assert(done@.map_values(|x: Vec<char>| x@) =~= d.map_values(|x: Vec<char>| x@).push(
            runs_acc(v@, keep, v.len() as int).1,
        ));
    }
    done
}

fn is_ascii_ws_exec(c: char) -> (r: bool)
    ensures
        r == is_ascii_ws(c),
{
    c == ' ' || c == '\t' || c == '\n' || c == '\x0C' || c == '\r'
}

fn is_word_char_exec(c: char) -> (r: bool)
    ensures
        r == is_word_char(c),
{
    ('a' <= c && c <= 'z') || ('A' <= c && c <= 'Z') || ('0' <= c && c <= '9') || c == '_'
}

/// ASCII-whitespace split, trim, lowercase, keep tokens of 2 or more chars.
///
/// Not appropriate for Japanese-heavy input (use [`LinderaMorphology`]).
pub struct WhitespaceMorphology;

impl WhitespaceMorphology {
    /// Construct a new whitespace-based morphology.
    pub fn new() -> (r: Self) {
        WhitespaceMorphology
    }
}

impl Default for WhitespaceMorphology {
    fn default() -> (r: Self) {
        WhitespaceMorphology
    }
}

impl Morphology for WhitespaceMorphology {
    open spec fn nouns_of(&self, text: Seq<char>) -> Seq<Seq<char>> {
        whitespace_nouns(text)
    }

    fn extract_nouns(&self, text: &str) -> (r: Vec<String>) {
        let v = chars_of(text);
        let tokens = char_runs(&v, false);
        let ghost tv = tokens@.map_values(|x: Vec<char>| x@);
        let mut r: Vec<String> = Vec::new();
        let mut k: usize = 0;
        while k < tokens.len()
            invariant
                k <= tokens.len(),
                tv == tokens@.map_values(|x: Vec<char>| x@),
                views(r@) == ws_nouns_acc(tv, k as int),
            decreases tokens.len() - k,
        {
            let t = &tokens[k];
            assert(t@ == tv[k as int]);
            let (a, b) = trim_bounds(t);
            let s = string_of(&sub_chars(t, a, b));
            let w = to_lowercase(s.as_str());
            if chars_of(w.as_str()).len() >= 2 {
                let ghost before = r@;
                r.push(w);
                assert(views(r@) =~= views(before).push(w@));
            }
            k = k + 1;
        }
        r
    }
}

// ---------------------------------------------------------------------------
// Lindera with a character-class fallback
// ---------------------------------------------------------------------------

#[verifier::external_type_specification]
#[verifier::external_body]
pub struct ExSegmenter(Segmenter);

#[verifier::external_type_specification]
#[verifier::external_body]
pub struct ExDictionary(Dictionary);

/// `lindera::dictionary::load_dictionary`: the dictionary at `uri`, or
/// `None` when it cannot be loaded (for `embedded://` URIs, when lindera was
/// built without that dictionary). Which of the two comes back is not
/// stated.
#[verifier::external_body]
fn load_dictionary_at(uri: &str) -> Option<Dictionary> {
    load_dictionary(uri).ok()
}

/// `Segmenter::new` in normal mode without a user dictionary.
#[verifier::external_body]
fn new_segmenter(dictionary: Dictionary) -> Segmenter {
    Segmenter::new(Mode::Normal, dictionary, None)
}

/// The tokens that `segmenter` gives for `text`, each as its surface form
/// and its first detail field, or `None` when lindera reports an error.
/// Segmentation is a function of the segmenter (dictionary and mode) and the
/// text alone.
pub uninterp spec fn lindera_tokens(segmenter: Segmenter, text: Seq<char>) -> Option<
    Seq<(Seq<char>, Option<Seq<char>>)>,
>;

/// `Segmenter::segment`: the tokens of `text`, each as its surface form and
/// its first detail field (the part of speech for IPADIC); `None` when
/// lindera reports an error. The contract claims the answer is the named
/// segmentation `lindera_tokens` of the segmenter and the text.
#[verifier::external_body]
fn segment_text(segmenter: &Segmenter, text: &str) -> (r: Option<Vec<(String, Option<String>)>>)
    ensures
        match r {
            Some(t) => lindera_tokens(*segmenter, text@) == Some(token_views(t@)),
            None => lindera_tokens(*segmenter, text@) is None,
        },
{
    match segmenter.segment(Cow::Borrowed(text)) {
        Ok(tokens) => Some(
            tokens.into_iter().map(|mut t| {
                let first = t.details().first().map(|d| d.to_string());
                (t.surface.to_string(), first)
            }).collect(),
        ),
        Err(_) => None,
    }
}

/// IPADIC's part-of-speech tag for nouns.
pub open spec fn noun_tag() -> Seq<char> {
    "名詞"@
}

/// Surfaces of the tokens whose first detail is the noun tag.
pub open spec fn noun_surfaces(tokens: Seq<(Seq<char>, Option<Seq<char>>)>, n: int) -> Seq<
    Seq<char>,
>
    decreases n,
{
    if n <= 0 {
        seq![]
    } else {
        let r = noun_surfaces(tokens, n - 1);
        if tokens[n - 1].1 == Some(noun_tag()) {
            r.push(tokens[n - 1].0)
        } else {
            r
        }
    }
}

pub open spec fn token_views(t: Seq<(String, Option<String>)>) -> Seq<
    (Seq<char>, Option<Seq<char>>),
> {
    t.map_values(
        |x: (String, Option<String>)|
            (
                x.0@,
                match x.1 {
                    Some(d) => Some(d@),
                    None => None,
                },
            ),
    )
}

/// The surfaces of the noun tokens, in order.
pub fn nouns_from_tokens(tokens: &Vec<(String, Option<String>)>) -> (r: Vec<String>)
    ensures
        views(r@) == noun_surfaces(token_views(tokens@), tokens@.len() as int),
{
    let ghost tv = token_views(tokens@);
    let mut r: Vec<String> = Vec::new();
    let mut k: usize = 0;
    while k < tokens.len()
        invariant
            k <= tokens.len(),
            tv == token_views(tokens@),
            views(r@) == noun_surfaces(tv, k as int),
        decreases tokens.len() - k,
    {
        let is_noun = match &tokens[k].1 {
            Some(d) => str_eq_noun(d.as_str()),
            None => false,
        };
        assert(is_noun == (tv[k as int].1 == Some(noun_tag())));
        if is_noun {
            let ghost before = r@;
            r.push(tokens[k].0.clone());
            assert(views(r@) =~= views(before).push(tv[k as int].0));
        }
        k = k + 1;
    }
    r
}

fn str_eq_noun(s: &str) -> (r: bool)
    ensures
        r == (s@ == noun_tag()),
{
    let v = chars_of(s);
    chars_eq_str(&v, "名詞")
}

/// Character classes of the fallback extractor.
#[derive(Clone, Copy, Debug, PartialEq, Eq, Structural)]
pub enum CharKind {
    Kanji,
    Katakana,
    Other,
}

pub open spec fn is_cjk_ideograph(c: char) -> bool {
    let u = c as u32;
    (0x4E00 <= u <= 0x9FFF) || (0x3400 <= u <= 0x4DBF) || (0xF900 <= u <= 0xFAFF) || (0x20000
        <= u <= 0x2A6DF)
}

pub open spec fn is_katakana(c: char) -> bool {
    let u = c as u32;
    (0x30A0 <= u <= 0x30FF) || (0x31F0 <= u <= 0x31FF) || (0xFF65 <= u <= 0xFF9F)
}

pub open spec fn char_kind(c: char) -> CharKind {
    if is_cjk_ideograph(c) {
        CharKind::Kanji
    } else if is_katakana(c) {
        CharKind::Katakana
    } else {
        CharKind::Other
    }
}

pub fn classify_char(c: char) -> (r: CharKind)
    ensures
        r == char_kind(c),
{
    let u = c as u32;
    if (0x4E00 <= u && u <= 0x9FFF) || (0x3400 <= u && u <= 0x4DBF) || (0xF900 <= u && u <= 0xFAFF)
        || (0x20000 <= u && u <= 0x2A6DF) {
        CharKind::Kanji
    } else if (0x30A0 <= u && u <= 0x30FF) || (0x31F0 <= u && u <= 0x31FF) || (0xFF65 <= u && u
        <= 0xFF9F) {
        CharKind::Katakana
    } else {
        CharKind::Other
    }
}

/// After the first `n` chars of `s`: the finished kanji / katakana runs,
/// the run in progress and its kind.
pub open spec fn kind_runs_acc(s: Seq<char>, n: int) -> (Seq<Seq<char>>, Seq<char>, CharKind)
    decreases n,
{
    if n <= 0 {
        (seq![], seq![], CharKind::Other)
    } else {
        let (done, cur, kind) = kind_runs_acc(s, n - 1);
        let c = s[n - 1];
        let k = char_kind(c);
        if k != CharKind::Other {
            if cur.len() == 0 || kind == k {
                (done, cur.push(c), k)
            } else {
                (done.push(cur), seq![c], k)
            }
        } else if cur.len() > 0 {
            (done.push(cur), seq![], CharKind::Other)
        } else {
            (done, cur, kind)
        }
    }
}

/// The maximal runs of kanji and of katakana in `s`, in order.
pub open spec fn kind_runs(s: Seq<char>) -> Seq<Seq<char>> {
    let (done, cur, _) = kind_runs_acc(s, s.len() as int);
    if cur.len() > 0 {
        done.push(cur)
    } else {
        done
    }
}

pub open spec fn spec_stop_words() -> Seq<Seq<char>> {
    seq![
        "the"@, "a"@, "an"@, "is"@, "are"@, "was"@, "were"@, "be"@, "been"@, "being"@,
        "have"@, "has"@, "had"@, "do"@, "does"@, "did"@, "will"@, "would"@, "shall"@,
        "should"@, "may"@, "might"@, "must"@, "can"@, "could"@, "of"@, "in"@, "to"@,
        "for"@, "with"@, "on"@, "at"@, "by"@, "from"@, "as"@, "into"@, "through"@,
        "during"@, "before"@, "after"@, "and"@, "but"@, "or"@, "nor"@, "not"@, "so"@,
        "if"@, "then"@, "than"@, "that"@, "this"@, "it"@, "its"@, "he"@, "she"@, "we"@,
        "they"@, "me"@, "him"@, "her"@, "us"@, "them"@, "my"@, "your"@, "his"@, "our"@,
        "their"@,
    ]
}

pub fn is_english_stop_word(word: &str) -> (r: bool)
    ensures
        r == spec_stop_words().contains(word@),
{
    let lits: [&str; 67] = [
        "the", "a", "an", "is", "are", "was", "were", "be", "been", "being", "have", "has",
        "had", "do", "does", "did", "will", "would", "shall", "should", "may", "might", "must",
        "can", "could", "of", "in", "to", "for", "with", "on", "at", "by", "from", "as",
        "into", "through", "during", "before", "after", "and", "but", "or", "nor", "not", "so",
        "if", "then", "than", "that", "this", "it", "its", "he", "she", "we", "they", "me",
        "him", "her", "us", "them", "my", "your", "his", "our", "their",
    ];
    assert(lit_views(lits@) =~= spec_stop_words());
    let w = chars_of(word);
    let mut k: usize = 0;
    while k < 67
        invariant
            k <= 67,
            w@ == word@,
            lit_views(lits@) == spec_stop_words(),
            forall|i: int| 0 <= i < k ==> spec_stop_words()[i] != word@,
        decreases 67 - k,
    {
        assert(spec_stop_words()[k as int] == lits@[k as int]@);
        if chars_eq_str(&w, lits[k]) {
            return true;
        }
        k = k + 1;
    }
    false
}

/// The ASCII words among the first `n` of `words` that are at least 2
/// chars long and whose lowercase form is not a stop word.
pub open spec fn kept_words(words: Seq<Seq<char>>, n: int) -> Seq<Seq<char>>
    decreases n,
{
    if n <= 0 {
        seq![]
    } else {
        let r = kept_words(words, n - 1);
        let w = words[n - 1];
        if w.len() >= 2 && !spec_stop_words().contains(unicode_lower(w)) {
            r.push(w)
        } else {
            r
        }
    }
}

/// What the character-class fallback extracts from `text`: the kanji and
/// katakana runs, then the ASCII technical words.
pub open spec fn fallback_nouns(text: Seq<char>) -> Seq<Seq<char>> {
    let words = runs_of(text, keep_for(true));
    kind_runs(text) + kept_words(words, words.len() as int)
}

/// Fallback noun extraction using Unicode character classes.
pub fn extract_nouns_fallback(text: &str) -> (r: Vec<String>)
    ensures
        views(r@) == fallback_nouns(text@),
{
    let v = chars_of(text);
    let mut nouns: Vec<String> = Vec::new();
    let mut cur: Vec<char> = Vec::new();
    let mut kind = CharKind::Other;
    let mut k: usize = 0;
    while k < v.len()
        invariant
            k <= v.len(),
            v@ == text@,
            (views(nouns@), cur@, kind) == kind_runs_acc(v@, k as int),
        decreases v.len() - k,
    {
        let c = v[k];
        let ck = classify_char(c);
        let ghost before = views(nouns@);
        if ck != CharKind::Other {
            if cur.len() == 0 || kind == ck {
                cur.push(c);
            } else {
                nouns.push(string_of(&cur));
                assert(views(nouns@) =~= before.push(kind_runs_acc(v@, k as int).1));
                cur = Vec::new();
                cur.push(c);
                assert(cur@ =~= seq![c]);
            }
            kind = ck;
        } else if cur.len() > 0 {
            nouns.push(string_of(&cur));
            assert(views(nouns@) =~= before.push(kind_runs_acc(v@, k as int).1));
            cur = Vec::new();
            kind = CharKind::Other;
        }
        k = k + 1;
    }
    if cur.len() > 0 {
        let ghost before = views(nouns@);
        nouns.push(string_of(&cur));
        assert(views(nouns@) =~= before.push(cur@));
    }
    let ghost runs = views(nouns@);
    assert(runs == kind_runs(text@));
    let words = char_runs(&v, true);
    let ghost wv = words@.map_values(|x: Vec<char>| x@);
    let mut q: usize = 0;
    while q < words.len()
        invariant
            q <= words.len(),
            wv == words@.map_values(|x: Vec<char>| x@),
            views(nouns@) == runs + kept_words(wv, q as int),
        decreases words.len() - q,
    {
        let w = string_of(&words[q]);
        assert(w@ == wv[q as int]);
        if words[q].len() >= 2 && !is_english_stop_word(to_lowercase(w.as_str()).as_str()) {
            let ghost before = views(nouns@);
            nouns.push(w);
            assert(views(nouns@) =~= before.push(wv[q as int]));
        }
        q = q + 1;
    }
    nouns
}

/// Lindera-backed Japanese noun extractor with character-class fallback:
/// with an IPADIC segmenter, the tokens whose part of speech is `名詞`
/// (noun); without one, [`extract_nouns_fallback`].
pub struct LinderaMorphology {
    segmenter: Option<Segmenter>,
}

impl LinderaMorphology {
    /// Whether the IPADIC segmenter was available when this was built.
    pub closed spec fn has_segmenter(&self) -> bool {
        self.segmenter is Some
    }

    /// Construct a lindera-backed morphology, loading the embedded IPADIC
    /// dictionary when lindera was built with it.
    pub fn new() -> (r: Self) {
        let segmenter = match load_dictionary_at("embedded://ipadic") {
            Some(d) => Some(new_segmenter(d)),
            None => None,
        };
        LinderaMorphology { segmenter }
    }
}

impl Default for LinderaMorphology {
    fn default() -> (r: Self) {
        LinderaMorphology::new()
    }
}

impl Morphology for LinderaMorphology {
    /// With a segmenter, the surfaces of lindera's noun tokens (none when
    /// lindera reports an error); without one, [`extract_nouns_fallback`].
    closed spec fn nouns_of(&self, text: Seq<char>) -> Seq<Seq<char>> {
        match self.segmenter {
            Some(seg) => match lindera_tokens(seg, text) {
                Some(t) => noun_surfaces(t, t.len() as int),
                None => seq![],
            },
            None => fallback_nouns(text),
        }
    }

    fn extract_nouns(&self, text: &str) -> (r: Vec<String>)
        ensures
            !self.has_segmenter() ==> views(r@) == fallback_nouns(text@),
    {
        match &self.segmenter {
            Some(seg) => match segment_text(seg, text) {
                Some(tokens) => nouns_from_tokens(&tokens),
                None => Vec::new(),
            },
            None => extract_nouns_fallback(text),
        }
    }
}

/// Every noun `WhitespaceMorphology` extracts has at least 2 chars.
pub proof fn lemma_whitespace_nouns_long(text: Seq<char>)
    ensures
        forall|i: int|
            0 <= i < whitespace_nouns(text).len() ==> (#[trigger] whitespace_nouns(text)[i]).len()
                >= 2,
{
    let tokens = runs_of(text, keep_for(false));
    lemma_ws_nouns_acc_long(tokens, tokens.len() as int);
}

proof fn lemma_ws_nouns_acc_long(tokens: Seq<Seq<char>>, n: int)
    ensures
        forall|i: int|
            0 <= i < ws_nouns_acc(tokens, n).len() ==> (#[trigger] ws_nouns_acc(tokens, n)[i]).len()
                >= 2,
    decreases n,
{
    if n > 0 {
        lemma_ws_nouns_acc_long(tokens, n - 1);
        let r = ws_nouns_acc(tokens, n - 1);
        let w = unicode_lower(trim(tokens[n - 1]));
        if w.len() >= 2 {
            assert forall|i: int| 0 <= i < r.push(w).len() implies (#[trigger] r.push(w)[i]).len()
                >= 2 by {
                if i < r.len() {
                    assert(r.push(w)[i] == r[i]);
                }
            }
        }
    }
}

} // verus!
