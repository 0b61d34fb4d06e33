//! H2: psychological-safety tallies (phrase based).

use vstd::prelude::*;

use crate::analysis::{group_threads, is_grouping, is_thread_of, lemma_sort_by_ts_permutes, ts_sorted, ThreadGroup};
use crate::error::CommError;
use crate::metrics::common::{median_doubled, median_doubled_of};
use crate::strings::{ascii_lower, chars_contain, chars_of, lower_all, owned_all, seq_contains, str_eq, views};
use crate::text::patterns::{dict_builds, has_phrase, phrase_bytes, PatternMatcher};
use crate::types::{AnalysisInput, Message};

verus! {

/// Incident keywords; a thread's first message containing one (ASCII case
/// ignored) is where a problem was raised.
pub open spec fn spec_incident_keywords() -> Seq<Seq<char>> {
    seq![
        "障害"@,
        "インシデント"@,
        "エラー"@,
        "ダウン"@,
        "落ち"@,
        "不具合"@,
        "停止"@,
        "アラート"@,
        "timeout"@,
        "500"@,
    ]
}

fn incident_keywords() -> (r: Vec<String>)
    ensures
        views(r@) == spec_incident_keywords(),
{
    let lits: [&str; 10] = [
        "障害",
        "インシデント",
        "エラー",
        "ダウン",
        "落ち",
        "不具合",
        "停止",
        "アラート",
        "timeout",
        "500",
    ];
    let r = owned_all(&lits);
    assert(lits@.map_values(|s: &str| s@) =~= spec_incident_keywords());
    r
}

/// The text mentions an incident keyword (ASCII case ignored).
pub open spec fn mentions_incident(text: Seq<char>) -> bool {
    exists|k: int|
        0 <= k < spec_incident_keywords().len() && #[trigger] seq_contains(
            ascii_lower(text),
            ascii_lower(spec_incident_keywords()[k]),
        )
}

/// Number of the first `n` messages whose text has a phrase of `ps`.
pub open spec fn count_with_phrase(s: Seq<Message>, ps: Seq<Seq<u8>>, n: int) -> nat
    decreases n,
{
    if n <= 0 {
        0
    } else {
        count_with_phrase(s, ps, n - 1) + if has_phrase(ps, s[n - 1].text@) {
            1nat
        } else {
            0nat
        }
    }
}

/// Index of the first message of `s` that mentions an incident.
pub open spec fn first_incident(s: Seq<Message>, from: int) -> Option<int>
    decreases s.len() - from,
{
    if from < 0 || from >= s.len() {
        None
    } else if mentions_incident(s[from].text@) {
        Some(from)
    } else {
        first_incident(s, from + 1)
    }
}

/// Index of the first message of `s` after the incident at `p` (strictly
/// later timestamp) written by someone else.
pub open spec fn first_share(s: Seq<Message>, p: int, from: int) -> Option<int>
    decreases s.len() - from,
{
    if from < 0 || from >= s.len() {
        None
    } else if s[from].timestamp > s[p].timestamp && s[from].author_id@ != s[p].author_id@ {
        Some(from)
    } else {
        first_share(s, p, from + 1)
    }
}

/// The escalation delay of one thread (microseconds), if it has one.
pub open spec fn escalation_delay(s: Seq<Message>) -> Option<int> {
    match first_incident(s, 0) {
        Some(p) => match first_share(s, p, 0) {
            Some(j) => Some(s[j].timestamp - s[p].timestamp),
            None => None,
        },
        None => None,
    }
}

/// Escalation delays of the threads that have one, in thread order.
pub open spec fn escalation_delays(gs: Seq<ThreadGroup>) -> Seq<i128>
    decreases gs.len(),
{
    if gs.len() == 0 {
        seq![]
    } else {
        let r = escalation_delays(gs.drop_last());
        match escalation_delay(gs.last().messages@) {
            Some(d) => r.push(d as i128),
            None => r,
        }
    }
}

/// The H2 tallies.
pub struct H2Tally {
    /// Messages containing a hedging phrase.
    pub hedging: usize,
    /// Messages containing a self-defense phrase.
    pub self_defense: usize,
    /// Messages containing a hesitation / incomplete-utterance marker.
    pub incomplete: usize,
    /// Per thread with an answered incident: microseconds from the incident
    /// message to the first later message by someone else.
    pub escalation_delays: Vec<i128>,
    /// Twice the median of `escalation_delays` (0 when there is none).
    pub escalation_delay_median_doubled: i128,
    /// Number of messages considered.
    pub sample_size: usize,
}

pub open spec fn h2_tally_of(input: AnalysisInput, gs: Seq<ThreadGroup>, t: H2Tally) -> bool {
    let all = input.messages@;
    let dict = input.config.patterns;
    let n = all.len() as int;
    &&& t.sample_size == all.len()
    &&& t.hedging == count_with_phrase(all, phrase_bytes(dict.hedging@), n)
    &&& t.self_defense == count_with_phrase(all, phrase_bytes(dict.self_defense@), n)
    &&& t.incomplete == count_with_phrase(all, phrase_bytes(dict.incomplete@), n)
    &&& t.escalation_delays@ == escalation_delays(gs)
    &&& t.escalation_delay_median_doubled == median_doubled_of(escalation_delays(gs))
}

fn mentions_incident_exec(text: &str, keys: &Vec<Vec<char>>) -> (r: bool)
    requires
        keys@.len() == spec_incident_keywords().len(),
        forall|i: int| 0 <= i < keys@.len() ==> (#[trigger] keys@[i])@ == ascii_lower(
            spec_incident_keywords()[i],
        ),
    ensures
        r == mentions_incident(text@),
{
    let lt = lower_all(&chars_of(text));
    let mut k: usize = 0;
    while k < keys.len()
        invariant
            k <= keys.len(),
            lt@ == ascii_lower(text@),
            keys@.len() == spec_incident_keywords().len(),
            forall|i: int| 0 <= i < keys@.len() ==> (#[trigger] keys@[i])@ == ascii_lower(
                spec_incident_keywords()[i],
            ),
            forall|i: int|
                0 <= i < k ==> !#[trigger] seq_contains(
                    ascii_lower(text@),
                    ascii_lower(spec_incident_keywords()[i]),
                ),
        decreases keys.len() - k,
    {
        if chars_contain(&lt, &keys[k]) {
            assert(keys@[k as int]@ == ascii_lower(spec_incident_keywords()[k as int]));
            return true;
        }
        k = k + 1;
    }
    false
}

fn lowered_keywords() -> (r: Vec<Vec<char>>)
    ensures
        r@.len() == spec_incident_keywords().len(),
        forall|i: int| 0 <= i < r@.len() ==> (#[trigger] r@[i])@ == ascii_lower(
            spec_incident_keywords()[i],
        ),
{
    let kw = incident_keywords();
    let mut r: Vec<Vec<char>> = Vec::new();
    let mut k: usize = 0;
    while k < kw.len()
        invariant
            k <= kw.len(),
            views(kw@) == spec_incident_keywords(),
            r@.len() == k,
            forall|i: int| 0 <= i < k ==> (#[trigger] r@[i])@ == ascii_lower(
                spec_incident_keywords()[i],
            ),
        decreases kw.len() - k,
    {
        assert(kw@[k as int]@ == spec_incident_keywords()[k as int]);
        r.push(lower_all(&chars_of(kw[k].as_str())));
        k = k + 1;
    }
    r
}

/// The escalation delay of one thread.
fn thread_escalation_delay(msgs: &Vec<Message>, keys: &Vec<Vec<char>>) -> (r: Option<i128>)
    requires
        keys@.len() == spec_incident_keywords().len(),
        forall|i: int| 0 <= i < keys@.len() ==> (#[trigger] keys@[i])@ == ascii_lower(
            spec_incident_keywords()[i],
        ),
    ensures
        r is Some <==> escalation_delay(msgs@) is Some,
        r matches Some(d) ==> d == escalation_delay(msgs@)->0,
{
    let mut p: usize = 0;
    while p < msgs.len() && !mentions_incident_exec(msgs[p].text.as_str(), keys)
        invariant
            p <= msgs.len(),
            keys@.len() == spec_incident_keywords().len(),
            forall|i: int| 0 <= i < keys@.len() ==> (#[trigger] keys@[i])@ == ascii_lower(
                spec_incident_keywords()[i],
            ),
            first_incident(msgs@, 0) == first_incident(msgs@, p as int),
        decreases msgs.len() - p,
    {
        p = p + 1;
    }
    if p == msgs.len() {
        return None;
    }
    let mut j: usize = 0;
    while j < msgs.len() && !(msgs[j].timestamp > msgs[p].timestamp && !str_eq(
        msgs[j].author_id.as_str(),
        msgs[p].author_id.as_str(),
    ))
        invariant
            p < msgs.len(),
            j <= msgs.len(),
            first_share(msgs@, p as int, 0) == first_share(msgs@, p as int, j as int),
        decreases msgs.len() - j,
    {
        j = j + 1;
    }
    if j == msgs.len() {
        return None;
    }
    Some((msgs[j].timestamp as i128) - (msgs[p].timestamp as i128))
}

/// Compute the H2 (psychological safety) tallies over `input.messages`.
/// Fails only when the phrase automata cannot be built.
pub fn compute_h2(input: &AnalysisInput<'_>) -> (r: Result<H2Tally, CommError>)
    ensures
        r is Ok <==> dict_builds(input.config.patterns),
        r is Ok ==> exists|gs: Seq<ThreadGroup>|
            is_grouping(gs, input.messages@) && #[trigger] h2_tally_of(*input, gs, r->Ok_0),
        r matches Err(e) ==> e is Config,
{
    let pm = match PatternMatcher::build(&input.config.patterns) {
        Ok(pm) => pm,
        Err(e) => {
            return Err(e);
        },
    };
    let all = input.messages;
    let ghost dict = input.config.patterns;
    let mut hedging: usize = 0;
    let mut self_defense: usize = 0;
    let mut incomplete: usize = 0;
    let mut k: usize = 0;
    while k < all.len()
        invariant
            k <= all.len(),
            pm.built_from(dict),
            hedging == count_with_phrase(all@, phrase_bytes(dict.hedging@), k as int),
            self_defense == count_with_phrase(all@, phrase_bytes(dict.self_defense@), k as int),
            incomplete == count_with_phrase(all@, phrase_bytes(dict.incomplete@), k as int),
            hedging <= k && self_defense <= k && incomplete <= k,
        decreases all.len() - k,
    {
        let text = all[k].text.as_str();
        if pm.count_hedging(text) > 0 {
            hedging = hedging + 1;
        }
        if pm.count_self_defense(text) > 0 {
            self_defense = self_defense + 1;
        }
        if pm.count_incomplete(text) > 0 {
            incomplete = incomplete + 1;
        }
        k = k + 1;
    }

    let groups = group_threads(all);
    let keys = lowered_keywords();
    let mut delays: Vec<i128> = Vec::new();
    let mut g: usize = 0;
    while g < groups.len()
        invariant
            g <= groups.len(),
            keys@.len() == spec_incident_keywords().len(),
            forall|i: int| 0 <= i < keys@.len() ==> (#[trigger] keys@[i])@ == ascii_lower(
                spec_incident_keywords()[i],
            ),
            delays@ == escalation_delays(groups@.take(g as int)),
            forall|i: int|
                0 <= i < delays.len() ==> -0x1_0000_0000_0000_0000 <= #[trigger] delays@[i]
                    <= 0x1_0000_0000_0000_0000,
        decreases groups.len() - g,
    {
        proof {
            assert(groups@.take(g + 1).drop_last() =~= groups@.take(g as int));
            assert(groups@.take(g + 1).last() == groups@[g as int]);
        }
        match thread_escalation_delay(&groups[g].messages, &keys) {
            Some(d) => delays.push(d),
            None => {},
        }
        g = g + 1;
    }
    assert(groups@.take(groups.len() as int) =~= groups@);
    let median = median_doubled(&delays, -0x1_0000_0000_0000_0000, 0x1_0000_0000_0000_0000);
    let t = H2Tally {
        hedging,
        self_defense,
        incomplete,
        escalation_delays: delays,
        escalation_delay_median_doubled: median,
        sample_size: all.len(),
    };
    let res: Result<H2Tally, CommError> = Ok(t);
    assert(res->Ok_0 == t);
    assert(h2_tally_of(*input, groups@, res->Ok_0));
    res
}

proof fn lemma_first_incident(s: Seq<Message>, from: int)
    requires
        0 <= from,
    ensures
        first_incident(s, from) matches Some(p) ==> from <= p < s.len() && mentions_incident(
            s[p].text@,
        ) && forall|q: int| from <= q < p ==> !mentions_incident(#[trigger] s[q].text@),
    decreases s.len() - from,
{
    if from < s.len() && !mentions_incident(s[from].text@) {
        lemma_first_incident(s, from + 1);
    }
}

proof fn lemma_first_share(s: Seq<Message>, p: int, from: int)
    requires
        0 <= from,
    ensures
        first_share(s, p, from) matches Some(j) ==> from <= j < s.len() && s[j].timestamp
            > s[p].timestamp && s[j].author_id@ != s[p].author_id@ && forall|k: int|
            from <= k < j ==> !((#[trigger] s[k]).timestamp > s[p].timestamp && s[k].author_id@
                != s[p].author_id@),
    decreases s.len() - from,
{
    if 0 <= from < s.len() && !(s[from].timestamp > s[p].timestamp && s[from].author_id@
        != s[p].author_id@) {
        lemma_first_share(s, p, from + 1);
    }
}

/// In a thread sorted by timestamp, a delay comes from the first incident
/// message `p` and a strictly later message `j` by another author, with no
/// other author's message strictly after `p` and before `j`.
proof fn lemma_thread_escalation(s: Seq<Message>)
    requires
        ts_sorted(s),
        escalation_delay(s) is Some,
    ensures
        exists|p: int, j: int|
            #![trigger s[p], s[j]]
            0 <= p < s.len() && 0 <= j < s.len() && mentions_incident(s[p].text@) && (forall|
                q: int,
            | 0 <= q < p ==> !mentions_incident(#[trigger] s[q].text@)) && s[j].author_id@
                != s[p].author_id@ && s[j].timestamp > s[p].timestamp && escalation_delay(s)->0
                == s[j].timestamp - s[p].timestamp && (forall|k: int|
                0 <= k < s.len() && (#[trigger] s[k]).author_id@ != s[p].author_id@
                    && s[k].timestamp > s[p].timestamp ==> s[k].timestamp >= s[j].timestamp),
{
    lemma_first_incident(s, 0);
    let p = first_incident(s, 0)->0;
    lemma_first_share(s, p, 0);
    let j = first_share(s, p, 0)->0;
    assert forall|k: int|
        0 <= k < s.len() && (#[trigger] s[k]).author_id@ != s[p].author_id@ && s[k].timestamp
            > s[p].timestamp implies s[k].timestamp >= s[j].timestamp by {
        if k < j {
            assert(!(s[k].timestamp > s[p].timestamp && s[k].author_id@ != s[p].author_id@));
        } else if j < k {
            assert(s[j].timestamp <= s[k].timestamp);
        }
    }
    assert(s[p] == s[p] && s[j] == s[j]);
}

/// Each entry of `escalation_delays(gs)` is the delay of one of the threads.
proof fn lemma_escalation_delay_source(gs: Seq<ThreadGroup>, idx: int)
    requires
        0 <= idx < escalation_delays(gs).len(),
    ensures
        exists|i: int|
            0 <= i < gs.len() && #[trigger] escalation_delay(gs[i].messages@) == Some(
                escalation_delays(gs)[idx] as int,
            ),
    decreases gs.len(),
{
    let init = gs.drop_last();
    let r = escalation_delays(init);
    if idx < r.len() {
        lemma_escalation_delay_source(init, idx);
        let i = choose|i: int|
            0 <= i < init.len() && #[trigger] escalation_delay(init[i].messages@) == Some(
                r[idx] as int,
            );
        assert(gs[i] == init[i]);
        assert(escalation_delays(gs)[idx] == r[idx]);
    } else {
        let last = gs.last().messages@;
        let d = escalation_delay(last)->0;
        assert(escalation_delay(last) is Some);
        assert(escalation_delays(gs)[idx] == d as i128);
        assert(gs[gs.len() - 1] == gs.last());
        assert(escalation_delay(gs[gs.len() - 1].messages@) == Some(
            escalation_delays(gs)[idx] as int,
        ));
    }
}

/// Every H2 escalation delay belongs to a thread of the grouping: it runs
/// from the thread's first incident message `p` to a message `j` that is
/// strictly later and written by someone other than `p`'s author, and no
/// message by another author falls strictly after `p` and before `j`. The
/// reporter's own follow-ups never count as the escalation.
pub proof fn lemma_h2_escalation_share(input: AnalysisInput, gs: Seq<ThreadGroup>, t: H2Tally, idx: int)
    requires
        is_grouping(gs, input.messages@),
        h2_tally_of(input, gs, t),
        0 <= idx < t.escalation_delays@.len(),
    ensures
        exists|i: int, p: int, j: int|
            #![trigger gs[i].messages@[p], gs[i].messages@[j]]
            0 <= i < gs.len() && 0 <= p < gs[i].messages@.len() && 0 <= j
                < gs[i].messages@.len() && mentions_incident(gs[i].messages@[p].text@) && (forall|
                q: int,
            | 0 <= q < p ==> !mentions_incident(#[trigger] gs[i].messages@[q].text@))
                && gs[i].messages@[j].author_id@ != gs[i].messages@[p].author_id@
                && gs[i].messages@[j].timestamp > gs[i].messages@[p].timestamp
                && t.escalation_delays@[idx] == gs[i].messages@[j].timestamp
                - gs[i].messages@[p].timestamp && (forall|k: int|
                0 <= k < gs[i].messages@.len() && (#[trigger] gs[i].messages@[k]).author_id@
                    != gs[i].messages@[p].author_id@ && gs[i].messages@[k].timestamp
                    > gs[i].messages@[p].timestamp ==> gs[i].messages@[k].timestamp
                    >= gs[i].messages@[j].timestamp),
{
    lemma_escalation_delay_source(gs, idx);
    let i = choose|i: int|
        0 <= i < gs.len() && #[trigger] escalation_delay(gs[i].messages@) == Some(
            escalation_delays(gs)[idx] as int,
        );
    let s = gs[i].messages@;
    assert(is_thread_of(gs[i], input.messages@));
    lemma_sort_by_ts_permutes(
        crate::analysis::thread_messages(input.messages@, gs[i].channel_id@, gs[i].thread_key@),
    );
    lemma_thread_escalation(s);
    let (p, j) = choose|p: int, j: int|
        #![trigger s[p], s[j]]
        0 <= p < s.len() && 0 <= j < s.len() && mentions_incident(s[p].text@) && (forall|q: int|
            0 <= q < p ==> !mentions_incident(#[trigger] s[q].text@)) && s[j].author_id@
            != s[p].author_id@ && s[j].timestamp > s[p].timestamp && escalation_delay(s)->0
            == s[j].timestamp - s[p].timestamp && (forall|k: int|
            0 <= k < s.len() && (#[trigger] s[k]).author_id@ != s[p].author_id@ && s[k].timestamp
                > s[p].timestamp ==> s[k].timestamp >= s[j].timestamp);
    assert(t.escalation_delays@[idx] == escalation_delays(gs)[idx]);
    assert(gs[i].messages@[p] == s[p] && gs[i].messages@[j] == s[j]);
}

/// The thread `s` has an incident message and, after its first incident
/// message, a strictly later message written by someone else.
pub open spec fn thread_has_escalation(s: Seq<Message>) -> bool {
    exists|p: int, j: int|
        #![trigger s[p], s[j]]
        0 <= p < s.len() && 0 <= j < s.len() && mentions_incident(s[p].text@) && (forall|q: int|
            0 <= q < p ==> !mentions_incident(#[trigger] s[q].text@)) && s[j].author_id@
            != s[p].author_id@ && s[j].timestamp > s[p].timestamp
}

/// Number of the threads of `gs` with an escalation.
pub open spec fn escalating_threads(gs: Seq<ThreadGroup>) -> nat
    decreases gs.len(),
{
    if gs.len() == 0 {
        0
    } else {
        escalating_threads(gs.drop_last()) + if thread_has_escalation(gs.last().messages@) {
            1nat
        } else {
            0nat
        }
    }
}

proof fn lemma_first_incident_found(s: Seq<Message>, from: int, p: int)
    requires
        0 <= from <= p < s.len(),
        mentions_incident(s[p].text@),
    ensures
        first_incident(s, from) is Some,
    decreases p - from,
{
    if !mentions_incident(s[from].text@) {
        lemma_first_incident_found(s, from + 1, p);
    }
}

proof fn lemma_first_share_found(s: Seq<Message>, p: int, from: int, j: int)
    requires
        0 <= from <= j < s.len(),
        s[j].timestamp > s[p].timestamp,
        s[j].author_id@ != s[p].author_id@,
    ensures
        first_share(s, p, from) is Some,
    decreases j - from,
{
    if !(s[from].timestamp > s[p].timestamp && s[from].author_id@ != s[p].author_id@) {
        lemma_first_share_found(s, p, from + 1, j);
    }
}

proof fn lemma_thread_delay_iff(s: Seq<Message>)
    ensures
        escalation_delay(s) is Some <==> thread_has_escalation(s),
{
    lemma_first_incident(s, 0);
    if escalation_delay(s) is Some {
        let p = first_incident(s, 0)->0;
        lemma_first_share(s, p, 0);
        let j = first_share(s, p, 0)->0;
        assert(s[p] == s[p] && s[j] == s[j]);
    }
    if thread_has_escalation(s) {
        let (p, j) = choose|p: int, j: int|
            #![trigger s[p], s[j]]
            0 <= p < s.len() && 0 <= j < s.len() && mentions_incident(s[p].text@) && (forall|
                q: int,
            | 0 <= q < p ==> !mentions_incident(#[trigger] s[q].text@)) && s[j].author_id@
                != s[p].author_id@ && s[j].timestamp > s[p].timestamp;
        lemma_first_incident_found(s, 0, p);
        let p0 = first_incident(s, 0)->0;
        if p0 < p {
            assert(!mentions_incident(s[p0].text@));
        }
        if p < p0 {
            assert(!mentions_incident(s[p].text@));
        }
        assert(p0 == p);
        lemma_first_share_found(s, p, 0, j);
    }
}

proof fn lemma_escalation_delays_count(gs: Seq<ThreadGroup>)
    ensures
        escalation_delays(gs).len() == escalating_threads(gs),
    decreases gs.len(),
{
    if gs.len() > 0 {
        lemma_escalation_delays_count(gs.drop_last());
        lemma_thread_delay_iff(gs.last().messages@);
    }
}

/// There is one escalation delay per thread with an escalation: a thread
/// whose first incident message is followed by a strictly later message from
/// someone else, and no other thread, contributes exactly one.
pub proof fn lemma_h2_delay_per_escalating_thread(input: AnalysisInput, gs: Seq<ThreadGroup>, t: H2Tally)
    requires
        h2_tally_of(input, gs, t),
    ensures
        t.escalation_delays@.len() == escalating_threads(gs),
{
    lemma_escalation_delays_count(gs);
}

proof fn lemma_count_with_phrase_le(s: Seq<Message>, ps: Seq<Seq<u8>>, n: int)
    ensures
        count_with_phrase(s, ps, n) <= if n < 0 {
            0
        } else {
            n
        },
    decreases n,
{
    if n > 0 {
        lemma_count_with_phrase_le(s, ps, n - 1);
    }
}

/// The hedging, self-defense and incomplete-utterance rates lie in
/// `[0, 1]`: each count is at most the sample size.
pub proof fn lemma_h2_rates_bounded(input: AnalysisInput, gs: Seq<ThreadGroup>, t: H2Tally)
    requires
        h2_tally_of(input, gs, t),
    ensures
        t.hedging <= t.sample_size,
        t.self_defense <= t.sample_size,
        t.incomplete <= t.sample_size,
{
    let all = input.messages@;
    let dict = input.config.patterns;
    lemma_count_with_phrase_le(all, phrase_bytes(dict.hedging@), all.len() as int);
    lemma_count_with_phrase_le(all, phrase_bytes(dict.self_defense@), all.len() as int);
    lemma_count_with_phrase_le(all, phrase_bytes(dict.incomplete@), all.len() as int);
}

} // verus!
