//! H4: pseudo-consensus / hidden-dissent tallies (phrase based).

use vstd::prelude::*;

use crate::config::{first_entry_from, spec_classify, ChannelEntry, CommConfig};
use crate::error::CommError;
use crate::metrics::common::{median_doubled, median_doubled_of};
use crate::metrics::h1_justification::is_dissent;
use crate::models::ChannelCategory;
use crate::strings::str_eq;
use crate::text::patterns::{dict_builds, 
    builtin_bytes, has_phrase, phrase_bytes, spec_action_mention_phrases,
    spec_commitment_phrases, PatternMatcher,
};
use crate::types::{AnalysisInput, Channel, Message};

verus! {

/// Window (microseconds, 48 h) after a public agreement in which a
/// dissenting message elsewhere counts.
pub open spec fn dissent_window() -> int {
    172_800_000_000
}

pub open spec fn is_commitment(m: Message) -> bool {
    has_phrase(builtin_bytes(spec_commitment_phrases()), m.text@)
}

pub open spec fn is_action_mention(m: Message) -> bool {
    has_phrase(builtin_bytes(spec_action_mention_phrases()), m.text@)
}

/// Smallest delay from `m` to a strictly later action-mention message by
/// the same author among the first `n` messages of `all`.
pub open spec fn min_action_delay(all: Seq<Message>, m: Message, n: int) -> Option<int>
    decreases n,
{
    if n <= 0 {
        None
    } else {
        let r = min_action_delay(all, m, n - 1);
        let c = all[n - 1];
        if c.author_id@ == m.author_id@ && c.timestamp > m.timestamp && is_action_mention(c) {
            let d = c.timestamp - m.timestamp;
            match r {
                None => Some(d),
                Some(x) => Some(if x <= d {
                    x
                } else {
                    d
                }),
            }
        } else {
            r
        }
    }
}

/// Commitment-to-action delays of the first `n` messages, in message order:
/// one per commitment message that was followed by an action mention.
pub open spec fn execution_delays(all: Seq<Message>, n: int) -> Seq<i128>
    decreases n,
{
    if n <= 0 {
        seq![]
    } else {
        let r = execution_delays(all, n - 1);
        if is_commitment(all[n - 1]) {
            match min_action_delay(all, all[n - 1], all.len() as int) {
                Some(d) => r.push(d as i128),
                None => r,
            }
        } else {
            r
        }
    }
}

/// The last declared channel with id `cid`.
pub open spec fn last_channel(chs: Seq<Channel>, cid: Seq<char>) -> Option<Channel>
    decreases chs.len(),
{
    if chs.len() == 0 {
        None
    } else if chs.last().id@ == cid {
        Some(chs.last())
    } else {
        last_channel(chs.drop_last(), cid)
    }
}

pub open spec fn is_decision_category(c: ChannelCategory) -> bool {
    c == ChannelCategory::Leadership || c == ChannelCategory::Official
}

/// A declared channel is a decision channel when the caller flags it, its
/// category is Leadership / Official, or the configuration flags or
/// classifies its name so.
pub open spec fn channel_is_decision(entries: Seq<ChannelEntry>, c: Channel) -> bool {
    ||| c.is_decision_channel
    ||| (c.category matches Some(cat) && is_decision_category(cat))
    ||| (first_entry_from(entries, c.name@, 0) matches Some(i)
        && entries[i].is_decision_channel)
    ||| is_decision_category(spec_classify(entries, c.name@))
}

/// Channel id `cid` names a decision channel (undeclared ids never do).
pub open spec fn is_decision_id(chs: Seq<Channel>, entries: Seq<ChannelEntry>, cid: Seq<char>) -> bool {
    match last_channel(chs, cid) {
        Some(c) => channel_is_decision(entries, c),
        None => false,
    }
}

/// `m` is a surface agreement posted in a decision channel.
pub open spec fn is_agreement_event(
    chs: Seq<Channel>,
    entries: Seq<ChannelEntry>,
    surface: Seq<Seq<u8>>,
    m: Message,
) -> bool {
    is_decision_id(chs, entries, m.channel_id@) && has_phrase(surface, m.text@)
}

/// The author of `m` dissented in another channel within 48 h after it.
pub open spec fn dissent_after(all: Seq<Message>, m: Message) -> bool {
    exists|j: int|
        0 <= j < all.len() && #[trigger] dissent_elsewhere(all[j], m)
}

pub open spec fn dissent_elsewhere(n: Message, m: Message) -> bool {
    &&& n.author_id@ == m.author_id@
    &&& n.channel_id@ != m.channel_id@
    &&& 0 < n.timestamp - m.timestamp <= dissent_window()
    &&& is_dissent(n)
}

/// Number of the first `n` messages satisfying the H4 predicate selected by
/// `which`: 0 = surface agreement, 1 = agreement event, 2 = agreement event
/// followed by dissent elsewhere.
pub open spec fn count_h4(
    all: Seq<Message>,
    chs: Seq<Channel>,
    entries: Seq<ChannelEntry>,
    surface: Seq<Seq<u8>>,
    which: int,
    n: int,
) -> nat
    decreases n,
{
    if n <= 0 {
        0
    } else {
        let m = all[n - 1];
        let hit = if which == 0 {
            has_phrase(surface, m.text@)
        } else if which == 1 {
            is_agreement_event(chs, entries, surface, m)
        } else {
            is_agreement_event(chs, entries, surface, m) && dissent_after(all, m)
        };
        count_h4(all, chs, entries, surface, which, n - 1) + if hit {
            1nat
        } else {
            0nat
        }
    }
}

/// The H4 tallies.
pub struct H4Tally {
    /// Number of messages.
    pub total: usize,
    /// Messages containing a surface-agreement phrase.
    pub surface_agreement: usize,
    /// Commitment-to-action delays (microseconds), one per followed-up
    /// commitment.
    pub execution_delays: Vec<i128>,
    /// Twice the median of `execution_delays` (0 when there is none).
    pub execution_delay_median_doubled: i128,
    /// Surface agreements posted in decision channels.
    pub agreement_events: usize,
    /// Those agreement events whose author dissented in another channel
    /// within 48 h.
    pub dissent_after_agreement: usize,
}

pub open spec fn h4_tally_of(input: AnalysisInput, t: H4Tally) -> bool {
    let all = input.messages@;
    let chs = input.channels@;
    let entries = input.config.channels@;
    let surface = phrase_bytes(input.config.patterns.surface_agreement@);
    let n = all.len() as int;
    &&& t.total == all.len()
    &&& t.surface_agreement == count_h4(all, chs, entries, surface, 0, n)
    &&& t.execution_delays@ == execution_delays(all, n)
    &&& t.execution_delay_median_doubled == median_doubled_of(execution_delays(all, n))
    &&& t.agreement_events == count_h4(all, chs, entries, surface, 1, n)
    &&& t.dissent_after_agreement == count_h4(all, chs, entries, surface, 2, n)
}

fn is_decision_category_exec(c: ChannelCategory) -> (b: bool)
    ensures
        b == is_decision_category(c),
{
    match c {
        ChannelCategory::Leadership | ChannelCategory::Official => true,
        _ => false,
    }
}

fn channel_is_decision_exec(cfg: &CommConfig, c: &Channel) -> (b: bool)
    ensures
        b == channel_is_decision(cfg.channels@, *c),
{
    if c.is_decision_channel {
        return true;
    }
    match c.category {
        Some(cat) => {
            if is_decision_category_exec(cat) {
                return true;
            }
        },
        None => {},
    }
    let flagged = match cfg.channel_entry_for(c.name.as_str()) {
        Some(e) => e.is_decision_channel,
        None => false,
    };
    let cat = cfg.classify_channel(c.name.as_str());
    flagged || is_decision_category_exec(cat)
}

fn is_decision_id_exec(input: &AnalysisInput<'_>, cid: &str) -> (b: bool)
    ensures
        b == is_decision_id(input.channels@, input.config.channels@, cid@),
{
    let chs = input.channels;
    let mut k = chs.len();
    assert(chs@.take(chs.len() as int) =~= chs@);
    while k > 0
        invariant
            k <= chs.len(),
            chs@ == input.channels@,
            last_channel(chs@, cid@) == last_channel(chs@.take(k as int), cid@),
        decreases k,
    {
        proof {
            assert(chs@.take(k as int).drop_last() =~= chs@.take(k - 1));
            assert(chs@.take(k as int).last() == chs@[k - 1]);
        }
        if str_eq(chs[k - 1].id.as_str(), cid) {
            return channel_is_decision_exec(input.config, &chs[k - 1]);
        }
        k = k - 1;
    }
    false
}

/// Whether message `k` was followed, within 48 h, by a dissenting message of
/// its author in another channel.
fn dissent_after_exec(all: &[Message], dissent: &Vec<bool>, k: usize) -> (b: bool)
    requires
        k < all.len(),
        dissent@.len() == all.len(),
        forall|i: int| 0 <= i < all.len() ==> #[trigger] dissent@[i] == is_dissent(all@[i]),
    ensures
        b == dissent_after(all@, all@[k as int]),
{
    let m = &all[k];
    let mut j: usize = 0;
    while j < all.len()
        invariant
            k < all.len(),
            j <= all.len(),
            *m == all@[k as int],
            dissent@.len() == all.len(),
            forall|i: int| 0 <= i < all.len() ==> #[trigger] dissent@[i] == is_dissent(all@[i]),
            forall|i: int| 0 <= i < j ==> !#[trigger] dissent_elsewhere(all@[i], *m),
        decreases all.len() - j,
    {
        let n = &all[j];
        let dt: i128 = (n.timestamp as i128) - (m.timestamp as i128);
        if dissent[j] && 0 < dt && dt <= 172_800_000_000 && str_eq(
            n.author_id.as_str(),
            m.author_id.as_str(),
        ) && !str_eq(n.channel_id.as_str(), m.channel_id.as_str()) {
            assert(dissent_elsewhere(all@[j as int], *m));
            return true;
        }
        j = j + 1;
    }
    false
}

/// The commitment-to-action delay of message `k`, if any.
fn action_delay_exec(all: &[Message], action: &Vec<bool>, k: usize) -> (r: Option<i128>)
    requires
        k < all.len(),
        action@.len() == all.len(),
        forall|i: int| 0 <= i < all.len() ==> #[trigger] action@[i] == is_action_mention(all@[i]),
    ensures
        r is Some <==> min_action_delay(all@, all@[k as int], all.len() as int) is Some,
        r matches Some(d) ==> d == min_action_delay(all@, all@[k as int], all.len() as int)->0
            && 0 < d <= 0x1_0000_0000_0000_0000,
{
    let m = &all[k];
    let mut best: Option<i128> = None;
    let mut j: usize = 0;
    while j < all.len()
        invariant
            k < all.len(),
            j <= all.len(),
            *m == all@[k as int],
            action@.len() == all.len(),
            forall|i: int| 0 <= i < all.len() ==> #[trigger] action@[i] == is_action_mention(all@[i]),
            best is Some <==> min_action_delay(all@, *m, j as int) is Some,
            best matches Some(d) ==> d == min_action_delay(all@, *m, j as int)->0 && 0 < d
                <= 0x1_0000_0000_0000_0000,
        decreases all.len() - j,
    {
        let n = &all[j];
        if action[j] && n.timestamp > m.timestamp && str_eq(
            n.author_id.as_str(),
            m.author_id.as_str(),
        ) {
            let d: i128 = (n.timestamp as i128) - (m.timestamp as i128);
            best = match best {
                None => Some(d),
                Some(x) => Some(if x <= d { x } else { d }),
            };
        }
        j = j + 1;
    }
    best
}

/// Compute the H4 (pseudo-consensus) tallies over `input.messages`.
/// Fails only when the phrase automata cannot be built.
pub fn compute_h4(input: &AnalysisInput<'_>) -> (r: Result<H4Tally, CommError>)
    ensures
        r is Ok <==> dict_builds(input.config.patterns),
        r is Ok ==> h4_tally_of(*input, r->Ok_0),
        r matches Err(e) ==> e is Config,
{
    let pm = match PatternMatcher::build(&input.config.patterns) {
        Ok(pm) => pm,
        Err(e) => {
            return Err(e);
        },
    };
    let all = input.messages;
    let ghost chs = input.channels@;
    let ghost entries = input.config.channels@;
    let ghost surface = phrase_bytes(input.config.patterns.surface_agreement@);
    let ghost n = all.len() as int;

    // per-message phrase flags
    let mut dissent: Vec<bool> = Vec::new();
    let mut action: Vec<bool> = Vec::new();
    let mut k: usize = 0;
    while k < all.len()
        invariant
            k <= all.len(),
            pm.built_from(input.config.patterns),
            all@ == input.messages@,
            dissent@.len() == k,
            action@.len() == k,
            forall|i: int| 0 <= i < k ==> #[trigger] dissent@[i] == is_dissent(all@[i]),
            forall|i: int| 0 <= i < k ==> #[trigger] action@[i] == is_action_mention(all@[i]),
        decreases all.len() - k,
    {
        dissent.push(pm.count_dissent(all[k].text.as_str()) > 0);
        action.push(pm.contains_action_mention(all[k].text.as_str()));
        k = k + 1;
    }

    let mut surface_count: usize = 0;
    let mut delays: Vec<i128> = Vec::new();
    let mut events: usize = 0;
    let mut positive: usize = 0;
    let mut k: usize = 0;
    while k < all.len()
        invariant
            k <= all.len(),
            pm.built_from(input.config.patterns),
            all@ == input.messages@,
            chs == input.channels@,
            entries == input.config.channels@,
            surface == phrase_bytes(input.config.patterns.surface_agreement@),
            dissent@.len() == all.len(),
            action@.len() == all.len(),
            forall|i: int| 0 <= i < all.len() ==> #[trigger] dissent@[i] == is_dissent(all@[i]),
            forall|i: int| 0 <= i < all.len() ==> #[trigger] action@[i] == is_action_mention(all@[i]),
            surface_count == count_h4(all@, chs, entries, surface, 0, k as int),
            events == count_h4(all@, chs, entries, surface, 1, k as int),
            positive == count_h4(all@, chs, entries, surface, 2, k as int),
            surface_count <= k && events <= k && positive <= k,
            delays@ == execution_delays(all@, k as int),
            forall|i: int| 0 <= i < delays.len() ==> 0 < #[trigger] delays@[i] <= 0x1_0000_0000_0000_0000,
        decreases all.len() - k,
    {
        let m = &all[k];
        let agrees = pm.contains_surface_agreement(m.text.as_str());
        if agrees {
            surface_count = surface_count + 1;
        }
        if pm.contains_commitment(m.text.as_str()) {
            match action_delay_exec(all, &action, k) {
                Some(d) => delays.push(d),
                None => {},
            }
        }
        if agrees && is_decision_id_exec(input, m.channel_id.as_str()) {
            events = events + 1;
            if dissent_after_exec(all, &dissent, k) {
                positive = positive + 1;
            }
        }
        k = k + 1;
    }
    let median = median_doubled(&delays, 0, 0x1_0000_0000_0000_0000);
    let t = H4Tally {
        total: all.len(),
        surface_agreement: surface_count,
        execution_delays: delays,
        execution_delay_median_doubled: median,
        agreement_events: events,
        dissent_after_agreement: positive,
    };
    let res: Result<H4Tally, CommError> = Ok(t);
    assert(res->Ok_0 == t);
    res
}

proof fn lemma_min_action_delay(all: Seq<Message>, m: Message, n: int)
    requires
        n <= all.len(),
    ensures
        min_action_delay(all, m, n) matches Some(d) ==> exists|a: int|
            0 <= a < n && (#[trigger] all[a]).author_id@ == m.author_id@ && all[a].timestamp
                > m.timestamp && is_action_mention(all[a]) && d == all[a].timestamp - m.timestamp,
        min_action_delay(all, m, n) matches Some(d) ==> forall|b: int|
            0 <= b < n && (#[trigger] all[b]).author_id@ == m.author_id@ && all[b].timestamp
                > m.timestamp && is_action_mention(all[b]) ==> all[b].timestamp - m.timestamp >= d,
        min_action_delay(all, m, n) is None ==> forall|b: int|
            0 <= b < n && (#[trigger] all[b]).author_id@ == m.author_id@ ==> !(all[b].timestamp
                > m.timestamp && is_action_mention(all[b])),
    decreases n,
{
    if n > 0 {
        lemma_min_action_delay(all, m, n - 1);
    }
}

/// Each entry of `execution_delays(all, n)` is the action delay of a
/// commitment among the first `n` messages.
proof fn lemma_execution_delay_source(all: Seq<Message>, n: int, idx: int)
    requires
        n <= all.len(),
        0 <= idx < execution_delays(all, n).len(),
    ensures
        exists|c: int|
            0 <= c < n && is_commitment(all[c]) && #[trigger] min_action_delay(
                all,
                all[c],
                all.len() as int,
            ) == Some(execution_delays(all, n)[idx] as int),
    decreases n,
{
    let r = execution_delays(all, n - 1);
    if idx < r.len() {
        lemma_execution_delay_source(all, n - 1, idx);
        assert(execution_delays(all, n)[idx] == r[idx]);
    } else {
        let c = n - 1;
        let d = min_action_delay(all, all[c], all.len() as int)->0;
        lemma_min_action_delay(all, all[c], all.len() as int);
        assert(execution_delays(all, n)[idx] == d as i128);
        assert(min_action_delay(all, all[c], all.len() as int) == Some(
            execution_delays(all, n)[idx] as int,
        ));
    }
}

/// Every H4 execution delay runs from a commitment message `c` to a strictly
/// later action-mention message `a` by the same author, the earliest such
/// follow-up of `c`: an action mention by another user never closes a
/// commitment.
pub proof fn lemma_h4_same_author_action(input: AnalysisInput, t: H4Tally, idx: int)
    requires
        h4_tally_of(input, t),
        0 <= idx < t.execution_delays@.len(),
    ensures
        exists|c: int, a: int|
            #![trigger input.messages@[c], input.messages@[a]]
            0 <= c < input.messages@.len() && 0 <= a < input.messages@.len() && is_commitment(
                input.messages@[c],
            ) && is_action_mention(input.messages@[a]) && input.messages@[a].author_id@
                == input.messages@[c].author_id@ && input.messages@[a].timestamp
                > input.messages@[c].timestamp && t.execution_delays@[idx]
                == input.messages@[a].timestamp - input.messages@[c].timestamp && (forall|b: int|
                0 <= b < input.messages@.len() && (#[trigger] input.messages@[b]).author_id@
                    == input.messages@[c].author_id@ && input.messages@[b].timestamp
                    > input.messages@[c].timestamp && is_action_mention(input.messages@[b])
                    ==> input.messages@[b].timestamp >= input.messages@[a].timestamp),
{
    let all = input.messages@;
    let n = all.len() as int;
    lemma_execution_delay_source(all, n, idx);
    let c = choose|c: int|
        0 <= c < n && is_commitment(all[c]) && #[trigger] min_action_delay(all, all[c], n) == Some(
            execution_delays(all, n)[idx] as int,
        );
    lemma_min_action_delay(all, all[c], n);
    let d = execution_delays(all, n)[idx] as int;
    let a = choose|a: int|
        0 <= a < n && (#[trigger] all[a]).author_id@ == all[c].author_id@ && all[a].timestamp
            > all[c].timestamp && is_action_mention(all[a]) && d == all[a].timestamp
            - all[c].timestamp;
    assert forall|b: int|
        0 <= b < n && (#[trigger] all[b]).author_id@ == all[c].author_id@ && all[b].timestamp
            > all[c].timestamp && is_action_mention(all[b]) implies all[b].timestamp
        >= all[a].timestamp by {
        assert(all[b].timestamp - all[c].timestamp >= d);
    }
    assert(t.execution_delays@[idx] == execution_delays(all, n)[idx]);
    assert(all[c] == all[c] && all[a] == all[a]);
}

/// Some message of `all` is an action mention by `all[c]`'s author,
/// strictly later than `all[c]`.
pub open spec fn followed_through(all: Seq<Message>, c: int) -> bool {
    exists|a: int|
        0 <= a < all.len() && (#[trigger] all[a]).author_id@ == all[c].author_id@
            && all[a].timestamp > all[c].timestamp && is_action_mention(all[a])
}

/// Number of the first `n` messages that are commitments followed through
/// by their author.
pub open spec fn followed_commitments(all: Seq<Message>, n: int) -> nat
    decreases n,
{
    if n <= 0 {
        0
    } else {
        followed_commitments(all, n - 1) + if is_commitment(all[n - 1]) && followed_through(
            all,
            n - 1,
        ) {
            1nat
        } else {
            0nat
        }
    }
}

proof fn lemma_execution_delays_count(all: Seq<Message>, n: int)
    requires
        n <= all.len(),
    ensures
        execution_delays(all, n).len() == followed_commitments(all, n),
    decreases n,
{
    if n > 0 {
        lemma_execution_delays_count(all, n - 1);
        let c = n - 1;
        lemma_min_action_delay(all, all[c], all.len() as int);
        if followed_through(all, c) {
            let a = choose|a: int|
                0 <= a < all.len() && (#[trigger] all[a]).author_id@ == all[c].author_id@
                    && all[a].timestamp > all[c].timestamp && is_action_mention(all[a]);
            assert(min_action_delay(all, all[c], all.len() as int) is Some);
        }
        if min_action_delay(all, all[c], all.len() as int) is Some {
            let d = min_action_delay(all, all[c], all.len() as int)->0;
            let a = choose|a: int|
                0 <= a < all.len() && (#[trigger] all[a]).author_id@ == all[c].author_id@
                    && all[a].timestamp > all[c].timestamp && is_action_mention(all[a]) && d
                    == all[a].timestamp - all[c].timestamp;
            assert(followed_through(all, c));
        }
    }
}

/// There is one execution delay per commitment message that its author
/// followed up with a strictly later action mention, and none for any other
/// message.
pub proof fn lemma_h4_delay_per_followed_commitment(input: AnalysisInput, t: H4Tally)
    requires
        h4_tally_of(input, t),
    ensures
        t.execution_delays@.len() == followed_commitments(
            input.messages@,
            input.messages@.len() as int,
        ),
{
    lemma_execution_delays_count(input.messages@, input.messages@.len() as int);
}

proof fn lemma_count_h4_nested(
    all: Seq<Message>,
    chs: Seq<Channel>,
    entries: Seq<ChannelEntry>,
    surface: Seq<Seq<u8>>,
    n: int,
)
    ensures
        count_h4(all, chs, entries, surface, 2, n) <= count_h4(all, chs, entries, surface, 1, n),
        count_h4(all, chs, entries, surface, 1, n) <= count_h4(all, chs, entries, surface, 0, n),
        count_h4(all, chs, entries, surface, 0, n) <= if n < 0 {
            0
        } else {
            n
        },
    decreases n,
{
    if n > 0 {
        lemma_count_h4_nested(all, chs, entries, surface, n - 1);
    }
}

/// The H4 rates lie in `[0, 1]`: agreements followed by dissent are among
/// the agreement events, which are among the surface agreements, which are
/// among all messages.
pub proof fn lemma_h4_rates_bounded(input: AnalysisInput, t: H4Tally)
    requires
        h4_tally_of(input, t),
    ensures
        t.dissent_after_agreement <= t.agreement_events,
        t.agreement_events <= t.surface_agreement,
        t.surface_agreement <= t.total,
{
    lemma_count_h4_nested(
        input.messages@,
        input.channels@,
        input.config.channels@,
        phrase_bytes(input.config.patterns.surface_agreement@),
        input.messages@.len() as int,
    );
}

/// `all[j]` is a dissenting message by `all[k]`'s author in another channel,
/// more than 0 and at most 48 h (172_800_000_000 microseconds) after it.
pub open spec fn dissents_elsewhere_within_two_days(all: Seq<Message>, k: int, j: int) -> bool {
    &&& all[j].author_id@ == all[k].author_id@
    &&& all[j].channel_id@ != all[k].channel_id@
    &&& 0 < all[j].timestamp - all[k].timestamp <= 172_800_000_000
    &&& is_dissent(all[j])
}

/// Some message of `all` dissents from `all[k]` elsewhere within 48 h.
pub open spec fn dissented_within_two_days(all: Seq<Message>, k: int) -> bool {
    exists|j: int| 0 <= j < all.len() && #[trigger] dissents_elsewhere_within_two_days(all, k, j)
}

proof fn lemma_count_h4_no_dissent(
    all: Seq<Message>,
    chs: Seq<Channel>,
    entries: Seq<ChannelEntry>,
    surface: Seq<Seq<u8>>,
    n: int,
)
    requires
        n <= all.len(),
        forall|k: int| 0 <= k < all.len() ==> !#[trigger] dissented_within_two_days(all, k),
    ensures
        count_h4(all, chs, entries, surface, 2, n) == 0,
    decreases n,
{
    if n > 0 {
        lemma_count_h4_no_dissent(all, chs, entries, surface, n - 1);
        let m = all[n - 1];
        if dissent_after(all, m) {
            let j = choose|j: int| 0 <= j < all.len() && #[trigger] dissent_elsewhere(all[j], m);
            assert(dissents_elsewhere_within_two_days(all, n - 1, j));
            assert(dissented_within_two_days(all, n - 1));
        }
    }
}

proof fn lemma_count_h4_all_dissent(
    all: Seq<Message>,
    chs: Seq<Channel>,
    entries: Seq<ChannelEntry>,
    surface: Seq<Seq<u8>>,
    n: int,
)
    requires
        n <= all.len(),
        forall|k: int| 0 <= k < all.len() ==> #[trigger] dissented_within_two_days(all, k),
    ensures
        count_h4(all, chs, entries, surface, 2, n) == count_h4(all, chs, entries, surface, 1, n),
    decreases n,
{
    if n > 0 {
        lemma_count_h4_all_dissent(all, chs, entries, surface, n - 1);
        let m = all[n - 1];
        assert(dissented_within_two_days(all, n - 1));
        let j = choose|j: int|
            0 <= j < all.len() && #[trigger] dissents_elsewhere_within_two_days(all, n - 1, j);
        assert(dissent_elsewhere(all[j], m));
    }
}

/// An agreement counts as followed by dissent only through a dissenting
/// message by the same author in another channel, more than 0 and at most
/// 48 h later: when no message has such a follower, `dissent_after_agreement`
/// is 0.
pub proof fn lemma_h4_no_dissent_elsewhere(input: AnalysisInput, t: H4Tally)
    requires
        h4_tally_of(input, t),
        forall|k: int|
            0 <= k < input.messages@.len() ==> !#[trigger] dissented_within_two_days(
                input.messages@,
                k,
            ),
    ensures
        t.dissent_after_agreement == 0,
{
    lemma_count_h4_no_dissent(
        input.messages@,
        input.channels@,
        input.config.channels@,
        phrase_bytes(input.config.patterns.surface_agreement@),
        input.messages@.len() as int,
    );
}

/// When every message has such a follower, every agreement event counts as
/// followed by dissent.
pub proof fn lemma_h4_all_dissent_elsewhere(input: AnalysisInput, t: H4Tally)
    requires
        h4_tally_of(input, t),
        forall|k: int|
            0 <= k < input.messages@.len() ==> #[trigger] dissented_within_two_days(
                input.messages@,
                k,
            ),
    ensures
        t.dissent_after_agreement == t.agreement_events,
{
    lemma_count_h4_all_dissent(
        input.messages@,
        input.channels@,
        input.config.channels@,
        phrase_bytes(input.config.patterns.surface_agreement@),
        input.messages@.len() as int,
    );
}

} // verus!
