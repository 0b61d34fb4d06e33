//! Decisions of the NLP enrichment of H1, H4 and H5.
//!
//! Enrichment asks an NLP backend for embeddings, sentiment and stance and
//! turns the answers into the model-dependent metric fields. What is asked,
//! of which messages, within which budgets, and how the discrete answers
//! are tallied is decided here; the requests themselves and the float
//! arithmetic on embeddings and scores happen in the host.

use vstd::prelude::*;

use crate::analysis::{insert_by_timestamp, lemma_sort_by_ts_len, sort_by_ts, ThreadGroup};
use crate::config::{lit_views, spec_classify};
use crate::metrics::common::{median_doubled, median_doubled_of};
use crate::metrics::h3_power::{author_of_id, is_agreement, is_agreement_emoji};
use crate::metrics::h5_diversity::{is_month_index, label_views, member_views, month_index};
use crate::models::ChannelCategory;
use crate::strings::{chars_contain, chars_of, seq_contains, str_eq, string_of};
use crate::types::{AnalysisInput, Channel, Message, Reaction};

verus! {

// ---------------------------------------------------------------------------
// Sampling
// ---------------------------------------------------------------------------

/// The `cap` earliest messages of `s` (stable by timestamp).
pub open spec fn capped(s: Seq<Message>, cap: nat) -> Seq<Message> {
    let t = sort_by_ts(s);
    if cap < t.len() {
        t.take(cap as int)
    } else {
        t
    }
}

/// The `cap` earliest of `msgs`, in timestamp order (ties keep input order).
pub fn capped_by_ts(msgs: &Vec<Message>, cap: usize) -> (r: Vec<Message>)
    ensures
        r@ == capped(msgs@, cap as nat),
{
    let mut t: Vec<Message> = Vec::new();
    let mut k: usize = 0;
    while k < msgs.len()
        invariant
            k <= msgs.len(),
            t@ == sort_by_ts(msgs@.take(k as int)),
        decreases msgs.len() - k,
    {
        assert(msgs@.take(k + 1).drop_last() =~= msgs@.take(k as int));
        assert(msgs@.take(k + 1).last() == msgs@[k as int]);
        insert_by_timestamp(&mut t, msgs[k].clone());
        k = k + 1;
    }
    assert(msgs@.take(msgs.len() as int) =~= msgs@);
    proof {
        lemma_sort_by_ts_len(msgs@);
    }
    if cap < t.len() {
        let ghost full = t@;
        t.truncate(cap);
        assert(t@ =~= full.take(cap as int));
    }
    t
}

// ---------------------------------------------------------------------------
// H4: public / casual samples and agreement-reacted messages
// ---------------------------------------------------------------------------

/// The first declared channel with id `cid`.
pub open spec fn first_channel(chs: Seq<Channel>, cid: Seq<char>) -> Option<Channel>
    decreases chs.len(),
{
    if chs.len() == 0 {
        None
    } else if chs[0].id@ == cid {
        Some(chs[0])
    } else {
        first_channel(chs.drop_first(), cid)
    }
}

/// The category of channel `cid`: its declared category, else the
/// configured classification of its name; `Unknown` for undeclared ids.
pub open spec fn category_spec(input: AnalysisInput, cid: Seq<char>) -> ChannelCategory {
    match first_channel(input.channels@, cid) {
        Some(c) => match c.category {
            Some(cat) => cat,
            None => spec_classify(input.config.channels@, c.name@),
        },
        None => ChannelCategory::Unknown,
    }
}

pub fn category_of(input: &AnalysisInput<'_>, cid: &str) -> (r: ChannelCategory)
    ensures
        r == category_spec(*input, cid@),
{
    let chs = input.channels;
    let mut k: usize = 0;
    assert(chs@.skip(0) =~= chs@);
    while k < chs.len()
        invariant
            k <= chs.len(),
            chs@ == input.channels@,
            first_channel(chs@, cid@) == first_channel(chs@.skip(k as int), cid@),
        decreases chs.len() - k,
    {
        assert(chs@.skip(k as int).drop_first() =~= chs@.skip(k + 1));
        if str_eq(chs[k].id.as_str(), cid) {
            return match chs[k].category {
                Some(cat) => cat,
                None => input.config.classify_channel(chs[k].name.as_str()),
            };
        }
        k = k + 1;
    }
    ChannelCategory::Unknown
}

pub open spec fn is_public_category(c: ChannelCategory) -> bool {
    c == ChannelCategory::Official || c == ChannelCategory::Tech || c == ChannelCategory::Leadership
}

/// The messages among the first `n` whose channel is public (`casual ==
/// false`) or casual (`casual == true`), in order.
pub open spec fn by_category(input: AnalysisInput, casual: bool, n: int) -> Seq<Message>
    decreases n,
{
    if n <= 0 {
        seq![]
    } else {
        let r = by_category(input, casual, n - 1);
        let m = input.messages@[n - 1];
        let c = category_spec(input, m.channel_id@);
        if (if casual {
            c == ChannelCategory::Casual
        } else {
            is_public_category(c)
        }) {
            r.push(m)
        } else {
            r
        }
    }
}

/// Reaction `r` agrees with message `mid` and is not its author's own.
pub open spec fn agrees_with(msgs: Seq<Message>, r: Reaction, mid: Seq<char>) -> bool {
    &&& r.message_id@ == mid
    &&& is_agreement_emoji(r.emoji_name@)
    &&& author_of_id(msgs, mid) != Some(r.user_id@)
}

/// Some reaction agrees with message `mid`.
pub open spec fn agreement_reacted(input: AnalysisInput, mid: Seq<char>) -> bool {
    exists|k: int|
        0 <= k < input.reactions@.len() && #[trigger] agrees_with(
            input.messages@,
            input.reactions@[k],
            mid,
        )
}

/// The messages among the first `n` that received an agreement reaction.
pub open spec fn reacted_messages(input: AnalysisInput, n: int) -> Seq<Message>
    decreases n,
{
    if n <= 0 {
        seq![]
    } else {
        let r = reacted_messages(input, n - 1);
        let m = input.messages@[n - 1];
        if agreement_reacted(input, m.id@) {
            r.push(m)
        } else {
            r
        }
    }
}

/// The sentiment samples of the H4 enrichment: the earliest 300 public and
/// 300 casual messages (both empty unless each side has messages), and the
/// messages that received an agreement reaction from someone other than
/// their author.
pub struct H4Plan {
    pub public: Vec<Message>,
    pub casual: Vec<Message>,
    pub reacted: Vec<Message>,
}

pub open spec fn h4_plan_of(input: AnalysisInput, p: H4Plan) -> bool {
    let n = input.messages@.len() as int;
    let public = by_category(input, false, n);
    let casual = by_category(input, true, n);
    let both = public.len() > 0 && casual.len() > 0;
    &&& p.public@ == (if both {
        capped(public, 300)
    } else {
        seq![]
    })
    &&& p.casual@ == (if both {
        capped(casual, 300)
    } else {
        seq![]
    })
    &&& p.reacted@ == reacted_messages(input, n)
}

fn messages_by_category(input: &AnalysisInput<'_>, casual: bool) -> (r: Vec<Message>)
    ensures
        r@ == by_category(*input, casual, input.messages@.len() as int),
{
    let mut r: Vec<Message> = Vec::new();
    let mut k: usize = 0;
    while k < input.messages.len()
        invariant
            k <= input.messages.len(),
            r@ == by_category(*input, casual, k as int),
        decreases input.messages.len() - k,
    {
        let m = &input.messages[k];
        let c = category_of(input, m.channel_id.as_str());
        let keep = if casual {
            match c {
                ChannelCategory::Casual => true,
                _ => false,
            }
        } else {
            match c {
                ChannelCategory::Official | ChannelCategory::Tech | ChannelCategory::Leadership => true,
                _ => false,
            }
        };
        if keep {
            r.push(m.clone());
        }
        k = k + 1;
    }
    r
}

/// Position of the last message with id `mid`.
fn last_with_id(messages: &[Message], mid: &str) -> (r: Option<usize>)
    ensures
        r matches Some(j) ==> j < messages.len() && author_of_id(messages@, mid@) == Some(
            messages@[j as int].author_id@,
        ),
        r is None ==> author_of_id(messages@, mid@) is None,
{
    let mut k = messages.len();
    assert(messages@.take(messages.len() as int) =~= messages@);
    while k > 0
        invariant
            k <= messages.len(),
            author_of_id(messages@, mid@) == author_of_id(messages@.take(k as int), mid@),
        decreases k,
    {
        assert(messages@.take(k as int).drop_last() =~= messages@.take(k - 1));
        assert(messages@.take(k as int).last() == messages@[k - 1]);
        if str_eq(messages[k - 1].id.as_str(), mid) {
            return Some(k - 1);
        }
        k = k - 1;
    }
    None
}

/// Whether some reaction agrees with message `mid`.
fn is_agreement_reacted(input: &AnalysisInput<'_>, mid: &str) -> (r: bool)
    ensures
        r == agreement_reacted(*input, mid@),
{
    let author = last_with_id(input.messages, mid);
    let rs = input.reactions;
    let mut k: usize = 0;
    while k < rs.len()
        invariant
            k <= rs.len(),
            rs@ == input.reactions@,
            author matches Some(j) ==> j < input.messages.len() && author_of_id(
                input.messages@,
                mid@,
            ) == Some(input.messages@[j as int].author_id@),
            author is None ==> author_of_id(input.messages@, mid@) is None,
            forall|i: int| 0 <= i < k ==> !#[trigger] agrees_with(input.messages@, rs@[i], mid@),
        decreases rs.len() - k,
    {
        let r = &rs[k];
        let own = match author {
            Some(j) => str_eq(r.user_id.as_str(), input.messages[j].author_id.as_str()),
            None => false,
        };
        if str_eq(r.message_id.as_str(), mid) && is_agreement(r.emoji_name.as_str()) && !own {
            assert(agrees_with(input.messages@, rs@[k as int], mid@));
            return true;
        }
        k = k + 1;
    }
    false
}

/// Plan the H4 enrichment requests.
pub fn plan_h4(input: &AnalysisInput<'_>) -> (r: H4Plan)
    ensures
        h4_plan_of(*input, r),
{
    let public = messages_by_category(input, false);
    let casual = messages_by_category(input, true);
    let (p, c) = if public.len() > 0 && casual.len() > 0 {
        (capped_by_ts(&public, 300), capped_by_ts(&casual, 300))
    } else {
        (Vec::new(), Vec::new())
    };
    let mut reacted: Vec<Message> = Vec::new();
    let mut k: usize = 0;
    while k < input.messages.len()
        invariant
            k <= input.messages.len(),
            reacted@ == reacted_messages(*input, k as int),
        decreases input.messages.len() - k,
    {
        let m = &input.messages[k];
        if is_agreement_reacted(input, m.id.as_str()) {
            reacted.push(m.clone());
        }
        k = k + 1;
    }
    H4Plan { public: p, casual: c, reacted }
}

// ---------------------------------------------------------------------------
// H1: threads to embed, stance queue and dissent spans
// ---------------------------------------------------------------------------

pub open spec fn group_lens(gs: Seq<ThreadGroup>) -> Seq<nat> {
    gs.map_values(|g: ThreadGroup| g.messages@.len())
}

/// Positions (ascending) of the first `cap` groups among the first `n`
/// whose size is at least `min`.
pub open spec fn groups_at_least(lens: Seq<nat>, min: nat, cap: nat, n: int) -> Seq<int>
    decreases n,
{
    if n <= 0 {
        seq![]
    } else {
        let r = groups_at_least(lens, min, cap, n - 1);
        if lens[n - 1] >= min && r.len() < cap {
            r.push(n - 1)
        } else {
            r
        }
    }
}

/// Messages of the qualifying (two or more messages) groups before group
/// `i`: where group `i` starts in the stance queue.
pub open spec fn queue_offset(lens: Seq<nat>, i: int) -> nat
    decreases i,
{
    if i <= 0 {
        0
    } else {
        queue_offset(lens, i - 1) + if lens[i - 1] >= 2 {
            lens[i - 1]
        } else {
            0
        }
    }
}

/// The stance queue: `(group, message)` positions of the messages of the
/// qualifying groups, group by group, at most `budget` of them.
pub open spec fn stance_queue(lens: Seq<nat>, budget: nat) -> Seq<(int, int)> {
    let all = stance_all(lens, lens.len() as int);
    if budget < all.len() {
        all.take(budget as int)
    } else {
        all
    }
}

pub open spec fn stance_all(lens: Seq<nat>, n: int) -> Seq<(int, int)>
    decreases n,
{
    if n <= 0 {
        seq![]
    } else {
        let r = stance_all(lens, n - 1);
        if lens[n - 1] >= 2 {
            r + Seq::new(lens[n - 1], |j: int| (n - 1, j))
        } else {
            r
        }
    }
}

/// The H1 enrichment requests: the groups whose first and last messages are
/// compared (two or more messages, first 400), the groups checked for a
/// regression to the initial proposal (three or more, first 400) and the
/// messages whose stance is asked (first 800 of the groups with two or
/// more messages).
pub struct H1Plan {
    pub change_threads: Vec<usize>,
    pub regression_threads: Vec<usize>,
    pub stance_queue: Vec<(usize, usize)>,
}

pub open spec fn usize_pairs(v: Seq<(usize, usize)>) -> Seq<(int, int)> {
    v.map_values(|p: (usize, usize)| (p.0 as int, p.1 as int))
}

pub open spec fn usizes(v: Seq<usize>) -> Seq<int> {
    v.map_values(|x: usize| x as int)
}

pub open spec fn h1_plan_of(gs: Seq<ThreadGroup>, p: H1Plan) -> bool {
    let lens = group_lens(gs);
    &&& usizes(p.change_threads@) == groups_at_least(lens, 2, 400, gs.len() as int)
    &&& usizes(p.regression_threads@) == groups_at_least(lens, 3, 400, gs.len() as int)
    &&& usize_pairs(p.stance_queue@) == stance_queue(lens, 800)
}

fn select_groups(groups: &Vec<ThreadGroup>, min: usize, cap: usize) -> (r: Vec<usize>)
    ensures
        usizes(r@) == groups_at_least(group_lens(groups@), min as nat, cap as nat, groups@.len() as int),
{
    let ghost lens = group_lens(groups@);
    let mut r: Vec<usize> = Vec::new();
    let mut i: usize = 0;
    while i < groups.len()
        invariant
            i <= groups.len(),
            lens == group_lens(groups@),
            usizes(r@) == groups_at_least(lens, min as nat, cap as nat, i as int),
        decreases groups.len() - i,
    {
        assert(lens[i as int] == groups@[i as int].messages@.len());
        if groups[i].messages.len() >= min && r.len() < cap {
            let ghost before = r@;
            r.push(i);
            assert(usizes(r@) =~= usizes(before).push(i as int));
        }
        i = i + 1;
    }
    r
}

/// Plan the H1 enrichment requests over the thread groups.
pub fn plan_h1(groups: &Vec<ThreadGroup>) -> (r: H1Plan)
    ensures
        h1_plan_of(groups@, r),
{
    let change = select_groups(groups, 2, 400);
    let regression = select_groups(groups, 3, 400);
    let ghost lens = group_lens(groups@);
    let mut queue: Vec<(usize, usize)> = Vec::new();
    let mut i: usize = 0;
    while i < groups.len() && queue.len() < 800
        invariant
            i <= groups.len(),
            lens == group_lens(groups@),
            queue.len() <= 800,
            queue.len() < 800 ==> usize_pairs(queue@) == stance_all(lens, i as int),
            queue.len() == 800 ==> usize_pairs(queue@) == stance_queue(lens, 800),
            stance_all(lens, i as int).len() <= stance_all(lens, lens.len() as int).len(),
        decreases groups.len() - i,
    {
        let n = groups[i].messages.len();
        assert(lens[i as int] == n);
        let ghost prefix = stance_all(lens, i as int);
        if n >= 2 {
            let mut j: usize = 0;
            while j < n && queue.len() < 800
                invariant
                    j <= n,
                    n == lens[i as int],
                    queue.len() <= 800,
                    queue.len() < 800 ==> usize_pairs(queue@) == prefix + Seq::new(
                        j as nat,
                        |q: int| (i as int, q),
                    ),
                    queue.len() == 800 ==> usize_pairs(queue@) == (prefix + Seq::new(
                        j as nat,
                        |q: int| (i as int, q),
                    )).take(800),
                    queue.len() == 800 ==> prefix.len() + j == 800,
                decreases n - j,
            {
                let ghost before = queue@;
                queue.push((i, j));
                assert(usize_pairs(queue@) =~= usize_pairs(before).push((i as int, j as int)));
                assert(Seq::new((j + 1) as nat, |q: int| (i as int, q)) =~= Seq::new(
                    j as nat,
                    |q: int| (i as int, q),
                ).push((i as int, j as int)));
                j = j + 1;
            }
            proof {
                lemma_stance_all_prefix(lens, i + 1, lens.len() as int);
                assert(stance_all(lens, i + 1) == prefix + Seq::new(n as nat, |q: int| (i as int, q)));
                if queue.len() == 800 {
                    let full = stance_all(lens, lens.len() as int);
                    lemma_stance_all_is_prefix(lens, i + 1, lens.len() as int);
                    assert(full.take(800) =~= (prefix + Seq::new(j as nat, |q: int| (i as int, q))).take(
                        800,
                    ));
                } else {
                    assert(j == n);
                }
            }
        } else {
            proof {
                lemma_stance_all_prefix(lens, i + 1, lens.len() as int);
            }
        }
        i = i + 1;
    }
    proof {
        if queue.len() < 800 {
            if i < groups.len() {
                assert(false);
            }
            assert(i == groups.len());
            assert(lens.len() == groups.len());
        }
    }
    H1Plan { change_threads: change, regression_threads: regression, stance_queue: queue }
}

proof fn lemma_stance_all_prefix(lens: Seq<nat>, i: int, n: int)
    requires
        0 <= i <= n,
    ensures
        stance_all(lens, i).len() <= stance_all(lens, n).len(),
    decreases n - i,
{
    if i < n {
        lemma_stance_all_prefix(lens, i, n - 1);
    }
}

proof fn lemma_stance_all_is_prefix(lens: Seq<nat>, i: int, n: int)
    requires
        0 <= i <= n,
    ensures
        stance_all(lens, n).take(stance_all(lens, i).len() as int) == stance_all(lens, i),
    decreases n - i,
{
    if i < n {
        lemma_stance_all_is_prefix(lens, i, n - 1);
        lemma_stance_all_prefix(lens, i, n - 1);
        let a = stance_all(lens, n - 1);
        let b = stance_all(lens, n);
        let k = stance_all(lens, i).len() as int;
        assert(b.take(k) =~= a.take(k));
    } else {
        assert(stance_all(lens, n).take(stance_all(lens, n).len() as int) =~= stance_all(lens, n));
    }
}

/// Earliest / latest timestamp among the first `n` messages of `msgs` whose
/// flag is set.
pub open spec fn flagged_min(msgs: Seq<Message>, flags: Seq<bool>, n: int) -> Option<int>
    decreases n,
{
    if n <= 0 {
        None
    } else {
        let r = flagged_min(msgs, flags, n - 1);
        if flags[n - 1] {
            let t = msgs[n - 1].timestamp as int;
            match r {
                Some(x) => Some(if x <= t { x } else { t }),
                None => Some(t),
            }
        } else {
            r
        }
    }
}

pub open spec fn flagged_max(msgs: Seq<Message>, flags: Seq<bool>, n: int) -> Option<int>
    decreases n,
{
    if n <= 0 {
        None
    } else {
        let r = flagged_max(msgs, flags, n - 1);
        if flags[n - 1] {
            let t = msgs[n - 1].timestamp as int;
            match r {
                Some(x) => Some(if x >= t { x } else { t }),
                None => Some(t),
            }
        } else {
            r
        }
    }
}

/// The dissent spans (latest minus earliest disagreeing message, in
/// microseconds) of the first `n` groups whose messages were all asked,
/// in group order; `disagree[p]` answers queue entry `p`.
pub open spec fn dissent_spans(gs: Seq<ThreadGroup>, disagree: Seq<bool>, budget: nat, n: int) -> Seq<
    i128,
>
    decreases n,
{
    if n <= 0 {
        seq![]
    } else {
        let r = dissent_spans(gs, disagree, budget, n - 1);
        let lens = group_lens(gs);
        let off = queue_offset(lens, n - 1);
        let len = lens[n - 1];
        let msgs = gs[n - 1].messages@;
        let flags = disagree.subrange(off as int, (off + len) as int);
        if len >= 2 && off + len <= budget {
            match (flagged_min(msgs, flags, len as int), flagged_max(msgs, flags, len as int)) {
                (Some(lo), Some(hi)) => r.push((hi - lo) as i128),
                _ => r,
            }
        } else {
            r
        }
    }
}

/// The stance refinement of H1: the spans of the threads fully asked that
/// had a disagreeing message, and twice their median.
pub fn stance_dissent_spans(groups: &Vec<ThreadGroup>, disagree: &Vec<bool>) -> (r: (Vec<i128>, i128))
    requires
        disagree@.len() == stance_queue(group_lens(groups@), 800).len(),
    ensures
        r.0@ == dissent_spans(groups@, disagree@, 800, groups@.len() as int),
        r.1 == median_doubled_of(r.0@),
{
    let ghost lens = group_lens(groups@);
    let mut spans: Vec<i128> = Vec::new();
    let mut off: usize = 0;
    let mut i: usize = 0;
    while i < groups.len()
        invariant
            i <= groups.len(),
            lens == group_lens(groups@),
            disagree@.len() == stance_queue(lens, 800).len(),
            off as int == if queue_offset(lens, i as int) <= 800 {
                queue_offset(lens, i as int) as int
            } else {
                801
            },
            spans@ == dissent_spans(groups@, disagree@, 800, i as int),
            forall|q: int|
                0 <= q < spans@.len() ==> -0x1_0000_0000_0000_0000 <= #[trigger] spans@[q]
                    <= 0x1_0000_0000_0000_0000,
        decreases groups.len() - i,
    {
        let msgs = &groups[i].messages;
        let len = msgs.len();
        assert(lens[i as int] == len);
        proof {
            lemma_queue_offset_bound(lens, i as int);
        }
        if len >= 2 && off <= 800 && len <= 800 - off {
            proof {
                lemma_stance_queue_len(lens, i as int);
            }
            let ghost flags = disagree@.subrange(off as int, (off + len) as int);
            let mut lo: Option<i64> = None;
            let mut hi: Option<i64> = None;
            let mut j: usize = 0;
            while j < len
                invariant
                    j <= len == msgs@.len(),
                    off + len <= disagree@.len(),
                    off + len <= 800,
                    flags == disagree@.subrange(off as int, (off + len) as int),
                    lo matches Some(x) ==> flagged_min(msgs@, flags, j as int) == Some(x as int),
                    lo is None ==> flagged_min(msgs@, flags, j as int) is None,
                    hi matches Some(x) ==> flagged_max(msgs@, flags, j as int) == Some(x as int),
                    hi is None ==> flagged_max(msgs@, flags, j as int) is None,
                decreases len - j,
            {
                assert(flags[j as int] == disagree@[off + j]);
                if disagree[off + j] {
                    let t = msgs[j].timestamp;
                    lo = match lo {
                        Some(x) => Some(if x <= t { x } else { t }),
                        None => Some(t),
                    };
                    hi = match hi {
                        Some(x) => Some(if x >= t { x } else { t }),
                        None => Some(t),
                    };
                }
                j = j + 1;
            }
            match (lo, hi) {
                (Some(a), Some(b)) => {
                    spans.push(b as i128 - a as i128);
                },
                _ => {},
            }
        }
        if len >= 2 && off <= 800 {
            off = if len <= 800 - off {
                off + len
            } else {
                801
            };
        }
        i = i + 1;
    }
    let m = median_doubled(&spans, -0x1_0000_0000_0000_0000, 0x1_0000_0000_0000_0000);
    (spans, m)
}

proof fn lemma_queue_offset_bound(lens: Seq<nat>, i: int)
    requires
        0 <= i <= lens.len(),
    ensures
        queue_offset(lens, i) == stance_all(lens, i).len(),
    decreases i,
{
    if i > 0 {
        lemma_queue_offset_bound(lens, i - 1);
    }
}

proof fn lemma_stance_queue_len(lens: Seq<nat>, i: int)
    requires
        0 <= i < lens.len(),
        lens[i] >= 2,
        queue_offset(lens, i) + lens[i] <= 800,
    ensures
        queue_offset(lens, i) + lens[i] <= stance_queue(lens, 800).len(),
{
    lemma_queue_offset_bound(lens, i);
    lemma_queue_offset_bound(lens, i + 1);
    lemma_stance_all_prefix(lens, i + 1, lens.len() as int);
}

// ---------------------------------------------------------------------------
// H5: proposal threads and monthly cluster samples
// ---------------------------------------------------------------------------

pub open spec fn spec_proposal_cues() -> Seq<Seq<char>> {
    seq![
        "提案"@,
        "案として"@,
        "案1"@,
        "案2"@,
        "どうでしょう"@,
        "してはどう"@,
        "はどうか"@,
        "アイデア"@,
        "代替案"@,
        "別案"@,
    ]
}

/// `text` contains a proposal cue.
pub open spec fn is_proposal(text: Seq<char>) -> bool {
    exists|i: int|
        0 <= i < spec_proposal_cues().len() && seq_contains(text, #[trigger] spec_proposal_cues()[i])
}

pub fn is_proposal_exec(text: &str) -> (r: bool)
    ensures
        r == is_proposal(text@),
{
    let cues: [&str; 10] = [
        "提案",
        "案として",
        "案1",
        "案2",
        "どうでしょう",
        "してはどう",
        "はどうか",
        "アイデア",
        "代替案",
        "別案",
    ];
    assert(lit_views(cues@) =~= spec_proposal_cues());
    let t = chars_of(text);
    let mut k: usize = 0;
    while k < 10
        invariant
            k <= 10,
            t@ == text@,
            lit_views(cues@) == spec_proposal_cues(),
            forall|i: int| 0 <= i < k ==> !seq_contains(text@, #[trigger] spec_proposal_cues()[i]),
        decreases 10 - k,
    {
        assert(spec_proposal_cues()[k as int] == cues@[k as int]@);
        if chars_contain(&t, &chars_of(cues[k])) {
            return true;
        }
        k = k + 1;
    }
    false
}

/// The proposal messages among the first `n` of `msgs`.
pub open spec fn proposals(msgs: Seq<Message>, n: int) -> Seq<Message>
    decreases n,
{
    if n <= 0 {
        seq![]
    } else {
        let r = proposals(msgs, n - 1);
        if is_proposal(msgs[n - 1].text@) {
            r.push(msgs[n - 1])
        } else {
            r
        }
    }
}

/// Per group among the first `n` with two or more proposals, those
/// proposals, in group order.
pub open spec fn proposal_threads(gs: Seq<ThreadGroup>, n: int) -> Seq<Seq<Message>>
    decreases n,
{
    if n <= 0 {
        seq![]
    } else {
        let r = proposal_threads(gs, n - 1);
        let msgs = gs[n - 1].messages@;
        let p = proposals(msgs, msgs.len() as int);
        if p.len() >= 2 {
            r.push(p)
        } else {
            r
        }
    }
}

/// The minimum cluster size of the monthly topic clustering.
pub open spec fn min_cluster_size_for(embed_batch_size: nat) -> nat {
    let m = embed_batch_size / 8;
    if m < 2 {
        2
    } else {
        m
    }
}

/// The H5 enrichment requests: the proposals of each thread with two or
/// more of them (embedded together), the minimum cluster size, and per
/// month (ascending) with at least that many messages, its label and its
/// earliest 500 messages.
pub struct H5Plan {
    pub proposal_threads: Vec<Vec<Message>>,
    pub min_cluster_size: usize,
    pub months: Vec<(String, Vec<Message>)>,
}

pub open spec fn message_seqs(v: Seq<Vec<Message>>) -> Seq<Seq<Message>> {
    v.map_values(|x: Vec<Message>| x@)
}

/// The messages of `all` at the positions `idx`, in order.
pub open spec fn at_positions(all: Seq<Message>, idx: Seq<int>) -> Seq<Message> {
    idx.map_values(|i: int| all[i])
}

/// `months` samples, for each month of the index with at least `mcs`
/// messages, its earliest 500 messages.
pub open spec fn months_sampled(
    all: Seq<Message>,
    labels: Seq<Seq<char>>,
    members: Seq<Seq<int>>,
    mcs: nat,
    months: Seq<(Seq<char>, Seq<Message>)>,
    n: int,
) -> bool
    decreases n,
{
    if n <= 0 {
        months.len() == 0
    } else {
        let i = n - 1;
        if members[i].len() >= mcs {
            months.len() > 0 && months.last() == (labels[i], capped(at_positions(all, members[i]), 500))
                && months_sampled(all, labels, members, mcs, months.drop_last(), n - 1)
        } else {
            months_sampled(all, labels, members, mcs, months, n - 1)
        }
    }
}

pub open spec fn month_views(v: Seq<(String, Vec<Message>)>) -> Seq<(Seq<char>, Seq<Message>)> {
    v.map_values(|x: (String, Vec<Message>)| (x.0@, x.1@))
}

pub open spec fn h5_plan_of(input: AnalysisInput, gs: Seq<ThreadGroup>, p: H5Plan) -> bool {
    let all = input.messages@;
    &&& message_seqs(p.proposal_threads@) == proposal_threads(gs, gs.len() as int)
    &&& p.min_cluster_size == min_cluster_size_for(input.config.nlp_sidecar.embed_batch_size as nat)
    &&& exists|labels: Seq<Seq<char>>, members: Seq<Seq<int>>|
        is_month_index(all, all.len() as int, labels, members) && #[trigger] months_sampled(
            all,
            labels,
            members,
            p.min_cluster_size as nat,
            month_views(p.months@),
            labels.len() as int,
        )
}

fn proposals_of(msgs: &Vec<Message>) -> (r: Vec<Message>)
    ensures
        r@ == proposals(msgs@, msgs@.len() as int),
{
    let mut r: Vec<Message> = Vec::new();
    let mut k: usize = 0;
    while k < msgs.len()
        invariant
            k <= msgs.len(),
            r@ == proposals(msgs@, k as int),
        decreases msgs.len() - k,
    {
        if is_proposal_exec(msgs[k].text.as_str()) {
            r.push(msgs[k].clone());
        }
        k = k + 1;
    }
    r
}

/// Plan the H5 enrichment requests over `input` and its thread groups.
pub fn plan_h5(input: &AnalysisInput<'_>, groups: &Vec<ThreadGroup>) -> (r: H5Plan)
    ensures
        h5_plan_of(*input, groups@, r),
{
    let mut threads: Vec<Vec<Message>> = Vec::new();
    let mut i: usize = 0;
    while i < groups.len()
        invariant
            i <= groups.len(),
            message_seqs(threads@) == proposal_threads(groups@, i as int),
        decreases groups.len() - i,
    {
        let p = proposals_of(&groups[i].messages);
        if p.len() >= 2 {
            let ghost before = threads@;
            threads.push(p);
            assert(message_seqs(threads@) =~= message_seqs(before).push(p@));
        }
        i = i + 1;
    }
    let q = input.config.nlp_sidecar.embed_batch_size / 8;
    let mcs = if q < 2 {
        2
    } else {
        q
    };
    let all = input.messages;
    let (labels, members) = month_index(all);
    let ghost lv = label_views(labels@);
    let ghost mv = member_views(members@);
    let mut months: Vec<(String, Vec<Message>)> = Vec::new();
    let mut m: usize = 0;
    while m < labels.len()
        invariant
            m <= labels.len(),
            labels@.len() == members@.len(),
            lv == label_views(labels@),
            mv == member_views(members@),
            forall|a: int, b: int|
                0 <= a < members@.len() && 0 <= b < members@[a]@.len() ==> #[trigger] members@[a]@[b]
                    < all@.len(),
            months_sampled(all@, lv, mv, mcs as nat, month_views(months@), m as int),
        decreases labels.len() - m,
    {
        let idx = &members[m];
        assert(mv[m as int] == crate::metrics::h5_diversity::usize_seq(idx@));
        if idx.len() >= mcs {
            let mut ms: Vec<Message> = Vec::new();
            let mut q: usize = 0;
            while q < idx.len()
                invariant
                    q <= idx.len(),
                    m < members@.len(),
                    *idx == members@[m as int],
                    forall|b: int| 0 <= b < idx@.len() ==> #[trigger] idx@[b] < all@.len(),
                    ms@ == at_positions(all@, crate::metrics::h5_diversity::usize_seq(idx@).take(q as int)),
                decreases idx.len() - q,
            {
                let ghost before = ms@;
                ms.push(all[idx[q]].clone());
                assert(ms@ =~= at_positions(
                    all@,
                    crate::metrics::h5_diversity::usize_seq(idx@).take(q + 1),
                ));
                q = q + 1;
            }
            assert(crate::metrics::h5_diversity::usize_seq(idx@).take(idx.len() as int)
                =~= crate::metrics::h5_diversity::usize_seq(idx@));
            let sample = capped_by_ts(&ms, 500);
            let label = string_of(&labels[m]);
            let ghost before = months@;
            months.push((label, sample));
            assert(month_views(months@).drop_last() =~= month_views(before));
        }
        m = m + 1;
    }
    let r = H5Plan { proposal_threads: threads, min_cluster_size: mcs, months };
    assert(is_month_index(all@, all@.len() as int, lv, mv));
    assert(months_sampled(all@, lv, mv, r.min_cluster_size as nat, month_views(r.months@), lv.len() as int));
    assert(message_seqs(r.proposal_threads@) == proposal_threads(groups@, groups@.len() as int));
    assert(r.min_cluster_size == min_cluster_size_for(input.config.nlp_sidecar.embed_batch_size as nat));
    r
}

} // verus!
