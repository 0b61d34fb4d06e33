//! H5: exploration-ability / idea-diversity tallies.

use vstd::prelude::*;

use crate::analysis::{group_threads, is_grouping, ThreadGroup};
use crate::calendar::{month_label, month_label_of};
use crate::error::CommError;
use crate::metrics::common::{median_doubled, median_doubled_of};
use crate::metrics::h1_justification::multi_message_threads;
use crate::morphology::Morphology;
use crate::strings::{
    chars_eq, chars_lt, lemma_seq_lt_asymmetric, lemma_seq_lt_irreflexive, lemma_seq_lt_total,
    lemma_seq_lt_transitive, seq_lt, str_eq, string_of, views, dedup, lemma_dedup_contains,
    lemma_dedup_distinct,
};
use crate::text::patterns::{dict_builds, has_phrase, phrase_bytes, PatternMatcher};
use crate::types::{AnalysisInput, Message};

verus! {

/// Some message of `s` has a phrase of `ps`.
pub open spec fn any_phrase(s: Seq<Message>, ps: Seq<Seq<u8>>) -> bool
    decreases s.len(),
{
    if s.len() == 0 {
        false
    } else {
        any_phrase(s.drop_last(), ps) || has_phrase(ps, s.last().text@)
    }
}

/// Earliest timestamp in a non-empty `s`.
pub open spec fn ts_min(s: Seq<Message>) -> int
    decreases s.len(),
{
    if s.len() <= 1 {
        if s.len() == 1 {
            s[0].timestamp as int
        } else {
            0
        }
    } else {
        let r = ts_min(s.drop_last());
        if r <= s.last().timestamp {
            r
        } else {
            s.last().timestamp as int
        }
    }
}

/// Latest timestamp in a non-empty `s`.
pub open spec fn ts_max(s: Seq<Message>) -> int
    decreases s.len(),
{
    if s.len() <= 1 {
        if s.len() == 1 {
            s[0].timestamp as int
        } else {
            0
        }
    } else {
        let r = ts_max(s.drop_last());
        if r >= s.last().timestamp {
            r
        } else {
            s.last().timestamp as int
        }
    }
}

/// Threads (two or more messages) without a conclusion marker.
pub open spec fn unresolved_threads(gs: Seq<ThreadGroup>, conclusion: Seq<Seq<u8>>) -> nat
    decreases gs.len(),
{
    if gs.len() == 0 {
        0
    } else {
        let g = gs.last().messages@;
        unresolved_threads(gs.drop_last(), conclusion) + if g.len() >= 2 && !any_phrase(
            g,
            conclusion,
        ) {
            1nat
        } else {
            0nat
        }
    }
}

/// For each thread (two or more messages) carrying an unresolved marker, in
/// thread order: microseconds from its first to its last message.
pub open spec fn retention_spans(gs: Seq<ThreadGroup>, unresolved: Seq<Seq<u8>>) -> Seq<i128>
    decreases gs.len(),
{
    if gs.len() == 0 {
        seq![]
    } else {
        let r = retention_spans(gs.drop_last(), unresolved);
        let g = gs.last().messages@;
        if g.len() >= 2 && any_phrase(g, unresolved) {
            r.push((ts_max(g) - ts_min(g)) as i128)
        } else {
            r
        }
    }
}

/// `x` occurs in one of the first `i` months.
pub open spec fn seen_before(ms: Seq<Seq<Seq<char>>>, i: int, x: Seq<char>) -> bool {
    exists|j: int| 0 <= j < i && #[trigger] ms[j].contains(x)
}

/// Number of the first `n` words of `vm` not seen before month `i`.
pub open spec fn count_novel(vm: Seq<Seq<char>>, ms: Seq<Seq<Seq<char>>>, i: int, n: int) -> nat
    decreases n,
{
    if n <= 0 {
        0
    } else {
        count_novel(vm, ms, i, n - 1) + if !seen_before(ms, i, vm[n - 1]) {
            1nat
        } else {
            0nat
        }
    }
}

/// Month `i`'s `(novel, distinct)` word counts.
pub open spec fn vocab_counts(ms: Seq<Seq<Seq<char>>>, i: int) -> (nat, nat) {
    let vm = dedup(ms[i]);
    (count_novel(vm, ms, i, vm.len() as int), vm.len())
}

pub open spec fn nested_views(m: Seq<Vec<String>>) -> Seq<Seq<Seq<char>>> {
    m.map_values(|v: Vec<String>| views(v@))
}

/// Per month (in the given order), the number of distinct words and of those
/// not used in any earlier month.
pub fn novel_vocabulary(months: &Vec<Vec<String>>) -> (r: Vec<(usize, usize)>)
    ensures
        r@.len() == months@.len(),
        forall|i: int|
            0 <= i < months@.len() ==> (#[trigger] r@[i]).0 == vocab_counts(
                nested_views(months@),
                i,
            ).0 && r@[i].1 == vocab_counts(nested_views(months@), i).1,
{
    let ghost ms = nested_views(months@);
    let mut r: Vec<(usize, usize)> = Vec::new();
    let mut seen: Vec<String> = Vec::new();
    let mut i: usize = 0;
    while i < months.len()
        invariant
            i <= months.len(),
            ms == nested_views(months@),
            r@.len() == i,
            forall|q: int|
                0 <= q < i ==> (#[trigger] r@[q]).0 == vocab_counts(ms, q).0 && r@[q].1
                    == vocab_counts(ms, q).1,
            forall|x: Seq<char>| views(seen@).contains(x) <==> seen_before(ms, i as int, x),
        decreases months.len() - i,
    {
        let month = &months[i];
        assert(ms[i as int] == views(month@));
        // distinct words of this month, first occurrence order
        let mut vm: Vec<String> = Vec::new();
        let mut k: usize = 0;
        while k < month.len()
            invariant
                k <= month.len(),
                views(vm@) == dedup(views(month@).take(k as int)),
            decreases month.len() - k,
        {
            proof {
                assert(views(month@).take(k + 1).drop_last() =~= views(month@).take(k as int));
                assert(views(month@).take(k + 1).last() == month@[k as int]@);
            }
            if !crate::graph::contains_string(&vm, month[k].as_str()) {
                vm.push(month[k].clone());
                assert(views(vm@) =~= dedup(views(month@).take(k as int)).push(month@[k as int]@));
            }
            k = k + 1;
        }
        assert(views(month@).take(month.len() as int) =~= views(month@));
        let mut novel: usize = 0;
        let mut q: usize = 0;
        while q < vm.len()
            invariant
                q <= vm.len(),
                novel <= q,
                views(vm@) == dedup(ms[i as int]),
                forall|x: Seq<char>| views(seen@).contains(x) <==> seen_before(ms, i as int, x),
                novel == count_novel(dedup(ms[i as int]), ms, i as int, q as int),
            decreases vm.len() - q,
        {
            assert(views(vm@)[q as int] == vm@[q as int]@);
            if !crate::graph::contains_string(&seen, vm[q].as_str()) {
                novel = novel + 1;
            }
            q = q + 1;
        }
        r.push((novel, vm.len()));
        // remember this month's words
        let ghost before = seen@;
        assert(forall|x: Seq<char>| views(before).contains(x) <==> seen_before(ms, i as int, x));
        let mut k: usize = 0;
        while k < month.len()
            invariant
                k <= month.len(),
                ms == nested_views(months@),
                ms[i as int] == views(month@),
                views(seen@) == views(before) + views(month@).take(k as int),
            decreases month.len() - k,
        {
            let ghost prev = seen@;
            let x = month[k].clone();
            seen.push(x);
            proof {
                assert(seen@ == prev.push(x));
                assert(views(seen@) =~= views(prev).push(x@));
                assert(views(month@).take(k + 1) =~= views(month@).take(k as int).push(x@));
            }
            k = k + 1;
            assert(views(seen@) =~= views(before) + views(month@).take(k as int));
        }
        proof {
            assert(views(month@).take(month.len() as int) =~= views(month@));
            assert forall|x: Seq<char>| views(seen@).contains(x) <==> seen_before(ms, i + 1, x) by {
                if views(seen@).contains(x) {
                    let p = choose|p: int| 0 <= p < views(seen@).len() && views(seen@)[p] == x;
                    if p < views(before).len() {
                        assert(views(before).contains(x));
                        let j = choose|j: int| 0 <= j < i && #[trigger] ms[j].contains(x);
                        assert(0 <= j < i + 1 && ms[j].contains(x));
                    } else {
                        assert(ms[i as int][p - views(before).len()] == x);
                        assert(ms[i as int].contains(x));
                    }
                }
                if seen_before(ms, i + 1, x) {
                    let j = choose|j: int| 0 <= j < i + 1 && #[trigger] ms[j].contains(x);
                    if j < i {
                        assert(seen_before(ms, i as int, x));
                        assert(views(before).contains(x));
                        let p = choose|p: int| 0 <= p < views(before).len() && views(before)[p] == x;
                        assert(views(seen@)[p] == x);
                    } else {
                        let p = choose|p: int| 0 <= p < ms[j].len() && ms[j][p] == x;
                        assert(views(seen@)[views(before).len() + p] == x);
                    }
                }
            }
        }
        i = i + 1;
    }
    r
}

/// Message indices below `n` whose month label is `label`, ascending.
pub open spec fn month_members(all: Seq<Message>, label: Seq<char>, n: int) -> Seq<int>
    decreases n,
{
    if n <= 0 {
        seq![]
    } else {
        let r = month_members(all, label, n - 1);
        if month_label(all[n - 1].timestamp as int) == label {
            r.push(n - 1)
        } else {
            r
        }
    }
}

/// Some label of `labels` is `m`'s month label.
pub open spec fn has_month(labels: Seq<Seq<char>>, m: Message) -> bool {
    exists|i: int| 0 <= i < labels.len() && #[trigger] labels[i] == month_label(m.timestamp as int)
}

/// `labels` are the distinct month labels of the first `n` messages, in
/// ascending order, and `members[i]` lists the messages of month `i`.
pub open spec fn is_month_index(
    all: Seq<Message>,
    n: int,
    labels: Seq<Seq<char>>,
    members: Seq<Seq<int>>,
) -> bool {
    &&& labels.len() == members.len()
    &&& forall|i: int, j: int| 0 <= i < j < labels.len() ==> seq_lt(#[trigger] labels[i], #[trigger] labels[j])
    &&& forall|i: int|
        0 <= i < labels.len() ==> #[trigger] members[i] == month_members(all, labels[i], n)
            && members[i].len() > 0
    &&& forall|k: int| 0 <= k < n ==> has_month(labels, #[trigger] all[k])
}

pub open spec fn usize_seq(v: Seq<usize>) -> Seq<int> {
    v.map_values(|x: usize| x as int)
}

pub open spec fn label_views(v: Seq<Vec<char>>) -> Seq<Seq<char>> {
    v.map_values(|x: Vec<char>| x@)
}

pub open spec fn member_views(v: Seq<Vec<usize>>) -> Seq<Seq<int>> {
    v.map_values(|x: Vec<usize>| usize_seq(x@))
}

proof fn lemma_month_members_none(all: Seq<Message>, label: Seq<char>, n: int)
    requires
        0 <= n <= all.len(),
        forall|k: int| 0 <= k < n ==> month_label((#[trigger] all[k]).timestamp as int) != label,
    ensures
        month_members(all, label, n) == Seq::<int>::empty(),
    decreases n,
{
    if n > 0 {
        lemma_month_members_none(all, label, n - 1);
    }
}

/// Bucket the messages by UTC month.
#[verifier::rlimit(60)]
#[verifier::spinoff_prover]
pub fn month_index(all: &[Message]) -> (r: (Vec<Vec<char>>, Vec<Vec<usize>>))
    ensures
        is_month_index(all@, all@.len() as int, label_views(r.0@), member_views(r.1@)),
        forall|i: int, q: int|
            0 <= i < r.1@.len() && 0 <= q < r.1@[i]@.len() ==> #[trigger] r.1@[i]@[q] < all@.len(),
{
    let mut labels: Vec<Vec<char>> = Vec::new();
    let mut members: Vec<Vec<usize>> = Vec::new();
    let mut k: usize = 0;
    while k < all.len()
        invariant
            k <= all.len(),
            is_month_index(all@, k as int, label_views(labels@), member_views(members@)),
            forall|i: int, q: int|
                0 <= i < members@.len() && 0 <= q < members@[i]@.len() ==> #[trigger] members@[i]@[q] < k,
        decreases all.len() - k,
    {
        let label = month_label_of(all[k].timestamp);
        let ghost lab = label@;
        let ghost old_labels = label_views(labels@);
        let ghost old_members = member_views(members@);
        let mut p: usize = 0;
        while p < labels.len() && chars_lt(&labels[p], &label)
            invariant
                p <= labels.len(),
                lab == label@,
                old_labels == label_views(labels@),
                forall|i: int| 0 <= i < p ==> seq_lt(#[trigger] old_labels[i], lab),
            decreases labels.len() - p,
        {
            assert(old_labels[p as int] == labels@[p as int]@);
            p = p + 1;
        }
        if p < labels.len() && chars_eq(&labels[p], &label) {
            assert(old_labels[p as int] == lab);
            let ghost pre_members = members@;
            let mut mv = members.remove(p);
            let ghost mv_old = mv@;
            mv.push(k);
            members.insert(p, mv);
            proof {
                let nl = label_views(labels@);
                let nm = member_views(members@);
                assert(nl == old_labels);
                assert forall|i: int| 0 <= i < nl.len() implies #[trigger] nm[i] == month_members(
                    all@,
                    nl[i],
                    k + 1,
                ) && nm[i].len() > 0 by {
                    if i == p {
                        assert(usize_seq(mv_old.push(k)) =~= usize_seq(mv_old).push(k as int));
                        assert(nm[i] == old_members[i].push(k as int));
                    } else {
                        assert(nm[i] == old_members[i]);
                        if nl[i] == lab {
                            lemma_seq_lt_irreflexive(lab);
                            if i < p {
                                assert(seq_lt(old_labels[i], old_labels[p as int]));
                            } else {
                                assert(seq_lt(old_labels[p as int], old_labels[i]));
                            }
                        }
                    }
                }
                assert forall|q: int| 0 <= q < k + 1 implies has_month(nl, #[trigger] all@[q]) by {
                    if q == k {
                        assert(nl[p as int] == month_label(all@[q].timestamp as int));
                    } else {
                        assert(has_month(old_labels, all@[q]));
                    }
                }
                assert forall|i: int, q: int|
                    0 <= i < members@.len() && 0 <= q < members@[i]@.len() implies #[trigger] members@[i]@[q] < k + 1 by {
                    if i == p {
                        if q < mv_old.len() {
                            assert(members@[i]@[q] == mv_old[q]);
                        }
                    } else {
                        assert(members@[i] == pre_members[i]);
                    }
                }
            }
        } else {
            let ghost old_lab_vec = labels@;
            let ghost old_mem_vec = members@;
            let mut mv: Vec<usize> = Vec::new();
            mv.push(k);
            assert(usize_seq(mv@) =~= seq![k as int]);
            labels.insert(p, label);
            members.insert(p, mv);
            proof {
                let nl = label_views(labels@);
                let nm = member_views(members@);
                assert(nl =~= old_labels.insert(p as int, lab));
                assert(nm =~= old_members.insert(p as int, seq![k as int]));
                // no earlier message has this month
                assert forall|q: int| 0 <= q < k implies month_label((#[trigger] all@[q]).timestamp as int) != lab by {
                    if month_label(all@[q].timestamp as int) == lab {
                        assert(has_month(old_labels, all@[q]));
                        let i = choose|i: int| 0 <= i < old_labels.len() && #[trigger] old_labels[i] == month_label(all@[q].timestamp as int);
                        if i < p {
                            lemma_seq_lt_irreflexive(lab);
                        } else {
                            lemma_seq_lt_total(old_labels[p as int], lab);
                            if i > p {
                                assert(seq_lt(old_labels[p as int], old_labels[i]));
                                lemma_seq_lt_asymmetric(old_labels[p as int], lab);
                            }
                            lemma_seq_lt_irreflexive(lab);
                        }
                    }
                }
                lemma_month_members_none(all@, lab, k as int);
                if p < old_labels.len() {
                    lemma_seq_lt_total(old_labels[p as int], lab);
                }
                assert forall|i: int, j: int| 0 <= i < j < nl.len() implies seq_lt(#[trigger] nl[i], #[trigger] nl[j]) by {
                    if i == p && j > p {
                        assert(nl[j] == old_labels[j - 1]);
                        if j - 1 > p {
                            assert(seq_lt(old_labels[p as int], old_labels[j - 1]));
                            lemma_seq_lt_transitive(lab, old_labels[p as int], old_labels[j - 1]);
                        }
                    } else if i < p && j == p {
                    } else if j < p {
                        assert(nl[i] == old_labels[i] && nl[j] == old_labels[j]);
                    } else if i < p && j > p {
                        assert(nl[i] == old_labels[i] && nl[j] == old_labels[j - 1]);
                    } else {
                        assert(nl[i] == old_labels[i - 1] && nl[j] == old_labels[j - 1]);
                    }
                }
                assert forall|i: int| 0 <= i < nl.len() implies #[trigger] nm[i] == month_members(
                    all@,
                    nl[i],
                    k + 1,
                ) && nm[i].len() > 0 by {
                    if i == p {
                        assert(month_members(all@, lab, k + 1) =~= seq![k as int]);
                    } else {
                        let oi = if i < p { i } else { i - 1 };
                        assert(nl[i] == old_labels[oi] && nm[i] == old_members[oi]);
                        if oi < p {
                            assert(seq_lt(old_labels[oi], lab));
                            lemma_seq_lt_irreflexive(lab);
                        } else {
                            if oi > p {
                                assert(seq_lt(old_labels[p as int], old_labels[oi]));
                            }
                            if old_labels[oi] == lab {
                                lemma_seq_lt_irreflexive(lab);
                                if oi > p {
                                    lemma_seq_lt_asymmetric(old_labels[p as int], lab);
                                }
                            }
                        }
                    }
                }
                assert forall|q: int| 0 <= q < k + 1 implies has_month(nl, #[trigger] all@[q]) by {
                    if q == k {
                        assert(nl[p as int] == month_label(all@[q].timestamp as int));
                    } else {
                        assert(has_month(old_labels, all@[q]));
                        let i = choose|i: int| 0 <= i < old_labels.len() && #[trigger] old_labels[i] == month_label(all@[q].timestamp as int);
                        if i < p {
                            assert(nl[i] == old_labels[i]);
                        } else {
                            assert(nl[i + 1] == old_labels[i]);
                        }
                    }
                }
                assert forall|i: int, q: int|
                    0 <= i < members@.len() && 0 <= q < members@[i]@.len() implies #[trigger] members@[i]@[q] < k + 1 by {
                    if i < p {
                        assert(members@[i] == old_mem_vec[i]);
                    } else if i > p {
                        assert(members@[i] == old_mem_vec[i - 1]);
                    }
                }
            }
        }
        k = k + 1;
    }
    (labels, members)
}


/// Vocabulary counts of one month.
pub struct MonthVocabulary {
    /// `%Y-%m` label of the UTC month.
    pub month: String,
    /// Distinct words of the month not used in any earlier month.
    pub novel: usize,
    /// Distinct words of the month.
    pub distinct: usize,
}

/// The H5 tallies.
pub struct H5Tally {
    /// Threads with at least two messages.
    pub thread_count: usize,
    /// Threads (two or more messages) without a conclusion marker.
    pub unresolved_threads: usize,
    /// Per thread (two or more messages) with an unresolved marker: first-to-last
    /// message span (microseconds).
    pub retention_spans: Vec<i128>,
    /// Twice the median of `retention_spans` (0 when there is none).
    pub retention_median_doubled: i128,
    /// Per UTC month, ascending by label.
    pub months: Vec<MonthVocabulary>,
}

pub open spec fn month_view(v: Seq<MonthVocabulary>) -> Seq<Seq<char>> {
    v.map_values(|m: MonthVocabulary| m.month@)
}

pub open spec fn h5_threads_of(input: AnalysisInput, gs: Seq<ThreadGroup>, t: H5Tally) -> bool {
    let dict = input.config.patterns;
    &&& t.thread_count == multi_message_threads(gs)
    &&& t.unresolved_threads == unresolved_threads(gs, phrase_bytes(dict.conclusion_marker@))
    &&& t.retention_spans@ == retention_spans(gs, phrase_bytes(dict.unresolved_marker@))
    &&& t.retention_median_doubled == median_doubled_of(
        retention_spans(gs, phrase_bytes(dict.unresolved_marker@)),
    )
}

/// The month counts follow `vocab_counts` for the word lists `ms`.
pub open spec fn months_follow(v: Seq<MonthVocabulary>, ms: Seq<Seq<Seq<char>>>) -> bool {
    &&& ms.len() == v.len()
    &&& forall|i: int|
        0 <= i < v.len() ==> (#[trigger] v[i]).novel == vocab_counts(ms, i).0 && v[i].distinct
            == vocab_counts(ms, i).1
}

fn any_phrase_exec(pm: &PatternMatcher, msgs: &Vec<Message>, conclusion: bool) -> (r: bool)
    ensures
        conclusion ==> r == any_phrase(msgs@, pm.conclusion_marker_phrases()),
        !conclusion ==> r == any_phrase(msgs@, pm.unresolved_marker_phrases()),
{
    let mut k: usize = 0;
    while k < msgs.len()
        invariant
            k <= msgs.len(),
            conclusion ==> !any_phrase(msgs@.take(k as int), pm.conclusion_marker_phrases()),
            !conclusion ==> !any_phrase(msgs@.take(k as int), pm.unresolved_marker_phrases()),
        decreases msgs.len() - k,
    {
        proof {
            assert(msgs@.take(k + 1).drop_last() =~= msgs@.take(k as int));
            assert(msgs@.take(k + 1).last() == msgs@[k as int]);
        }
        let hit = if conclusion {
            pm.contains_conclusion_marker(msgs[k].text.as_str())
        } else {
            pm.contains_unresolved_marker(msgs[k].text.as_str())
        };
        if hit {
            proof {
                lemma_any_phrase_prefix(msgs@, k + 1, if conclusion {
                    pm.conclusion_marker_phrases()
                } else {
                    pm.unresolved_marker_phrases()
                });
            }
            return true;
        }
        k = k + 1;
    }
    assert(msgs@.take(msgs.len() as int) =~= msgs@);
    false
}

proof fn lemma_any_phrase_prefix(s: Seq<Message>, n: int, ps: Seq<Seq<u8>>)
    requires
        0 <= n <= s.len(),
        any_phrase(s.take(n), ps),
    ensures
        any_phrase(s, ps),
    decreases s.len() - n,
{
    if n < s.len() {
        assert(s.take(n + 1).drop_last() =~= s.take(n));
        lemma_any_phrase_prefix(s, n + 1, ps);
    } else {
        assert(s.take(n) =~= s);
    }
}

fn span_exec(msgs: &Vec<Message>) -> (r: i128)
    requires
        msgs.len() >= 1,
    ensures
        r == ts_max(msgs@) - ts_min(msgs@),
        0 <= r <= 0x1_0000_0000_0000_0000,
{
    let mut lo: i64 = msgs[0].timestamp;
    let mut hi: i64 = msgs[0].timestamp;
    let mut k: usize = 1;
    assert(msgs@.take(1) =~= seq![msgs@[0]]);
    while k < msgs.len()
        invariant
            1 <= k <= msgs.len(),
            lo as int == ts_min(msgs@.take(k as int)),
            hi as int == ts_max(msgs@.take(k as int)),
            lo <= hi,
        decreases msgs.len() - k,
    {
        proof {
            assert(msgs@.take(k + 1).drop_last() =~= msgs@.take(k as int));
            assert(msgs@.take(k + 1).last() == msgs@[k as int]);
        }
        if msgs[k].timestamp < lo {
            lo = msgs[k].timestamp;
        }
        if msgs[k].timestamp > hi {
            hi = msgs[k].timestamp;
        }
        k = k + 1;
    }
    assert(msgs@.take(msgs.len() as int) =~= msgs@);
    (hi as i128) - (lo as i128)
}

/// The nouns that `nouns` finds in the messages at positions `mem` of
/// `msgs`, message after message.
pub open spec fn member_nouns(
    nouns: spec_fn(Seq<char>) -> Seq<Seq<char>>,
    msgs: Seq<Message>,
    mem: Seq<int>,
) -> Seq<Seq<char>>
    decreases mem.len(),
{
    if mem.len() == 0 {
        seq![]
    } else {
        member_nouns(nouns, msgs, mem.drop_last()) + nouns(msgs[mem.last()].text@)
    }
}

/// Per month of the index, the nouns that `nouns` finds in its messages,
/// in order.
pub open spec fn monthly_nouns(
    nouns: spec_fn(Seq<char>) -> Seq<Seq<char>>,
    msgs: Seq<Message>,
    members: Seq<Seq<int>>,
) -> Seq<Seq<Seq<char>>> {
    members.map_values(|mem: Seq<int>| member_nouns(nouns, msgs, mem))
}

/// Compute the H5 (exploration ability) tallies. `morph` supplies the
/// content nouns of each message text for the monthly vocabulary counts.
/// Fails only when the phrase automata cannot be built.
pub fn compute_h5(input: &AnalysisInput<'_>, morph: &dyn Morphology) -> (r: Result<
    H5Tally,
    CommError,
>)
    ensures
        r is Ok <==> dict_builds(input.config.patterns),
        r is Ok ==> exists|gs: Seq<ThreadGroup>|
            is_grouping(gs, input.messages@) && #[trigger] h5_threads_of(*input, gs, r->Ok_0),
        r is Ok ==> exists|members: Seq<Seq<int>>|
            #[trigger] is_month_index(
                input.messages@,
                input.messages@.len() as int,
                month_view(r->Ok_0.months@),
                members,
            ) && months_follow(
                r->Ok_0.months@,
                monthly_nouns(|t: Seq<char>| morph.nouns_of(t), input.messages@, members),
            ),
        r matches Err(e) ==> e is Config,
{
    let pm = match PatternMatcher::build(&input.config.patterns) {
        Ok(pm) => pm,
        Err(e) => {
            return Err(e);
        },
    };
    let all = input.messages;
    let groups = group_threads(all);
    let ghost dict = input.config.patterns;

    let mut thread_count: usize = 0;
    let mut unresolved: usize = 0;
    let mut spans: Vec<i128> = Vec::new();
    let mut g: usize = 0;
    while g < groups.len()
        invariant
            g <= groups.len(),
            pm.built_from(dict),
            thread_count == multi_message_threads(groups@.take(g as int)),
            unresolved == unresolved_threads(groups@.take(g as int), phrase_bytes(dict.conclusion_marker@)),
            spans@ == retention_spans(groups@.take(g as int), phrase_bytes(dict.unresolved_marker@)),
            thread_count <= g && unresolved <= g,
            forall|i: int| 0 <= i < spans.len() ==> 0 <= #[trigger] spans@[i] <= 0x1_0000_0000_0000_0000,
        decreases groups.len() - g,
    {
        proof {
            assert(groups@.take(g + 1).drop_last() =~= groups@.take(g as int));
            assert(groups@.take(g + 1).last() == groups@[g as int]);
        }
        let msgs = &groups[g].messages;
        if msgs.len() >= 2 {
            thread_count = thread_count + 1;
            if !any_phrase_exec(&pm, msgs, true) {
                unresolved = unresolved + 1;
            }
            if any_phrase_exec(&pm, msgs, false) {
                spans.push(span_exec(msgs));
            }
        }
        g = g + 1;
    }
    assert(groups@.take(groups.len() as int) =~= groups@);
    let median = median_doubled(&spans, 0, 0x1_0000_0000_0000_0000);

    // --- novel vocabulary, monthly ---
    let (labels, members) = month_index(all);
    let ghost noun_fn = |t: Seq<char>| morph.nouns_of(t);
    let mut month_words: Vec<Vec<String>> = Vec::new();
    let mut i: usize = 0;
    while i < members.len()
        invariant
            i <= members.len(),
            month_words@.len() == i,
            forall|t: Seq<char>| #[trigger] noun_fn(t) == morph.nouns_of(t),
            forall|a: int, q: int|
                0 <= a < members@.len() && 0 <= q < members@[a]@.len() ==> #[trigger] members@[a]@[q] < all@.len(),
            forall|a: int|
                0 <= a < i ==> #[trigger] views(month_words@[a]@) == member_nouns(
                    noun_fn,
                    all@,
                    member_views(members@)[a],
                ),
        decreases members.len() - i,
    {
        let mut words: Vec<String> = Vec::new();
        let mv = &members[i];
        let mut q: usize = 0;
        proof {
            assert(usize_seq(mv@).take(0) =~= Seq::<int>::empty());
            assert(views(words@) =~= Seq::<Seq<char>>::empty());
        }
        while q < mv.len()
            invariant
                q <= mv.len(),
                *mv == members@[i as int],
                i < members.len(),
                forall|a: int, q: int|
                    0 <= a < members@.len() && 0 <= q < members@[a]@.len() ==> #[trigger] members@[a]@[q] < all@.len(),
                views(words@) == member_nouns(noun_fn, all@, usize_seq(mv@).take(q as int)),
                forall|t: Seq<char>| #[trigger] noun_fn(t) == morph.nouns_of(t),
            decreases mv.len() - q,
        {
            assert(mv@[q as int] == members@[i as int]@[q as int]);
            let ghost before = words@;
            let mut nouns = morph.extract_nouns(all[mv[q]].text.as_str());
            let ghost nv = nouns@;
            words.append(&mut nouns);
            proof {
                let t = usize_seq(mv@).take(q + 1);
                assert(t.drop_last() =~= usize_seq(mv@).take(q as int));
                assert(t.last() == mv@[q as int] as int);
                assert(views(nv) == morph.nouns_of(all@[mv@[q as int] as int].text@));
                assert(noun_fn(all@[t.last()].text@) == morph.nouns_of(all@[t.last()].text@));
                assert(member_nouns(noun_fn, all@, t) == member_nouns(noun_fn, all@, t.drop_last()) + noun_fn(
                    all@[t.last()].text@,
                ));
                assert(views(words@) =~= views(before) + views(nv));
            }
            q = q + 1;
        }
        proof {
            assert(usize_seq(mv@).take(mv.len() as int) =~= usize_seq(mv@));
            assert(member_views(members@)[i as int] == usize_seq(mv@));
        }
        month_words.push(words);
        i = i + 1;
    }
    let counts = novel_vocabulary(&month_words);
    let mut months: Vec<MonthVocabulary> = Vec::new();
    let mut i: usize = 0;
    while i < labels.len()
        invariant
            i <= labels.len(),
            labels@.len() == members@.len(),
            counts@.len() == month_words@.len(),
            month_words@.len() == labels@.len(),
            forall|a: int|
                0 <= a < month_words@.len() ==> (#[trigger] counts@[a]).0 == vocab_counts(
                    nested_views(month_words@),
                    a,
                ).0 && counts@[a].1 == vocab_counts(nested_views(month_words@), a).1,
            months@.len() == i,
            forall|a: int| 0 <= a < i ==> (#[trigger] months@[a]).month@ == labels@[a]@,
            forall|a: int|
                0 <= a < i ==> (#[trigger] months@[a]).novel == vocab_counts(
                    nested_views(month_words@),
                    a,
                ).0 && months@[a].distinct == vocab_counts(nested_views(month_words@), a).1,
        decreases labels.len() - i,
    {
        let (novel, distinct) = counts[i];
        months.push(MonthVocabulary { month: string_of(&labels[i]), novel, distinct });
        i = i + 1;
    }
    proof {
        assert(month_view(months@) =~= label_views(labels@));
        assert(months_follow(months@, nested_views(month_words@)));
        assert forall|a: int| 0 <= a < month_words@.len() implies nested_views(month_words@)[a]
            == monthly_nouns(noun_fn, all@, member_views(members@))[a] by {
            assert(nested_views(month_words@)[a] == views(month_words@[a]@));
        }
        assert(nested_views(month_words@) =~= monthly_nouns(noun_fn, all@, member_views(members@)));
    }
    let t = H5Tally {
        thread_count,
        unresolved_threads: unresolved,
        retention_spans: spans,
        retention_median_doubled: median,
        months,
    };
    let res: Result<H5Tally, CommError> = Ok(t);
    assert(res->Ok_0 == t);
    assert(h5_threads_of(*input, groups@, res->Ok_0));
    assert(is_month_index(input.messages@, input.messages@.len() as int, month_view(res->Ok_0.months@), member_views(members@)));
    assert(noun_fn =~= (|t: Seq<char>| morph.nouns_of(t)));
    assert(months_follow(
        res->Ok_0.months@,
        monthly_nouns(|t: Seq<char>| morph.nouns_of(t), input.messages@, member_views(members@)),
    ));
    res
}

proof fn lemma_unresolved_le_threads(gs: Seq<ThreadGroup>, conclusion: Seq<Seq<u8>>)
    ensures
        unresolved_threads(gs, conclusion) <= multi_message_threads(gs),
        multi_message_threads(gs) <= gs.len(),
    decreases gs.len(),
{
    if gs.len() > 0 {
        lemma_unresolved_le_threads(gs.drop_last(), conclusion);
    }
}

proof fn lemma_count_novel_le(vm: Seq<Seq<char>>, ms: Seq<Seq<Seq<char>>>, i: int, n: int)
    ensures
        count_novel(vm, ms, i, n) <= if n < 0 {
            0
        } else {
            n
        },
    decreases n,
{
    if n > 0 {
        lemma_count_novel_le(vm, ms, i, n - 1);
    }
}

/// The H5 ratios lie in `[0, 1]`: unresolved threads are among the threads
/// of two or more messages, and each month's novel words are among its
/// distinct words.
pub proof fn lemma_h5_rates_bounded(
    input: AnalysisInput,
    gs: Seq<ThreadGroup>,
    ms: Seq<Seq<Seq<char>>>,
    t: H5Tally,
)
    requires
        h5_threads_of(input, gs, t),
        months_follow(t.months@, ms),
    ensures
        t.unresolved_threads <= t.thread_count <= gs.len(),
        forall|i: int| 0 <= i < t.months@.len() ==> (#[trigger] t.months@[i]).novel <= t.months@[i].distinct,
{
    lemma_unresolved_le_threads(gs, phrase_bytes(input.config.patterns.conclusion_marker@));
    assert forall|i: int| 0 <= i < t.months@.len() implies (#[trigger] t.months@[i]).novel
        <= t.months@[i].distinct by {
        let vm = dedup(ms[i]);
        lemma_count_novel_le(vm, ms, i, vm.len() as int);
    }
}

proof fn lemma_count_novel_all_seen(vm: Seq<Seq<char>>, ms: Seq<Seq<Seq<char>>>, i: int, n: int)
    requires
        n <= vm.len(),
        forall|q: int| 0 <= q < n ==> seen_before(ms, i, #[trigger] vm[q]),
    ensures
        count_novel(vm, ms, i, n) == 0,
    decreases n,
{
    if n > 0 {
        lemma_count_novel_all_seen(vm, ms, i, n - 1);
    }
}

proof fn lemma_count_novel_none_seen(vm: Seq<Seq<char>>, ms: Seq<Seq<Seq<char>>>, i: int, n: int)
    requires
        0 <= n <= vm.len(),
        forall|q: int| 0 <= q < n ==> !seen_before(ms, i, #[trigger] vm[q]),
    ensures
        count_novel(vm, ms, i, n) == n,
    decreases n,
{
    if n > 0 {
        lemma_count_novel_none_seen(vm, ms, i, n - 1);
    }
}

/// A word of month `i` is novel only if no earlier month (any month before
/// `i`, not only the one just before) used it: when every word of month `i`
/// occurs in some earlier month, month `i` has no novel word.
pub proof fn lemma_h5_all_words_seen_earlier(v: Seq<MonthVocabulary>, ms: Seq<Seq<Seq<char>>>, i: int)
    requires
        months_follow(v, ms),
        0 <= i < v.len(),
        forall|x: Seq<char>|
            #[trigger] ms[i].contains(x) ==> exists|j: int| 0 <= j < i && #[trigger] ms[j].contains(x),
    ensures
        v[i].novel == 0,
{
    let vm = dedup(ms[i]);
    assert forall|q: int| 0 <= q < vm.len() implies seen_before(ms, i, #[trigger] vm[q]) by {
        assert(vm.contains(vm[q]));
        lemma_dedup_contains(ms[i], vm[q]);
        assert(ms[i].contains(vm[q]));
    }
    lemma_count_novel_all_seen(vm, ms, i, vm.len() as int);
}

/// Every distinct word of month `i` is novel when none of them occurs in
/// any earlier month.
pub proof fn lemma_h5_no_word_seen_earlier(v: Seq<MonthVocabulary>, ms: Seq<Seq<Seq<char>>>, i: int)
    requires
        months_follow(v, ms),
        0 <= i < v.len(),
        forall|x: Seq<char>, j: int|
            0 <= j < i && #[trigger] ms[i].contains(x) ==> !#[trigger] ms[j].contains(x),
    ensures
        v[i].novel == v[i].distinct,
{
    let vm = dedup(ms[i]);
    assert forall|q: int| 0 <= q < vm.len() implies !seen_before(ms, i, #[trigger] vm[q]) by {
        assert(vm.contains(vm[q]));
        lemma_dedup_contains(ms[i], vm[q]);
        assert(ms[i].contains(vm[q]));
    }
    lemma_count_novel_none_seen(vm, ms, i, vm.len() as int);
}

proof fn lemma_count_novel_set(vm: Seq<Seq<char>>, ms: Seq<Seq<Seq<char>>>, i: int, n: int)
    requires
        0 <= n <= vm.len(),
        vm.no_duplicates(),
    ensures
        count_novel(vm, ms, i, n) == vm.take(n).to_set().filter(
            |x: Seq<char>| !seen_before(ms, i, x),
        ).len(),
    decreases n,
{
    broadcast use vstd::seq_lib::seq_to_set_is_finite;
    broadcast use vstd::set::group_set_axioms;

    let p = |x: Seq<char>| !seen_before(ms, i, x);
    if n == 0 {
        assert(vm.take(0).to_set().filter(p) =~= Set::<Seq<char>>::empty());
    } else {
        lemma_count_novel_set(vm, ms, i, n - 1);
        let prev = vm.take(n - 1);
        let cur = vm.take(n);
        let x = vm[n - 1];
        assert(cur.to_set() =~= prev.to_set().insert(x)) by {
            assert forall|y: Seq<char>| cur.contains(y) <==> prev.contains(y) || y == x by {
                if cur.contains(y) {
                    let k = choose|k: int| 0 <= k < cur.len() && cur[k] == y;
                    if k < n - 1 {
                        assert(prev[k] == y);
                    }
                }
                if prev.contains(y) {
                    let k = choose|k: int| 0 <= k < prev.len() && prev[k] == y;
                    assert(cur[k] == y);
                }
                if y == x {
                    assert(cur[n - 1] == y);
                }
            }
        }
        assert(!prev.to_set().contains(x)) by {
            if prev.contains(x) {
                let k = choose|k: int| 0 <= k < prev.len() && prev[k] == x;
                assert(vm[k] == vm[n - 1]);
            }
        }
        let f = prev.to_set().filter(p);
        prev.to_set().lemma_len_filter(p);
        if p(x) {
            assert(cur.to_set().filter(p) =~= f.insert(x));
        } else {
            assert(cur.to_set().filter(p) =~= f);
        }
    }
}

/// Month `i`'s counts are exact: its distinct words are the words it uses,
/// and its novel words are those of them that no earlier month (any month
/// before `i`, not only the one just before) used.
pub proof fn lemma_h5_novel_counts_fresh_words(v: Seq<MonthVocabulary>, ms: Seq<Seq<Seq<char>>>, i: int)
    requires
        months_follow(v, ms),
        0 <= i < v.len(),
    ensures
        v[i].distinct == ms[i].to_set().len(),
        v[i].novel == ms[i].to_set().filter(
            |x: Seq<char>| forall|j: int| 0 <= j < i ==> !#[trigger] ms[j].contains(x),
        ).len(),
{
    let vm = dedup(ms[i]);
    lemma_dedup_distinct(ms[i]);
    assert(vm.to_set() =~= ms[i].to_set()) by {
        assert forall|x: Seq<char>| vm.contains(x) <==> ms[i].contains(x) by {
            lemma_dedup_contains(ms[i], x);
        }
    }
    vm.unique_seq_to_set();
    lemma_count_novel_set(vm, ms, i, vm.len() as int);
    assert(vm.take(vm.len() as int) =~= vm);
    let p = |x: Seq<char>| !seen_before(ms, i, x);
    let q = |x: Seq<char>| forall|j: int| 0 <= j < i ==> !#[trigger] ms[j].contains(x);
    assert(ms[i].to_set().filter(p) =~= ms[i].to_set().filter(q));
}

} // verus!
