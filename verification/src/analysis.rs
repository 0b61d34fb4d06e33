//! Thread grouping and message filtering.

use vstd::prelude::*;

use crate::strings::{lemma_seq_lt_asymmetric, lemma_seq_lt_irreflexive, lemma_seq_lt_total,
    lemma_seq_lt_transitive, seq_lt, str_eq, str_lt};
use crate::types::Message;

verus! {

/// The thread a message belongs to: its `thread_root_id` when present,
/// otherwise its own id (so a root encoded as `Some(self.id)` and one
/// encoded as `None` land in the same thread).
pub open spec fn thread_key(m: Message) -> Seq<char> {
    match m.thread_root_id {
        Some(r) => r@,
        None => m.id@,
    }
}

/// Order on `(channel_id, thread_key)` pairs.
pub open spec fn key_lt(c1: Seq<char>, t1: Seq<char>, c2: Seq<char>, t2: Seq<char>) -> bool {
    seq_lt(c1, c2) || (c1 == c2 && seq_lt(t1, t2))
}

pub open spec fn in_thread(m: Message, ch: Seq<char>, tk: Seq<char>) -> bool {
    m.channel_id@ == ch && thread_key(m) == tk
}

/// The messages of `s` that belong to thread `(ch, tk)`, in input order.
pub open spec fn thread_messages(s: Seq<Message>, ch: Seq<char>, tk: Seq<char>) -> Seq<Message>
    decreases s.len(),
{
    if s.len() == 0 {
        seq![]
    } else {
        let r = thread_messages(s.drop_last(), ch, tk);
        if in_thread(s.last(), ch, tk) {
            r.push(s.last())
        } else {
            r
        }
    }
}

/// `m` inserted into `s` after every element whose timestamp is not later.
pub open spec fn insert_by_ts(s: Seq<Message>, m: Message) -> Seq<Message>
    decreases s.len(),
{
    if s.len() == 0 {
        seq![m]
    } else if s.last().timestamp <= m.timestamp {
        s.push(m)
    } else {
        insert_by_ts(s.drop_last(), m).push(s.last())
    }
}

/// Stable sort by ascending timestamp (ties keep their input order).
pub open spec fn sort_by_ts(s: Seq<Message>) -> Seq<Message>
    decreases s.len(),
{
    if s.len() == 0 {
        seq![]
    } else {
        insert_by_ts(sort_by_ts(s.drop_last()), s.last())
    }
}

/// A group of messages sharing one `(channel_id, thread_key)`, sorted
/// ascending by timestamp.
pub struct ThreadGroup {
    pub channel_id: String,
    pub thread_key: String,
    pub messages: Vec<Message>,
}

/// `g` is the thread of `msgs` that it names.
pub open spec fn is_thread_of(g: ThreadGroup, msgs: Seq<Message>) -> bool {
    &&& g.messages@ == sort_by_ts(thread_messages(msgs, g.channel_id@, g.thread_key@))
    &&& g.messages@.len() > 0
}

/// `gs` is the grouping of `msgs`: one group per distinct
/// `(channel_id, thread_key)`, ordered by that pair.
pub open spec fn is_grouping(gs: Seq<ThreadGroup>, msgs: Seq<Message>) -> bool {
    &&& forall|i: int, j: int|
        0 <= i < j < gs.len() ==> key_lt(
            #[trigger] gs[i].channel_id@,
            gs[i].thread_key@,
            #[trigger] gs[j].channel_id@,
            gs[j].thread_key@,
        )
    &&& forall|i: int| 0 <= i < gs.len() ==> is_thread_of(#[trigger] gs[i], msgs)
    &&& forall|k: int| 0 <= k < msgs.len() ==> has_thread(gs, #[trigger] msgs[k])
}

/// Some group of `gs` is `m`'s thread.
pub open spec fn has_thread(gs: Seq<ThreadGroup>, m: Message) -> bool {
    exists|i: int| 0 <= i < gs.len() && #[trigger] in_thread(m, gs[i].channel_id@, gs[i].thread_key@)
}

pub proof fn lemma_insert_by_ts_len(s: Seq<Message>, m: Message)
    ensures
        insert_by_ts(s, m).len() == s.len() + 1,
    decreases s.len(),
{
    if s.len() > 0 && s.last().timestamp > m.timestamp {
        lemma_insert_by_ts_len(s.drop_last(), m);
    }
}

proof fn lemma_insert_by_ts_at(s: Seq<Message>, m: Message, p: int)
    requires
        0 <= p <= s.len(),
        forall|j: int| p <= j < s.len() ==> (#[trigger] s[j]).timestamp > m.timestamp,
        p == 0 || s[p - 1].timestamp <= m.timestamp,
    ensures
        insert_by_ts(s, m) == s.subrange(0, p).push(m) + s.subrange(p, s.len() as int),
    decreases s.len() - p,
{
    if p == s.len() {
        if s.len() > 0 {
            assert(s.last() == s[p - 1]);
        }
        assert(s.subrange(0, p) =~= s);
        assert(s.subrange(p, s.len() as int) =~= Seq::<Message>::empty());
        assert(s.push(m) + Seq::<Message>::empty() =~= s.push(m));
    } else {
        let t = s.drop_last();
        assert(s.last() == s[s.len() - 1]);
        assert forall|j: int| p <= j < t.len() implies (#[trigger] t[j]).timestamp
            > m.timestamp by {
            assert(t[j] == s[j]);
        }
        if p > 0 {
            assert(t[p - 1] == s[p - 1]);
        }
        lemma_insert_by_ts_at(t, m, p);
        assert(t.subrange(0, p) =~= s.subrange(0, p));
        assert(t.subrange(0, p).push(m) + t.subrange(p, t.len() as int) + seq![s.last()]
            =~= s.subrange(0, p).push(m) + s.subrange(p, s.len() as int));
        assert((t.subrange(0, p).push(m) + t.subrange(p, t.len() as int)).push(s.last())
            =~= t.subrange(0, p).push(m) + t.subrange(p, t.len() as int) + seq![s.last()]);
    }
}

/// Insert `m` after every message whose timestamp is not later.
pub fn insert_by_timestamp(v: &mut Vec<Message>, m: Message)
    ensures
        final(v)@ == insert_by_ts(old(v)@, m),
{
    let mut p = v.len();
    while p > 0 && v[p - 1].timestamp > m.timestamp
        invariant
            p <= v.len(),
            v@ == old(v)@,
            forall|j: int| p <= j < v.len() ==> (#[trigger] v@[j]).timestamp > m.timestamp,
        decreases p,
    {
        p = p - 1;
    }
    proof {
        lemma_insert_by_ts_at(v@, m, p as int);
    }
    let ghost before = v@;
    v.insert(p, m);
    assert(v@ =~= before.subrange(0, p as int).push(m) + before.subrange(
        p as int,
        before.len() as int,
    ));
}

proof fn lemma_thread_messages_none(s: Seq<Message>, ch: Seq<char>, tk: Seq<char>)
    requires
        forall|k: int| 0 <= k < s.len() ==> !(#[trigger] in_thread(s[k], ch, tk)),
    ensures
        thread_messages(s, ch, tk) == Seq::<Message>::empty(),
    decreases s.len(),
{
    if s.len() > 0 {
        assert forall|k: int| 0 <= k < s.drop_last().len() implies !(#[trigger] in_thread(
            s.drop_last()[k],
            ch,
            tk,
        )) by {
            assert(s.drop_last()[k] == s[k]);
        }
        lemma_thread_messages_none(s.drop_last(), ch, tk);
        assert(!in_thread(s[s.len() - 1], ch, tk));
    }
}

pub proof fn lemma_sort_by_ts_len(s: Seq<Message>)
    ensures
        sort_by_ts(s).len() == s.len(),
    decreases s.len(),
{
    if s.len() > 0 {
        lemma_sort_by_ts_len(s.drop_last());
        lemma_insert_by_ts_len(sort_by_ts(s.drop_last()), s.last());
    }
}

/// Group `messages` into threads keyed by `(channel_id, thread_root_id ||
/// id)`. Within each group messages are sorted ascending by timestamp (ties
/// keep input order); groups are ordered by `(channel_id, thread_key)`.
pub fn group_threads(messages: &[Message]) -> (groups: Vec<ThreadGroup>)
    ensures
        is_grouping(groups@, messages@),
{
    let mut groups: Vec<ThreadGroup> = Vec::new();
    let mut k: usize = 0;
    while k < messages.len()
        invariant
            k <= messages.len(),
            is_grouping(groups@, messages@.take(k as int)),
        decreases messages.len() - k,
    {
        let m = &messages[k];
        let tk: &String = match &m.thread_root_id {
            Some(r) => r,
            None => &m.id,
        };
        let ghost mch = m.channel_id@;
        let ghost mtk = tk@;
        assert(mtk == thread_key(*m));
        let ghost pre = messages@.take(k as int);
        let ghost post = messages@.take(k + 1);
        assert(post.drop_last() =~= pre);
        assert(post.last() == *m);
        let mut p: usize = 0;
        while p < groups.len() && (str_lt(groups[p].channel_id.as_str(), m.channel_id.as_str())
            || (str_eq(groups[p].channel_id.as_str(), m.channel_id.as_str()) && str_lt(
            groups[p].thread_key.as_str(),
            tk.as_str(),
        )))
            invariant
                p <= groups.len(),
                mch == m.channel_id@,
                mtk == tk@,
                forall|i: int|
                    0 <= i < p ==> key_lt(
                        (#[trigger] groups@[i]).channel_id@,
                        groups@[i].thread_key@,
                        mch,
                        mtk,
                    ),
            decreases groups.len() - p,
        {
            p = p + 1;
        }
        let found = p < groups.len() && str_eq(groups[p].channel_id.as_str(), m.channel_id.as_str())
            && str_eq(groups[p].thread_key.as_str(), tk.as_str());
        let ghost old_groups = groups@;
        proof {
            // every thread other than (mch, mtk) keeps its messages
            assert forall|ch: Seq<char>, t: Seq<char>| !(ch == mch && t == mtk) implies #[trigger] thread_messages(
                post,
                ch,
                t,
            ) == thread_messages(pre, ch, t) by {}
            assert(thread_messages(post, mch, mtk) == thread_messages(pre, mch, mtk).push(*m));
        }
        if found {
            let mut g = groups.remove(p);
            proof {
                assert(g == old_groups[p as int]);
            }
            insert_by_timestamp(&mut g.messages, m.clone());
            proof {
                lemma_insert_by_ts_len(old_groups[p as int].messages@, *m);
            }
            groups.insert(p, g);
            proof {
                assert(groups@ =~= old_groups.update(p as int, g));
                assert forall|i: int| 0 <= i < groups@.len() implies is_thread_of(
                    #[trigger] groups@[i],
                    post,
                ) by {
                    if i == p {
                        let q = old_groups[p as int];
                        assert(q.channel_id@ == mch && q.thread_key@ == mtk);
                        assert(is_thread_of(q, pre));
                        let tp = thread_messages(pre, mch, mtk);
                        assert(tp.push(*m).drop_last() =~= tp);
                        assert(tp.push(*m).last() == *m);
                        assert(sort_by_ts(tp.push(*m)) == insert_by_ts(sort_by_ts(tp), *m));
                    } else {
                        assert(groups@[i] == old_groups[i]);
                        assert(is_thread_of(old_groups[i], pre));
                        if old_groups[i].channel_id@ == mch && old_groups[i].thread_key@ == mtk {
                            // keys are strictly ordered, so only p carries (mch, mtk)
                            if i < p {
                                assert(key_lt(old_groups[i].channel_id@, old_groups[i].thread_key@, old_groups[p as int].channel_id@, old_groups[p as int].thread_key@));
                                lemma_seq_lt_irreflexive(mch);
                                lemma_seq_lt_irreflexive(mtk);
                            } else {
                                assert(key_lt(old_groups[p as int].channel_id@, old_groups[p as int].thread_key@, old_groups[i].channel_id@, old_groups[i].thread_key@));
                                lemma_seq_lt_irreflexive(mch);
                                lemma_seq_lt_irreflexive(mtk);
                            }
                        }
                    }
                }
                assert forall|j: int| 0 <= j < post.len() implies has_thread(groups@, #[trigger] post[j]) by {
                    if j < pre.len() {
                        assert(post[j] == pre[j]);
                        assert(has_thread(old_groups, pre[j]));
                        let i = choose|i: int|
                            0 <= i < old_groups.len() && #[trigger] in_thread(
                                pre[j],
                                old_groups[i].channel_id@,
                                old_groups[i].thread_key@,
                            );
                        assert(in_thread(post[j], groups@[i].channel_id@, groups@[i].thread_key@));
                    } else {
                        assert(in_thread(post[j], groups@[p as int].channel_id@, groups@[p as int].thread_key@));
                    }
                }
            }
        } else {
            let mut msgs: Vec<Message> = Vec::new();
            msgs.push(m.clone());
            let g = ThreadGroup {
                channel_id: m.channel_id.clone(),
                thread_key: tk.clone(),
                messages: msgs,
            };
            proof {
                // no earlier message belongs to (mch, mtk)
                assert forall|j: int| 0 <= j < pre.len() implies !(#[trigger] in_thread(
                    pre[j],
                    mch,
                    mtk,
                )) by {
                    if in_thread(pre[j], mch, mtk) {
                        assert(has_thread(old_groups, pre[j]));
                        let i = choose|i: int|
                            0 <= i < old_groups.len() && #[trigger] in_thread(
                                pre[j],
                                old_groups[i].channel_id@,
                                old_groups[i].thread_key@,
                            );
                        assert(old_groups[i].channel_id@ == mch && old_groups[i].thread_key@ == mtk);
                        if i < p {
                            lemma_seq_lt_irreflexive(mch);
                            lemma_seq_lt_irreflexive(mtk);
                        } else {
                            if i > p {
                                assert(key_lt(old_groups[p as int].channel_id@, old_groups[p as int].thread_key@, old_groups[i].channel_id@, old_groups[i].thread_key@));
                            }
                            // group p is not below m's key and differs from it
                            lemma_seq_lt_total(old_groups[p as int].channel_id@, mch);
                            lemma_seq_lt_total(old_groups[p as int].thread_key@, mtk);
                            if seq_lt(mch, old_groups[p as int].channel_id@) {
                                lemma_seq_lt_asymmetric(mch, old_groups[p as int].channel_id@);
                            }
                            if i > p && seq_lt(old_groups[p as int].channel_id@, mch) {
                                lemma_seq_lt_asymmetric(old_groups[p as int].channel_id@, mch);
                            }
                            if i > p && old_groups[p as int].channel_id@ == mch && seq_lt(old_groups[p as int].thread_key@, mtk) {
                                lemma_seq_lt_asymmetric(old_groups[p as int].thread_key@, mtk);
                            }
                        }
                    }
                }
                lemma_thread_messages_none(pre, mch, mtk);
                assert(thread_messages(post, mch, mtk) =~= seq![*m]);
                assert(sort_by_ts(seq![*m]) =~= seq![*m]) by {
                    assert(seq![*m].drop_last() =~= Seq::<Message>::empty());
                    assert(seq![*m].last() == *m);
                    assert(sort_by_ts(Seq::<Message>::empty()) =~= Seq::<Message>::empty());
                    assert(insert_by_ts(Seq::<Message>::empty(), *m) =~= seq![*m]);
                }
                assert(g.messages@ =~= seq![*m]);
            }
            groups.insert(p, g);
            proof {
                assert forall|i: int, j: int| 0 <= i < j < groups@.len() implies key_lt(
                    #[trigger] groups@[i].channel_id@,
                    groups@[i].thread_key@,
                    #[trigger] groups@[j].channel_id@,
                    groups@[j].thread_key@,
                ) by {
                    if p < old_groups.len() {
                        let q = old_groups[p as int];
                        lemma_seq_lt_total(q.channel_id@, mch);
                        lemma_seq_lt_total(q.thread_key@, mtk);
                        // m's key is strictly below group p's key
                        assert(key_lt(mch, mtk, q.channel_id@, q.thread_key@));
                    }
                    if i < p && j == p {
                    } else if i == p && j > p {
                        let q = old_groups[p as int];
                        let r = old_groups[j - 1];
                        if j - 1 > p {
                            assert(key_lt(q.channel_id@, q.thread_key@, r.channel_id@, r.thread_key@));
                            if seq_lt(mch, q.channel_id@) && seq_lt(q.channel_id@, r.channel_id@) {
                                lemma_seq_lt_transitive(mch, q.channel_id@, r.channel_id@);
                            }
                            if mch == q.channel_id@ && seq_lt(mtk, q.thread_key@) && q.channel_id@ == r.channel_id@ && seq_lt(q.thread_key@, r.thread_key@) {
                                lemma_seq_lt_transitive(mtk, q.thread_key@, r.thread_key@);
                            }
                        }
                    } else if j < p {
                        assert(groups@[i] == old_groups[i] && groups@[j] == old_groups[j]);
                    } else if i < p && j > p {
                        assert(groups@[i] == old_groups[i] && groups@[j] == old_groups[j - 1]);
                    } else {
                        assert(groups@[i] == old_groups[i - 1] && groups@[j] == old_groups[j - 1]);
                    }
                }
                assert forall|i: int| 0 <= i < groups@.len() implies is_thread_of(
                    #[trigger] groups@[i],
                    post,
                ) by {
                    if i < p {
                        assert(groups@[i] == old_groups[i]);
                        lemma_seq_lt_irreflexive(mch);
                        lemma_seq_lt_irreflexive(mtk);
                    } else if i > p {
                        assert(groups@[i] == old_groups[i - 1]);
                        let q = old_groups[i - 1];
                        if q.channel_id@ == mch && q.thread_key@ == mtk {
                            lemma_sort_by_ts_len(thread_messages(pre, mch, mtk));
                            lemma_thread_messages_none(pre, mch, mtk);
                        }
                    }
                }
                assert forall|j: int| 0 <= j < post.len() implies has_thread(groups@, #[trigger] post[j]) by {
                    if j < pre.len() {
                        assert(post[j] == pre[j]);
                        assert(has_thread(old_groups, pre[j]));
                        let i = choose|i: int|
                            0 <= i < old_groups.len() && #[trigger] in_thread(
                                pre[j],
                                old_groups[i].channel_id@,
                                old_groups[i].thread_key@,
                            );
                        if i < p {
                            assert(in_thread(post[j], groups@[i].channel_id@, groups@[i].thread_key@));
                        } else {
                            assert(groups@[i + 1] == old_groups[i]);
                            assert(in_thread(post[j], groups@[i + 1].channel_id@, groups@[i + 1].thread_key@));
                        }
                    } else {
                        assert(in_thread(post[j], groups@[p as int].channel_id@, groups@[p as int].thread_key@));
                    }
                }
            }
        }
        k = k + 1;
    }
    assert(messages@.take(messages.len() as int) =~= messages@);
    groups
}

/// A thread root encoded as `thread_root_id == Some(self.id)` belongs to
/// exactly the threads that the same root encoded as `None` belongs to.
pub proof fn lemma_root_encodings_agree(a: Message, b: Message, ch: Seq<char>, tk: Seq<char>)
    requires
        a.id@ == b.id@,
        a.channel_id@ == b.channel_id@,
        a.thread_root_id is None,
        b.thread_root_id matches Some(r) && r@ == b.id@,
    ensures
        thread_key(a) == thread_key(b),
        in_thread(a, ch, tk) == in_thread(b, ch, tk),
{
}

/// Timestamps ascend along `s`.
pub open spec fn ts_sorted(s: Seq<Message>) -> bool {
    forall|i: int, j: int| 0 <= i < j < s.len() ==> (#[trigger] s[i]).timestamp <= (#[trigger] s[j]).timestamp
}

proof fn lemma_insert_by_ts_multiset(s: Seq<Message>, m: Message)
    ensures
        insert_by_ts(s, m).to_multiset() =~= s.to_multiset().insert(m),
    decreases s.len(),
{
    broadcast use vstd::seq_lib::group_to_multiset_ensures;

    if s.len() == 0 {
        assert(seq![m] =~= Seq::<Message>::empty().push(m));
    } else if s.last().timestamp <= m.timestamp {
    } else {
        let t = s.drop_last();
        lemma_insert_by_ts_multiset(t, m);
        assert(s =~= t.push(s.last()));
    }
}

proof fn lemma_insert_by_ts_bound(s: Seq<Message>, m: Message, b: i64)
    requires
        forall|i: int| 0 <= i < s.len() ==> (#[trigger] s[i]).timestamp <= b,
        m.timestamp <= b,
    ensures
        forall|i: int|
            0 <= i < insert_by_ts(s, m).len() ==> (#[trigger] insert_by_ts(s, m)[i]).timestamp <= b,
    decreases s.len(),
{
    if s.len() > 0 && s.last().timestamp > m.timestamp {
        let t = s.drop_last();
        assert forall|i: int| 0 <= i < t.len() implies (#[trigger] t[i]).timestamp <= b by {
            assert(t[i] == s[i]);
        }
        lemma_insert_by_ts_bound(t, m, b);
        assert(s.last() == s[s.len() - 1]);
    }
}

proof fn lemma_insert_by_ts_sorted(s: Seq<Message>, m: Message)
    requires
        ts_sorted(s),
    ensures
        ts_sorted(insert_by_ts(s, m)),
    decreases s.len(),
{
    if s.len() == 0 {
    } else if s.last().timestamp <= m.timestamp {
        let r = s.push(m);
        assert forall|i: int, j: int| 0 <= i < j < r.len() implies (#[trigger] r[i]).timestamp
            <= (#[trigger] r[j]).timestamp by {
            if j == s.len() {
                if i < s.len() - 1 {
                    assert(s[i].timestamp <= s[s.len() - 1].timestamp);
                }
            }
        }
    } else {
        let t = s.drop_last();
        let last = s.last();
        assert(ts_sorted(t)) by {
            assert forall|i: int, j: int| 0 <= i < j < t.len() implies (#[trigger] t[i]).timestamp
                <= (#[trigger] t[j]).timestamp by {
                assert(t[i] == s[i] && t[j] == s[j]);
            }
        }
        lemma_insert_by_ts_sorted(t, m);
        assert forall|i: int| 0 <= i < t.len() implies (#[trigger] t[i]).timestamp
            <= last.timestamp by {
            assert(t[i] == s[i]);
            assert(last == s[s.len() - 1]);
        }
        lemma_insert_by_ts_bound(t, m, last.timestamp);
        let inner = insert_by_ts(t, m);
        let r = inner.push(last);
        assert forall|i: int, j: int| 0 <= i < j < r.len() implies (#[trigger] r[i]).timestamp
            <= (#[trigger] r[j]).timestamp by {
            if j < inner.len() {
                assert(r[i] == inner[i] && r[j] == inner[j]);
            } else {
                assert(r[i] == inner[i]);
            }
        }
    }
}

/// Sorting by timestamp keeps exactly the given messages (as a multiset)
/// and puts them in ascending timestamp order.
pub proof fn lemma_sort_by_ts_permutes(s: Seq<Message>)
    ensures
        sort_by_ts(s).to_multiset() =~= s.to_multiset(),
        ts_sorted(sort_by_ts(s)),
    decreases s.len(),
{
    broadcast use vstd::seq_lib::group_to_multiset_ensures;

    if s.len() > 0 {
        let t = s.drop_last();
        lemma_sort_by_ts_permutes(t);
        lemma_insert_by_ts_multiset(sort_by_ts(t), s.last());
        lemma_insert_by_ts_sorted(sort_by_ts(t), s.last());
        assert(s =~= t.push(s.last()));
    }
}

/// Total size of the first `n` groups.
pub open spec fn group_sizes(gs: Seq<ThreadGroup>, n: int) -> nat
    decreases n,
{
    if n <= 0 {
        0
    } else {
        group_sizes(gs, n - 1) + gs[n - 1].messages@.len()
    }
}

/// Total size, over the first `n` groups' keys, of the thread of `s` each names.
spec fn thread_sizes(s: Seq<Message>, gs: Seq<ThreadGroup>, n: int) -> nat
    decreases n,
{
    if n <= 0 {
        0
    } else {
        thread_sizes(s, gs, n - 1) + thread_messages(
            s,
            gs[n - 1].channel_id@,
            gs[n - 1].thread_key@,
        ).len()
    }
}

/// How many of the first `n` groups' keys `m` belongs to.
spec fn key_hits(m: Message, gs: Seq<ThreadGroup>, n: int) -> nat
    decreases n,
{
    if n <= 0 {
        0
    } else {
        key_hits(m, gs, n - 1) + if in_thread(m, gs[n - 1].channel_id@, gs[n - 1].thread_key@) {
            1nat
        } else {
            0nat
        }
    }
}

proof fn lemma_thread_sizes_step(s: Seq<Message>, gs: Seq<ThreadGroup>, n: int)
    requires
        s.len() > 0,
    ensures
        thread_sizes(s, gs, n) == thread_sizes(s.drop_last(), gs, n) + key_hits(s.last(), gs, n),
    decreases n,
{
    if n > 0 {
        lemma_thread_sizes_step(s, gs, n - 1);
    }
}

/// Keys of `gs` are pairwise distinct.
spec fn distinct_keys(gs: Seq<ThreadGroup>) -> bool {
    forall|i: int, j: int|
        0 <= i < j < gs.len() ==> !((#[trigger] gs[i]).channel_id@ == (#[trigger] gs[j]).channel_id@
            && gs[i].thread_key@ == gs[j].thread_key@)
}

proof fn lemma_no_hits(m: Message, gs: Seq<ThreadGroup>, n: int)
    requires
        forall|i: int| 0 <= i < n ==> !in_thread(m, (#[trigger] gs[i]).channel_id@, gs[i].thread_key@),
    ensures
        key_hits(m, gs, n) == 0,
    decreases n,
{
    if n > 0 {
        lemma_no_hits(m, gs, n - 1);
    }
}

proof fn lemma_one_hit(m: Message, gs: Seq<ThreadGroup>, n: int, w: int)
    requires
        distinct_keys(gs),
        n <= gs.len(),
        0 <= w < n,
        in_thread(m, gs[w].channel_id@, gs[w].thread_key@),
    ensures
        key_hits(m, gs, n) == 1,
    decreases n,
{
    if w == n - 1 {
        assert forall|i: int| 0 <= i < n - 1 implies !in_thread(
            m,
            (#[trigger] gs[i]).channel_id@,
            gs[i].thread_key@,
        ) by {
            assert(!(gs[i].channel_id@ == gs[w].channel_id@ && gs[i].thread_key@ == gs[w].thread_key@));
        }
        lemma_no_hits(m, gs, n - 1);
    } else {
        lemma_one_hit(m, gs, n - 1, w);
        assert(!(gs[w].channel_id@ == gs[n - 1].channel_id@ && gs[w].thread_key@ == gs[n
            - 1].thread_key@));
    }
}

proof fn lemma_thread_sizes_cover(s: Seq<Message>, gs: Seq<ThreadGroup>)
    requires
        distinct_keys(gs),
        forall|k: int| 0 <= k < s.len() ==> has_thread(gs, #[trigger] s[k]),
    ensures
        thread_sizes(s, gs, gs.len() as int) == s.len(),
    decreases s.len(),
{
    if s.len() == 0 {
        assert(s =~= Seq::<Message>::empty());
        lemma_thread_sizes_empty(gs, gs.len() as int);
    } else {
        let t = s.drop_last();
        assert forall|k: int| 0 <= k < t.len() implies has_thread(gs, #[trigger] t[k]) by {
            assert(t[k] == s[k]);
        }
        lemma_thread_sizes_cover(t, gs);
        lemma_thread_sizes_step(s, gs, gs.len() as int);
        assert(has_thread(gs, s[s.len() - 1]));
        let w = choose|i: int|
            0 <= i < gs.len() && #[trigger] in_thread(s[s.len() - 1], gs[i].channel_id@, gs[i].thread_key@);
        lemma_one_hit(s.last(), gs, gs.len() as int, w);
    }
}

proof fn lemma_thread_sizes_empty(gs: Seq<ThreadGroup>, n: int)
    ensures
        thread_sizes(Seq::<Message>::empty(), gs, n) == 0,
    decreases n,
{
    if n > 0 {
        lemma_thread_sizes_empty(gs, n - 1);
    }
}

proof fn lemma_group_sizes_threads(gs: Seq<ThreadGroup>, msgs: Seq<Message>, n: int)
    requires
        n <= gs.len(),
        forall|i: int| 0 <= i < gs.len() ==> is_thread_of(#[trigger] gs[i], msgs),
    ensures
        group_sizes(gs, n) == thread_sizes(msgs, gs, n),
    decreases n,
{
    if n > 0 {
        lemma_group_sizes_threads(gs, msgs, n - 1);
        let g = gs[n - 1];
        assert(is_thread_of(g, msgs));
        lemma_sort_by_ts_len(thread_messages(msgs, g.channel_id@, g.thread_key@));
    }
}

/// Thread grouping partitions the messages: each message belongs to the
/// thread of exactly one group, and the groups together hold as many
/// messages as the input.
pub proof fn lemma_grouping_partition(gs: Seq<ThreadGroup>, msgs: Seq<Message>)
    requires
        is_grouping(gs, msgs),
    ensures
        forall|k: int, i: int, j: int|
            0 <= k < msgs.len() && 0 <= i < gs.len() && 0 <= j < gs.len() && in_thread(
                #[trigger] msgs[k],
                #[trigger] gs[i].channel_id@,
                gs[i].thread_key@,
            ) && in_thread(msgs[k], #[trigger] gs[j].channel_id@, gs[j].thread_key@) ==> i == j,
        group_sizes(gs, gs.len() as int) == msgs.len(),
{
    assert(distinct_keys(gs)) by {
        assert forall|i: int, j: int| 0 <= i < j < gs.len() implies !((#[trigger] gs[i]).channel_id@
            == (#[trigger] gs[j]).channel_id@ && gs[i].thread_key@ == gs[j].thread_key@) by {
            assert(key_lt(gs[i].channel_id@, gs[i].thread_key@, gs[j].channel_id@, gs[j].thread_key@));
            lemma_seq_lt_irreflexive(gs[i].channel_id@);
            lemma_seq_lt_irreflexive(gs[i].thread_key@);
        }
    }
    assert forall|k: int, i: int, j: int|
        0 <= k < msgs.len() && 0 <= i < gs.len() && 0 <= j < gs.len() && in_thread(
            #[trigger] msgs[k],
            #[trigger] gs[i].channel_id@,
            gs[i].thread_key@,
        ) && in_thread(msgs[k], #[trigger] gs[j].channel_id@, gs[j].thread_key@) implies i == j by {
        if i < j {
            assert(!(gs[i].channel_id@ == gs[j].channel_id@ && gs[i].thread_key@ == gs[j].thread_key@));
        } else if j < i {
            assert(!(gs[j].channel_id@ == gs[i].channel_id@ && gs[j].thread_key@ == gs[i].thread_key@));
        }
    }
    lemma_thread_sizes_cover(msgs, gs);
    lemma_group_sizes_threads(gs, msgs, gs.len() as int);
}

/// `a` and `b` are the same message up to how a thread root is written
/// (`thread_root_id` of `None` or `Some(own id)`): all other fields and the
/// thread key agree.
pub open spec fn same_message(a: Message, b: Message) -> bool {
    &&& a.id@ == b.id@
    &&& a.channel_id@ == b.channel_id@
    &&& a.author_id@ == b.author_id@
    &&& a.text@ == b.text@
    &&& a.timestamp == b.timestamp
    &&& a.reaction_count == b.reaction_count
    &&& thread_key(a) == thread_key(b)
}

/// Position by position, the same messages.
pub open spec fn same_messages(s1: Seq<Message>, s2: Seq<Message>) -> bool {
    &&& s1.len() == s2.len()
    &&& forall|k: int| 0 <= k < s1.len() ==> #[trigger] same_message(s1[k], s2[k])
}

proof fn lemma_thread_messages_same(s1: Seq<Message>, s2: Seq<Message>, ch: Seq<char>, tk: Seq<char>)
    requires
        same_messages(s1, s2),
    ensures
        same_messages(thread_messages(s1, ch, tk), thread_messages(s2, ch, tk)),
    decreases s1.len(),
{
    if s1.len() > 0 {
        let t1 = s1.drop_last();
        let t2 = s2.drop_last();
        assert forall|k: int| 0 <= k < t1.len() implies #[trigger] same_message(t1[k], t2[k]) by {
            assert(same_message(s1[k], s2[k]));
        }
        lemma_thread_messages_same(t1, t2, ch, tk);
        assert(same_message(s1[s1.len() - 1], s2[s2.len() - 1]));
        let r1 = thread_messages(t1, ch, tk);
        let r2 = thread_messages(t2, ch, tk);
        if in_thread(s1.last(), ch, tk) {
            assert forall|k: int| 0 <= k < r1.push(s1.last()).len() implies #[trigger] same_message(
                r1.push(s1.last())[k],
                r2.push(s2.last())[k],
            ) by {
                if k < r1.len() {
                    assert(same_message(r1[k], r2[k]));
                }
            }
        }
    }
}

proof fn lemma_insert_by_ts_same(s1: Seq<Message>, s2: Seq<Message>, m1: Message, m2: Message)
    requires
        same_messages(s1, s2),
        same_message(m1, m2),
    ensures
        same_messages(insert_by_ts(s1, m1), insert_by_ts(s2, m2)),
    decreases s1.len(),
{
    if s1.len() > 0 {
        assert(same_message(s1[s1.len() - 1], s2[s2.len() - 1]));
        if s1.last().timestamp <= m1.timestamp {
            assert forall|k: int| 0 <= k < s1.push(m1).len() implies #[trigger] same_message(
                s1.push(m1)[k],
                s2.push(m2)[k],
            ) by {
                if k < s1.len() {
                    assert(same_message(s1[k], s2[k]));
                }
            }
        } else {
            let t1 = s1.drop_last();
            let t2 = s2.drop_last();
            assert forall|k: int| 0 <= k < t1.len() implies #[trigger] same_message(t1[k], t2[k]) by {
                assert(same_message(s1[k], s2[k]));
            }
            lemma_insert_by_ts_same(t1, t2, m1, m2);
            let r1 = insert_by_ts(t1, m1);
            let r2 = insert_by_ts(t2, m2);
            assert forall|k: int| 0 <= k < r1.push(s1.last()).len() implies #[trigger] same_message(
                r1.push(s1.last())[k],
                r2.push(s2.last())[k],
            ) by {
                if k < r1.len() {
                    assert(same_message(r1[k], r2[k]));
                }
            }
        }
    } else {
        assert(same_message(seq![m1][0], seq![m2][0]));
    }
}

proof fn lemma_sort_by_ts_same(s1: Seq<Message>, s2: Seq<Message>)
    requires
        same_messages(s1, s2),
    ensures
        same_messages(sort_by_ts(s1), sort_by_ts(s2)),
    decreases s1.len(),
{
    if s1.len() > 0 {
        let t1 = s1.drop_last();
        let t2 = s2.drop_last();
        assert forall|k: int| 0 <= k < t1.len() implies #[trigger] same_message(t1[k], t2[k]) by {
            assert(same_message(s1[k], s2[k]));
        }
        lemma_sort_by_ts_same(t1, t2);
        assert(same_message(s1[s1.len() - 1], s2[s2.len() - 1]));
        lemma_insert_by_ts_same(sort_by_ts(t1), sort_by_ts(t2), s1.last(), s2.last());
    }
}

proof fn lemma_thread_messages_witness(s: Seq<Message>, ch: Seq<char>, tk: Seq<char>)
    requires
        thread_messages(s, ch, tk).len() > 0,
    ensures
        exists|k: int| 0 <= k < s.len() && #[trigger] in_thread(s[k], ch, tk),
    decreases s.len(),
{
    if !in_thread(s.last(), ch, tk) {
        lemma_thread_messages_witness(s.drop_last(), ch, tk);
        let k = choose|k: int| 0 <= k < s.drop_last().len() && #[trigger] in_thread(s.drop_last()[k], ch, tk);
        assert(s[k] == s.drop_last()[k]);
    } else {
        assert(in_thread(s[s.len() - 1], ch, tk));
    }
}

/// The `(channel, thread key)` pairs of a grouping, in order.
pub open spec fn group_keys(gs: Seq<ThreadGroup>) -> Seq<(Seq<char>, Seq<char>)> {
    gs.map_values(|g: ThreadGroup| (g.channel_id@, g.thread_key@))
}

proof fn lemma_key_lt_strict(x: (Seq<char>, Seq<char>), y: (Seq<char>, Seq<char>))
    ensures
        !key_lt(x.0, x.1, x.0, x.1),
        key_lt(x.0, x.1, y.0, y.1) ==> !key_lt(y.0, y.1, x.0, x.1),
{
    lemma_seq_lt_irreflexive(x.0);
    lemma_seq_lt_irreflexive(x.1);
    if seq_lt(x.0, y.0) {
        lemma_seq_lt_asymmetric(x.0, y.0);
    } else if x.0 == y.0 && seq_lt(x.1, y.1) {
        lemma_seq_lt_asymmetric(x.1, y.1);
    }
}

/// Strictly key-ordered sequences holding the same keys are equal.
proof fn lemma_sorted_keys_unique(a: Seq<(Seq<char>, Seq<char>)>, b: Seq<(Seq<char>, Seq<char>)>)
    requires
        forall|i: int, j: int| 0 <= i < j < a.len() ==> key_lt(#[trigger] a[i].0, a[i].1, #[trigger] a[j].0, a[j].1),
        forall|i: int, j: int| 0 <= i < j < b.len() ==> key_lt(#[trigger] b[i].0, b[i].1, #[trigger] b[j].0, b[j].1),
        forall|i: int| 0 <= i < a.len() ==> #[trigger] b.contains(a[i]),
        forall|j: int| 0 <= j < b.len() ==> #[trigger] a.contains(b[j]),
    ensures
        a == b,
    decreases a.len(),
{
    if a.len() == 0 {
        if b.len() > 0 {
            assert(a.contains(b[0]));
        }
        assert(a =~= b);
    } else {
        assert(b.contains(a[0]));
        let j0 = choose|j: int| 0 <= j < b.len() && b[j] == a[0];
        assert(a.contains(b[0]));
        let i0 = choose|i: int| 0 <= i < a.len() && a[i] == b[0];
        lemma_key_lt_strict(a[0], a[i0]);
        if j0 > 0 {
            assert(key_lt(b[0].0, b[0].1, b[j0].0, b[j0].1));
            if i0 > 0 {
                assert(key_lt(a[0].0, a[0].1, a[i0].0, a[i0].1));
            }
            assert(false);
        }
        let a1 = a.drop_first();
        let b1 = b.drop_first();
        assert forall|i: int| 0 <= i < a1.len() implies #[trigger] b1.contains(a1[i]) by {
            assert(a1[i] == a[i + 1]);
            assert(b.contains(a[i + 1]));
            let j = choose|j: int| 0 <= j < b.len() && b[j] == a[i + 1];
            assert(key_lt(a[0].0, a[0].1, a[i + 1].0, a[i + 1].1));
            lemma_key_lt_strict(a[0], a[0]);
            assert(j != 0);
            assert(b1[j - 1] == b[j]);
        }
        assert forall|j: int| 0 <= j < b1.len() implies #[trigger] a1.contains(b1[j]) by {
            assert(b1[j] == b[j + 1]);
            assert(a.contains(b[j + 1]));
            let i = choose|i: int| 0 <= i < a.len() && a[i] == b[j + 1];
            assert(key_lt(b[0].0, b[0].1, b[j + 1].0, b[j + 1].1));
            lemma_key_lt_strict(b[0], b[0]);
            assert(i != 0);
            assert(a1[i - 1] == a[i]);
        }
        assert forall|i: int, j: int| 0 <= i < j < a1.len() implies key_lt(#[trigger] a1[i].0, a1[i].1, #[trigger] a1[j].0, a1[j].1) by {
            assert(a1[i] == a[i + 1] && a1[j] == a[j + 1]);
        }
        assert forall|i: int, j: int| 0 <= i < j < b1.len() implies key_lt(#[trigger] b1[i].0, b1[i].1, #[trigger] b1[j].0, b1[j].1) by {
            assert(b1[i] == b[i + 1] && b1[j] == b[j + 1]);
        }
        lemma_sorted_keys_unique(a1, b1);
        assert(a =~= b) by {
            assert forall|i: int| 0 <= i < a.len() implies a[i] == b[i] by {
                if i > 0 {
                    assert(a[i] == a1[i - 1] && b[i] == b1[i - 1]);
                }
            }
        }
    }
}

proof fn lemma_group_keys_included(gs1: Seq<ThreadGroup>, m1: Seq<Message>, gs2: Seq<ThreadGroup>, m2: Seq<Message>)
    requires
        is_grouping(gs1, m1),
        is_grouping(gs2, m2),
        same_messages(m1, m2),
    ensures
        forall|i: int| 0 <= i < gs1.len() ==> #[trigger] group_keys(gs2).contains(group_keys(gs1)[i]),
{
    assert forall|i: int| 0 <= i < gs1.len() implies #[trigger] group_keys(gs2).contains(group_keys(gs1)[i]) by {
        let g = gs1[i];
        assert(is_thread_of(g, m1));
        let tm = thread_messages(m1, g.channel_id@, g.thread_key@);
        lemma_sort_by_ts_len(tm);
        lemma_thread_messages_witness(m1, g.channel_id@, g.thread_key@);
        let k = choose|k: int| 0 <= k < m1.len() && #[trigger] in_thread(m1[k], g.channel_id@, g.thread_key@);
        assert(same_message(m1[k], m2[k]));
        assert(has_thread(gs2, m2[k]));
        let j = choose|j: int| 0 <= j < gs2.len() && #[trigger] in_thread(m2[k], gs2[j].channel_id@, gs2[j].thread_key@);
        assert(group_keys(gs2)[j] == group_keys(gs1)[i]);
    }
}

/// The grouping does not depend on how thread roots are written: inputs
/// that hold the same messages, position by position, up to a root written
/// as `Some(own id)` rather than `None`, have groups with the same keys,
/// in the same order, holding the same messages.
pub proof fn lemma_grouping_encoding_independent(
    gs1: Seq<ThreadGroup>,
    m1: Seq<Message>,
    gs2: Seq<ThreadGroup>,
    m2: Seq<Message>,
)
    requires
        is_grouping(gs1, m1),
        is_grouping(gs2, m2),
        same_messages(m1, m2),
    ensures
        gs1.len() == gs2.len(),
        forall|i: int|
            0 <= i < gs1.len() ==> (#[trigger] gs1[i]).channel_id@ == gs2[i].channel_id@
                && gs1[i].thread_key@ == gs2[i].thread_key@ && same_messages(gs1[i].messages@, gs2[i].messages@),
{
    let k1 = group_keys(gs1);
    let k2 = group_keys(gs2);
    lemma_group_keys_included(gs1, m1, gs2, m2);
    assert forall|k: int| 0 <= k < m2.len() implies #[trigger] same_message(m2[k], m1[k]) by {
        assert(same_message(m1[k], m2[k]));
    }
    lemma_group_keys_included(gs2, m2, gs1, m1);
    assert forall|i: int, j: int| 0 <= i < j < k1.len() implies key_lt(#[trigger] k1[i].0, k1[i].1, #[trigger] k1[j].0, k1[j].1) by {
        assert(key_lt(gs1[i].channel_id@, gs1[i].thread_key@, gs1[j].channel_id@, gs1[j].thread_key@));
    }
    assert forall|i: int, j: int| 0 <= i < j < k2.len() implies key_lt(#[trigger] k2[i].0, k2[i].1, #[trigger] k2[j].0, k2[j].1) by {
        assert(key_lt(gs2[i].channel_id@, gs2[i].thread_key@, gs2[j].channel_id@, gs2[j].thread_key@));
    }
    assert forall|i: int| 0 <= i < k1.len() implies #[trigger] k2.contains(k1[i]) by {
        assert(k2.contains(group_keys(gs1)[i]));
    }
    assert forall|j: int| 0 <= j < k2.len() implies #[trigger] k1.contains(k2[j]) by {
        assert(k1.contains(group_keys(gs2)[j]));
    }
    lemma_sorted_keys_unique(k1, k2);
    assert forall|i: int|
        0 <= i < gs1.len() implies (#[trigger] gs1[i]).channel_id@ == gs2[i].channel_id@
            && gs1[i].thread_key@ == gs2[i].thread_key@ && same_messages(gs1[i].messages@, gs2[i].messages@) by {
        assert(k1[i] == k2[i]);
        let g1 = gs1[i];
        let g2 = gs2[i];
        assert(is_thread_of(g1, m1));
        assert(is_thread_of(g2, m2));
        lemma_thread_messages_same(m1, m2, g1.channel_id@, g1.thread_key@);
        lemma_sort_by_ts_same(
            thread_messages(m1, g1.channel_id@, g1.thread_key@),
            thread_messages(m2, g1.channel_id@, g1.thread_key@),
        );
    }
}

/// A root written as `thread_root_id == Some(own id)` is the same message,
/// for grouping, as that root written with `None`.
pub proof fn lemma_root_encoding_same_message(a: Message, b: Message)
    requires
        a.id@ == b.id@,
        a.channel_id@ == b.channel_id@,
        a.author_id@ == b.author_id@,
        a.text@ == b.text@,
        a.timestamp == b.timestamp,
        a.reaction_count == b.reaction_count,
        a.thread_root_id is None,
        b.thread_root_id matches Some(r) && r@ == b.id@,
    ensures
        same_message(a, b),
{
}

} // verus!
