//! H1: exploration-vs-justification tallies (phrase and time based).
//!
//! Role resolution: the caller's user record first, then the configured
//! mapping. "Managerial" = Manager, Exec or Lead; "staff" = Staff; Unknown
//! enters neither count.

use vstd::prelude::*;

use crate::analysis::{group_threads, in_thread, is_grouping, thread_key, ThreadGroup};
use crate::config::RoleEntry;
use crate::error::CommError;
use crate::metrics::common::{
    is_managerial, is_staff, lemma_resolved_role_source, median_doubled, median_doubled_of,
    resolve_role, resolved_role, spec_is_managerial,
};
use crate::models::Role;
use crate::strings::{chars_eq, chars_of};
use crate::text::patterns::{dict_builds, builtin_bytes, has_phrase, spec_dissent_phrases, PatternMatcher};
use crate::types::{AnalysisInput, Message, User};

verus! {

/// A later message within this many microseconds (24 h) counts as a reply.
pub open spec fn silence_window() -> int {
    86_400_000_000
}

/// Some message of `m`'s thread in `all` came after `m` within the window.
pub open spec fn has_reply(all: Seq<Message>, m: Message) -> bool {
    exists|j: int|
        0 <= j < all.len() && #[trigger] in_thread(all[j], m.channel_id@, thread_key(m)) && 0
            < all[j].timestamp - m.timestamp <= silence_window()
}

/// Whether `m` counts as a managerial (or, with `managerial == false`, a
/// staff) post, and with `silent_only`, one that drew no reply.
pub open spec fn post_counted(
    all: Seq<Message>,
    users: Seq<User>,
    roles: Seq<RoleEntry>,
    m: Message,
    managerial: bool,
    silent_only: bool,
) -> bool {
    let r = resolved_role(users, roles, m.author_id@);
    &&& if managerial {
        spec_is_managerial(r)
    } else {
        r == Role::Staff
    }
    &&& !silent_only || !has_reply(all, m)
}

/// Number of the first `n` messages of `all` that `post_counted` accepts.
pub open spec fn count_posts(
    all: Seq<Message>,
    users: Seq<User>,
    roles: Seq<RoleEntry>,
    n: int,
    managerial: bool,
    silent_only: bool,
) -> nat
    decreases n,
{
    if n <= 0 {
        0
    } else {
        count_posts(all, users, roles, n - 1, managerial, silent_only) + if post_counted(
            all,
            users,
            roles,
            all[n - 1],
            managerial,
            silent_only,
        ) {
            1nat
        } else {
            0nat
        }
    }
}

pub open spec fn is_dissent(m: Message) -> bool {
    has_phrase(builtin_bytes(spec_dissent_phrases()), m.text@)
}

/// Earliest timestamp of a dissent message in `s`.
pub open spec fn dissent_first(s: Seq<Message>) -> Option<int>
    decreases s.len(),
{
    if s.len() == 0 {
        None
    } else {
        let r = dissent_first(s.drop_last());
        if is_dissent(s.last()) {
            match r {
                None => Some(s.last().timestamp as int),
                Some(x) => Some(if x <= s.last().timestamp {
                    x
                } else {
                    s.last().timestamp as int
                }),
            }
        } else {
            r
        }
    }
}

/// Latest timestamp of a dissent message in `s`.
pub open spec fn dissent_last(s: Seq<Message>) -> Option<int>
    decreases s.len(),
{
    if s.len() == 0 {
        None
    } else {
        let r = dissent_last(s.drop_last());
        if is_dissent(s.last()) {
            match r {
                None => Some(s.last().timestamp as int),
                Some(x) => Some(if x >= s.last().timestamp {
                    x
                } else {
                    s.last().timestamp as int
                }),
            }
        } else {
            r
        }
    }
}

/// For each thread with dissent, in thread order: microseconds from its
/// first to its last dissent message.
pub open spec fn dissent_spans(gs: Seq<ThreadGroup>) -> Seq<i128>
    decreases gs.len(),
{
    if gs.len() == 0 {
        seq![]
    } else {
        let r = dissent_spans(gs.drop_last());
        match (dissent_first(gs.last().messages@), dissent_last(gs.last().messages@)) {
            (Some(a), Some(b)) => r.push((b - a) as i128),
            _ => r,
        }
    }
}

/// Number of threads with at least two messages.
pub open spec fn multi_message_threads(gs: Seq<ThreadGroup>) -> nat
    decreases gs.len(),
{
    if gs.len() == 0 {
        0
    } else {
        multi_message_threads(gs.drop_last()) + if gs.last().messages@.len() >= 2 {
            1nat
        } else {
            0nat
        }
    }
}

/// The H1 tallies.
pub struct H1Tally {
    /// Posts by managerial users.
    pub manager_posts: usize,
    /// Managerial posts that drew no reply within 24 h in their thread.
    pub manager_silent: usize,
    /// Posts by staff users.
    pub staff_posts: usize,
    /// Staff posts that drew no reply within 24 h in their thread.
    pub staff_silent: usize,
    /// Per thread with dissent: first-to-last dissent span (microseconds).
    pub dissent_spans: Vec<i128>,
    /// Twice the median of `dissent_spans` (0 when there is none).
    pub dissent_span_median_doubled: i128,
    /// Threads with at least two messages.
    pub thread_count: usize,
}

/// The H1 tallies of `input` over the grouping `gs` of its messages.
pub open spec fn h1_tally_of(input: AnalysisInput, gs: Seq<ThreadGroup>, t: H1Tally) -> bool {
    let all = input.messages@;
    let users = input.users@;
    let roles = input.config.roles@;
    let n = all.len() as int;
    &&& t.manager_posts == count_posts(all, users, roles, n, true, false)
    &&& t.manager_silent == count_posts(all, users, roles, n, true, true)
    &&& t.staff_posts == count_posts(all, users, roles, n, false, false)
    &&& t.staff_silent == count_posts(all, users, roles, n, false, true)
    &&& t.dissent_spans@ == dissent_spans(gs)
    &&& t.dissent_span_median_doubled == median_doubled_of(dissent_spans(gs))
    &&& t.thread_count == multi_message_threads(gs)
}

/// `v[i]` spells the channel id of message `i`, `w[i]` its thread key.
spec fn keys_of(all: Seq<Message>, v: Seq<Vec<char>>, w: Seq<Vec<char>>) -> bool {
    &&& v.len() == all.len()
    &&& w.len() == all.len()
    &&& forall|i: int| 0 <= i < all.len() ==> (#[trigger] v[i])@ == all[i].channel_id@
    &&& forall|i: int| 0 <= i < all.len() ==> (#[trigger] w[i])@ == thread_key(all[i])
}

fn thread_keys(all: &[Message]) -> (r: (Vec<Vec<char>>, Vec<Vec<char>>))
    ensures
        keys_of(all@, r.0@, r.1@),
{
    let mut v: Vec<Vec<char>> = Vec::new();
    let mut w: Vec<Vec<char>> = Vec::new();
    let mut k: usize = 0;
    while k < all.len()
        invariant
            k <= all.len(),
            v@.len() == k,
            w@.len() == k,
            forall|i: int| 0 <= i < k ==> (#[trigger] v@[i])@ == all@[i].channel_id@,
            forall|i: int| 0 <= i < k ==> (#[trigger] w@[i])@ == thread_key(all@[i]),
        decreases all.len() - k,
    {
        let m = &all[k];
        v.push(chars_of(m.channel_id.as_str()));
        let tk = match &m.thread_root_id {
            Some(r) => chars_of(r.as_str()),
            None => chars_of(m.id.as_str()),
        };
        w.push(tk);
        k = k + 1;
    }
    (v, w)
}

/// Whether message `k` of `all` drew a reply within the window.
fn reply_within_window(
    all: &[Message],
    chans: &Vec<Vec<char>>,
    tkeys: &Vec<Vec<char>>,
    k: usize,
) -> (b: bool)
    requires
        keys_of(all@, chans@, tkeys@),
        k < all.len(),
    ensures
        b == has_reply(all@, all@[k as int]),
{
    let m = &all[k];
    let mut j: usize = 0;
    while j < all.len()
        invariant
            keys_of(all@, chans@, tkeys@),
            k < all.len(),
            j <= all.len(),
            *m == all@[k as int],
            forall|i: int|
                0 <= i < j ==> !(#[trigger] in_thread(
                    all@[i],
                    all@[k as int].channel_id@,
                    thread_key(all@[k as int]),
                ) && 0 < all@[i].timestamp - all@[k as int].timestamp <= silence_window()),
        decreases all.len() - j,
    {
        let dt: i128 = (all[j].timestamp as i128) - (m.timestamp as i128);
        proof {
            assert(chans@[j as int]@ == all@[j as int].channel_id@);
            assert(chans@[k as int]@ == all@[k as int].channel_id@);
            assert(tkeys@[j as int]@ == thread_key(all@[j as int]));
            assert(tkeys@[k as int]@ == thread_key(all@[k as int]));
        }
        if 0 < dt && dt <= 86_400_000_000 {
            if chars_eq(&chans[j], &chans[k]) && chars_eq(&tkeys[j], &tkeys[k]) {
                assert(in_thread(all@[j as int], all@[k as int].channel_id@, thread_key(all@[k as int])));
                return true;
            }
        }
        j = j + 1;
    }
    false
}

/// Fold one more message into a (first, last) dissent-timestamp pair.
proof fn lemma_dissent_step(s: Seq<Message>, n: int)
    requires
        0 <= n < s.len(),
    ensures
        dissent_first(s.take(n + 1)) == (if is_dissent(s[n]) {
            match dissent_first(s.take(n)) {
                None => Some(s[n].timestamp as int),
                Some(x) => Some(if x <= s[n].timestamp {
                    x
                } else {
                    s[n].timestamp as int
                }),
            }
        } else {
            dissent_first(s.take(n))
        }),
        dissent_last(s.take(n + 1)) == (if is_dissent(s[n]) {
            match dissent_last(s.take(n)) {
                None => Some(s[n].timestamp as int),
                Some(x) => Some(if x >= s[n].timestamp {
                    x
                } else {
                    s[n].timestamp as int
                }),
            }
        } else {
            dissent_last(s.take(n))
        }),
{
    assert(s.take(n + 1).drop_last() =~= s.take(n));
    assert(s.take(n + 1).last() == s[n]);
}

/// The dissent span of one thread, if it has dissent.
fn thread_dissent_span(pm: &PatternMatcher, g: &ThreadGroup) -> (r: Option<i128>)
    requires
        pm.dissent_phrases() == builtin_bytes(spec_dissent_phrases()),
    ensures
        r is Some <==> dissent_first(g.messages@) is Some,
        r is Some <==> dissent_last(g.messages@) is Some,
        r matches Some(x) ==> x == dissent_last(g.messages@)->0 - dissent_first(
            g.messages@,
        )->0 && 0 <= x <= 0x1_0000_0000_0000_0000,
{
    let msgs = &g.messages;
    let mut any = false;
    let mut lo: i64 = 0;
    let mut hi: i64 = 0;
    let mut k: usize = 0;
    while k < msgs.len()
        invariant
            pm.dissent_phrases() == builtin_bytes(spec_dissent_phrases()),
            k <= msgs.len(),
            any <==> dissent_first(msgs@.take(k as int)) is Some,
            any <==> dissent_last(msgs@.take(k as int)) is Some,
            any ==> dissent_first(msgs@.take(k as int)) == Some(lo as int) && dissent_last(
                msgs@.take(k as int),
            ) == Some(hi as int) && lo <= hi,
        decreases msgs.len() - k,
    {
        proof {
            lemma_dissent_step(msgs@, k as int);
        }
        let m = &msgs[k];
        if pm.count_dissent(m.text.as_str()) > 0 {
            if !any {
                lo = m.timestamp;
                hi = m.timestamp;
                any = true;
            } else {
                if m.timestamp < lo {
                    lo = m.timestamp;
                }
                if m.timestamp > hi {
                    hi = m.timestamp;
                }
            }
        }
        k = k + 1;
    }
    assert(msgs@.take(msgs.len() as int) =~= msgs@);
    if any {
        Some((hi as i128) - (lo as i128))
    } else {
        None
    }
}

/// Compute the H1 (exploration-vs-justification) tallies over
/// `input.messages`. Fails only when the phrase automata cannot be built.
pub fn compute_h1(input: &AnalysisInput<'_>) -> (r: Result<H1Tally, CommError>)
    ensures
        r is Ok <==> dict_builds(input.config.patterns),
        r matches Ok(t) ==> exists|gs: Seq<ThreadGroup>|
            is_grouping(gs, input.messages@) && #[trigger] h1_tally_of(*input, gs, t),
        r matches Err(e) ==> e is Config,
{
    let pm = match PatternMatcher::build(&input.config.patterns) {
        Ok(pm) => pm,
        Err(e) => {
            return Err(e);
        },
    };
    let all = input.messages;
    let groups = group_threads(all);

    // --- silence after manager / staff posts ---
    let (chans, tkeys) = thread_keys(all);
    let ghost users = input.users@;
    let ghost roles = input.config.roles@;
    let mut mgr_total: usize = 0;
    let mut mgr_silent: usize = 0;
    let mut staff_total: usize = 0;
    let mut staff_silent: usize = 0;
    let mut k: usize = 0;
    while k < all.len()
        invariant
            k <= all.len(),
            keys_of(all@, chans@, tkeys@),
            users == input.users@,
            roles == input.config.roles@,
            all@ == input.messages@,
            mgr_total == count_posts(all@, users, roles, k as int, true, false),
            mgr_silent == count_posts(all@, users, roles, k as int, true, true),
            staff_total == count_posts(all@, users, roles, k as int, false, false),
            staff_silent == count_posts(all@, users, roles, k as int, false, true),
            mgr_total <= k && mgr_silent <= k && staff_total <= k && staff_silent <= k,
        decreases all.len() - k,
    {
        let m = &all[k];
        let has_reply = reply_within_window(all, &chans, &tkeys, k);
        let role = resolve_role(input, m.author_id.as_str());
        if is_managerial(role) {
            mgr_total = mgr_total + 1;
            if !has_reply {
                mgr_silent = mgr_silent + 1;
            }
        } else if is_staff(role) {
            staff_total = staff_total + 1;
            if !has_reply {
                staff_silent = staff_silent + 1;
            }
        }
        k = k + 1;
    }

    // --- dissent convergence spans and thread count ---
    let mut spans: Vec<i128> = Vec::new();
    let mut thread_count: usize = 0;
    let mut g: usize = 0;
    while g < groups.len()
        invariant
            g <= groups.len(),
            pm.dissent_phrases() == builtin_bytes(spec_dissent_phrases()),
            spans@ == dissent_spans(groups@.take(g as int)),
            thread_count == multi_message_threads(groups@.take(g as int)),
            thread_count <= g,
            forall|i: int| 0 <= i < spans.len() ==> 0 <= #[trigger] spans@[i] <= 0x1_0000_0000_0000_0000,
        decreases groups.len() - g,
    {
        proof {
            assert(groups@.take(g + 1).drop_last() =~= groups@.take(g as int));
            assert(groups@.take(g + 1).last() == groups@[g as int]);
        }
        match thread_dissent_span(&pm, &groups[g]) {
            Some(x) => spans.push(x),
            None => {},
        }
        if groups[g].messages.len() >= 2 {
            thread_count = thread_count + 1;
        }
        g = g + 1;
    }
    assert(groups@.take(groups.len() as int) =~= groups@);
    let median = median_doubled(&spans, 0, 0x1_0000_0000_0000_0000);
    let t = H1Tally {
        manager_posts: mgr_total,
        manager_silent: mgr_silent,
        staff_posts: staff_total,
        staff_silent,
        dissent_spans: spans,
        dissent_span_median_doubled: median,
        thread_count,
    };
    assert(is_grouping(groups@, input.messages@));
    assert(t.dissent_spans@ == dissent_spans(groups@));
    assert(t.manager_posts == count_posts(input.messages@, input.users@, input.config.roles@, input.messages@.len() as int, true, false));
    assert(h1_tally_of(*input, groups@, t));
    let res: Result<H1Tally, CommError> = Ok(t);
    assert(res is Ok);
    assert(res->Ok_0 == t);
    assert(h1_tally_of(*input, groups@, res->Ok_0));
    res
}

proof fn lemma_count_posts_bounds(
    all: Seq<Message>,
    users: Seq<User>,
    roles: Seq<RoleEntry>,
    n: int,
    managerial: bool,
)
    ensures
        count_posts(all, users, roles, n, managerial, true) <= count_posts(
            all,
            users,
            roles,
            n,
            managerial,
            false,
        ),
        count_posts(all, users, roles, n, managerial, false) <= if n < 0 {
            0
        } else {
            n
        },
    decreases n,
{
    if n > 0 {
        lemma_count_posts_bounds(all, users, roles, n - 1, managerial);
    }
}

/// The silence rates lie in `[0, 1]`: silent posts are among the posts of
/// their role, which are among all messages.
pub proof fn lemma_h1_rates_bounded(input: AnalysisInput, gs: Seq<ThreadGroup>, t: H1Tally)
    requires
        h1_tally_of(input, gs, t),
    ensures
        t.manager_silent <= t.manager_posts <= input.messages@.len(),
        t.staff_silent <= t.staff_posts <= input.messages@.len(),
{
    let all = input.messages@;
    lemma_count_posts_bounds(all, input.users@, input.config.roles@, all.len() as int, true);
    lemma_count_posts_bounds(all, input.users@, input.config.roles@, all.len() as int, false);
}

/// `all[j]` is in `all[k]`'s thread and follows it by more than 0 and at most
/// 24 h (86_400_000_000 microseconds).
pub open spec fn answers_within_day(all: Seq<Message>, k: int, j: int) -> bool {
    &&& all[j].channel_id@ == all[k].channel_id@
    &&& thread_key(all[j]) == thread_key(all[k])
    &&& 0 < all[j].timestamp - all[k].timestamp <= 86_400_000_000
}

/// Some message answers `all[k]` within a day.
pub open spec fn answered_within_day(all: Seq<Message>, k: int) -> bool {
    exists|j: int| 0 <= j < all.len() && #[trigger] answers_within_day(all, k, j)
}

proof fn lemma_count_posts_unanswered(
    all: Seq<Message>,
    users: Seq<User>,
    roles: Seq<RoleEntry>,
    n: int,
    managerial: bool,
)
    requires
        n <= all.len(),
        forall|k: int, j: int|
            0 <= k < all.len() && 0 <= j < all.len() ==> !#[trigger] answers_within_day(all, k, j),
    ensures
        count_posts(all, users, roles, n, managerial, true) == count_posts(
            all,
            users,
            roles,
            n,
            managerial,
            false,
        ),
    decreases n,
{
    if n > 0 {
        lemma_count_posts_unanswered(all, users, roles, n - 1, managerial);
        let m = all[n - 1];
        if has_reply(all, m) {
            let j = choose|j: int|
                0 <= j < all.len() && #[trigger] in_thread(all[j], m.channel_id@, thread_key(m))
                    && 0 < all[j].timestamp - m.timestamp <= silence_window();
            assert(answers_within_day(all, n - 1, j));
        }
    }
}

proof fn lemma_count_posts_answered(
    all: Seq<Message>,
    users: Seq<User>,
    roles: Seq<RoleEntry>,
    n: int,
    managerial: bool,
)
    requires
        n <= all.len(),
        forall|k: int| 0 <= k < all.len() ==> #[trigger] answered_within_day(all, k),
    ensures
        count_posts(all, users, roles, n, managerial, true) == 0,
    decreases n,
{
    if n > 0 {
        lemma_count_posts_answered(all, users, roles, n - 1, managerial);
        let m = all[n - 1];
        assert(answered_within_day(all, n - 1));
        let j = choose|j: int| 0 <= j < all.len() && #[trigger] answers_within_day(all, n - 1, j);
        assert(in_thread(all[j], m.channel_id@, thread_key(m)));
        assert(has_reply(all, m));
    }
}

/// A post counts as answered only through a message of its own thread
/// (same channel, same thread key) that follows it by more than 0 and at
/// most 24 h. So when no message has such a follower, every managerial and
/// every staff post is silent, however late other replies come.
pub proof fn lemma_h1_unanswered_all_silent(input: AnalysisInput, gs: Seq<ThreadGroup>, t: H1Tally)
    requires
        h1_tally_of(input, gs, t),
        forall|k: int, j: int|
            0 <= k < input.messages@.len() && 0 <= j < input.messages@.len()
                ==> !#[trigger] answers_within_day(input.messages@, k, j),
    ensures
        t.manager_silent == t.manager_posts,
        t.staff_silent == t.staff_posts,
{
    let all = input.messages@;
    lemma_count_posts_unanswered(all, input.users@, input.config.roles@, all.len() as int, true);
    lemma_count_posts_unanswered(all, input.users@, input.config.roles@, all.len() as int, false);
}

/// When every message has a follower in its own thread within 24 h, no
/// managerial or staff post is silent.
pub proof fn lemma_h1_answered_none_silent(input: AnalysisInput, gs: Seq<ThreadGroup>, t: H1Tally)
    requires
        h1_tally_of(input, gs, t),
        forall|k: int|
            0 <= k < input.messages@.len() ==> #[trigger] answered_within_day(input.messages@, k),
    ensures
        t.manager_silent == 0,
        t.staff_silent == 0,
{
    let all = input.messages@;
    lemma_count_posts_answered(all, input.users@, input.config.roles@, all.len() as int, true);
    lemma_count_posts_answered(all, input.users@, input.config.roles@, all.len() as int, false);
}

proof fn lemma_count_posts_without_role(
    all: Seq<Message>,
    users: Seq<User>,
    roles: Seq<RoleEntry>,
    n: int,
    managerial: bool,
    silent_only: bool,
)
    requires
        forall|i: int|
            0 <= i < users.len() ==> !(if managerial {
                spec_is_managerial((#[trigger] users[i]).role)
            } else {
                users[i].role == Role::Staff
            }),
        forall|i: int|
            0 <= i < roles.len() ==> !(if managerial {
                spec_is_managerial((#[trigger] roles[i]).role)
            } else {
                roles[i].role == Role::Staff
            }),
    ensures
        count_posts(all, users, roles, n, managerial, silent_only) == 0,
    decreases n,
{
    if n > 0 {
        lemma_count_posts_without_role(all, users, roles, n - 1, managerial, silent_only);
        lemma_resolved_role_source(users, roles, all[n - 1].author_id@);
    }
}

/// A post counts as a staff post only when its author resolves to exactly
/// `Staff`: with no user record and no role entry naming `Staff` (authors
/// `Unknown` enter neither count), the staff tallies are 0.
pub proof fn lemma_h1_staff_posts_need_staff(input: AnalysisInput, gs: Seq<ThreadGroup>, t: H1Tally)
    requires
        h1_tally_of(input, gs, t),
        forall|i: int| 0 <= i < input.users@.len() ==> (#[trigger] input.users@[i]).role != Role::Staff,
        forall|i: int|
            0 <= i < input.config.roles@.len() ==> (#[trigger] input.config.roles@[i]).role
                != Role::Staff,
    ensures
        t.staff_posts == 0,
        t.staff_silent == 0,
{
    let all = input.messages@;
    let n = all.len() as int;
    lemma_count_posts_without_role(all, input.users@, input.config.roles@, n, false, false);
    lemma_count_posts_without_role(all, input.users@, input.config.roles@, n, false, true);
}

/// A post counts as a managerial post only when its author resolves to
/// Manager, Exec or Lead: with no user record and no role entry naming one
/// of them, the managerial tallies are 0.
pub proof fn lemma_h1_manager_posts_need_manager(
    input: AnalysisInput,
    gs: Seq<ThreadGroup>,
    t: H1Tally,
)
    requires
        h1_tally_of(input, gs, t),
        forall|i: int|
            0 <= i < input.users@.len() ==> !spec_is_managerial(
                (#[trigger] input.users@[i]).role,
            ),
        forall|i: int|
            0 <= i < input.config.roles@.len() ==> !spec_is_managerial(
                (#[trigger] input.config.roles@[i]).role,
            ),
    ensures
        t.manager_posts == 0,
        t.manager_silent == 0,
{
    let all = input.messages@;
    let n = all.len() as int;
    lemma_count_posts_without_role(all, input.users@, input.config.roles@, n, true, false);
    lemma_count_posts_without_role(all, input.users@, input.config.roles@, n, true, true);
}

} // verus!
