//! H3: power-concentration / hierarchy tallies (reply graph based).

use vstd::prelude::*;

use crate::config::lit_views;
use crate::error::CommError;
use crate::graph::{
    author_seq, authored, count_authored, user_ids, degree_weight, distinct_authors, graph_users, root_author,
    ReplyGraph,
};
use crate::metrics::common::{
    is_managerial, is_staff, lemma_resolved_role_source, resolve_role, resolved_role,
    spec_is_managerial,
};
use crate::metrics::h1_justification::is_dissent;
use crate::metrics::h4_consensus::last_channel;
use crate::models::Role;
use crate::config::RoleEntry;
use crate::strings::{
    ascii_lower, chars_eq, chars_of, dedup, lemma_dedup_distinct, lemma_seq_lt_irreflexive, lemma_seq_lt_total,
    lower_all, lower_range, owned, seq_lt, str_eq, str_lt, strip_char, strip_char_bounds, trim,
    trim_bounds, views, sort_by, sub_chars, str_order, lemma_insert_by_at,
};
use crate::text::patterns::{dict_builds, PatternMatcher};
use crate::types::{AnalysisInput, Channel, Message, Reaction, User};

verus! {

/// Emoji names treated as agreement reactions.
pub open spec fn spec_agreement_emojis() -> Seq<Seq<char>> {
    seq![
        "+1"@,
        "thumbsup"@,
        "ok"@,
        "ok_hand"@,
        "white_check_mark"@,
        "raised_hands"@,
        "clap"@,
        "pray"@,
        "100"@,
        "heavy_check_mark"@,
        "👍"@,
        "🙆"@,
        "👏"@,
    ]
}

/// An emoji name without surrounding white space and `:`, lower-cased.
pub open spec fn normalize_emoji(e: Seq<char>) -> Seq<char> {
    ascii_lower(strip_char(trim(e), ':'))
}

/// `e` names an agreement reaction (compared case-insensitively).
pub open spec fn is_agreement_emoji(e: Seq<char>) -> bool {
    exists|i: int|
        0 <= i < spec_agreement_emojis().len() && ascii_lower(#[trigger] spec_agreement_emojis()[i])
            == normalize_emoji(e)
}

/// Messages of `msgs` posted in channel `cid`, in order.
pub open spec fn in_channel(msgs: Seq<Message>, cid: Seq<char>) -> Seq<Message>
    decreases msgs.len(),
{
    if msgs.len() == 0 {
        seq![]
    } else {
        let r = in_channel(msgs.drop_last(), cid);
        if msgs.last().channel_id@ == cid {
            r.push(msgs.last())
        } else {
            r
        }
    }
}

pub open spec fn declared_ids(chs: Seq<Channel>) -> Seq<Seq<char>> {
    chs.map_values(|c: Channel| c.id@)
}

/// Channel ids of the first `n` messages that no declared channel has.
pub open spec fn undeclared_ids(msgs: Seq<Message>, chs: Seq<Channel>, n: int) -> Seq<Seq<char>>
    decreases n,
{
    if n <= 0 {
        seq![]
    } else {
        let r = undeclared_ids(msgs, chs, n - 1);
        let c = msgs[n - 1].channel_id@;
        if declared_ids(chs).contains(c) {
            r
        } else {
            r.push(c)
        }
    }
}

/// Channels that messages use without being declared, ascending.
pub open spec fn extra_ids(msgs: Seq<Message>, chs: Seq<Channel>) -> Seq<Seq<char>> {
    sort_by(dedup(undeclared_ids(msgs, chs, msgs.len() as int)), str_order())
}

/// Channels in scope: the declared ones in order, then the extra ones.
pub open spec fn scope_ids(msgs: Seq<Message>, chs: Seq<Channel>) -> Seq<Seq<char>> {
    declared_ids(chs) + extra_ids(msgs, chs)
}

/// The ids of `scope` that some message uses, in order.
pub open spec fn active_ids(msgs: Seq<Message>, scope: Seq<Seq<char>>) -> Seq<Seq<char>>
    decreases scope.len(),
{
    if scope.len() == 0 {
        seq![]
    } else {
        let r = active_ids(msgs, scope.drop_last());
        if in_channel(msgs, scope.last()).len() > 0 {
            r.push(scope.last())
        } else {
            r
        }
    }
}

/// The output label of channel `cid`: the name of the last declared
/// channel with that id, else the id itself.
pub open spec fn channel_label(chs: Seq<Channel>, cid: Seq<char>) -> Seq<char> {
    match last_channel(chs, cid) {
        Some(c) => c.name@,
        None => cid,
    }
}

/// Utterance counts of one channel: one per distinct author, in order of
/// the author's first message there.
pub struct ChannelUtterances {
    pub label: String,
    pub counts: Vec<usize>,
}

pub open spec fn utterances_of(
    msgs: Seq<Message>,
    chs: Seq<Channel>,
    cid: Seq<char>,
    u: ChannelUtterances,
) -> bool {
    let cm = in_channel(msgs, cid);
    let users = graph_users(cm);
    &&& u.label@ == channel_label(chs, cid)
    &&& u.counts@.len() == users.len()
    &&& forall|i: int| 0 <= i < users.len() ==> #[trigger] u.counts@[i] == authored(cm, users[i])
}

/// Author of the last message of `msgs` whose id is `mid`.
pub open spec fn author_of_id(msgs: Seq<Message>, mid: Seq<char>) -> Option<Seq<char>>
    decreases msgs.len(),
{
    if msgs.len() == 0 {
        None
    } else if msgs.last().id@ == mid {
        Some(msgs.last().author_id@)
    } else {
        author_of_id(msgs.drop_last(), mid)
    }
}

/// Number of the first `n` messages written by a managerial user.
pub open spec fn manager_messages(
    users: Seq<User>,
    roles: Seq<RoleEntry>,
    msgs: Seq<Message>,
    n: int,
) -> nat
    decreases n,
{
    if n <= 0 {
        0
    } else {
        manager_messages(users, roles, msgs, n - 1) + if spec_is_managerial(
            resolved_role(users, roles, msgs[n - 1].author_id@),
        ) {
            1nat
        } else {
            0nat
        }
    }
}

/// Reaction `r` is an agreement by someone else on a managerial message.
pub open spec fn is_manager_agreement(
    users: Seq<User>,
    roles: Seq<RoleEntry>,
    msgs: Seq<Message>,
    r: Reaction,
) -> bool {
    match author_of_id(msgs, r.message_id@) {
        Some(a) => spec_is_managerial(resolved_role(users, roles, a)) && r.user_id@ != a
            && is_agreement_emoji(r.emoji_name@),
        None => false,
    }
}

/// Number of the first `n` reactions that are agreements on managerial
/// messages.
pub open spec fn manager_agreements(
    users: Seq<User>,
    roles: Seq<RoleEntry>,
    msgs: Seq<Message>,
    rs: Seq<Reaction>,
    n: int,
) -> nat
    decreases n,
{
    if n <= 0 {
        0
    } else {
        manager_agreements(users, roles, msgs, rs, n - 1) + if is_manager_agreement(
            users,
            roles,
            msgs,
            rs[n - 1],
        ) {
            1nat
        } else {
            0nat
        }
    }
}

/// The role of the author of `m`'s thread root, when `m` is a reply whose
/// root is among `msgs`.
pub open spec fn root_role(
    users: Seq<User>,
    roles: Seq<RoleEntry>,
    msgs: Seq<Message>,
    m: Message,
) -> Option<Role> {
    match m.thread_root_id {
        Some(r) => if r@ == m.id@ {
            None
        } else {
            match root_author(msgs, m.channel_id@, r@) {
                Some(a) => Some(resolved_role(users, roles, a)),
                None => None,
            }
        },
        None => None,
    }
}

/// Number of the first `n` messages that reply to a managerial
/// (`to_manager`) or staff root, counting only dissenting ones when
/// `dissent_only`.
pub open spec fn replies_to(
    users: Seq<User>,
    roles: Seq<RoleEntry>,
    msgs: Seq<Message>,
    to_manager: bool,
    dissent_only: bool,
    n: int,
) -> nat
    decreases n,
{
    if n <= 0 {
        0
    } else {
        let m = msgs[n - 1];
        let hit = match root_role(users, roles, msgs, m) {
            Some(role) => (if to_manager {
                spec_is_managerial(role)
            } else {
                role == Role::Staff
            }) && (!dissent_only || is_dissent(m)),
            None => false,
        };
        replies_to(users, roles, msgs, to_manager, dissent_only, n - 1) + if hit {
            1nat
        } else {
            0nat
        }
    }
}

/// `sum |x - v| over the first `n` values of `v`.
pub open spec fn abs_diff_sum(v: Seq<u64>, x: int, n: int) -> nat
    decreases n,
{
    if n <= 0 {
        0
    } else {
        let d = x - v[n - 1];
        abs_diff_sum(v, x, n - 1) + (if d < 0 {
            -d
        } else {
            d
        }) as nat
    }
}

/// `sum_{i < n} sum_j |v[i] - v[j]|`: the numerator of the Gini
/// coefficient of `v`.
pub open spec fn gini_numerator(v: Seq<u64>, n: int) -> nat
    decreases n,
{
    if n <= 0 {
        0
    } else {
        gini_numerator(v, n - 1) + abs_diff_sum(v, v[n - 1] as int, v.len() as int)
    }
}

pub open spec fn value_sum(v: Seq<u64>, n: int) -> nat
    decreases n,
{
    if n <= 0 {
        0
    } else {
        value_sum(v, n - 1) + v[n - 1] as nat
    }
}

/// The H3 tallies. The Gini coefficient of the replies received is
/// `gini_numerator / (2 * n * received_total)` over the `n` graph users
/// (0 when either factor is 0); the hierarchy score is
/// `hierarchy.0 / hierarchy.1` (0 for an empty graph).
pub struct H3Tally {
    /// Per channel in scope with messages: its per-author utterance counts.
    pub channels: Vec<ChannelUtterances>,
    /// Replies received per graph user, in node order.
    pub received: Vec<u64>,
    pub gini_numerator: u128,
    pub received_total: u128,
    /// Messages written by managerial users.
    pub manager_messages: usize,
    /// Agreement reactions by others on managerial messages.
    pub manager_agreements: usize,
    pub replies_to_manager: usize,
    pub dissent_to_manager: usize,
    pub replies_to_staff: usize,
    pub dissent_to_staff: usize,
    /// `(users on no reply cycle, users)`.
    pub hierarchy: (usize, usize),
    /// The reply graph (for PageRank and centralities).
    pub graph: ReplyGraph,
}

pub open spec fn utterance_list_of(
    msgs: Seq<Message>,
    chs: Seq<Channel>,
    out: Seq<ChannelUtterances>,
) -> bool {
    let act = active_ids(msgs, scope_ids(msgs, chs));
    &&& out.len() == act.len()
    &&& forall|i: int| 0 <= i < act.len() ==> utterances_of(msgs, chs, act[i], #[trigger] out[i])
}

pub open spec fn h3_tally_of(input: AnalysisInput, t: H3Tally) -> bool {
    let msgs = input.messages@;
    let users = input.users@;
    let roles = input.config.roles@;
    let n = msgs.len() as int;
    let g = t.graph;
    let gn = g.node_seq().len() as int;
    &&& g.built_from(msgs, roles)
    &&& utterance_list_of(msgs, input.channels@, t.channels@)
    &&& t.received@.len() == gn
    &&& forall|i: int|
        0 <= i < gn ==> #[trigger] t.received@[i] == degree_weight(
            g.edge_seq(),
            i,
            true,
            g.edge_seq().len() as int,
        )
    &&& t.gini_numerator == gini_numerator(t.received@, gn)
    &&& t.received_total == value_sum(t.received@, gn)
    &&& t.manager_messages == manager_messages(users, roles, msgs, n)
    &&& t.manager_agreements == manager_agreements(
        users,
        roles,
        msgs,
        input.reactions@,
        input.reactions@.len() as int,
    )
    &&& t.replies_to_manager == replies_to(users, roles, msgs, true, false, n)
    &&& t.dissent_to_manager == replies_to(users, roles, msgs, true, true, n)
    &&& t.replies_to_staff == replies_to(users, roles, msgs, false, false, n)
    &&& t.dissent_to_staff == replies_to(users, roles, msgs, false, true, n)
    &&& t.hierarchy.0 == g.hierarchy_spec().0
    &&& t.hierarchy.1 == g.hierarchy_spec().1
}

/// `normalize_emoji(e@)`.
pub fn normalize_emoji_exec(e: &str) -> (r: Vec<char>)
    ensures
        r@ == normalize_emoji(e@),
{
    let v = chars_of(e);
    let (a, b) = trim_bounds(&v);
    let t = sub_chars(&v, a, b);
    let (c, d) = strip_char_bounds(&t, ':');
    lower_range(&t, c, d)
}

/// Whether `e` names an agreement reaction.
pub fn is_agreement(e: &str) -> (r: bool)
    ensures
        r == is_agreement_emoji(e@),
{
    let n = normalize_emoji_exec(e);
    let lits: [&str; 13] = [
        "+1",
        "thumbsup",
        "ok",
        "ok_hand",
        "white_check_mark",
        "raised_hands",
        "clap",
        "pray",
        "100",
        "heavy_check_mark",
        "👍",
        "🙆",
        "👏",
    ];
    assert(lit_views(lits@) =~= spec_agreement_emojis());
    let mut k: usize = 0;
    while k < 13
        invariant
            k <= 13,
            n@ == normalize_emoji(e@),
            lit_views(lits@) == spec_agreement_emojis(),
            forall|i: int|
                0 <= i < k ==> ascii_lower(#[trigger] spec_agreement_emojis()[i]) != n@,
        decreases 13 - k,
    {
        let l = lower_all(&chars_of(lits[k]));
        assert(spec_agreement_emojis()[k as int] == lits@[k as int]@);
        if chars_eq(&l, &n) {
            assert(ascii_lower(spec_agreement_emojis()[k as int]) == normalize_emoji(e@));
            return true;
        }
        k = k + 1;
    }
    assert(spec_agreement_emojis().len() == 13);
    false
}

/// The messages of channel `cid`, in order.
fn messages_in_channel(messages: &[Message], cid: &str) -> (r: Vec<Message>)
    ensures
        r@ == in_channel(messages@, cid@),
{
    let mut r: Vec<Message> = Vec::new();
    let mut k: usize = 0;
    while k < messages.len()
        invariant
            k <= messages.len(),
            r@ == in_channel(messages@.take(k as int), cid@),
        decreases messages.len() - k,
    {
        assert(messages@.take(k + 1).drop_last() =~= messages@.take(k as int));
        assert(messages@.take(k + 1).last() == messages@[k as int]);
        if str_eq(messages[k].channel_id.as_str(), cid) {
            r.push(messages[k].clone());
        }
        k = k + 1;
    }
    assert(messages@.take(messages.len() as int) =~= messages@);
    r
}

/// `channel_label(chs@, cid@)`.
fn channel_label_exec(chs: &[Channel], cid: &str) -> (r: String)
    ensures
        r@ == channel_label(chs@, cid@),
{
    let mut k = chs.len();
    assert(chs@.take(chs.len() as int) =~= chs@);
    while k > 0
        invariant
            k <= chs.len(),
            last_channel(chs@, cid@) == last_channel(chs@.take(k as int), cid@),
        decreases k,
    {
        assert(chs@.take(k as int).drop_last() =~= chs@.take(k - 1));
        assert(chs@.take(k as int).last() == chs@[k - 1]);
        if str_eq(chs[k - 1].id.as_str(), cid) {
            return chs[k - 1].name.clone();
        }
        k = k - 1;
    }
    owned(cid)
}

/// The utterance counts of channel `cid`, when some message is posted there.
fn channel_utterances(messages: &[Message], chs: &[Channel], cid: &str) -> (r: Option<
    ChannelUtterances,
>)
    ensures
        r is Some <==> in_channel(messages@, cid@).len() > 0,
        r matches Some(u) ==> utterances_of(messages@, chs@, cid@, u),
{
    let cm = messages_in_channel(messages, cid);
    if cm.len() == 0 {
        return None;
    }
    let authors = distinct_authors(cm.as_slice());
    let mut counts: Vec<usize> = Vec::new();
    let mut i: usize = 0;
    while i < authors.len()
        invariant
            i <= authors.len(),
            cm@ == in_channel(messages@, cid@),
            views(authors@) == graph_users(cm@),
            counts@.len() == i,
            forall|q: int| 0 <= q < i ==> #[trigger] counts@[q] == authored(cm@, authors@[q]@),
        decreases authors.len() - i,
    {
        let c = count_authored(cm.as_slice(), authors[i].as_str());
        counts.push(c);
        i = i + 1;
    }
    let label = channel_label_exec(chs, cid);
    let u = ChannelUtterances { label, counts };
    assert forall|q: int| 0 <= q < graph_users(cm@).len() implies #[trigger] u.counts@[q]
        == authored(cm@, graph_users(cm@)[q]) by {
        assert(views(authors@)[q] == authors@[q]@);
    }
    Some(u)
}

/// Whether some declared channel has id `cid`.
fn is_declared(chs: &[Channel], cid: &str) -> (r: bool)
    ensures
        r == declared_ids(chs@).contains(cid@),
{
    let mut k: usize = 0;
    while k < chs.len()
        invariant
            k <= chs.len(),
            forall|i: int| 0 <= i < k ==> chs@[i].id@ != cid@,
        decreases chs.len() - k,
    {
        if str_eq(chs[k].id.as_str(), cid) {
            assert(declared_ids(chs@)[k as int] == cid@);
            return true;
        }
        k = k + 1;
    }
    assert forall|i: int| 0 <= i < declared_ids(chs@).len() implies declared_ids(chs@)[i] != cid@ by {
        assert(declared_ids(chs@)[i] == chs@[i].id@);
    }
    false
}

/// The channel ids that messages use without being declared, ascending.
fn extra_channel_ids(messages: &[Message], chs: &[Channel]) -> (r: Vec<String>)
    ensures
        views(r@) == extra_ids(messages@, chs@),
{
    let ghost msgs = messages@;
    let mut seen: Vec<String> = Vec::new();
    let mut r: Vec<String> = Vec::new();
    let mut k: usize = 0;
    while k < messages.len()
        invariant
            k <= messages.len(),
            msgs == messages@,
            views(seen@) == dedup(undeclared_ids(msgs, chs@, k as int)),
            views(r@) == sort_by(views(seen@), str_order()),
        decreases messages.len() - k,
    {
        let c = messages[k].channel_id.as_str();
        let ghost prev = undeclared_ids(msgs, chs@, k as int);
        let declared = is_declared(chs, c);
        if declared {
            assert(undeclared_ids(msgs, chs@, k + 1) == prev);
        } else {
            assert(undeclared_ids(msgs, chs@, k + 1) == prev.push(c@));
            assert(prev.push(c@).drop_last() =~= prev);
            assert(prev.push(c@).last() == c@);
        }
        if !declared && !crate::graph::contains_string(&seen, c) {
            let ghost before = views(seen@);
            seen.push(owned(c));
            assert(views(seen@) =~= before.push(c@));
            assert(views(seen@).drop_last() =~= before);
            let mut p = r.len();
            while p > 0 && str_lt(c, r[p - 1].as_str())
                invariant
                    p <= r.len(),
                    forall|j: int| p <= j < r.len() ==> seq_lt(c@, #[trigger] r@[j]@),
                decreases p,
            {
                p = p - 1;
            }
            let ghost rv = views(r@);
            proof {
                assert forall|j: int| p <= j < rv.len() implies str_order()(c@, #[trigger] rv[j]) by {
                    assert(rv[j] == r@[j]@);
                }
                if p > 0 {
                    assert(rv[p - 1] == r@[p - 1]@);
                }
                lemma_insert_by_at(rv, c@, str_order(), p as int);
            }
            let ghost rb = r@;
            r.insert(p, owned(c));
            assert(views(r@) =~= views(rb).subrange(0, p as int).push(c@) + views(rb).subrange(
                p as int,
                rb.len() as int,
            ));
        }
        k = k + 1;
    }
    r
}

/// `sum_j |x - v[j]|`.
fn abs_diff_sum_exec(v: &Vec<u64>, x: u64) -> (r: u128)
    requires
        v.len() < u32::MAX,
    ensures
        r == abs_diff_sum(v@, x as int, v.len() as int),
        r <= v.len() * 0xFFFF_FFFF_FFFF_FFFF,
{
    let mut acc: u128 = 0;
    let mut j: usize = 0;
    while j < v.len()
        invariant
            j <= v.len() < u32::MAX,
            acc == abs_diff_sum(v@, x as int, j as int),
            acc <= j * 0xFFFF_FFFF_FFFF_FFFF,
        decreases v.len() - j,
    {
        let d: u64 = if x >= v[j] {
            x - v[j]
        } else {
            v[j] - x
        };
        acc = acc + d as u128;
        j = j + 1;
    }
    acc
}

/// `(gini_numerator(v), value_sum(v))`.
pub fn gini_parts(v: &Vec<u64>) -> (r: (u128, u128))
    requires
        v.len() < u32::MAX,
    ensures
        r.0 == gini_numerator(v@, v.len() as int),
        r.1 == value_sum(v@, v.len() as int),
{
    let mut num: u128 = 0;
    let mut sum: u128 = 0;
    let mut i: usize = 0;
    while i < v.len()
        invariant
            i <= v.len() < u32::MAX,
            num == gini_numerator(v@, i as int),
            sum == value_sum(v@, i as int),
            num <= i * (v.len() * 0xFFFF_FFFF_FFFF_FFFF),
            sum <= i * 0xFFFF_FFFF_FFFF_FFFF,
        decreases v.len() - i,
    {
        let a = abs_diff_sum_exec(v, v[i]);
        proof {
            let m = v.len() * 0xFFFF_FFFF_FFFF_FFFF;
            assert(i * m + m == (i + 1) * m) by (nonlinear_arith);
            assert((i + 1) * m <= 0xFFFF_FFFF * (0xFFFF_FFFF * 0xFFFF_FFFF_FFFF_FFFF)) by (nonlinear_arith)
                requires
                    i + 1 <= 0xFFFF_FFFF,
                    v.len() <= 0xFFFF_FFFF,
                    m == v.len() * 0xFFFF_FFFF_FFFF_FFFF,
            ;
        }
        num = num + a;
        sum = sum + v[i] as u128;
        i = i + 1;
    }
    (num, sum)
}

/// Messages written by managerial users.
fn count_manager_messages(input: &AnalysisInput<'_>) -> (r: usize)
    ensures
        r == manager_messages(
            input.users@,
            input.config.roles@,
            input.messages@,
            input.messages@.len() as int,
        ),
{
    let mut c: usize = 0;
    let mut k: usize = 0;
    while k < input.messages.len()
        invariant
            k <= input.messages.len(),
            c == manager_messages(input.users@, input.config.roles@, input.messages@, k as int),
            c <= k,
        decreases input.messages.len() - k,
    {
        if is_managerial(resolve_role(input, input.messages[k].author_id.as_str())) {
            c = c + 1;
        }
        k = k + 1;
    }
    c
}

/// Position of the last message with id `mid`.
fn message_with_id(messages: &[Message], mid: &str) -> (r: Option<usize>)
    ensures
        r matches Some(j) ==> j < messages.len() && author_of_id(messages@, mid@) == Some(
            messages@[j as int].author_id@,
        ),
        r is None ==> author_of_id(messages@, mid@) is None,
{
    let mut k = messages.len();
    assert(messages@.take(messages.len() as int) =~= messages@);
    while k > 0
        invariant
            k <= messages.len(),
            author_of_id(messages@, mid@) == author_of_id(messages@.take(k as int), mid@),
        decreases k,
    {
        assert(messages@.take(k as int).drop_last() =~= messages@.take(k - 1));
        assert(messages@.take(k as int).last() == messages@[k - 1]);
        if str_eq(messages[k - 1].id.as_str(), mid) {
            return Some(k - 1);
        }
        k = k - 1;
    }
    None
}

/// Agreement reactions by others on managerial messages.
fn count_manager_agreements(input: &AnalysisInput<'_>) -> (r: usize)
    ensures
        r == manager_agreements(
            input.users@,
            input.config.roles@,
            input.messages@,
            input.reactions@,
            input.reactions@.len() as int,
        ),
{
    let rs = input.reactions;
    let mut c: usize = 0;
    let mut k: usize = 0;
    while k < rs.len()
        invariant
            k <= rs.len(),
            rs@ == input.reactions@,
            c == manager_agreements(
                input.users@,
                input.config.roles@,
                input.messages@,
                rs@,
                k as int,
            ),
            c <= k,
        decreases rs.len() - k,
    {
        let r = &rs[k];
        match message_with_id(input.messages, r.message_id.as_str()) {
            Some(j) => {
                let author = input.messages[j].author_id.as_str();
                if is_managerial(resolve_role(input, author)) && !str_eq(r.user_id.as_str(), author)
                    && is_agreement(r.emoji_name.as_str()) {
                    c = c + 1;
                }
            },
            None => {},
        }
        k = k + 1;
    }
    c
}

/// Role of the author of message `k`'s thread root, when it is a reply
/// whose root is among the messages.
fn root_role_exec(input: &AnalysisInput<'_>, k: usize) -> (r: Option<Role>)
    requires
        k < input.messages.len(),
    ensures
        r == root_role(
            input.users@,
            input.config.roles@,
            input.messages@,
            input.messages@[k as int],
        ),
{
    let m = &input.messages[k];
    match &m.thread_root_id {
        Some(root) => {
            if str_eq(root.as_str(), m.id.as_str()) {
                None
            } else {
                match crate::graph::root_message(input.messages, m.channel_id.as_str(), root.as_str()) {
                    Some(j) => Some(resolve_role(input, input.messages[j].author_id.as_str())),
                    None => None,
                }
            }
        },
        None => None,
    }
}

proof fn lemma_abs_diff_sum_bound(v: Seq<u64>, x: int, n: int)
    requires
        0 <= x,
        0 <= n <= v.len(),
    ensures
        abs_diff_sum(v, x, n) <= n * x + value_sum(v, n),
    decreases n,
{
    if n > 0 {
        lemma_abs_diff_sum_bound(v, x, n - 1);
        assert(n * x == (n - 1) * x + x) by (nonlinear_arith);
    }
}

proof fn lemma_gini_numerator_bound(v: Seq<u64>, n: int)
    requires
        0 <= n <= v.len(),
    ensures
        gini_numerator(v, n) <= v.len() * value_sum(v, n) + n * value_sum(v, v.len() as int),
    decreases n,
{
    if n > 0 {
        let len = v.len() as int;
        let s = value_sum(v, len) as int;
        lemma_gini_numerator_bound(v, n - 1);
        lemma_abs_diff_sum_bound(v, v[n - 1] as int, len);
        let a = value_sum(v, n - 1) as int;
        let b = v[n - 1] as int;
        assert(len * a + len * b == len * (a + b)) by (nonlinear_arith);
        assert(n * s == (n - 1) * s + s) by (nonlinear_arith);
    }
}

/// The reply-concentration Gini coefficient lies in `[0, 1]`: its
/// numerator never exceeds its denominator `2 * n * total`.
pub proof fn lemma_gini_at_most_one(v: Seq<u64>)
    ensures
        gini_numerator(v, v.len() as int) <= 2 * v.len() * value_sum(v, v.len() as int),
{
    lemma_gini_numerator_bound(v, v.len() as int);
    let len = v.len() as int;
    let s = value_sum(v, len) as int;
    assert(len * s + len * s == 2 * len * s) by (nonlinear_arith);
}


/// Compute the H3 (power concentration) tallies over `input.messages`.
/// Fails only when the phrase automata cannot be built.
pub fn compute_h3(input: &AnalysisInput<'_>) -> (r: Result<H3Tally, CommError>)
    requires
        input.messages.len() < u32::MAX,
    ensures
        r is Ok <==> dict_builds(input.config.patterns),
        r is Ok ==> h3_tally_of(*input, r->Ok_0),
        r matches Err(e) ==> e is Config,
{
    let pm = match PatternMatcher::build(&input.config.patterns) {
        Ok(pm) => pm,
        Err(e) => {
            return Err(e);
        },
    };
    let msgs = input.messages;
    let chs = input.channels;
    let graph = ReplyGraph::build(msgs, input.config);

    // per-channel utterance counts, declared channels first
    let ghost scope = scope_ids(msgs@, chs@);
    let extras = extra_channel_ids(msgs, chs);
    let mut channels: Vec<ChannelUtterances> = Vec::new();
    let mut k: usize = 0;
    while k < chs.len()
        invariant
            k <= chs.len(),
            scope == scope_ids(msgs@, chs@),
            views(extras@) == extra_ids(msgs@, chs@),
            channels@.len() == active_ids(msgs@, scope.take(k as int)).len(),
            forall|i: int|
                0 <= i < channels@.len() ==> utterances_of(
                    msgs@,
                    chs@,
                    active_ids(msgs@, scope.take(k as int))[i],
                    #[trigger] channels@[i],
                ),
        decreases chs.len() - k,
    {
        let ghost pre = active_ids(msgs@, scope.take(k as int));
        proof {
            assert(scope.take(k + 1).drop_last() =~= scope.take(k as int));
            assert(scope[k as int] == chs@[k as int].id@);
        }
        match channel_utterances(msgs, chs, chs[k].id.as_str()) {
            Some(u) => {
                channels.push(u);
                assert(active_ids(msgs@, scope.take(k + 1)) == pre.push(chs@[k as int].id@));
            },
            None => {},
        }
        k = k + 1;
    }
    let mut q: usize = 0;
    while q < extras.len()
        invariant
            q <= extras.len(),
            scope == scope_ids(msgs@, chs@),
            views(extras@) == extra_ids(msgs@, chs@),
            scope.len() == chs.len() + extras.len(),
            channels@.len() == active_ids(msgs@, scope.take(chs.len() + q)).len(),
            forall|i: int|
                0 <= i < channels@.len() ==> utterances_of(
                    msgs@,
                    chs@,
                    active_ids(msgs@, scope.take(chs.len() + q))[i],
                    #[trigger] channels@[i],
                ),
        decreases extras.len() - q,
    {
        let ghost t = chs.len() + q;
        let ghost pre = active_ids(msgs@, scope.take(t));
        proof {
            assert(scope.take(t + 1).drop_last() =~= scope.take(t));
            assert(scope[t] == views(extras@)[q as int]);
        }
        match channel_utterances(msgs, chs, extras[q].as_str()) {
            Some(u) => {
                channels.push(u);
                assert(active_ids(msgs@, scope.take(t + 1)) == pre.push(extras@[q as int]@));
            },
            None => {},
        }
        q = q + 1;
    }
    assert(scope.take(chs.len() + extras.len()) =~= scope);

    // replies received and their Gini parts
    let weights = graph.degree_weights(true);
    let mut received: Vec<u64> = Vec::new();
    let mut i: usize = 0;
    while i < weights.len()
        invariant
            i <= weights.len(),
            received@.len() == i,
            forall|j: int| 0 <= j < i ==> #[trigger] received@[j] == weights@[j].1,
        decreases weights.len() - i,
    {
        received.push(weights[i].1);
        i = i + 1;
    }
    proof {
        lemma_dedup_distinct(author_seq(msgs@));
        assert(user_ids(graph.node_seq()).len() == graph.node_seq().len());
    }
    let (gini_num, total) = gini_parts(&received);

    // manager reactions
    let mgr_messages = count_manager_messages(input);
    let agreements = count_manager_agreements(input);

    // dissent target bias
    let mut to_mgr: usize = 0;
    let mut to_staff: usize = 0;
    let mut dis_mgr: usize = 0;
    let mut dis_staff: usize = 0;
    let ghost users = input.users@;
    let ghost roles = input.config.roles@;
    let mut k: usize = 0;
    while k < msgs.len()
        invariant
            k <= msgs.len(),
            msgs@ == input.messages@,
            users == input.users@,
            roles == input.config.roles@,
            pm.built_from(input.config.patterns),
            to_mgr == replies_to(users, roles, msgs@, true, false, k as int),
            dis_mgr == replies_to(users, roles, msgs@, true, true, k as int),
            to_staff == replies_to(users, roles, msgs@, false, false, k as int),
            dis_staff == replies_to(users, roles, msgs@, false, true, k as int),
            to_mgr <= k && dis_mgr <= k && to_staff <= k && dis_staff <= k,
        decreases msgs.len() - k,
    {
        match root_role_exec(input, k) {
            Some(role) => {
                let dissent = pm.count_dissent(msgs[k].text.as_str()) > 0;
                if is_managerial(role) {
                    to_mgr = to_mgr + 1;
                    if dissent {
                        dis_mgr = dis_mgr + 1;
                    }
                } else if is_staff(role) {
                    to_staff = to_staff + 1;
                    if dissent {
                        dis_staff = dis_staff + 1;
                    }
                }
            },
            None => {},
        }
        k = k + 1;
    }

    let hierarchy = graph.hierarchy_score();
    let t = H3Tally {
        channels,
        received,
        gini_numerator: gini_num,
        received_total: total,
        manager_messages: mgr_messages,
        manager_agreements: agreements,
        replies_to_manager: to_mgr,
        dissent_to_manager: dis_mgr,
        replies_to_staff: to_staff,
        dissent_to_staff: dis_staff,
        hierarchy,
        graph,
    };
    let res: Result<H3Tally, CommError> = Ok(t);
    assert(res->Ok_0 == t);
    res
}

/// Dissent replies are among the replies to the same side, which are
/// among all messages.
proof fn lemma_replies_to_bounds(
    users: Seq<User>,
    roles: Seq<RoleEntry>,
    msgs: Seq<Message>,
    to_manager: bool,
    n: int,
)
    requires
        n <= msgs.len(),
    ensures
        replies_to(users, roles, msgs, to_manager, true, n) <= replies_to(
            users,
            roles,
            msgs,
            to_manager,
            false,
            n,
        ),
        replies_to(users, roles, msgs, to_manager, false, n) <= if n < 0 {
            0
        } else {
            n
        },
    decreases n,
{
    if n > 0 {
        lemma_replies_to_bounds(users, roles, msgs, to_manager, n - 1);
    }
}

/// The dissent-target rates lie in `[0, 1]`: dissenting replies to
/// managerial (or staff) roots are among all replies to such roots, which
/// are among all messages.
pub proof fn lemma_h3_rates_bounded(input: AnalysisInput, t: H3Tally)
    requires
        h3_tally_of(input, t),
    ensures
        t.dissent_to_manager <= t.replies_to_manager <= input.messages@.len(),
        t.dissent_to_staff <= t.replies_to_staff <= input.messages@.len(),
{
    let msgs = input.messages@;
    let n = msgs.len() as int;
    lemma_replies_to_bounds(input.users@, input.config.roles@, msgs, true, n);
    lemma_replies_to_bounds(input.users@, input.config.roles@, msgs, false, n);
}

/// With no user record and no role entry naming `Staff`, no message replies
/// to a staff root; likewise for managerial roles.
proof fn lemma_replies_to_without_role(
    users: Seq<User>,
    roles: Seq<RoleEntry>,
    msgs: Seq<Message>,
    to_manager: bool,
    dissent_only: bool,
    n: int,
)
    requires
        forall|i: int|
            0 <= i < users.len() ==> !(if to_manager {
                spec_is_managerial((#[trigger] users[i]).role)
            } else {
                users[i].role == Role::Staff
            }),
        forall|i: int|
            0 <= i < roles.len() ==> !(if to_manager {
                spec_is_managerial((#[trigger] roles[i]).role)
            } else {
                roles[i].role == Role::Staff
            }),
    ensures
        replies_to(users, roles, msgs, to_manager, dissent_only, n) == 0,
    decreases n,
{
    if n > 0 {
        lemma_replies_to_without_role(users, roles, msgs, to_manager, dissent_only, n - 1);
        let m = msgs[n - 1];
        match m.thread_root_id {
            Some(r) => {
                if r@ != m.id@ {
                    match root_author(msgs, m.channel_id@, r@) {
                        Some(a) => {
                            lemma_resolved_role_source(users, roles, a);
                        },
                        None => {},
                    }
                }
            },
            None => {},
        }
    }
}

/// A reply counts toward the staff tallies only when its root's author
/// resolves to exactly `Staff`: with no user record and no role entry naming
/// `Staff` (every author's role `Unknown` or managerial), `replies_to_staff`
/// and `dissent_to_staff` are 0, whatever the replies.
pub proof fn lemma_h3_staff_replies_need_staff(input: AnalysisInput, t: H3Tally)
    requires
        h3_tally_of(input, t),
        forall|i: int| 0 <= i < input.users@.len() ==> (#[trigger] input.users@[i]).role != Role::Staff,
        forall|i: int|
            0 <= i < input.config.roles@.len() ==> (#[trigger] input.config.roles@[i]).role
                != Role::Staff,
    ensures
        t.replies_to_staff == 0,
        t.dissent_to_staff == 0,
{
    let msgs = input.messages@;
    let n = msgs.len() as int;
    lemma_replies_to_without_role(input.users@, input.config.roles@, msgs, false, false, n);
    lemma_replies_to_without_role(input.users@, input.config.roles@, msgs, false, true, n);
}

proof fn lemma_manager_counts_without_manager(
    users: Seq<User>,
    roles: Seq<RoleEntry>,
    msgs: Seq<Message>,
    rs: Seq<Reaction>,
    n: int,
)
    requires
        forall|i: int| 0 <= i < users.len() ==> !spec_is_managerial((#[trigger] users[i]).role),
        forall|i: int| 0 <= i < roles.len() ==> !spec_is_managerial((#[trigger] roles[i]).role),
    ensures
        manager_messages(users, roles, msgs, n) == 0,
        manager_agreements(users, roles, msgs, rs, n) == 0,
    decreases n,
{
    if n > 0 {
        lemma_manager_counts_without_manager(users, roles, msgs, rs, n - 1);
        lemma_resolved_role_source(users, roles, msgs[n - 1].author_id@);
        match author_of_id(msgs, rs[n - 1].message_id@) {
            Some(a) => {
                lemma_resolved_role_source(users, roles, a);
            },
            None => {},
        }
    }
}

/// Likewise, a message, reply or reaction counts on the managerial side
/// only when the author concerned resolves to Manager, Exec or Lead: with no
/// user record and no role entry naming one of them, `manager_messages`,
/// `manager_agreements`, `replies_to_manager` and `dissent_to_manager` are 0.
pub proof fn lemma_h3_manager_counts_need_manager(input: AnalysisInput, t: H3Tally)
    requires
        h3_tally_of(input, t),
        forall|i: int|
            0 <= i < input.users@.len() ==> !spec_is_managerial(
                (#[trigger] input.users@[i]).role,
            ),
        forall|i: int|
            0 <= i < input.config.roles@.len() ==> !spec_is_managerial(
                (#[trigger] input.config.roles@[i]).role,
            ),
    ensures
        t.manager_messages == 0,
        t.manager_agreements == 0,
        t.replies_to_manager == 0,
        t.dissent_to_manager == 0,
{
    let msgs = input.messages@;
    let n = msgs.len() as int;
    lemma_replies_to_without_role(input.users@, input.config.roles@, msgs, true, false, n);
    lemma_replies_to_without_role(input.users@, input.config.roles@, msgs, true, true, n);
    lemma_manager_counts_without_manager(input.users@, input.config.roles@, msgs, input.reactions@, n);
    lemma_manager_counts_without_manager(
        input.users@,
        input.config.roles@,
        msgs,
        input.reactions@,
        input.reactions@.len() as int,
    );
}

} // verus!
