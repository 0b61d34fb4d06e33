//! Directed reply graph: `replier -> thread-root author`.
//!
//! Nodes are the distinct message authors in order of first appearance;
//! an edge joins the author of a reply to the author of its thread root
//! (when the root is among the messages and the two authors differ), and
//! carries the number of such replies.

use vstd::prelude::*;

use crate::config::{role_lookup, CommConfig, RoleEntry};
use crate::models::Role;
use crate::strings::{
    views, dedup, sort_by, sorted_by, strict_weak_order, lemma_sort_by_sorted, lemma_insert_by_at, lemma_dedup_contains, lemma_dedup_distinct, lemma_occurrences_le, occurrences, owned,
    str_eq,
};
use crate::types::Message;

use self::scc::{count_on_cycle, cyclic_node_count, int_pairs};

pub mod scc;

verus! {

/// A user vertex in the reply graph.
pub struct UserNode {
    pub user_id: String,
    pub role: Role,
    pub message_count: usize,
}

/// Aggregated edge weight from `replier` to `root author`.
#[derive(Clone, Copy, Debug)]
pub struct EdgeWeight {
    pub reply_count: u32,
    /// Reserved for future use (manager reactions are tallied separately in H3).
    pub reaction_count: u32,
}

impl Default for EdgeWeight {
    fn default() -> (r: Self)
        ensures
            r.reply_count == 0,
            r.reaction_count == 0,
    {
        EdgeWeight { reply_count: 0, reaction_count: 0 }
    }
}

/// An edge between two node positions.
#[derive(Clone, Copy, Debug)]
pub struct ReplyEdge {
    pub from: usize,
    pub to: usize,
    pub weight: EdgeWeight,
}

/// Author ids of `msgs`, in order.
pub open spec fn author_seq(msgs: Seq<Message>) -> Seq<Seq<char>> {
    msgs.map_values(|m: Message| m.author_id@)
}

/// The graph's users: distinct authors in order of first appearance.
pub open spec fn graph_users(msgs: Seq<Message>) -> Seq<Seq<char>> {
    dedup(author_seq(msgs))
}

/// Number of messages of `msgs` written by `uid`.
pub open spec fn authored(msgs: Seq<Message>, uid: Seq<char>) -> nat
    decreases msgs.len(),
{
    if msgs.len() == 0 {
        0
    } else {
        authored(msgs.drop_last(), uid) + if msgs.last().author_id@ == uid {
            1nat
        } else {
            0nat
        }
    }
}

/// Author of the last message of `msgs` in channel `ch` with id `id`.
pub open spec fn root_author(msgs: Seq<Message>, ch: Seq<char>, id: Seq<char>) -> Option<Seq<char>>
    decreases msgs.len(),
{
    if msgs.len() == 0 {
        None
    } else if msgs.last().channel_id@ == ch && msgs.last().id@ == id {
        Some(msgs.last().author_id@)
    } else {
        root_author(msgs.drop_last(), ch, id)
    }
}

/// The `(replier, root author)` pair that `m` contributes: `m` is a reply
/// (its root id differs from its own id), the root is among `msgs` and was
/// written by someone else.
pub open spec fn reply_pair(msgs: Seq<Message>, m: Message) -> Option<(Seq<char>, Seq<char>)> {
    match m.thread_root_id {
        Some(r) => if r@ == m.id@ {
            None
        } else {
            match root_author(msgs, m.channel_id@, r@) {
                Some(a) => if a == m.author_id@ {
                    None
                } else {
                    Some((m.author_id@, a))
                },
                None => None,
            }
        },
        None => None,
    }
}

/// Reply pairs of the first `n` messages, in message order.
pub open spec fn reply_pairs(msgs: Seq<Message>, n: int) -> Seq<(Seq<char>, Seq<char>)>
    decreases n,
{
    if n <= 0 {
        seq![]
    } else {
        let r = reply_pairs(msgs, n - 1);
        match reply_pair(msgs, msgs[n - 1]) {
            Some(p) => r.push(p),
            None => r,
        }
    }
}

pub open spec fn user_ids(nodes: Seq<UserNode>) -> Seq<Seq<char>> {
    nodes.map_values(|u: UserNode| u.user_id@)
}

pub open spec fn edge_pairs(edges: Seq<ReplyEdge>) -> Seq<(int, int)> {
    edges.map_values(|e: ReplyEdge| (e.from as int, e.to as int))
}

/// Directed graph of reply interactions.
pub struct ReplyGraph {
    nodes: Vec<UserNode>,
    edges: Vec<ReplyEdge>,
}

impl ReplyGraph {
    #[verifier::type_invariant]
    spec fn wf(self) -> bool {
        &&& self.nodes.len() < u32::MAX
        &&& self.edges.len() < u32::MAX
        &&& forall|k: int|
            0 <= k < self.edges.len() ==> (#[trigger] self.edges@[k]).from < self.nodes.len()
                && self.edges@[k].to < self.nodes.len()
    }

    pub closed spec fn node_seq(&self) -> Seq<UserNode> {
        self.nodes@
    }

    pub closed spec fn edge_seq(&self) -> Seq<ReplyEdge> {
        self.edges@
    }

    /// The graph is the reply graph of `msgs`, with roles from `roles`.
    pub open spec fn built_from(&self, msgs: Seq<Message>, roles: Seq<RoleEntry>) -> bool {
        let users = graph_users(msgs);
        let pairs = reply_pairs(msgs, msgs.len() as int);
        let ep = dedup(pairs);
        let nodes = self.node_seq();
        let edges = self.edge_seq();
        &&& user_ids(nodes) == users
        &&& forall|i: int|
            0 <= i < nodes.len() ==> (#[trigger] nodes[i]).role == role_lookup(roles, users[i])
                && nodes[i].message_count == authored(msgs, users[i])
        &&& edges.len() == ep.len()
        &&& forall|k: int|
            0 <= k < edges.len() ==> {
                let e = #[trigger] edges[k];
                &&& e.from < nodes.len()
                &&& e.to < nodes.len()
                &&& (users[e.from as int], users[e.to as int]) == ep[k]
                &&& e.weight.reply_count == occurrences(pairs, ep[k])
                &&& e.weight.reaction_count == 0
            }
    }

    /// Build the reply graph from an already period/channel-filtered slice.
    ///
    /// A message is a *reply* iff `thread_root_id.is_some()` and
    /// `thread_root_id != Some(self.id)`. Its parent author is resolved from
    /// the thread-root message (`id == thread_root_id` in the same channel)
    /// within `messages`; if the root is not present in the slice the edge is
    /// skipped. Self-edges are skipped.
    pub fn build(messages: &[Message], cfg: &CommConfig) -> (g: Self)
        requires
            messages.len() < u32::MAX,
        ensures
            g.built_from(messages@, cfg.roles@),
    {
        let ghost msgs = messages@;
        let ghost authors = author_seq(msgs);
        let ids = distinct_authors(messages);
        let mut nodes: Vec<UserNode> = Vec::new();
        let mut i: usize = 0;
        while i < ids.len()
            invariant
                i <= ids.len(),
                msgs == messages@,
                nodes@.len() == i,
                forall|q: int|
                    0 <= q < i ==> (#[trigger] nodes@[q]).user_id@ == ids@[q]@ && nodes@[q].role
                        == role_lookup(cfg.roles@, ids@[q]@) && nodes@[q].message_count == authored(
                        msgs,
                        ids@[q]@,
                    ),
            decreases ids.len() - i,
        {
            let a = ids[i].as_str();
            let role = cfg.role_for(a);
            let count = count_authored(messages, a);
            nodes.push(UserNode { user_id: ids[i].clone(), role, message_count: count });
            i = i + 1;
        }
        assert(user_ids(nodes@) =~= views(ids@));
        proof {
            lemma_dedup_distinct(authors);
        }
        let ghost users = user_ids(nodes@);
        assert(users == graph_users(msgs));
        assert(nodes.len() <= messages.len()) by {
            assert(users.len() == nodes.len());
        }
        let mut edges: Vec<ReplyEdge> = Vec::new();
        let mut k: usize = 0;
        while k < messages.len()
            invariant
                k <= messages.len(),
                messages.len() < u32::MAX,
                msgs == messages@,
                authors == author_seq(msgs),
                users == user_ids(nodes@),
                users == dedup(authors),
                users.no_duplicates(),
                nodes.len() <= messages.len(),
                edges.len() == dedup(reply_pairs(msgs, k as int)).len(),
                edges.len() <= k,
                forall|j: int|
                    0 <= j < edges.len() ==> {
                        let e = #[trigger] edges@[j];
                        &&& e.from < nodes.len()
                        &&& e.to < nodes.len()
                        &&& (users[e.from as int], users[e.to as int]) == dedup(
                            reply_pairs(msgs, k as int),
                        )[j]
                        &&& e.weight.reply_count == occurrences(
                            reply_pairs(msgs, k as int),
                            dedup(reply_pairs(msgs, k as int))[j],
                        )
                        &&& e.weight.reaction_count == 0
                    },
            decreases messages.len() - k,
        {
            let ghost prev = reply_pairs(msgs, k as int);
            let ghost ep = dedup(prev);
            proof {
                lemma_dedup_distinct(prev);
                lemma_reply_pairs_len(msgs, k as int);
            }
            let p = reply_pair_exec(messages, k);
            match p {
                Some((ri, rj)) => {
                    let ghost pair = (msgs[ri as int].author_id@, msgs[rj as int].author_id@);
                    assert(reply_pairs(msgs, k + 1) == prev.push(pair));
                    let from = node_of(&nodes, messages[ri].author_id.as_str(), Ghost(authors), ri);
                    let to = node_of(&nodes, messages[rj].author_id.as_str(), Ghost(authors), rj);
                    let ghost cur = reply_pairs(msgs, k + 1);
                    match find_edge(&edges, from, to) {
                        Some(e) => {
                            assert(cur.drop_last() =~= prev);
                            assert(users[from as int] == pair.0);
                            assert(users[to as int] == pair.1);
                            assert(edges@[e as int].from == from && edges@[e as int].to == to);
                            assert((users[edges@[e as int].from as int], users[edges@[e
                                as int].to as int]) == ep[e as int]);
                            assert(ep[e as int] == pair);
                            assert(ep.contains(pair));
                            assert(dedup(cur) == ep);
                            proof {
                                lemma_occurrences_le(prev, pair);
                            }
                            let mut ed = edges[e];
                            ed.weight.reply_count = ed.weight.reply_count + 1;
                            edges.set(e, ed);
                            assert forall|j: int| 0 <= j < edges.len() implies occurrences(
                                cur,
                                ep[j],
                            ) == (#[trigger] edges@[j]).weight.reply_count by {
                                assert(cur.drop_last() == prev);
                                if j != e {
                                    assert(ep[j] != ep[e as int]);
                                }
                            }
                        },
                        None => {
                            assert(!ep.contains(pair)) by {
                                if ep.contains(pair) {
                                    let j = choose|j: int| 0 <= j < ep.len() && ep[j] == pair;
                                    let ej = edges@[j];
                                    assert(users[ej.from as int] == users[from as int]);
                                    assert(users[ej.to as int] == users[to as int]);
                                }
                            }
                            assert(cur.drop_last() =~= prev);
                            assert(dedup(cur) == ep.push(pair));
                            proof {
                                lemma_dedup_contains(prev, pair);
                                lemma_occurrences_absent(prev, pair);
                            }
                            edges.push(
                                ReplyEdge {
                                    from,
                                    to,
                                    weight: EdgeWeight { reply_count: 1, reaction_count: 0 },
                                },
                            );
                            assert forall|j: int| 0 <= j < edges.len() implies occurrences(
                                cur,
                                ep.push(pair)[j],
                            ) == (#[trigger] edges@[j]).weight.reply_count by {
                                assert(cur.drop_last() == prev);
                                if j < ep.len() {
                                    assert(ep.push(pair)[j] == ep[j]);
                                    assert(ep[j] != pair);
                                }
                            }
                        },
                    }
                },
                None => {
                    assert(reply_pairs(msgs, k + 1) == prev);
                },
            }
            k = k + 1;
        }
        ReplyGraph { nodes, edges }
    }

    /// Number of user nodes.
    pub fn node_count(&self) -> (r: usize)
        ensures
            r == self.node_seq().len(),
    {
        self.nodes.len()
    }

    /// The user nodes, in order of first appearance.
    pub fn nodes(&self) -> (r: &Vec<UserNode>)
        ensures
            r@ == self.node_seq(),
    {
        &self.nodes
    }

    /// The edges, in order of first reply.
    pub fn edges(&self) -> (r: &Vec<ReplyEdge>)
        ensures
            r@ == self.edge_seq(),
    {
        &self.edges
    }

    /// Role of a user node, if present.
    pub fn node_role(&self, user_id: &str) -> (r: Option<Role>)
        ensures
            r == node_role_of(self.node_seq(), user_id@),
    {
        let mut k: usize = 0;
        assert(self.nodes@.skip(0) =~= self.nodes@);
        while k < self.nodes.len()
            invariant
                k <= self.nodes.len(),
                node_role_of(self.nodes@, user_id@) == node_role_of(
                    self.nodes@.skip(k as int),
                    user_id@,
                ),
            decreases self.nodes.len() - k,
        {
            assert(self.nodes@.skip(k as int).drop_first() =~= self.nodes@.skip(k + 1));
            if str_eq(self.nodes[k].user_id.as_str(), user_id) {
                return Some(self.nodes[k].role);
            }
            k = k + 1;
        }
        None
    }

    /// Total reply weight arriving at (`incoming`) or leaving each user, in
    /// node order.
    pub fn degree_weights(&self, incoming: bool) -> (r: Vec<(String, u64)>)
        ensures
            r@.len() == self.node_seq().len(),
            forall|i: int|
                0 <= i < r@.len() ==> (#[trigger] r@[i]).0@ == self.node_seq()[i].user_id@
                    && r@[i].1 == degree_weight(self.edge_seq(), i, incoming, self.edge_seq().len() as int),
    {
        proof {
            use_type_invariant(self);
        }
        let mut r: Vec<(String, u64)> = Vec::new();
        let mut i: usize = 0;
        while i < self.nodes.len()
            invariant
                i <= self.nodes.len(),
                self.edges.len() < u32::MAX,
                r@.len() == i,
                forall|q: int|
                    0 <= q < i ==> (#[trigger] r@[q]).0@ == self.nodes@[q].user_id@ && r@[q].1
                        == degree_weight(self.edges@, q, incoming, self.edges@.len() as int),
            decreases self.nodes.len() - i,
        {
            let mut total: u64 = 0;
            let mut k: usize = 0;
            while k < self.edges.len()
                invariant
                    k <= self.edges.len(),
                    self.edges.len() < u32::MAX,
                    total == degree_weight(self.edges@, i as int, incoming, k as int),
                    total <= k * 0xFFFF_FFFF,
                decreases self.edges.len() - k,
            {
                let e = self.edges[k];
                let end = if incoming {
                    e.to
                } else {
                    e.from
                };
                if end == i {
                    total = total + e.weight.reply_count as u64;
                }
                k = k + 1;
            }
            r.push((self.nodes[i].user_id.clone(), total));
            i = i + 1;
        }
        r
    }

    /// Users on no reply cycle, and all users.
    pub open spec fn hierarchy_spec(&self) -> (nat, nat) {
        let n = self.node_seq().len();
        ((n - count_on_cycle(n as int, edge_pairs(self.edge_seq()), n as int)) as nat, n)
    }

    /// The hierarchy score as the fraction `(nodes on no cycle, nodes)`:
    /// `1` (all nodes) for a purely hierarchical graph, lower when users
    /// reply to each other in cycles; `(0, 0)` for an empty graph, whose
    /// score is 0.
    pub fn hierarchy_score(&self) -> (r: (usize, usize))
        ensures
            r.0 == self.hierarchy_spec().0,
            r.1 == self.hierarchy_spec().1,
    {
        proof {
            use_type_invariant(self);
        }
        let n = self.nodes.len();
        let mut pairs: Vec<(usize, usize)> = Vec::new();
        let mut k: usize = 0;
        while k < self.edges.len()
            invariant
                k <= self.edges.len(),
                n == self.nodes.len(),
                forall|j: int|
                    0 <= j < self.edges.len() ==> (#[trigger] self.edges@[j]).from < n
                        && self.edges@[j].to < n,
                pairs@.len() == k,
                forall|j: int|
                    0 <= j < k ==> (#[trigger] pairs@[j]).0 == self.edges@[j].from && pairs@[j].1
                        == self.edges@[j].to,
            decreases self.edges.len() - k,
        {
            pairs.push((self.edges[k].from, self.edges[k].to));
            k = k + 1;
        }
        assert(int_pairs(pairs@) =~= edge_pairs(self.edges@));
        let cyclic = cyclic_node_count(n, &pairs);
        proof {
            lemma_count_on_cycle_le(n as int, int_pairs(pairs@), n as int);
        }
        (n - cyclic, n)
    }

    /// Sum of incoming reply weight per user, sorted by descending weight
    /// (ties keep node order).
    pub fn replies_received(&self) -> (r: Vec<(String, u64)>)
        ensures
            pair_views(r@) == sort_by(received_list(self), weight_desc()),
    {
        let w = self.degree_weights(true);
        let ghost l = received_list(self);
        assert(pair_views(w@) =~= l);
        sort_pairs_desc(&w)
    }
}

/// Sum of the reply counts of the first `n` edges ending at (`incoming`) or
/// starting from node `i`.
pub open spec fn degree_weight(edges: Seq<ReplyEdge>, i: int, incoming: bool, n: int) -> nat
    decreases n,
{
    if n <= 0 {
        0
    } else {
        let e = edges[n - 1];
        let end = if incoming {
            e.to as int
        } else {
            e.from as int
        };
        degree_weight(edges, i, incoming, n - 1) + if end == i {
            e.weight.reply_count as nat
        } else {
            0nat
        }
    }
}

/// Role of the first node named `uid`.
pub open spec fn node_role_of(nodes: Seq<UserNode>, uid: Seq<char>) -> Option<Role>
    decreases nodes.len(),
{
    if nodes.len() == 0 {
        None
    } else if nodes[0].user_id@ == uid {
        Some(nodes[0].role)
    } else {
        node_role_of(nodes.drop_first(), uid)
    }
}

pub open spec fn pair_views(v: Seq<(String, u64)>) -> Seq<(Seq<char>, int)> {
    v.map_values(|p: (String, u64)| (p.0@, p.1 as int))
}

/// `(user, incoming weight)` per node, in node order.
pub open spec fn received_list(g: &ReplyGraph) -> Seq<(Seq<char>, int)> {
    Seq::new(
        g.node_seq().len(),
        |i: int|
            (
                g.node_seq()[i].user_id@,
                degree_weight(g.edge_seq(), i, true, g.edge_seq().len() as int) as int,
            ),
    )
}

/// Descending order of weights, as a value.
pub open spec fn weight_desc() -> spec_fn((Seq<char>, int), (Seq<char>, int)) -> bool {
    |a: (Seq<char>, int), b: (Seq<char>, int)| a.1 > b.1
}

/// Stable sort of `v` by descending weight.
fn sort_pairs_desc(v: &Vec<(String, u64)>) -> (r: Vec<(String, u64)>)
    ensures
        pair_views(r@) == sort_by(pair_views(v@), weight_desc()),
{
    let mut r: Vec<(String, u64)> = Vec::new();
    let mut k: usize = 0;
    while k < v.len()
        invariant
            k <= v.len(),
            pair_views(r@) == sort_by(pair_views(v@).take(k as int), weight_desc()),
        decreases v.len() - k,
    {
        let x = (v[k].0.clone(), v[k].1);
        let mut p = r.len();
        while p > 0 && r[p - 1].1 < x.1
            invariant
                p <= r.len(),
                forall|j: int| p <= j < r.len() ==> (#[trigger] r@[j]).1 < x.1,
            decreases p,
        {
            p = p - 1;
        }
        let ghost xv = (x.0@, x.1 as int);
        proof {
            let rv = pair_views(r@);
            assert forall|j: int| p <= j < rv.len() implies weight_desc()(xv, #[trigger] rv[j]) by {
                assert(rv[j].1 == r@[j].1);
            }
            if p > 0 {
                assert(rv[p - 1].1 == r@[p - 1].1);
            }
            lemma_insert_by_at(rv, xv, weight_desc(), p as int);
            assert(pair_views(v@).take(k + 1).drop_last() =~= pair_views(v@).take(k as int));
            assert(pair_views(v@).take(k + 1).last() == xv);
        }
        let ghost before = r@;
        r.insert(p, x);
        assert(pair_views(r@) =~= pair_views(before).subrange(0, p as int).push(xv) + pair_views(
            before,
        ).subrange(p as int, before.len() as int));
        k = k + 1;
    }
    assert(pair_views(v@).take(v.len() as int) =~= pair_views(v@));
    r
}

proof fn lemma_reply_pairs_len(msgs: Seq<Message>, n: int)
    ensures
        reply_pairs(msgs, n).len() <= if n < 0 {
            0
        } else {
            n
        },
    decreases n,
{
    if n > 0 {
        lemma_reply_pairs_len(msgs, n - 1);
    }
}

proof fn lemma_occurrences_absent<A>(s: Seq<A>, x: A)
    requires
        !s.contains(x),
    ensures
        occurrences(s, x) == 0,
    decreases s.len(),
{
    if s.len() > 0 {
        assert(!s.drop_last().contains(x)) by {
            if s.drop_last().contains(x) {
                let i = choose|i: int| 0 <= i < s.len() - 1 && s.drop_last()[i] == x;
                assert(s[i] == x);
            }
        }
        lemma_occurrences_absent(s.drop_last(), x);
    }
}

/// The distinct authors of `messages`, in order of first appearance.
pub fn distinct_authors(messages: &[Message]) -> (r: Vec<String>)
    ensures
        views(r@) == graph_users(messages@),
{
    let ghost authors = author_seq(messages@);
    let mut r: Vec<String> = Vec::new();
    let mut k: usize = 0;
    while k < messages.len()
        invariant
            k <= messages.len(),
            authors == author_seq(messages@),
            views(r@) == dedup(authors.take(k as int)),
        decreases messages.len() - k,
    {
        let a = messages[k].author_id.as_str();
        proof {
            assert(authors.take(k + 1).drop_last() =~= authors.take(k as int));
            assert(authors.take(k + 1).last() == a@);
        }
        if !contains_string(&r, a) {
            let ghost before = r@;
            r.push(owned(a));
            assert(views(r@) =~= views(before).push(a@));
        }
        k = k + 1;
    }
    assert(authors.take(messages.len() as int) =~= authors);
    r
}

/// Whether `views(v@)` contains `x@`.
pub fn contains_string(v: &Vec<String>, x: &str) -> (r: bool)
    ensures
        r == views(v@).contains(x@),
{
    let mut k: usize = 0;
    while k < v.len()
        invariant
            k <= v.len(),
            forall|i: int| 0 <= i < k ==> v@[i]@ != x@,
        decreases v.len() - k,
    {
        if str_eq(v[k].as_str(), x) {
            assert(views(v@)[k as int] == x@);
            return true;
        }
        k = k + 1;
    }
    assert forall|i: int| 0 <= i < views(v@).len() implies views(v@)[i] != x@ by {
        assert(views(v@)[i] == v@[i]@);
    }
    false
}

/// Number of messages written by `uid`.
pub fn count_authored(messages: &[Message], uid: &str) -> (r: usize)
    ensures
        r == authored(messages@, uid@),
{
    let mut c: usize = 0;
    let mut k: usize = 0;
    while k < messages.len()
        invariant
            k <= messages.len(),
            c == authored(messages@.take(k as int), uid@),
            c <= k,
        decreases messages.len() - k,
    {
        assert(messages@.take(k + 1).drop_last() =~= messages@.take(k as int));
        if str_eq(messages[k].author_id.as_str(), uid) {
            c = c + 1;
        }
        k = k + 1;
    }
    assert(messages@.take(messages.len() as int) =~= messages@);
    c
}

/// Position of the node named `uid`, if any.
fn find_node(nodes: &Vec<UserNode>, uid: &str) -> (r: Option<usize>)
    ensures
        r matches Some(i) ==> i < nodes.len() && nodes@[i as int].user_id@ == uid@,
        r is None ==> !user_ids(nodes@).contains(uid@),
{
    let mut k: usize = 0;
    while k < nodes.len()
        invariant
            k <= nodes.len(),
            forall|i: int| 0 <= i < k ==> nodes@[i].user_id@ != uid@,
        decreases nodes.len() - k,
    {
        if str_eq(nodes[k].user_id.as_str(), uid) {
            return Some(k);
        }
        k = k + 1;
    }
    assert forall|i: int| 0 <= i < user_ids(nodes@).len() implies user_ids(nodes@)[i] != uid@ by {
        assert(user_ids(nodes@)[i] == nodes@[i].user_id@);
    }
    None
}

/// Position of the author of message `j` among the nodes (which hold every
/// author).
fn node_of(nodes: &Vec<UserNode>, uid: &str, Ghost(authors): Ghost<Seq<Seq<char>>>, j: usize) -> (r:
    usize)
    requires
        user_ids(nodes@) == dedup(authors),
        j < authors.len(),
        authors[j as int] == uid@,
    ensures
        r < nodes.len(),
        user_ids(nodes@)[r as int] == uid@,
{
    proof {
        assert(authors.contains(uid@));
        lemma_dedup_contains(authors, uid@);
    }
    match find_node(nodes, uid) {
        Some(i) => i,
        None => {
            assert(false);
            0
        },
    }
}

/// Position of the edge `from -> to`, if any.
fn find_edge(edges: &Vec<ReplyEdge>, from: usize, to: usize) -> (r: Option<usize>)
    ensures
        r matches Some(e) ==> e < edges.len() && edges@[e as int].from == from && edges@[e
            as int].to == to,
        r is None ==> forall|j: int|
            0 <= j < edges.len() ==> !((#[trigger] edges@[j]).from == from && edges@[j].to == to),
{
    let mut k: usize = 0;
    while k < edges.len()
        invariant
            k <= edges.len(),
            forall|j: int| 0 <= j < k ==> !((#[trigger] edges@[j]).from == from && edges@[j].to == to),
        decreases edges.len() - k,
    {
        if edges[k].from == from && edges[k].to == to {
            return Some(k);
        }
        k = k + 1;
    }
    None
}

/// Position of the last message in channel `ch` with id `id`.
pub fn root_message(messages: &[Message], ch: &str, id: &str) -> (r: Option<usize>)
    ensures
        r matches Some(j) ==> j < messages.len() && root_author(messages@, ch@, id@) == Some(
            messages@[j as int].author_id@,
        ),
        r is None ==> root_author(messages@, ch@, id@) is None,
{
    let mut k = messages.len();
    assert(messages@.take(messages.len() as int) =~= messages@);
    while k > 0
        invariant
            k <= messages.len(),
            root_author(messages@, ch@, id@) == root_author(messages@.take(k as int), ch@, id@),
        decreases k,
    {
        assert(messages@.take(k as int).drop_last() =~= messages@.take(k - 1));
        assert(messages@.take(k as int).last() == messages@[k - 1]);
        if str_eq(messages[k - 1].channel_id.as_str(), ch) && str_eq(messages[k - 1].id.as_str(), id) {
            return Some(k - 1);
        }
        k = k - 1;
    }
    None
}

/// The reply pair of message `k`, as the positions of the reply and of its
/// root message.
fn reply_pair_exec(messages: &[Message], k: usize) -> (r: Option<(usize, usize)>)
    requires
        k < messages.len(),
    ensures
        r matches Some((i, j)) ==> i < messages.len() && j < messages.len() && reply_pair(
            messages@,
            messages@[k as int],
        ) == Some((messages@[i as int].author_id@, messages@[j as int].author_id@)),
        r is None ==> reply_pair(messages@, messages@[k as int]) is None,
{
    let m = &messages[k];
    match &m.thread_root_id {
        Some(root) => {
            if str_eq(root.as_str(), m.id.as_str()) {
                None
            } else {
                match root_message(messages, m.channel_id.as_str(), root.as_str()) {
                    Some(j) => {
                        if str_eq(messages[j].author_id.as_str(), m.author_id.as_str()) {
                            None
                        } else {
                            Some((k, j))
                        }
                    },
                    None => None,
                }
            }
        },
        None => None,
    }
}

/// Every edge joins two different users, and no ordered pair of users is
/// joined twice.
pub proof fn lemma_reply_graph_simple(g: &ReplyGraph, msgs: Seq<Message>, roles: Seq<RoleEntry>)
    requires
        g.built_from(msgs, roles),
    ensures
        forall|k: int|
            0 <= k < g.edge_seq().len() ==> (#[trigger] g.edge_seq()[k]).from != g.edge_seq()[k].to,
        forall|k: int, l: int|
            0 <= k < l < g.edge_seq().len() ==> !((#[trigger] g.edge_seq()[k]).from
                == (#[trigger] g.edge_seq()[l]).from && g.edge_seq()[k].to == g.edge_seq()[l].to),
{
    let pairs = reply_pairs(msgs, msgs.len() as int);
    let ep = dedup(pairs);
    lemma_dedup_distinct(pairs);
    assert forall|k: int| 0 <= k < g.edge_seq().len() implies (#[trigger] g.edge_seq()[k]).from
        != g.edge_seq()[k].to by {
        let e = g.edge_seq()[k];
        lemma_dedup_contains(pairs, ep[k]);
        assert(ep.contains(ep[k]));
        lemma_reply_pairs_distinct_ends(msgs, msgs.len() as int, ep[k]);
        assert(graph_users(msgs)[e.from as int] != graph_users(msgs)[e.to as int]);
    }
    assert forall|k: int, l: int|
        0 <= k < l < g.edge_seq().len() implies !((#[trigger] g.edge_seq()[k]).from
        == (#[trigger] g.edge_seq()[l]).from && g.edge_seq()[k].to == g.edge_seq()[l].to) by {
        if g.edge_seq()[k].from == g.edge_seq()[l].from && g.edge_seq()[k].to == g.edge_seq()[l].to {
            assert(ep[k] == ep[l]);
        }
    }
}

proof fn lemma_count_on_cycle_le(n: int, edges: Seq<(int, int)>, k: int)
    ensures
        count_on_cycle(n, edges, k) <= if k < 0 {
            0
        } else {
            k
        },
    decreases k,
{
    if k > 0 {
        lemma_count_on_cycle_le(n, edges, k - 1);
    }
}

proof fn lemma_reply_pairs_distinct_ends(
    msgs: Seq<Message>,
    n: int,
    p: (Seq<char>, Seq<char>),
)
    requires
        reply_pairs(msgs, n).contains(p),
    ensures
        p.0 != p.1,
    decreases n,
{
    if n > 0 {
        let r = reply_pairs(msgs, n - 1);
        match reply_pair(msgs, msgs[n - 1]) {
            Some(q) => {
                if p != q {
                    let i = choose|i: int|
                        0 <= i < r.push(q).len() && r.push(q)[i] == p;
                    assert(i < r.len());
                    assert(r[i] == p);
                    lemma_reply_pairs_distinct_ends(msgs, n - 1, p);
                }
            },
            None => {
                lemma_reply_pairs_distinct_ends(msgs, n - 1, p);
            },
        }
    }
}

/// The hierarchy score lies in `[0, 1]`: the users on no cycle never
/// outnumber the users.
pub proof fn lemma_hierarchy_in_unit(g: &ReplyGraph)
    ensures
        g.hierarchy_spec().0 <= g.hierarchy_spec().1,
        g.hierarchy_spec().1 == g.node_seq().len(),
{
    let n = g.node_seq().len() as int;
    lemma_count_on_cycle_le(n, edge_pairs(g.edge_seq()), n);
}

/// With no user on a reply cycle, the score is 1 (every user is outside
/// a cycle).
pub proof fn lemma_hierarchy_without_cycles(g: &ReplyGraph)
    requires
        forall|u: int|
            0 <= u < g.node_seq().len() ==> !#[trigger] scc::on_cycle(
                g.node_seq().len() as int,
                edge_pairs(g.edge_seq()),
                u,
            ),
    ensures
        g.hierarchy_spec().0 == g.hierarchy_spec().1,
{
    let n = g.node_seq().len() as int;
    lemma_no_cycles_count(n, edge_pairs(g.edge_seq()), n);
}

proof fn lemma_no_cycles_count(n: int, edges: Seq<(int, int)>, k: int)
    requires
        k <= n,
        forall|u: int| 0 <= u < n ==> !#[trigger] scc::on_cycle(n, edges, u),
    ensures
        count_on_cycle(n, edges, k) == 0,
    decreases k,
{
    if k > 0 {
        lemma_no_cycles_count(n, edges, k - 1);
        assert(!scc::on_cycle(n, edges, k - 1));
    }
}

/// The replies-received ranking is sorted by descending weight: a user
/// never ranks below one who received fewer replies.
pub proof fn lemma_replies_received_sorted(g: &ReplyGraph)
    ensures
        sort_by(received_list(g), weight_desc()).len() == received_list(g).len(),
        forall|i: int, j: int|
            0 <= i < j < sort_by(received_list(g), weight_desc()).len() ==> (#[trigger] sort_by(
                received_list(g),
                weight_desc(),
            )[i]).1 >= (#[trigger] sort_by(received_list(g), weight_desc())[j]).1,
{
    assert(strict_weak_order(weight_desc()));
    lemma_sort_by_sorted(received_list(g), weight_desc());
    let r = sort_by(received_list(g), weight_desc());
    assert forall|i: int, j: int| 0 <= i < j < r.len() implies (#[trigger] r[i]).1 >= (
    #[trigger] r[j]).1 by {
        assert(!weight_desc()(r[j], r[i]));
    }
}

} // verus!
