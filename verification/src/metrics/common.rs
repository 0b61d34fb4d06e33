//! Role resolution, sorting and medians shared by the metrics.

use vstd::prelude::*;

use crate::config::{role_lookup, RoleEntry};
use crate::models::Role;
use crate::strings::str_eq;
use crate::types::{AnalysisInput, User};

verus! {

/// The first user record with id `uid`.
pub open spec fn first_user(users: Seq<User>, uid: Seq<char>) -> Option<User>
    decreases users.len(),
{
    if users.len() == 0 {
        None
    } else if users[0].id@ == uid {
        Some(users[0])
    } else {
        first_user(users.drop_first(), uid)
    }
}

/// The role of `uid`: the caller's user record when it names a known role,
/// otherwise the configured role mapping.
pub open spec fn resolved_role(users: Seq<User>, roles: Seq<RoleEntry>, uid: Seq<char>) -> Role {
    match first_user(users, uid) {
        Some(u) => if u.role != Role::Unknown {
            u.role
        } else {
            role_lookup(roles, uid)
        },
        None => role_lookup(roles, uid),
    }
}

pub open spec fn spec_is_managerial(r: Role) -> bool {
    r == Role::Manager || r == Role::Exec || r == Role::Lead
}

pub fn is_managerial(r: Role) -> (b: bool)
    ensures
        b == spec_is_managerial(r),
{
    match r {
        Role::Manager | Role::Exec | Role::Lead => true,
        _ => false,
    }
}

pub fn is_staff(r: Role) -> (b: bool)
    ensures
        b == (r == Role::Staff),
{
    match r {
        Role::Staff => true,
        _ => false,
    }
}

/// Resolve the role of `uid` from `input.users`, then `input.config`.
pub fn resolve_role(input: &AnalysisInput<'_>, uid: &str) -> (r: Role)
    ensures
        r == resolved_role(input.users@, input.config.roles@, uid@),
{
    let users = input.users;
    let mut k: usize = 0;
    assert(users@.subrange(0, users.len() as int) =~= users@);
    while k < users.len()
        invariant
            k <= users.len(),
            users@ == input.users@,
            first_user(users@, uid@) == first_user(
                users@.subrange(k as int, users.len() as int),
                uid@,
            ),
        decreases users.len() - k,
    {
        proof {
            let rest = users@.subrange(k as int, users.len() as int);
            assert(rest[0] == users@[k as int]);
            assert(rest.drop_first() =~= users@.subrange(k + 1, users.len() as int));
        }
        if str_eq(users[k].id.as_str(), uid) {
            assert(first_user(users@, uid@) == Some(users@[k as int]));
            if users[k].role != Role::Unknown {
                return users[k].role;
            }
            return input.config.role_for(uid);
        }
        k = k + 1;
    }
    input.config.role_for(uid)
}

/// `x` inserted into `s` after every element not greater than it.
pub open spec fn insert_sorted(s: Seq<i128>, x: i128) -> Seq<i128>
    decreases s.len(),
{
    if s.len() == 0 {
        seq![x]
    } else if s.last() <= x {
        s.push(x)
    } else {
        insert_sorted(s.drop_last(), x).push(s.last())
    }
}

/// `s` sorted ascending.
pub open spec fn sorted_values(s: Seq<i128>) -> Seq<i128>
    decreases s.len(),
{
    if s.len() == 0 {
        seq![]
    } else {
        insert_sorted(sorted_values(s.drop_last()), s.last())
    }
}

/// Twice the median of `s` (the sum of the two middle values for an even
/// count, twice the middle value for an odd one, 0 when empty).
pub open spec fn median_doubled_of(s: Seq<i128>) -> int {
    let t = sorted_values(s);
    let n = t.len();
    if n == 0 {
        0
    } else if n % 2 == 1 {
        2 * t[(n / 2) as int]
    } else {
        t[(n / 2 - 1) as int] + t[(n / 2) as int]
    }
}

pub proof fn lemma_insert_sorted_len(s: Seq<i128>, x: i128)
    ensures
        insert_sorted(s, x).len() == s.len() + 1,
    decreases s.len(),
{
    if s.len() > 0 && s.last() > x {
        lemma_insert_sorted_len(s.drop_last(), x);
    }
}

proof fn lemma_insert_sorted_at(s: Seq<i128>, x: i128, p: int)
    requires
        0 <= p <= s.len(),
        forall|j: int| p <= j < s.len() ==> #[trigger] s[j] > x,
        p == 0 || s[p - 1] <= x,
    ensures
        insert_sorted(s, x) == s.subrange(0, p).push(x) + s.subrange(p, s.len() as int),
    decreases s.len() - p,
{
    if p == s.len() {
        if s.len() > 0 {
            assert(s.last() == s[p - 1]);
        }
        assert(s.subrange(0, p) =~= s);
        assert(s.push(x) + s.subrange(p, s.len() as int) =~= s.push(x));
    } else {
        let t = s.drop_last();
        assert(s.last() == s[s.len() - 1]);
        assert forall|j: int| p <= j < t.len() implies #[trigger] t[j] > x by {
            assert(t[j] == s[j]);
        }
        if p > 0 {
            assert(t[p - 1] == s[p - 1]);
        }
        lemma_insert_sorted_at(t, x, p);
        assert((t.subrange(0, p).push(x) + t.subrange(p, t.len() as int)).push(s.last())
            =~= s.subrange(0, p).push(x) + s.subrange(p, s.len() as int));
    }
}

/// Ascending copy of `v` (stable insertion sort).
pub fn sort_values(v: &Vec<i128>) -> (r: Vec<i128>)
    ensures
        r@ == sorted_values(v@),
{
    let mut r: Vec<i128> = Vec::new();
    let mut k: usize = 0;
    while k < v.len()
        invariant
            k <= v.len(),
            r@ == sorted_values(v@.take(k as int)),
        decreases v.len() - k,
    {
        let x = v[k];
        let mut p = r.len();
        while p > 0 && r[p - 1] > x
            invariant
                p <= r.len(),
                forall|j: int| p <= j < r.len() ==> #[trigger] r@[j] > x,
            decreases p,
        {
            p = p - 1;
        }
        proof {
            lemma_insert_sorted_at(r@, x, p as int);
            assert(v@.take(k + 1).drop_last() =~= v@.take(k as int));
            assert(v@.take(k + 1).last() == x);
        }
        let ghost before = r@;
        r.insert(p, x);
        assert(r@ =~= before.subrange(0, p as int).push(x) + before.subrange(
            p as int,
            before.len() as int,
        ));
        k = k + 1;
    }
    assert(v@.take(v.len() as int) =~= v@);
    r
}

proof fn lemma_sorted_values_len(s: Seq<i128>)
    ensures
        sorted_values(s).len() == s.len(),
    decreases s.len(),
{
    if s.len() > 0 {
        lemma_sorted_values_len(s.drop_last());
        lemma_insert_sorted_len(sorted_values(s.drop_last()), s.last());
    }
}

/// Twice the median of `v`; every value lies in `[lo, hi]`.
pub fn median_doubled(v: &Vec<i128>, lo: i128, hi: i128) -> (r: i128)
    requires
        forall|i: int| 0 <= i < v.len() ==> lo <= #[trigger] v@[i] <= hi,
        -0x1000_0000_0000_0000_0000_0000_0000 <= lo,
        hi <= 0x1000_0000_0000_0000_0000_0000_0000,
    ensures
        r == median_doubled_of(v@),
{
    let t = sort_values(v);
    proof {
        lemma_sorted_values_len(v@);
        lemma_sorted_values_bounds(v@, lo, hi);
    }
    let n = t.len();
    if n == 0 {
        0
    } else if n % 2 == 1 {
        2 * t[n / 2]
    } else {
        t[n / 2 - 1] + t[n / 2]
    }
}

proof fn lemma_insert_sorted_bounds(s: Seq<i128>, x: i128, lo: i128, hi: i128)
    requires
        forall|i: int| 0 <= i < s.len() ==> lo <= #[trigger] s[i] <= hi,
        lo <= x <= hi,
    ensures
        forall|i: int|
            0 <= i < insert_sorted(s, x).len() ==> lo <= #[trigger] insert_sorted(s, x)[i] <= hi,
    decreases s.len(),
{
    let r = insert_sorted(s, x);
    if s.len() == 0 {
        assert(r =~= seq![x]);
    } else if s.last() <= x {
        assert(r =~= s.push(x));
        assert forall|i: int| 0 <= i < r.len() implies lo <= #[trigger] r[i] <= hi by {
            if i < s.len() {
                assert(r[i] == s[i]);
            }
        }
    } else {
        assert forall|i: int| 0 <= i < s.drop_last().len() implies lo <= #[trigger] s.drop_last()[i]
            <= hi by {
            assert(s.drop_last()[i] == s[i]);
        }
        lemma_insert_sorted_bounds(s.drop_last(), x, lo, hi);
        assert(lo <= s[s.len() - 1] <= hi);
        let q = insert_sorted(s.drop_last(), x);
        assert(r =~= q.push(s.last()));
        assert forall|i: int| 0 <= i < r.len() implies lo <= #[trigger] r[i] <= hi by {
            if i < q.len() {
                assert(r[i] == q[i]);
            }
        }
    }
}

proof fn lemma_sorted_values_bounds(s: Seq<i128>, lo: i128, hi: i128)
    requires
        forall|i: int| 0 <= i < s.len() ==> lo <= #[trigger] s[i] <= hi,
    ensures
        forall|i: int|
            0 <= i < sorted_values(s).len() ==> lo <= #[trigger] sorted_values(s)[i] <= hi,
    decreases s.len(),
{
    if s.len() > 0 {
        assert forall|i: int| 0 <= i < s.drop_last().len() implies lo <= #[trigger] s.drop_last()[i]
            <= hi by {
            assert(s.drop_last()[i] == s[i]);
        }
        lemma_sorted_values_bounds(s.drop_last(), lo, hi);
        assert(lo <= s[s.len() - 1] <= hi);
        lemma_insert_sorted_bounds(sorted_values(s.drop_last()), s.last(), lo, hi);
    }
}

proof fn lemma_first_user_source(users: Seq<User>, uid: Seq<char>)
    ensures
        first_user(users, uid) matches Some(u) ==> exists|i: int|
            0 <= i < users.len() && #[trigger] users[i] == u,
    decreases users.len(),
{
    if users.len() > 0 && users[0].id@ != uid {
        lemma_first_user_source(users.drop_first(), uid);
        if first_user(users, uid) is Some {
            let u = first_user(users, uid)->0;
            let i = choose|i: int| 0 <= i < users.drop_first().len() && #[trigger] users.drop_first()[i] == u;
            assert(users[i + 1] == u);
        }
    } else if users.len() > 0 {
        assert(users[0] == first_user(users, uid)->0);
    }
}

proof fn lemma_role_lookup_source(roles: Seq<RoleEntry>, uid: Seq<char>)
    ensures
        role_lookup(roles, uid) == Role::Unknown || exists|i: int|
            0 <= i < roles.len() && (#[trigger] roles[i]).role == role_lookup(roles, uid),
    decreases roles.len(),
{
    if roles.len() > 0 && roles[0].user_id@ != uid {
        lemma_role_lookup_source(roles.drop_first(), uid);
        if role_lookup(roles, uid) != Role::Unknown {
            let i = choose|i: int|
                0 <= i < roles.drop_first().len() && (#[trigger] roles.drop_first()[i]).role
                    == role_lookup(roles, uid);
            assert(roles[i + 1] == roles.drop_first()[i]);
        }
    } else if roles.len() > 0 {
        assert(roles[0].role == role_lookup(roles, uid));
    }
}

/// A resolved role other than `Unknown` is the role of some user record or
/// of some configured role entry: with neither naming a role, nobody
/// resolves to it.
pub proof fn lemma_resolved_role_source(users: Seq<User>, roles: Seq<RoleEntry>, uid: Seq<char>)
    ensures
        resolved_role(users, roles, uid) == Role::Unknown || (exists|i: int|
            0 <= i < users.len() && (#[trigger] users[i]).role == resolved_role(users, roles, uid))
            || (exists|i: int|
            0 <= i < roles.len() && (#[trigger] roles[i]).role == resolved_role(users, roles, uid)),
{
    lemma_first_user_source(users, uid);
    lemma_role_lookup_source(roles, uid);
    if first_user(users, uid) is Some {
        let u = first_user(users, uid)->0;
        let i = choose|i: int| 0 <= i < users.len() && #[trigger] users[i] == u;
        assert(users[i].role == u.role);
    }
}

} // verus!
