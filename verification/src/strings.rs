//! Character-level text helpers shared by the parsers and classifiers.
//!
//! Text is handled as a sequence of Unicode scalar values (`str@`).

use vstd::prelude::*;

verus! {

/// Unicode `White_Space` property (the set `char::is_whitespace` tests).
pub open spec fn is_white_space(c: char) -> bool {
    let u = c as u32;
    (0x09 <= u && u <= 0x0D) || u == 0x20 || u == 0x85 || u == 0xA0 || u == 0x1680
        || (0x2000 <= u && u <= 0x200A) || u == 0x2028 || u == 0x2029 || u == 0x202F
        || u == 0x205F || u == 0x3000
}

/// ASCII whitespace as `u8::is_ascii_whitespace` defines it (space, \t, \n, \x0C, \r).
pub open spec fn is_ascii_ws(c: char) -> bool {
    let u = c as u32;
    u == 0x20 || u == 0x09 || u == 0x0A || u == 0x0C || u == 0x0D
}

/// Map `A`..=`Z` to `a`..=`z`, leave every other char unchanged.
pub open spec fn ascii_lower_char(c: char) -> char {
    if 'A' <= c && c <= 'Z' {
        ((c as u32) + 32) as char
    } else {
        c
    }
}

/// Map `a`..=`z` to `A`..=`Z`, leave every other char unchanged.
pub open spec fn ascii_upper_char(c: char) -> char {
    if 'a' <= c && c <= 'z' {
        ((c as u32) - 32) as char
    } else {
        c
    }
}

pub open spec fn ascii_lower(s: Seq<char>) -> Seq<char> {
    s.map_values(|c: char| ascii_lower_char(c))
}

pub open spec fn ascii_upper(s: Seq<char>) -> Seq<char> {
    s.map_values(|c: char| ascii_upper_char(c))
}

/// `s` without its leading white space.
pub open spec fn trim_start(s: Seq<char>) -> Seq<char>
    decreases s.len(),
{
    if s.len() > 0 && is_white_space(s[0]) {
        trim_start(s.drop_first())
    } else {
        s
    }
}

/// `s` without its trailing white space.
pub open spec fn trim_end(s: Seq<char>) -> Seq<char>
    decreases s.len(),
{
    if s.len() > 0 && is_white_space(s.last()) {
        trim_end(s.drop_last())
    } else {
        s
    }
}

/// `s` without leading and trailing white space (`str::trim`).
pub open spec fn trim(s: Seq<char>) -> Seq<char> {
    trim_end(trim_start(s))
}

pub fn is_white_space_exec(c: char) -> (r: bool)
    ensures
        r == is_white_space(c),
{
    let u = c as u32;
    (0x09 <= u && u <= 0x0D) || u == 0x20 || u == 0x85 || u == 0xA0 || u == 0x1680 || (0x2000
        <= u && u <= 0x200A) || u == 0x2028 || u == 0x2029 || u == 0x202F || u == 0x205F || u
        == 0x3000
}

pub fn ascii_lower_char_exec(c: char) -> (r: char)
    ensures
        r == ascii_lower_char(c),
{
    if 'A' <= c && c <= 'Z' {
        let u = (c as u32) + 32;
        char_from_ascii_range(u)
    } else {
        c
    }
}

pub fn ascii_upper_char_exec(c: char) -> (r: char)
    ensures
        r == ascii_upper_char(c),
{
    if 'a' <= c && c <= 'z' {
        let u = (c as u32) - 32;
        char_from_ascii_range(u)
    } else {
        c
    }
}

/// The char with scalar value `u` (`u < 128`).
pub fn char_from_ascii_range(u: u32) -> (r: char)
    requires
        u < 128,
    ensures
        r == u as char,
        r as u32 == u,
{
    let b = u as u8;
    b as char
}

/// The chars of `s`, in order.
pub fn chars_of(s: &str) -> (v: Vec<char>)
    ensures
        v@ == s@,
{
    let mut v: Vec<char> = Vec::new();
    for c in it: s.chars()
        invariant
            v@ == it.seq().take(it.index() as int),
    {
        v.push(c);
    }
    v
}


proof fn lemma_trim_start_skip(s: Seq<char>, i: int)
    requires
        0 <= i <= s.len(),
        forall|k: int| 0 <= k < i ==> is_white_space(#[trigger] s[k]),
    ensures
        trim_start(s) == trim_start(s.subrange(i, s.len() as int)),
    decreases i,
{
    if i > 0 {
        assert(s.drop_first() =~= s.subrange(1, s.len() as int));
        lemma_trim_start_skip(s.drop_first(), i - 1);
        assert(s.drop_first().subrange(i - 1, s.drop_first().len() as int) =~= s.subrange(
            i,
            s.len() as int,
        ));
    } else {
        assert(s.subrange(0, s.len() as int) =~= s);
    }
}

proof fn lemma_trim_end_skip(s: Seq<char>, j: int)
    requires
        0 <= j <= s.len(),
        forall|k: int| j <= k < s.len() ==> is_white_space(#[trigger] s[k]),
    ensures
        trim_end(s) == trim_end(s.subrange(0, j)),
    decreases s.len() - j,
{
    if j < s.len() {
        assert(s.drop_last() =~= s.subrange(0, s.len() - 1));
        lemma_trim_end_skip(s.drop_last(), j);
        assert(s.drop_last().subrange(0, j) =~= s.subrange(0, j));
    } else {
        assert(s.subrange(0, j) =~= s);
    }
}

/// Bounds `(a, b)` such that `v@[a..b]` is `v@` trimmed of white space.
pub fn trim_bounds(v: &Vec<char>) -> (r: (usize, usize))
    ensures
        r.0 <= r.1 <= v.len(),
        v@.subrange(r.0 as int, r.1 as int) == trim(v@),
{
    let n = v.len();
    let mut i: usize = 0;
    while i < n && is_white_space_exec(v[i])
        invariant
            i <= n == v.len(),
            forall|k: int| 0 <= k < i ==> is_white_space(#[trigger] v@[k]),
        decreases n - i,
    {
        i = i + 1;
    }
    proof {
        lemma_trim_start_skip(v@, i as int);
    }
    let ghost t = v@.subrange(i as int, n as int);
    assert(trim_start(t) == t);
    let mut j: usize = n;
    while j > i && is_white_space_exec(v[j - 1])
        invariant
            i <= j <= n == v.len(),
            t == v@.subrange(i as int, n as int),
            forall|k: int| j <= k < n ==> is_white_space(#[trigger] v@[k]),
        decreases j,
    {
        j = j - 1;
    }
    proof {
        assert forall|k: int| (j - i) <= k < t.len() implies is_white_space(#[trigger] t[k]) by {
            assert(t[k] == v@[k + i]);
        }
        lemma_trim_end_skip(t, (j - i) as int);
        assert(t.subrange(0, (j - i) as int) =~= v@.subrange(i as int, j as int));
        let u = v@.subrange(i as int, j as int);
        if u.len() > 0 {
            assert(u.last() == v@[j - 1]);
        }
    }
    (i, j)
}

/// `ascii_lower(v@[a..b])` as a new vector.
pub fn lower_range(v: &Vec<char>, a: usize, b: usize) -> (r: Vec<char>)
    requires
        a <= b <= v.len(),
    ensures
        r@ == ascii_lower(v@.subrange(a as int, b as int)),
{
    let mut r: Vec<char> = Vec::new();
    let mut k = a;
    while k < b
        invariant
            a <= k <= b <= v.len(),
            r@ == ascii_lower(v@.subrange(a as int, k as int)),
        decreases b - k,
    {
        let c = ascii_lower_char_exec(v[k]);
        r.push(c);
        k = k + 1;
        proof {
            assert(ascii_lower(v@.subrange(a as int, k as int)) =~= ascii_lower(
                v@.subrange(a as int, (k - 1) as int),
            ).push(ascii_lower_char(v@[k - 1])));
        }
    }
    r
}

/// `ascii_lower(trim(s@))`: the key that lenient parsers compare.
pub fn lenient_key(s: &str) -> (r: Vec<char>)
    ensures
        r@ == ascii_lower(trim(s@)),
{
    let v = chars_of(s);
    let (a, b) = trim_bounds(&v);
    lower_range(&v, a, b)
}

/// Whether the chars of `v` spell out `s`.
pub fn chars_eq_str(v: &Vec<char>, s: &str) -> (r: bool)
    ensures
        r == (v@ == s@),
{
    let w = chars_of(s);
    chars_eq(v, &w)
}

/// Element-wise equality of two char vectors.
pub fn chars_eq(v: &Vec<char>, w: &Vec<char>) -> (r: bool)
    ensures
        r == (v@ == w@),
{
    if v.len() != w.len() {
        return false;
    }
    let mut k: usize = 0;
    while k < v.len()
        invariant
            k <= v.len() == w.len(),
            forall|i: int| 0 <= i < k ==> v@[i] == w@[i],
        decreases v.len() - k,
    {
        if v[k] != w[k] {
            return false;
        }
        k = k + 1;
    }
    assert(v@ =~= w@);
    true
}


/// An owned copy of `s`.
pub fn owned(s: &str) -> (r: String)
    ensures
        r@ == s@,
{
    s.to_string()
}

/// The views of a sequence of strings.
pub open spec fn views(v: Seq<String>) -> Seq<Seq<char>> {
    v.map_values(|s: String| s@)
}

/// Owned copies of a list of literals, in order.
pub fn owned_all(lits: &[&str]) -> (r: Vec<String>)
    ensures
        views(r@) == lits@.map_values(|s: &str| s@),
{
    let mut r: Vec<String> = Vec::new();
    let mut k: usize = 0;
    while k < lits.len()
        invariant
            k <= lits.len(),
            r@.len() == k,
            forall|i: int| 0 <= i < k ==> #[trigger] r@[i]@ == lits@[i]@,
        decreases lits.len() - k,
    {
        let x = owned(lits[k]);
        r.push(x);
        k = k + 1;
    }
    assert(views(r@) =~= lits@.map_values(|s: &str| s@));
    r
}

/// Equality of two string slices by their chars.
pub fn str_eq(a: &str, b: &str) -> (r: bool)
    ensures
        r == (a@ == b@),
{
    let v = chars_of(a);
    let w = chars_of(b);
    chars_eq(&v, &w)
}


/// Lexicographic order on char sequences (code point order; the same
/// order as the bytes of their UTF-8 encodings).
pub open spec fn seq_lt(a: Seq<char>, b: Seq<char>) -> bool
    decreases a.len(),
{
    if a.len() == 0 {
        b.len() > 0
    } else if b.len() == 0 {
        false
    } else if a[0] < b[0] {
        true
    } else if a[0] == b[0] {
        seq_lt(a.drop_first(), b.drop_first())
    } else {
        false
    }
}

pub proof fn lemma_seq_lt_irreflexive(a: Seq<char>)
    ensures
        !seq_lt(a, a),
    decreases a.len(),
{
    if a.len() > 0 {
        lemma_seq_lt_irreflexive(a.drop_first());
    }
}

pub proof fn lemma_seq_lt_transitive(a: Seq<char>, b: Seq<char>, c: Seq<char>)
    requires
        seq_lt(a, b),
        seq_lt(b, c),
    ensures
        seq_lt(a, c),
    decreases a.len(),
{
    if a.len() > 0 && b.len() > 0 && c.len() > 0 {
        if a[0] == b[0] && b[0] == c[0] {
            lemma_seq_lt_transitive(a.drop_first(), b.drop_first(), c.drop_first());
        }
    }
}

pub proof fn lemma_seq_lt_total(a: Seq<char>, b: Seq<char>)
    ensures
        a == b || seq_lt(a, b) || seq_lt(b, a),
    decreases a.len(),
{
    if a.len() > 0 && b.len() > 0 {
        if a[0] == b[0] {
            lemma_seq_lt_total(a.drop_first(), b.drop_first());
            if a.drop_first() == b.drop_first() {
                assert(a =~= seq![a[0]] + a.drop_first());
                assert(b =~= seq![b[0]] + b.drop_first());
            }
        }
    } else if a.len() == 0 && b.len() == 0 {
        assert(a =~= b);
    }
}

pub proof fn lemma_seq_lt_asymmetric(a: Seq<char>, b: Seq<char>)
    requires
        seq_lt(a, b),
    ensures
        !seq_lt(b, a),
{
    if seq_lt(b, a) {
        lemma_seq_lt_transitive(a, b, a);
        lemma_seq_lt_irreflexive(a);
    }
}

/// `seq_lt` on two char vectors.
pub fn chars_lt(a: &Vec<char>, b: &Vec<char>) -> (r: bool)
    ensures
        r == seq_lt(a@, b@),
{
    let mut k: usize = 0;
    assert(a@.skip(0) =~= a@ && b@.skip(0) =~= b@);
    while k < a.len() && k < b.len() && a[k] == b[k]
        invariant
            k <= a.len(),
            k <= b.len(),
            seq_lt(a@, b@) == seq_lt(a@.skip(k as int), b@.skip(k as int)),
        decreases a.len() - k,
    {
        proof {
            let x = a@.skip(k as int);
            let y = b@.skip(k as int);
            assert(x.drop_first() =~= a@.skip(k + 1));
            assert(y.drop_first() =~= b@.skip(k + 1));
        }
        k = k + 1;
    }
    let ghost x = a@.skip(k as int);
    let ghost y = b@.skip(k as int);
    if k == a.len() {
        assert(x.len() == 0);
        k < b.len()
    } else if k == b.len() {
        false
    } else {
        assert(x[0] == a@[k as int] && y[0] == b@[k as int]);
        a[k] < b[k]
    }
}

/// `seq_lt` on two string slices.
pub fn str_lt(a: &str, b: &str) -> (r: bool)
    ensures
        r == seq_lt(a@, b@),
{
    let v = chars_of(a);
    let w = chars_of(b);
    chars_lt(&v, &w)
}


/// `needle` occurs in `hay` starting at `i`.
pub open spec fn occurs_at(hay: Seq<char>, needle: Seq<char>, i: int) -> bool {
    0 <= i && i + needle.len() <= hay.len() && hay.subrange(i, i + needle.len()) == needle
}

/// `needle` occurs somewhere in `hay` (`str::contains` with a `&str`).
pub open spec fn seq_contains(hay: Seq<char>, needle: Seq<char>) -> bool {
    exists|i: int| #[trigger] occurs_at(hay, needle, i)
}

pub fn matches_at(hay: &Vec<char>, needle: &Vec<char>, i: usize) -> (r: bool)
    requires
        i + needle.len() <= hay.len(),
    ensures
        r == occurs_at(hay@, needle@, i as int),
{
    let mut j: usize = 0;
    while j < needle.len()
        invariant
            i + needle.len() <= hay.len(),
            j <= needle.len(),
            forall|q: int| 0 <= q < j ==> hay@[i + q] == needle@[q],
        decreases needle.len() - j,
    {
        if hay[i + j] != needle[j] {
            assert(hay@.subrange(i as int, i + needle.len())[j as int] != needle@[j as int]);
            return false;
        }
        j = j + 1;
    }
    assert(hay@.subrange(i as int, i + needle.len()) =~= needle@);
    true
}

/// Whether `needle` occurs in `hay`.
pub fn chars_contain(hay: &Vec<char>, needle: &Vec<char>) -> (r: bool)
    ensures
        r == seq_contains(hay@, needle@),
{
    if needle.len() > hay.len() {
        assert forall|i: int| !#[trigger] occurs_at(hay@, needle@, i) by {}
        return false;
    }
    if needle.len() == 0 {
        assert(hay@.subrange(0, 0) =~= needle@);
        assert(occurs_at(hay@, needle@, 0));
        return true;
    }
    let last = hay.len() - needle.len();
    let mut i: usize = 0;
    while i <= last
        invariant
            last == hay.len() - needle.len(),
            0 < needle.len() <= hay.len(),
            i <= last + 1,
            forall|q: int| 0 <= q < i ==> !#[trigger] occurs_at(hay@, needle@, q),
        decreases last + 1 - i,
    {
        if matches_at(hay, needle, i) {
            return true;
        }
        i = i + 1;
    }
    assert forall|q: int| !#[trigger] occurs_at(hay@, needle@, q) by {}
    false
}

/// `ascii_lower(v@)` as a new vector.
pub fn lower_all(v: &Vec<char>) -> (r: Vec<char>)
    ensures
        r@ == ascii_lower(v@),
{
    let r = lower_range(v, 0, v.len());
    assert(v@.subrange(0, v.len() as int) =~= v@);
    r
}


/// `String::push`: appends one char.
#[verifier::external_body]
fn push_char(s: &mut String, c: char)
    ensures
        final(s)@ == old(s)@.push(c),
{
    s.push(c);
}

/// A `String` holding the chars of `v`.
pub fn string_of(v: &Vec<char>) -> (r: String)
    ensures
        r@ == v@,
{
    let mut r = String::new();
    let mut k: usize = 0;
    while k < v.len()
        invariant
            k <= v.len(),
            r@ == v@.take(k as int),
        decreases v.len() - k,
    {
        push_char(&mut r, v[k]);
        k = k + 1;
        assert(r@ =~= v@.take(k as int));
    }
    assert(v@.take(v.len() as int) =~= v@);
    r
}


/// `s` without leading and trailing `c` chars (`str::trim_matches(c)`).
pub open spec fn strip_char(s: Seq<char>, c: char) -> Seq<char>
    decreases s.len(),
{
    if s.len() > 0 && s[0] == c {
        strip_char(s.drop_first(), c)
    } else if s.len() > 0 && s.last() == c {
        strip_char(s.drop_last(), c)
    } else {
        s
    }
}

proof fn lemma_strip_char_bounds(s: Seq<char>, c: char, i: int, j: int)
    requires
        0 <= i <= j <= s.len(),
        forall|k: int| 0 <= k < i ==> s[k] == c,
        forall|k: int| j <= k < s.len() ==> s[k] == c,
        i < j ==> s[i] != c && s[j - 1] != c,
        i == j ==> j == s.len(),
    ensures
        strip_char(s, c) == s.subrange(i, j),
    decreases s.len(),
{
    if s.len() > 0 && s[0] == c {
        let t = s.drop_first();
        if i > 0 {
            assert forall|k: int| 0 <= k < i - 1 implies t[k] == c by {
                assert(t[k] == s[k + 1]);
            }
            assert forall|k: int| j - 1 <= k < t.len() implies t[k] == c by {
                assert(t[k] == s[k + 1]);
            }
            lemma_strip_char_bounds(t, c, i - 1, j - 1);
            assert(t.subrange(i - 1, j - 1) =~= s.subrange(i, j));
        } else {
            // i == 0 and s[0] == c: then i == j, so j == s.len() and every char is c
            assert(s[0] == c);
            assert(j == 0);
            assert forall|k: int| 0 <= k < t.len() implies t[k] == c by {
                assert(t[k] == s[k + 1]);
            }
            lemma_strip_char_bounds(t, c, 0, 0);
            assert(t.subrange(0, 0) =~= s.subrange(0, 0));
        }
    } else if s.len() > 0 && s.last() == c {
        let t = s.drop_last();
        assert(j < s.len() || (i < j && s[j - 1] != c) || i == j);
        if j == s.len() {
            if i < j {
                assert(s[j - 1] != c);
                assert(false);
            } else {
                assert(i == 0 || s[0] == c);
                if i > 0 {
                    assert(s[0] == c);
                }
            }
        }
        assert(j < s.len());
        assert forall|k: int| 0 <= k < i implies t[k] == c by {
            assert(t[k] == s[k]);
        }
        assert forall|k: int| j <= k < t.len() implies t[k] == c by {
            assert(t[k] == s[k]);
        }
        if i < j {
            assert(t[i] == s[i] && t[j - 1] == s[j - 1]);
        }
        lemma_strip_char_bounds(t, c, i, j);
        assert(t.subrange(i, j) =~= s.subrange(i, j));
    } else {
        if s.len() > 0 {
            assert(i == 0) by {
                if i > 0 {
                    assert(s[0] == c);
                }
            }
            assert(j == s.len()) by {
                if j < s.len() {
                    assert(s[s.len() - 1] == c);
                }
            }
        }
        assert(s.subrange(i, j) =~= s);
    }
}

/// Bounds `(a, b)` with `v@[a..b] == strip_char(v@, c)`.
pub fn strip_char_bounds(v: &Vec<char>, c: char) -> (r: (usize, usize))
    ensures
        r.0 <= r.1 <= v.len(),
        v@.subrange(r.0 as int, r.1 as int) == strip_char(v@, c),
{
    let n = v.len();
    let mut i: usize = 0;
    while i < n && v[i] == c
        invariant
            i <= n == v.len(),
            forall|k: int| 0 <= k < i ==> v@[k] == c,
        decreases n - i,
    {
        i = i + 1;
    }
    let mut j: usize = n;
    while j > i && v[j - 1] == c
        invariant
            i <= j <= n == v.len(),
            forall|k: int| j <= k < n ==> v@[k] == c,
        decreases j,
    {
        j = j - 1;
    }
    proof {
        assert(i == j ==> (forall|k: int| j <= k < n ==> v@[k] == c));
        if i == j && i < n {
            assert(v@[i as int] != c);
            assert(false);
        }
        lemma_strip_char_bounds(v@, c, i as int, j as int);
    }
    (i, j)
}

/// `s` with later repetitions removed (first occurrences, in order).
pub open spec fn dedup<A>(s: Seq<A>) -> Seq<A>
    decreases s.len(),
{
    if s.len() == 0 {
        seq![]
    } else {
        let r = dedup(s.drop_last());
        if r.contains(s.last()) {
            r
        } else {
            r.push(s.last())
        }
    }
}

/// Number of occurrences of `x` in `s`.
pub open spec fn occurrences<A>(s: Seq<A>, x: A) -> nat
    decreases s.len(),
{
    if s.len() == 0 {
        0
    } else {
        occurrences(s.drop_last(), x) + if s.last() == x {
            1nat
        } else {
            0nat
        }
    }
}

pub proof fn lemma_dedup_contains<A>(s: Seq<A>, x: A)
    ensures
        dedup(s).contains(x) <==> s.contains(x),
    decreases s.len(),
{
    if s.len() > 0 {
        let t = s.drop_last();
        lemma_dedup_contains(t, x);
        if t.contains(x) {
            let i = choose|i: int| 0 <= i < t.len() && t[i] == x;
            assert(s[i] == x);
        }
        if s.contains(x) && !t.contains(x) {
            let i = choose|i: int| 0 <= i < s.len() && s[i] == x;
            if i < t.len() {
                assert(t[i] == x);
            }
            assert(s.last() == x);
        }
        let r = dedup(t);
        if !r.contains(s.last()) {
            assert(r.push(s.last())[r.len() as int] == s.last());
            if r.contains(x) {
                let i = choose|i: int| 0 <= i < r.len() && r[i] == x;
                assert(r.push(s.last())[i] == x);
            }
            if r.push(s.last()).contains(x) {
                let i = choose|i: int| 0 <= i < r.len() + 1 && r.push(s.last())[i] == x;
                if i < r.len() {
                    assert(r[i] == x);
                }
            }
        }
    }
}

pub proof fn lemma_dedup_distinct<A>(s: Seq<A>)
    ensures
        dedup(s).no_duplicates(),
        dedup(s).len() <= s.len(),
    decreases s.len(),
{
    if s.len() > 0 {
        lemma_dedup_distinct(s.drop_last());
        let r = dedup(s.drop_last());
        if !r.contains(s.last()) {
            let q = r.push(s.last());
            assert forall|i: int, j: int| 0 <= i < q.len() && 0 <= j < q.len() && i != j implies q[i]
                != q[j] by {
                if i < r.len() && j < r.len() {
                    assert(q[i] == r[i] && q[j] == r[j]);
                } else if i < r.len() {
                    assert(q[i] == r[i]);
                } else if j < r.len() {
                    assert(q[j] == r[j]);
                }
            }
        }
    }
}

pub proof fn lemma_occurrences_le<A>(s: Seq<A>, x: A)
    ensures
        occurrences(s, x) <= s.len(),
    decreases s.len(),
{
    if s.len() > 0 {
        lemma_occurrences_le(s.drop_last(), x);
    }
}

/// `x` inserted into `s` before the trailing elements that `x` precedes
/// under `lt` (one step of a stable insertion sort).
pub open spec fn insert_by<A>(s: Seq<A>, x: A, lt: spec_fn(A, A) -> bool) -> Seq<A>
    decreases s.len(),
{
    if s.len() == 0 {
        seq![x]
    } else if lt(x, s.last()) {
        insert_by(s.drop_last(), x, lt).push(s.last())
    } else {
        s.push(x)
    }
}

/// `s` stably sorted by `lt`.
pub open spec fn sort_by<A>(s: Seq<A>, lt: spec_fn(A, A) -> bool) -> Seq<A>
    decreases s.len(),
{
    if s.len() == 0 {
        seq![]
    } else {
        insert_by(sort_by(s.drop_last(), lt), s.last(), lt)
    }
}

/// Inserting at position `p` realizes `insert_by` when `x` precedes every
/// element from `p` on and does not precede the one before `p`.
pub proof fn lemma_insert_by_at<A>(s: Seq<A>, x: A, lt: spec_fn(A, A) -> bool, p: int)
    requires
        0 <= p <= s.len(),
        forall|j: int| p <= j < s.len() ==> lt(x, #[trigger] s[j]),
        p == 0 || !lt(x, s[p - 1]),
    ensures
        insert_by(s, x, lt) == s.subrange(0, p).push(x) + s.subrange(p, s.len() as int),
    decreases s.len() - p,
{
    if p == s.len() {
        if s.len() > 0 {
            assert(s.last() == s[p - 1]);
        }
        assert(s.subrange(0, p) =~= s);
        assert(s.push(x) + s.subrange(p, s.len() as int) =~= s.push(x));
    } else {
        let t = s.drop_last();
        assert(s.last() == s[s.len() - 1]);
        assert forall|j: int| p <= j < t.len() implies lt(x, #[trigger] t[j]) by {
            assert(t[j] == s[j]);
        }
        if p > 0 {
            assert(t[p - 1] == s[p - 1]);
        }
        lemma_insert_by_at(t, x, lt, p);
        assert((t.subrange(0, p).push(x) + t.subrange(p, t.len() as int)).push(s.last())
            =~= s.subrange(0, p).push(x) + s.subrange(p, s.len() as int));
    }
}

/// Every char of `s` is white space.
pub open spec fn all_white_space(s: Seq<char>) -> bool {
    forall|i: int| 0 <= i < s.len() ==> is_white_space(#[trigger] s[i])
}

/// Leading white space `p` in front of a text that starts with a non-space
/// char is exactly what `trim_start` removes.
pub proof fn lemma_trim_start_padding(p: Seq<char>, x: Seq<char>)
    requires
        all_white_space(p),
        x.len() > 0,
        !is_white_space(x[0]),
    ensures
        trim_start(p + x) == x,
    decreases p.len(),
{
    if p.len() == 0 {
        assert(p + x =~= x);
    } else {
        assert((p + x).drop_first() =~= p.drop_first() + x);
        assert((p + x)[0] == p[0]);
        lemma_trim_start_padding(p.drop_first(), x);
    }
}

/// Trailing white space `q` after a text that ends with a non-space char is
/// exactly what `trim_end` removes.
pub proof fn lemma_trim_end_padding(x: Seq<char>, q: Seq<char>)
    requires
        all_white_space(q),
        x.len() > 0,
        !is_white_space(x.last()),
    ensures
        trim_end(x + q) == x,
    decreases q.len(),
{
    if q.len() == 0 {
        assert(x + q =~= x);
    } else {
        assert((x + q).drop_last() =~= x + q.drop_last());
        assert((x + q).last() == q.last());
        lemma_trim_end_padding(x, q.drop_last());
    }
}

/// Trimming white-space padding off a text that starts and ends with a
/// non-space char gives the text back.
pub proof fn lemma_trim_padding(p: Seq<char>, x: Seq<char>, q: Seq<char>)
    requires
        all_white_space(p),
        all_white_space(q),
        x.len() > 0,
        !is_white_space(x[0]),
        !is_white_space(x.last()),
    ensures
        trim(p + x + q) == x,
{
    assert(p + x + q =~= p + (x + q));
    lemma_trim_start_padding(p, x + q);
    lemma_trim_end_padding(x, q);
}

/// `lt` is a strict weak order: asymmetric, and whenever `a` precedes `b`
/// any `c` comes after `a` or before `b`.
pub open spec fn strict_weak_order<A>(lt: spec_fn(A, A) -> bool) -> bool {
    &&& forall|a: A, b: A| #[trigger] lt(a, b) ==> !lt(b, a)
    &&& forall|a: A, b: A, c: A| #[trigger] lt(a, b) && #[trigger] lt(a, c) == false ==> lt(c, b)
}

/// No element of `s` precedes an earlier one under `lt`.
pub open spec fn sorted_by<A>(s: Seq<A>, lt: spec_fn(A, A) -> bool) -> bool {
    forall|i: int, j: int| 0 <= i < j < s.len() ==> !lt(#[trigger] s[j], #[trigger] s[i])
}

proof fn lemma_insert_by_elems<A>(s: Seq<A>, x: A, lt: spec_fn(A, A) -> bool)
    ensures
        insert_by(s, x, lt).len() == s.len() + 1,
        forall|i: int|
            0 <= i < insert_by(s, x, lt).len() ==> #[trigger] insert_by(s, x, lt)[i] == x
                || s.contains(insert_by(s, x, lt)[i]),
    decreases s.len(),
{
    if s.len() > 0 && lt(x, s.last()) {
        let t = s.drop_last();
        lemma_insert_by_elems(t, x, lt);
        let r = insert_by(t, x, lt);
        assert forall|i: int| 0 <= i < r.push(s.last()).len() implies #[trigger] r.push(s.last())[i]
            == x || s.contains(r.push(s.last())[i]) by {
            if i < r.len() {
                if r[i] != x {
                    let k = choose|k: int| 0 <= k < t.len() && t[k] == r[i];
                    assert(s[k] == t[k]);
                }
            } else {
                assert(s[s.len() - 1] == s.last());
            }
        }
    } else if s.len() > 0 {
        assert forall|i: int| 0 <= i < s.push(x).len() implies #[trigger] s.push(x)[i] == x
            || s.contains(s.push(x)[i]) by {
            if i < s.len() {
                assert(s.push(x)[i] == s[i]);
            }
        }
    }
}

proof fn lemma_insert_by_sorted<A>(s: Seq<A>, x: A, lt: spec_fn(A, A) -> bool)
    requires
        strict_weak_order(lt),
        sorted_by(s, lt),
    ensures
        sorted_by(insert_by(s, x, lt), lt),
    decreases s.len(),
{
    if s.len() == 0 {
    } else if lt(x, s.last()) {
        let t = s.drop_last();
        let last = s.last();
        assert(sorted_by(t, lt)) by {
            assert forall|i: int, j: int| 0 <= i < j < t.len() implies !lt(#[trigger] t[j], #[trigger] t[i]) by {
                assert(t[i] == s[i] && t[j] == s[j]);
            }
        }
        lemma_insert_by_sorted(t, x, lt);
        lemma_insert_by_elems(t, x, lt);
        let r = insert_by(t, x, lt);
        assert forall|i: int, j: int| 0 <= i < j < r.push(last).len() implies !lt(
            #[trigger] r.push(last)[j],
            #[trigger] r.push(last)[i],
        ) by {
            if j < r.len() {
                assert(r.push(last)[i] == r[i] && r.push(last)[j] == r[j]);
            } else {
                let y = r[i];
                assert(r.push(last)[i] == y);
                assert(r.push(last)[j] == last);
                if y == x {
                    assert(lt(x, last));
                } else {
                    let k = choose|k: int| 0 <= k < t.len() && t[k] == y;
                    assert(s[k] == t[k]);
                    assert(s[s.len() - 1] == last);
                    assert(!lt(s[s.len() - 1], s[k]));
                }
            }
        }
    } else {
        let last = s.last();
        assert forall|i: int, j: int| 0 <= i < j < s.push(x).len() implies !lt(
            #[trigger] s.push(x)[j],
            #[trigger] s.push(x)[i],
        ) by {
            if j < s.len() {
                assert(s.push(x)[i] == s[i] && s.push(x)[j] == s[j]);
            } else {
                assert(s.push(x)[j] == x);
                assert(s.push(x)[i] == s[i]);
                if lt(x, s[i]) {
                    assert(s[s.len() - 1] == last);
                    if i < s.len() - 1 {
                        assert(!lt(s[s.len() - 1], s[i]));
                    }
                    assert(lt(x, last) || lt(last, s[i]));
                }
            }
        }
    }
}

/// Stable insertion sort by a strict weak order yields sorted output.
pub proof fn lemma_sort_by_sorted<A>(s: Seq<A>, lt: spec_fn(A, A) -> bool)
    requires
        strict_weak_order(lt),
    ensures
        sorted_by(sort_by(s, lt), lt),
        sort_by(s, lt).len() == s.len(),
    decreases s.len(),
{
    if s.len() > 0 {
        lemma_sort_by_sorted(s.drop_last(), lt);
        lemma_insert_by_sorted(sort_by(s.drop_last(), lt), s.last(), lt);
        lemma_insert_by_elems(sort_by(s.drop_last(), lt), s.last(), lt);
    }
}

/// `seq_lt` is a strict weak order.
pub proof fn lemma_str_order_weak()
    ensures
        strict_weak_order(str_order()),
{
    assert forall|a: Seq<char>, b: Seq<char>| #[trigger] str_order()(a, b) implies !str_order()(b, a) by {
        lemma_seq_lt_asymmetric(a, b);
    }
    assert forall|a: Seq<char>, b: Seq<char>, c: Seq<char>|
        #[trigger] str_order()(a, b) && #[trigger] str_order()(a, c) == false implies str_order()(c, b) by {
        lemma_seq_lt_total(a, c);
        if seq_lt(c, a) {
            lemma_seq_lt_transitive(c, a, b);
        }
    }
}

/// The order of `seq_lt`, as a value.
pub open spec fn str_order() -> spec_fn(Seq<char>, Seq<char>) -> bool {
    |a: Seq<char>, b: Seq<char>| seq_lt(a, b)
}

/// A copy of `v@[a..b]`.
pub fn sub_chars(v: &Vec<char>, a: usize, b: usize) -> (r: Vec<char>)
    requires
        a <= b <= v.len(),
    ensures
        r@ == v@.subrange(a as int, b as int),
{
    let mut r: Vec<char> = Vec::new();
    let mut k = a;
    while k < b
        invariant
            a <= k <= b <= v.len(),
            r@ == v@.subrange(a as int, k as int),
        decreases b - k,
    {
        r.push(v[k]);
        k = k + 1;
        assert(r@ =~= v@.subrange(a as int, k as int));
    }
    r
}

} // verus!
