//! Period / channel scope resolution: `--last`, `--quarter` and date-range
//! filters over epoch-microsecond timestamps (UTC), and message filtering.

use chrono::{Datelike, NaiveDate};
use vstd::prelude::*;

use crate::error::CommError;
use crate::strings::{
    all_white_space, ascii_upper, ascii_upper_char, ascii_upper_char_exec, is_white_space,
    lemma_trim_padding, chars_of, occurs_at, str_eq, string_of, sub_chars, trim,
    trim_bounds, views,
};
use crate::types::Message;

verus! {

pub open spec fn micros_per_day() -> int {
    86_400_000_000
}

/// Earliest and latest years of chrono's calendar.
pub open spec fn min_year() -> int {
    -262143
}

pub open spec fn max_year() -> int {
    262142
}

/// Days from 1970-01-01 to the proleptic Gregorian date `y-m-d`
/// (the standard days-from-civil conversion).
pub open spec fn days_from_civil(y: int, m: int, d: int) -> int {
    let yy = if m <= 2 {
        y - 1
    } else {
        y
    };
    let era = yy / 400;
    let yoe = yy - era * 400;
    let mp = if m > 2 {
        m - 3
    } else {
        m + 9
    };
    let doy = (153 * mp + 2) / 5 + d - 1;
    let doe = yoe * 365 + yoe / 4 - yoe / 100 + doy;
    era * 146097 + doe - 719468
}

/// 00:00:00 UTC of `y-m-d`, in microseconds.
pub open spec fn day_start(y: int, m: int, d: int) -> int {
    days_from_civil(y, m, d) * micros_per_day()
}

/// 23:59:59 UTC of `y-m-d`, in microseconds.
pub open spec fn day_end(y: int, m: int, d: int) -> int {
    days_from_civil(y, m, d) * micros_per_day() + 86_399_000_000
}

/// `days_from_civil` for dates in chrono's range.
fn days_from_civil_exec(y: i32, m: u32, d: u32) -> (r: i64)
    requires
        min_year() - 1 <= y <= max_year() + 1,
        1 <= m <= 12,
        1 <= d <= 31,
    ensures
        r == days_from_civil(y as int, m as int, d as int),
        -97_000_000 <= r <= 97_000_000,
{
    let yy: i64 = if m <= 2 {
        y as i64 - 1
    } else {
        y as i64
    };
    let era: i64 = (yy + 400_000) / 400 - 1000;
    assert(era == yy / 400 && -656 <= era <= 656) by (nonlinear_arith)
        requires
            era == (yy + 400_000) / 400 - 1000,
            -262145 <= yy <= 262143,
    ;
    let yoe: i64 = yy - era * 400;
    let mp: i64 = if m > 2 {
        m as i64 - 3
    } else {
        m as i64 + 9
    };
    let doy: i64 = (153 * mp + 2) / 5 + d as i64 - 1;
    let doe: i64 = yoe * 365 + yoe / 4 - yoe / 100 + doy;
    assert(0 <= yoe < 400) by (nonlinear_arith)
        requires
            era == yy / 400,
            yoe == yy - era * 400,
    ;
    era * 146097 + doe - 719468
}

/// A period filter over epoch-microsecond timestamps (UTC), inclusive on
/// both sides; an absent side matches anything.
#[derive(Debug, Clone, Copy)]
pub struct PeriodFilter {
    pub from: Option<i64>,
    pub to: Option<i64>,
}

impl Default for PeriodFilter {
    fn default() -> (r: Self)
        ensures
            r.from is None,
            r.to is None,
    {
        PeriodFilter { from: None, to: None }
    }
}

pub open spec fn in_period(p: PeriodFilter, ts: int) -> bool {
    &&& p.from matches Some(f) ==> f <= ts
    &&& p.to matches Some(t) ==> ts <= t
}

impl PeriodFilter {
    /// `true` iff `ts` falls within `[from, to]`.
    pub fn contains(&self, ts: i64) -> (r: bool)
        ensures
            r == in_period(*self, ts as int),
    {
        match self.from {
            Some(f) => {
                if ts < f {
                    return false;
                }
            },
            None => {},
        }
        match self.to {
            Some(t) => {
                if ts > t {
                    return false;
                }
            },
            None => {},
        }
        true
    }
}

/// `m` passes the period and (when any are given) the channel filter.
pub open spec fn passes(m: Message, period: PeriodFilter, channel_ids: Seq<Seq<char>>) -> bool {
    (channel_ids.len() == 0 || channel_ids.contains(m.channel_id@)) && in_period(
        period,
        m.timestamp as int,
    )
}

/// The messages of `msgs` that pass, in order.
pub open spec fn filtered(msgs: Seq<Message>, period: PeriodFilter, channel_ids: Seq<Seq<char>>) -> Seq<
    Message,
>
    decreases msgs.len(),
{
    if msgs.len() == 0 {
        seq![]
    } else {
        let r = filtered(msgs.drop_last(), period, channel_ids);
        if passes(msgs.last(), period, channel_ids) {
            r.push(msgs.last())
        } else {
            r
        }
    }
}

/// Filter `messages` by `period` and `channel_ids` (when non-empty, only
/// messages whose channel is listed pass).
pub fn apply_filters(messages: &[Message], period: &PeriodFilter, channel_ids: &[String]) -> (r: Vec<
    Message,
>)
    ensures
        r@ == filtered(messages@, *period, views(channel_ids@)),
{
    let ghost ids = views(channel_ids@);
    let mut r: Vec<Message> = Vec::new();
    let mut k: usize = 0;
    while k < messages.len()
        invariant
            k <= messages.len(),
            ids == views(channel_ids@),
            r@ == filtered(messages@.take(k as int), *period, ids),
        decreases messages.len() - k,
    {
        assert(messages@.take(k + 1).drop_last() =~= messages@.take(k as int));
        assert(messages@.take(k + 1).last() == messages@[k as int]);
        let m = &messages[k];
        let allowed = channel_ids.len() == 0 || crate::graph::contains_string(
            &slice_to_vec(channel_ids),
            m.channel_id.as_str(),
        );
        if allowed && period.contains(m.timestamp) {
            r.push(m.clone());
        }
        k = k + 1;
    }
    assert(messages@.take(messages.len() as int) =~= messages@);
    r
}

fn slice_to_vec(s: &[String]) -> (r: Vec<String>)
    ensures
        views(r@) == views(s@),
{
    let mut r: Vec<String> = Vec::new();
    let mut k: usize = 0;
    while k < s.len()
        invariant
            k <= s.len(),
            views(r@) == views(s@.take(k as int)),
        decreases s.len() - k,
    {
        let c = s[k].clone();
        assert(c@ == s@[k as int]@);
        let ghost before = r@;
        r.push(c);
        assert(views(r@) =~= views(before).push(c@));
        assert(s@.take(k + 1) =~= s@.take(k as int).push(s@[k as int]));
        assert(views(s@.take(k + 1)) =~= views(s@.take(k as int)).push(s@[k as int]@));
        k = k + 1;
    }
    assert(s@.take(s.len() as int) =~= s@);
    r
}

// ---------------------------------------------------------------------------
// Integer parsing (`str::parse` for the integer types)
// ---------------------------------------------------------------------------

pub open spec fn is_digit(c: char) -> bool {
    '0' <= c <= '9'
}

pub open spec fn all_digits(s: Seq<char>) -> bool {
    forall|i: int| 0 <= i < s.len() ==> is_digit(#[trigger] s[i])
}

/// The decimal value of a string of digits.
pub open spec fn digits_value(s: Seq<char>) -> nat
    decreases s.len(),
{
    if s.len() == 0 {
        0
    } else {
        digits_value(s.drop_last()) * 10 + ((s.last() as u32) - 48) as nat
    }
}

/// What `str::parse` gives for an integer type with range `lo..=hi`
/// (`signed` when it accepts a leading `-`): an optional sign, then one or
/// more ASCII digits, whose value must lie in the range.
pub open spec fn parse_int(s: Seq<char>, lo: int, hi: int, signed: bool) -> Option<int> {
    let neg = signed && s.len() > 0 && s[0] == '-';
    let body = if s.len() > 0 && (s[0] == '+' || neg) {
        s.drop_first()
    } else {
        s
    };
    if body.len() == 0 || !all_digits(body) {
        None
    } else {
        let v = if neg {
            -(digits_value(body) as int)
        } else {
            digits_value(body) as int
        };
        if lo <= v <= hi {
            Some(v)
        } else {
            None
        }
    }
}

proof fn lemma_digits_value_grows(s: Seq<char>, c: char)
    requires
        is_digit(c),
    ensures
        digits_value(s.push(c)) >= digits_value(s) * 10,
        digits_value(s.push(c)) == digits_value(s) * 10 + ((c as u32) - 48) as nat,
{
    assert(s.push(c).drop_last() =~= s);
}

/// `parse_int(v@, lo, hi, signed)`.
fn parse_int_exec(v: &Vec<char>, lo: i128, hi: i128, signed: bool) -> (r: Option<i128>)
    requires
        -0x1_0000_0000_0000_0000 <= lo <= hi <= 0x1_0000_0000_0000_0000,
    ensures
        r matches Some(x) ==> parse_int(v@, lo as int, hi as int, signed) == Some(x as int),
        r is None ==> parse_int(v@, lo as int, hi as int, signed) is None,
{
    let cap: u128 = 0x1_0000_0000_0000_0000;
    let n = v.len();
    let neg = signed && n > 0 && v[0] == '-';
    let start: usize = if n > 0 && (v[0] == '+' || neg) {
        1
    } else {
        0
    };
    let ghost body = if n > 0 && (v@[0] == '+' || neg) {
        v@.drop_first()
    } else {
        v@
    };
    assert(body =~= v@.skip(start as int));
    if start == n {
        return None;
    }
    let mut acc: u128 = 0;
    let mut k = start;
    while k < n
        invariant
            start <= k <= n == v.len(),
            body == v@.skip(start as int),
            neg == (signed && v@.len() > 0 && v@[0] == '-'),
            body == (if v@.len() > 0 && (v@[0] == '+' || neg) {
                v@.drop_first()
            } else {
                v@
            }),
            cap == 0x1_0000_0000_0000_0000,
            all_digits(v@.subrange(start as int, k as int)),
            digits_value(v@.subrange(start as int, k as int)) <= cap ==> acc == digits_value(
                v@.subrange(start as int, k as int),
            ),
            digits_value(v@.subrange(start as int, k as int)) > cap ==> acc > cap,
            acc <= cap * 10 + 9,
        decreases n - k,
    {
        let c = v[k];
        let ghost pre = v@.subrange(start as int, k as int);
        assert(v@.subrange(start as int, k + 1) =~= pre.push(c));
        if !('0' <= c && c <= '9') {
            assert(body[k - start] == c);
            assert(!is_digit(body[k - start]));
            return None;
        }
        proof {
            lemma_digits_value_grows(pre, c);
        }
        if acc <= cap {
            acc = acc * 10 + (c as u32 - 48) as u128;
        }
        k = k + 1;
    }
    assert(v@.subrange(start as int, n as int) =~= body);
    if acc > cap {
        return None;
    }
    let x: i128 = if neg {
        -(acc as i128)
    } else {
        acc as i128
    };
    if lo <= x && x <= hi {
        Some(x)
    } else {
        None
    }
}

// ---------------------------------------------------------------------------
// Error messages
// ---------------------------------------------------------------------------

/// `a ++ b ++ c` as a `String`.
fn concat3(a: &str, b: &str, c: &str) -> (r: String)
    ensures
        r@ == a@ + b@ + c@,
{
    let mut v = chars_of(a);
    let w = chars_of(b);
    let x = chars_of(c);
    let mut k: usize = 0;
    let ghost v0 = v@;
    while k < w.len()
        invariant
            k <= w.len(),
            v@ == v0 + w@.take(k as int),
        decreases w.len() - k,
    {
        v.push(w[k]);
        k = k + 1;
        assert(v@ =~= v0 + w@.take(k as int));
    }
    assert(w@.take(w.len() as int) =~= w@);
    let ghost v1 = v@;
    let mut k: usize = 0;
    while k < x.len()
        invariant
            k <= x.len(),
            v@ == v1 + x@.take(k as int),
        decreases x.len() - k,
    {
        v.push(x[k]);
        k = k + 1;
        assert(v@ =~= v1 + x@.take(k as int));
    }
    assert(x@.take(x.len() as int) =~= x@);
    string_of(&v)
}

pub open spec fn config_error(r: Result<PeriodFilter, CommError>, msg: Seq<char>) -> bool {
    r matches Err(CommError::Config(m)) && m@ == msg
}

// ---------------------------------------------------------------------------
// `--last`
// ---------------------------------------------------------------------------

pub open spec fn unit_days(u: char) -> Option<int> {
    if u == 'd' {
        Some(1)
    } else if u == 'w' {
        Some(7)
    } else if u == 'm' {
        Some(30)
    } else if u == 'y' {
        Some(365)
    } else {
        None
    }
}

/// The number of days a `--last` spec (`"6m"`, `"30d"`, `"1y"`, `"2w"`)
/// stands for, months counting 30 days and years 365, or its error message.
pub open spec fn last_days(s: Seq<char>) -> Result<int, Seq<char>> {
    if s.len() == 0 {
        Err("empty --last spec"@)
    } else {
        match parse_int(s.drop_last(), i64::MIN as int, i64::MAX as int, true) {
            None => Err("invalid --last '"@ + s + "'"@),
            Some(n) => match unit_days(s.last()) {
                Some(f) => Ok(n * f),
                None => Err("invalid --last unit in '"@ + s + "' (expected d|w|m|y)"@),
            },
        }
    }
}

/// The largest day count chrono's `TimeDelta::days` accepts.
pub open spec fn max_delta_days() -> int {
    106_751_991_167
}

impl PeriodFilter {
    /// Build a `--last` style filter ending at `anchor`: from
    /// `anchor - days` to `anchor`.
    pub fn last(spec: &str, anchor: i64) -> (r: Result<Self, CommError>)
        requires
            spec@.len() == 0 || (spec@.last() as u32) < 128,
            last_days(spec@) matches Ok(d) ==> -max_delta_days() <= d <= max_delta_days()
                && i64::MIN <= anchor - d * micros_per_day() <= i64::MAX,
        ensures
            match last_days(spec@) {
                Ok(d) => r matches Ok(p) && p.from == Some((anchor - d * micros_per_day()) as i64)
                    && p.to == Some(anchor),
                Err(m) => config_error(r, m),
            },
    {
        let v = chars_of(spec);
        if v.len() == 0 {
            return Err(CommError::Config(crate::strings::owned("empty --last spec")));
        }
        let num = sub_chars(&v, 0, v.len() - 1);
        assert(num@ =~= spec@.drop_last());
        let n = match parse_int_exec(&num, i64::MIN as i128, i64::MAX as i128, true) {
            Some(n) => n,
            None => {
                return Err(CommError::Config(concat3("invalid --last '", spec, "'")));
            },
        };
        let u = v[v.len() - 1];
        let f: i128 = if u == 'd' {
            1
        } else if u == 'w' {
            7
        } else if u == 'm' {
            30
        } else if u == 'y' {
            365
        } else {
            return Err(
                CommError::Config(concat3("invalid --last unit in '", spec, "' (expected d|w|m|y)")),
            );
        };
        assert(unit_days(spec@.last()) == Some(f as int));
        let days: i128 = n * f;
        let from: i128 = anchor as i128 - days * 86_400_000_000;
        let res: Result<PeriodFilter, CommError> = Ok(
            PeriodFilter { from: Some(from as i64), to: Some(anchor) },
        );
        res
    }
}

// ---------------------------------------------------------------------------
// `--quarter`
// ---------------------------------------------------------------------------

/// First position `>= i` where `pat` occurs in `s`.
pub open spec fn find_from(s: Seq<char>, pat: Seq<char>, i: int) -> Option<int>
    decreases s.len() + 1 - i,
{
    if i < 0 || i + pat.len() > s.len() {
        None
    } else if occurs_at(s, pat, i) {
        Some(i)
    } else {
        find_from(s, pat, i + 1)
    }
}

/// `str::split_once(pat)`: the parts before and after the first `pat`.
pub open spec fn split_once(s: Seq<char>, pat: Seq<char>) -> Option<(Seq<char>, Seq<char>)> {
    match find_from(s, pat, 0) {
        Some(i) => Some((s.take(i), s.skip(i + pat.len()))),
        None => None,
    }
}

/// The `(quarter, year)` text of an upper-cased quarter spec in one of the
/// forms `FY<yyyy>-Q<q>`, `Q<q>-<yyyy>`, `<yyyy>-Q<q>`, `<yyyy>Q<q>`.
pub open spec fn quarter_parts(up: Seq<char>) -> Option<(Seq<char>, Seq<char>)> {
    if occurs_at(up, "FY"@, 0) {
        match split_once(up.skip(2), "-Q"@) {
            Some((y, q)) => Some((q, y)),
            None => None,
        }
    } else if occurs_at(up, "Q"@, 0) {
        split_once(up.skip(1), "-"@)
    } else {
        match split_once(up, "-Q"@) {
            Some((y, q)) => Some((q, y)),
            None => match split_once(up, "Q"@) {
                Some((y, q)) => Some((q, y)),
                None => None,
            },
        }
    }
}

/// `(q, fy)` of a quarter spec, `q` in `1..=4`.
pub open spec fn parse_quarter(s: Seq<char>) -> Option<(int, int)> {
    match quarter_parts(ascii_upper(trim(s))) {
        Some((qs, ys)) => match parse_int(trim(qs), 0, u32::MAX as int, false) {
            Some(q) => match parse_int(trim(ys), i32::MIN as int, i32::MAX as int, true) {
                Some(y) => if 1 <= q <= 4 {
                    Some((q, y))
                } else {
                    None
                },
                None => None,
            },
            None => None,
        },
        None => None,
    }
}

/// First month and its year of quarter `q` of fiscal year `fy` starting in
/// month `fsm`.
pub open spec fn quarter_start(q: int, fy: int, fsm: int) -> (int, int) {
    let raw = fsm + (q - 1) * 3;
    (fy + (raw - 1) / 12, (raw - 1) % 12 + 1)
}

/// Last month and its year of that quarter.
pub open spec fn quarter_end(q: int, fy: int, fsm: int) -> (int, int) {
    let (sy, sm) = quarter_start(q, fy, fsm);
    let raw = sm + 2;
    (sy + (raw - 1) / 12, (raw - 1) % 12 + 1)
}

/// The first day after the month `(y, m)`.
pub open spec fn next_month(y: int, m: int) -> (int, int) {
    if m == 12 {
        (y + 1, 1)
    } else {
        (y, m + 1)
    }
}

/// The quarter's dates lie in chrono's calendar.
pub open spec fn quarter_in_range(q: int, fy: int, fsm: int) -> bool {
    let (sy, _) = quarter_start(q, fy, fsm);
    let (ey, em) = quarter_end(q, fy, fsm);
    min_year() <= sy && next_month(ey, em).0 <= max_year()
}

/// `[00:00:00 of the quarter's first day, 23:59:59 of its last day]`.
pub open spec fn quarter_bounds(q: int, fy: int, fsm: int) -> (int, int) {
    let (sy, sm) = quarter_start(q, fy, fsm);
    let (ey, em) = quarter_end(q, fy, fsm);
    let (ny, nm) = next_month(ey, em);
    (day_start(sy, sm, 1), (days_from_civil(ny, nm, 1) - 1) * micros_per_day() + 86_399_000_000)
}

/// Upper-cased `trim(s)`.
fn upper_trimmed(s: &str) -> (r: Vec<char>)
    ensures
        r@ == ascii_upper(trim(s@)),
{
    let v = chars_of(s);
    let (a, b) = trim_bounds(&v);
    let mut r: Vec<char> = Vec::new();
    let mut k = a;
    while k < b
        invariant
            a <= k <= b <= v.len(),
            r@ == ascii_upper(v@.subrange(a as int, k as int)),
        decreases b - k,
    {
        r.push(ascii_upper_char_exec(v[k]));
        k = k + 1;
        assert(ascii_upper(v@.subrange(a as int, k as int)) =~= ascii_upper(
            v@.subrange(a as int, (k - 1) as int),
        ).push(crate::strings::ascii_upper_char(v@[k - 1])));
    }
    r
}

/// `find_from(s@, pat@, 0)`.
fn find_first(s: &Vec<char>, pat: &Vec<char>) -> (r: Option<usize>)
    ensures
        r matches Some(i) ==> find_from(s@, pat@, 0) == Some(i as int) && i + pat.len() <= s.len(),
        r is None ==> find_from(s@, pat@, 0) is None,
{
    if pat.len() > s.len() {
        return None;
    }
    let last = s.len() - pat.len();
    let mut i: usize = 0;
    loop
        invariant
            pat.len() <= s.len(),
            last == s.len() - pat.len(),
            i <= last,
            find_from(s@, pat@, 0) == find_from(s@, pat@, i as int),
        decreases last - i,
    {
        if crate::strings::matches_at(s, pat, i) {
            return Some(i);
        }
        if i == last {
            return None;
        }
        i = i + 1;
    }
}

/// `split_once(s@, pat@)`.
fn split_once_exec(s: &Vec<char>, pat: &Vec<char>) -> (r: Option<(Vec<char>, Vec<char>)>)
    ensures
        r matches Some((a, b)) ==> split_once(s@, pat@) == Some((a@, b@)),
        r is None ==> split_once(s@, pat@) is None,
{
    match find_first(s, pat) {
        Some(i) => Some((sub_chars(s, 0, i), sub_chars(s, i + pat.len(), s.len()))),
        None => None,
    }
}

/// `trim` of `v`, as a new vector.
fn trimmed(v: &Vec<char>) -> (r: Vec<char>)
    ensures
        r@ == trim(v@),
{
    let (a, b) = trim_bounds(v);
    sub_chars(v, a, b)
}

fn starts_with(v: &Vec<char>, p: &str) -> (r: bool)
    ensures
        r == occurs_at(v@, p@, 0),
{
    let pv = chars_of(p);
    if pv.len() > v.len() {
        return false;
    }
    crate::strings::matches_at(v, &pv, 0)
}

/// `parse_quarter(s@)`.
pub fn parse_quarter_exec(s: &str) -> (r: Option<(u32, i32)>)
    ensures
        r matches Some((q, y)) ==> parse_quarter(s@) == Some((q as int, y as int)),
        r is None ==> parse_quarter(s@) is None,
{
    let up = upper_trimmed(s);
    proof {
        reveal_strlit("FY");
        reveal_strlit("Q");
    }
    let parts = if starts_with(&up, "FY") {
        let rest = sub_chars(&up, 2, up.len());
        assert(rest@ =~= up@.skip(2));
        match split_once_exec(&rest, &chars_of("-Q")) {
            Some((y, q)) => Some((q, y)),
            None => None,
        }
    } else if starts_with(&up, "Q") {
        let rest = sub_chars(&up, 1, up.len());
        assert(rest@ =~= up@.skip(1));
        split_once_exec(&rest, &chars_of("-"))
    } else {
        match split_once_exec(&up, &chars_of("-Q")) {
            Some((y, q)) => Some((q, y)),
            None => match split_once_exec(&up, &chars_of("Q")) {
                Some((y, q)) => Some((q, y)),
                None => None,
            },
        }
    };
    match parts {
        Some((qs, ys)) => {
            let q = match parse_int_exec(&trimmed(&qs), 0, u32::MAX as i128, false) {
                Some(q) => q,
                None => {
                    return None;
                },
            };
            let y = match parse_int_exec(&trimmed(&ys), i32::MIN as i128, i32::MAX as i128, true) {
                Some(y) => y,
                None => {
                    return None;
                },
            };
            if 1 <= q && q <= 4 {
                Some((q as u32, y as i32))
            } else {
                None
            }
        },
        None => None,
    }
}

impl PeriodFilter {
    /// Build a quarter filter (`"FY2025-Q4"`, `"2025-Q4"`, `"Q4-2025"`,
    /// `"2025Q4"`) for fiscal years starting in month `fiscal_start_month`
    /// (1..=12): from the quarter's first day 00:00:00 to its last day
    /// 23:59:59 (UTC).
    pub fn quarter(spec: &str, fiscal_start_month: u32) -> (r: Result<Self, CommError>)
        requires
            1 <= fiscal_start_month <= 12,
            parse_quarter(spec@) matches Some((q, fy)) ==> quarter_in_range(
                q,
                fy,
                fiscal_start_month as int,
            ),
        ensures
            match parse_quarter(spec@) {
                Some((q, fy)) => r matches Ok(p) && p.from == Some(
                    quarter_bounds(q, fy, fiscal_start_month as int).0 as i64,
                ) && p.to == Some(quarter_bounds(q, fy, fiscal_start_month as int).1 as i64),
                None => config_error(r, "invalid --quarter '"@ + spec@ + "'"@),
            },
    {
        let (q, fy) = match parse_quarter_exec(spec) {
            Some(p) => p,
            None => {
                return Err(CommError::Config(concat3("invalid --quarter '", spec, "'")));
            },
        };
        let raw: u32 = fiscal_start_month + (q - 1) * 3;
        let sy: i32 = fy + ((raw - 1) / 12) as i32;
        let sm: u32 = (raw - 1) % 12 + 1;
        let raw_end: u32 = sm + 2;
        let ey: i32 = sy + ((raw_end - 1) / 12) as i32;
        let em: u32 = (raw_end - 1) % 12 + 1;
        let (ny, nm): (i32, u32) = if em == 12 {
            (ey + 1, 1)
        } else {
            (ey, em + 1)
        };
        let start_days = days_from_civil_exec(sy, sm, 1);
        let next_days = days_from_civil_exec(ny, nm, 1);
        let from: i64 = start_days * 86_400_000_000;
        let to: i64 = (next_days - 1) * 86_400_000_000 + 86_399_000_000;
        let res: Result<PeriodFilter, CommError> = Ok(PeriodFilter { from: Some(from), to: Some(to) });
        res
    }
}

// ---------------------------------------------------------------------------
// `YYYY-MM-DD` bounds
// ---------------------------------------------------------------------------

/// What chrono's `NaiveDate::parse_from_str(s, "%Y-%m-%d")` yields for `s`:
/// the date's `(year, month, day)` or the text of its parse error.
pub uninterp spec fn chrono_parse_ymd(s: Seq<char>) -> Result<(i32, u32, u32), Seq<char>>;

pub open spec fn ymd_view(r: Result<(i32, u32, u32), String>) -> Result<(i32, u32, u32), Seq<char>> {
    match r {
        Ok(t) => Ok(t),
        Err(e) => Err(e@),
    }
}

/// `NaiveDate::parse_from_str(s, "%Y-%m-%d")` (chrono): the parsed date's
/// `(year, month, day)`, or the parse error's message. A parsed date is a
/// date of chrono's calendar.
#[verifier::external_body]
fn parse_ymd(s: &str) -> (r: Result<(i32, u32, u32), String>)
    ensures
        ymd_view(r) == chrono_parse_ymd(s@),
        r matches Ok((y, m, d)) ==> min_year() <= y <= max_year() && 1 <= m <= 12 && 1 <= d <= 31,
{
    match NaiveDate::parse_from_str(s, "%Y-%m-%d") {
        Ok(d) => Ok((d.year(), d.month(), d.day())),
        Err(e) => Err(e.to_string()),
    }
}

/// One bound of a date-range filter, from a date string `s` and the outcome
/// of parsing its trimmed text: 00:00:00 (or 23:59:59 when `end`) of the
/// date, or the error `invalid date '<s>': <parse error>`.
pub fn date_bound(s: &str, parsed: Result<(i32, u32, u32), String>, end: bool) -> (r: Result<
    i64,
    CommError,
>)
    requires
        parsed matches Ok((y, m, d)) ==> min_year() <= y <= max_year() && 1 <= m <= 12 && 1 <= d
            <= 31,
    ensures
        match parsed {
            Ok((y, m, d)) => r == Ok::<i64, CommError>(
                (if end {
                    day_end(y as int, m as int, d as int)
                } else {
                    day_start(y as int, m as int, d as int)
                }) as i64,
            ),
            Err(e) => r matches Err(CommError::Config(msg)) && msg@ == "invalid date '"@ + s@
                + "': "@ + e@,
        },
{
    proof {
        reveal_strlit("");
    }
    match parsed {
        Ok((y, m, d)) => {
            let days = days_from_civil_exec(y, m, d);
            let start: i64 = days * 86_400_000_000;
            if end {
                Ok(start + 86_399_000_000)
            } else {
                Ok(start)
            }
        },
        Err(e) => {
            let head = concat3("invalid date '", s, "': ");
            Err(CommError::Config(concat3(head.as_str(), e.as_str(), "")))
        },
    }
}

/// What `date_bound` gives for the text `s`.
pub open spec fn date_bound_spec(s: Seq<char>, end: bool) -> Result<int, Seq<char>> {
    match chrono_parse_ymd(trim(s)) {
        Ok((y, m, d)) => Ok(
            if end {
                day_end(y as int, m as int, d as int)
            } else {
                day_start(y as int, m as int, d as int)
            },
        ),
        Err(e) => Err("invalid date '"@ + s + "': "@ + e),
    }
}

fn parse_bound(s: &str, end: bool) -> (r: Result<i64, CommError>)
    ensures
        match date_bound_spec(s@, end) {
            Ok(t) => r == Ok::<i64, CommError>(t as i64),
            Err(m) => r matches Err(CommError::Config(msg)) && msg@ == m,
        },
{
    let t = string_of(&trimmed(&chars_of(s)));
    let parsed = parse_ymd(t.as_str());
    date_bound(s, parsed, end)
}

impl PeriodFilter {
    /// Build from `YYYY-MM-DD` date strings (either or both may be absent):
    /// from 00:00:00 of `from` to 23:59:59 of `to`. The first date that does
    /// not parse is reported.
    pub fn from_dates(from: Option<&str>, to: Option<&str>) -> (r: Result<Self, CommError>)
        ensures
            match (from, to) {
                (Some(f), _) if date_bound_spec(f@, false) is Err => config_error(
                    r,
                    date_bound_spec(f@, false)->Err_0,
                ),
                (_, Some(t)) if date_bound_spec(t@, true) is Err => config_error(
                    r,
                    date_bound_spec(t@, true)->Err_0,
                ),
                _ => r matches Ok(p) && p.from == (match from {
                    Some(f) => Some(date_bound_spec(f@, false)->Ok_0 as i64),
                    None => None,
                }) && p.to == (match to {
                    Some(t) => Some(date_bound_spec(t@, true)->Ok_0 as i64),
                    None => None,
                }),
            },
    {
        let lo = match from {
            Some(s) => match parse_bound(s, false) {
                Ok(t) => Some(t),
                Err(e) => {
                    return Err(e);
                },
            },
            None => None,
        };
        let hi = match to {
            Some(s) => match parse_bound(s, true) {
                Ok(t) => Some(t),
                Err(e) => {
                    return Err(e);
                },
            },
            None => None,
        };
        let res: Result<PeriodFilter, CommError> = Ok(PeriodFilter { from: lo, to: hi });
        res
    }
}

/// Every message that `apply_filters` keeps passes both filters, and the
/// kept messages never outnumber the input.
pub proof fn lemma_filtered_pass(msgs: Seq<Message>, period: PeriodFilter, channel_ids: Seq<Seq<char>>)
    ensures
        filtered(msgs, period, channel_ids).len() <= msgs.len(),
        forall|i: int|
            0 <= i < filtered(msgs, period, channel_ids).len() ==> passes(
                #[trigger] filtered(msgs, period, channel_ids)[i],
                period,
                channel_ids,
            ),
    decreases msgs.len(),
{
    if msgs.len() > 0 {
        let r = filtered(msgs.drop_last(), period, channel_ids);
        lemma_filtered_pass(msgs.drop_last(), period, channel_ids);
        if passes(msgs.last(), period, channel_ids) {
            assert forall|i: int| 0 <= i < r.push(msgs.last()).len() implies passes(
                #[trigger] r.push(msgs.last())[i],
                period,
                channel_ids,
            ) by {
                if i < r.len() {
                    assert(r.push(msgs.last())[i] == r[i]);
                }
            }
        }
    }
}

/// Consecutive years start 364 to 366 days apart in the era arithmetic of
/// `days_from_civil` (the part that depends on the shifted year alone).
proof fn lemma_year_step(yy: int)
    ensures
        364 <= (((yy + 1) / 400) * 146097 + ((yy + 1) - ((yy + 1) / 400) * 400) * 365 + ((yy + 1)
            - ((yy + 1) / 400) * 400) / 4 - ((yy + 1) - ((yy + 1) / 400) * 400) / 100) - ((yy / 400)
            * 146097 + (yy - (yy / 400) * 400) * 365 + (yy - (yy / 400) * 400) / 4 - (yy - (yy / 400)
            * 400) / 100) <= 366,
{
    let era = yy / 400;
    let yoe = yy - era * 400;
    assert(0 <= yoe < 400) by (nonlinear_arith)
        requires
            era == yy / 400,
            yoe == yy - era * 400,
    ;
    if yoe < 399 {
        assert((yy + 1) / 400 == era) by (nonlinear_arith)
            requires
                era == yy / 400,
                yoe == yy - era * 400,
                0 <= yoe < 399,
        ;
        assert(364 <= 365 + (yoe + 1) / 4 - yoe / 4 - ((yoe + 1) / 100 - yoe / 100) <= 366)
            by (nonlinear_arith)
            requires
                0 <= yoe < 399,
        ;
    } else {
        assert((yy + 1) / 400 == era + 1) by (nonlinear_arith)
            requires
                era == yy / 400,
                yoe == yy - era * 400,
                yoe == 399,
        ;
    }
}

/// The first day of the next month comes at least 27 days after the first
/// day of month `(y, m)`.
proof fn lemma_month_step(y: int, m: int)
    requires
        1 <= m <= 12,
    ensures
        days_from_civil(next_month(y, m).0, next_month(y, m).1, 1) >= days_from_civil(y, m, 1) + 27,
{
    if m == 2 {
        lemma_year_step(y - 1);
    }
}

/// A fiscal quarter's filter starts before it ends: its first instant
/// precedes its last by more than two months.
pub proof fn lemma_quarter_bounds_ordered(q: int, fy: int, fsm: int)
    requires
        1 <= q <= 4,
        1 <= fsm <= 12,
    ensures
        quarter_bounds(q, fy, fsm).0 < quarter_bounds(q, fy, fsm).1,
{
    let (sy, sm) = quarter_start(q, fy, fsm);
    assert(1 <= sm <= 12);
    let (y1, m1) = next_month(sy, sm);
    let (y2, m2) = next_month(y1, m1);
    let (y3, m3) = next_month(y2, m2);
    assert(quarter_end(q, fy, fsm) == (y2, m2));
    lemma_month_step(sy, sm);
    lemma_month_step(y1, m1);
    lemma_month_step(y2, m2);
    let d0 = days_from_civil(sy, sm, 1);
    let d3 = days_from_civil(y3, m3, 1);
    assert(d3 >= d0 + 81);
    assert((d3 - 1) * micros_per_day() + 86_399_000_000 > d0 * micros_per_day()) by (nonlinear_arith)
        requires
            d3 >= d0 + 81,
            micros_per_day() == 86_400_000_000,
    ;
}

/// The year text of a quarter spec: one or more ASCII digits whose value
/// fits `i32`.
pub open spec fn quarter_year_text(ys: Seq<char>) -> bool {
    ys.len() > 0 && all_digits(ys) && digits_value(ys) <= i32::MAX
}

proof fn lemma_upper_identity(s: Seq<char>)
    requires
        forall|i: int| 0 <= i < s.len() ==> !('a' <= #[trigger] s[i] <= 'z'),
    ensures
        ascii_upper(s) == s,
{
    assert(ascii_upper(s) =~= s);
}

proof fn lemma_trim_identity(s: Seq<char>)
    requires
        s.len() > 0,
        !is_white_space(s[0]),
        !is_white_space(s.last()),
    ensures
        trim(s) == s,
{
    let e = Seq::<char>::empty();
    assert(all_white_space(e));
    lemma_trim_padding(e, s, e);
    assert(e + s + e =~= s);
}

/// The first occurrence of `pat` in `s` is at `pre` when none of the first
/// `pre` chars starts it.
proof fn lemma_find_at(s: Seq<char>, pat: Seq<char>, pre: int, i: int)
    requires
        0 <= i <= pre,
        pat.len() > 0,
        occurs_at(s, pat, pre),
        forall|k: int| 0 <= k < pre ==> #[trigger] s[k] != pat[0],
    ensures
        find_from(s, pat, i) == Some(pre),
    decreases pre - i,
{
    if i < pre {
        assert(s.subrange(i, i + pat.len())[0] == s[i]);
        lemma_find_at(s, pat, pre, i + 1);
    }
}

/// No occurrence of `pat` when no char of `s` starts it.
proof fn lemma_find_none(s: Seq<char>, pat: Seq<char>, i: int)
    requires
        i >= 0,
        pat.len() > 0,
        forall|k: int| 0 <= k < s.len() ==> #[trigger] s[k] != pat[0],
    ensures
        find_from(s, pat, i) is None,
    decreases s.len() + 1 - i,
{
    if i + pat.len() <= s.len() {
        assert(s.subrange(i, i + pat.len())[0] == s[i]);
        lemma_find_none(s, pat, i + 1);
    }
}

proof fn lemma_parse_digits(ys: Seq<char>, lo: int, hi: int, signed: bool)
    requires
        ys.len() > 0,
        all_digits(ys),
        lo <= 0,
        digits_value(ys) <= hi,
    ensures
        trim(ys) == ys,
        parse_int(ys, lo, hi, signed) == Some(digits_value(ys) as int),
{
    assert(is_digit(ys[0]) && is_digit(ys.last()));
    lemma_trim_identity(ys);
}

/// What a quarter spec with year text `ys` and quarter digit `d` names:
/// `(q, year)` when `q` is 1 to 4, else nothing.
pub open spec fn quarter_text_value(ys: Seq<char>, d: char) -> Option<(int, int)> {
    if '1' <= d <= '4' {
        Some(((d as int) - 48, digits_value(ys) as int))
    } else {
        None
    }
}

/// The four accepted spellings of a quarter: `FY<y>-Q<q>`, `<y>-Q<q>`,
/// `Q<q>-<y>` and `<y>Q<q>`.
pub open spec fn quarter_forms(ys: Seq<char>, d: char) -> Seq<Seq<char>> {
    seq![
        "FY"@ + ys + "-Q"@ + seq![d],
        ys + "-Q"@ + seq![d],
        "Q"@ + seq![d] + "-"@ + ys,
        ys + "Q"@ + seq![d],
    ]
}

/// The accepted quarter forms `FY<y>-Q<q>`, `<y>-Q<q>`, `Q<q>-<y>` and
/// `<y>Q<q>` name the same quarter, and none when the quarter digit is not
/// 1 to 4.
pub proof fn lemma_quarter_forms_agree(ys: Seq<char>, d: char)
    requires
        quarter_year_text(ys),
        '0' <= d <= '9',
    ensures
        parse_quarter("FY"@ + ys + "-Q"@ + seq![d]) == quarter_text_value(ys, d),
        parse_quarter(ys + "-Q"@ + seq![d]) == quarter_text_value(ys, d),
        parse_quarter("Q"@ + seq![d] + "-"@ + ys) == quarter_text_value(ys, d),
        parse_quarter(ys + "Q"@ + seq![d]) == quarter_text_value(ys, d),
{
    reveal_strlit("FY");
    reveal_strlit("-Q");
    reveal_strlit("Q");
    reveal_strlit("-");
    let ds = seq![d];
    let n = ys.len() as int;
    assert(digits_value(ds) == (d as int) - 48) by {
        assert(ds.drop_last() =~= Seq::<char>::empty());
        assert(digits_value(Seq::<char>::empty()) == 0);
        assert(ds.last() == d);
    }
    lemma_parse_digits(ds, 0, u32::MAX as int, false);
    lemma_parse_digits(ys, i32::MIN as int, i32::MAX as int, true);
    assert(forall|k: int| 0 <= k < n ==> is_digit(#[trigger] ys[k]));

    // FY<y>-Q<q>
    let s1 = "FY"@ + ys + "-Q"@ + ds;
    assert forall|i: int| 0 <= i < s1.len() implies !('a' <= #[trigger] s1[i] <= 'z') by {
        if 2 <= i < 2 + n {
            assert(s1[i] == ys[i - 2]);
        }
    }
    lemma_upper_identity(s1);
    lemma_trim_identity(s1);
    assert(occurs_at(s1, "FY"@, 0)) by {
        assert(s1.subrange(0, 2) =~= "FY"@);
    }
    let t1 = s1.skip(2);
    assert(t1 =~= ys + "-Q"@ + ds);
    assert(occurs_at(t1, "-Q"@, n)) by {
        assert(t1.subrange(n, n + 2) =~= "-Q"@);
    }
    assert forall|k: int| 0 <= k < n implies #[trigger] t1[k] != "-Q"@[0] by {
        assert(t1[k] == ys[k]);
    }
    lemma_find_at(t1, "-Q"@, n, 0);
    assert(t1.take(n) =~= ys);
    assert(t1.skip(n + 2) =~= ds);

    // <y>-Q<q>
    let s2 = ys + "-Q"@ + ds;
    assert(s2 == t1);
    lemma_trim_identity(s2);
    assert forall|i: int| 0 <= i < s2.len() implies !('a' <= #[trigger] s2[i] <= 'z') by {
        if i < n {
            assert(s2[i] == ys[i]);
        }
    }
    lemma_upper_identity(s2);
    assert(s2[0] == ys[0]);
    assert(!occurs_at(s2, "FY"@, 0)) by {
        assert(s2.subrange(0, 2)[0] == s2[0]);
    }
    assert(!occurs_at(s2, "Q"@, 0)) by {
        assert(s2.subrange(0, 1)[0] == s2[0]);
    }

    // Q<q>-<y>
    let s3 = "Q"@ + ds + "-"@ + ys;
    assert forall|i: int| 0 <= i < s3.len() implies !('a' <= #[trigger] s3[i] <= 'z') by {
        if 3 <= i {
            assert(s3[i] == ys[i - 3]);
        }
    }
    lemma_upper_identity(s3);
    assert(s3.last() == ys.last());
    lemma_trim_identity(s3);
    assert(!occurs_at(s3, "FY"@, 0)) by {
        assert(s3.subrange(0, 2)[0] == s3[0]);
    }
    assert(occurs_at(s3, "Q"@, 0)) by {
        assert(s3.subrange(0, 1) =~= "Q"@);
    }
    let t3 = s3.skip(1);
    assert(t3 =~= ds + "-"@ + ys);
    assert(occurs_at(t3, "-"@, 1)) by {
        assert(t3.subrange(1, 2) =~= "-"@);
    }
    lemma_find_at(t3, "-"@, 1, 0);
    assert(t3.take(1) =~= ds);
    assert(t3.skip(2) =~= ys);

    // <y>Q<q>
    let s4 = ys + "Q"@ + ds;
    assert forall|i: int| 0 <= i < s4.len() implies !('a' <= #[trigger] s4[i] <= 'z') by {
        if i < n {
            assert(s4[i] == ys[i]);
        }
    }
    lemma_upper_identity(s4);
    lemma_trim_identity(s4);
    assert(s4[0] == ys[0]);
    assert(!occurs_at(s4, "FY"@, 0)) by {
        assert(s4.subrange(0, 2)[0] == s4[0]);
    }
    assert(!occurs_at(s4, "Q"@, 0)) by {
        assert(s4.subrange(0, 1)[0] == s4[0]);
    }
    assert forall|k: int| 0 <= k < s4.len() implies #[trigger] s4[k] != "-Q"@[0] by {
        if k < n {
            assert(s4[k] == ys[k]);
        }
    }
    lemma_find_none(s4, "-Q"@, 0);
    assert(occurs_at(s4, "Q"@, n)) by {
        assert(s4.subrange(n, n + 1) =~= "Q"@);
    }
    assert forall|k: int| 0 <= k < n implies #[trigger] s4[k] != "Q"@[0] by {
        assert(s4[k] == ys[k]);
    }
    lemma_find_at(s4, "Q"@, n, 0);
    assert(s4.take(n) =~= ys);
    assert(s4.skip(n + 1) =~= ds);
}

/// White-space padding and ASCII case do not change which quarter a spec
/// names.
pub proof fn lemma_quarter_padding_case(p: Seq<char>, v: Seq<char>, q: Seq<char>, w: Seq<char>)
    requires
        all_white_space(p),
        all_white_space(q),
        ascii_upper(v) == ascii_upper(w),
        w.len() > 0,
        !is_white_space(w[0]),
        !is_white_space(w.last()),
    ensures
        parse_quarter(p + v + q) == parse_quarter(w),
{
    assert(ascii_upper(v).len() == v.len() && ascii_upper(w).len() == w.len());
    assert(v.len() == w.len());
    assert(ascii_upper(v)[0] == ascii_upper_char(v[0]));
    assert(ascii_upper(w)[0] == ascii_upper_char(w[0]));
    assert(ascii_upper(v)[v.len() - 1] == ascii_upper_char(v[v.len() - 1]));
    assert(ascii_upper(w)[w.len() - 1] == ascii_upper_char(w[w.len() - 1]));
    assert(!is_white_space(v[0]));
    assert(!is_white_space(v.last()));
    lemma_trim_padding(p, v, q);
    lemma_trim_identity(w);
}

/// Every spelling of a quarter names the same quarter: any of the four
/// forms, in any ASCII case, padded with white space, parses to the quarter
/// digit and the year (nothing when the digit is not 1 to 4, so
/// `PeriodFilter::quarter` answers with its configuration error). The filter
/// of a named quarter runs from 00:00:00 on the first day of its first month
/// to 23:59:59 on the day before the month that follows its third month,
/// and starts before it ends.
pub proof fn lemma_quarter_spellings(
    p: Seq<char>,
    v: Seq<char>,
    q: Seq<char>,
    k: int,
    ys: Seq<char>,
    d: char,
    fsm: int,
)
    requires
        quarter_year_text(ys),
        '0' <= d <= '9',
        0 <= k < 4,
        all_white_space(p),
        all_white_space(q),
        ascii_upper(v) == ascii_upper(quarter_forms(ys, d)[k]),
        1 <= fsm <= 12,
    ensures
        parse_quarter(p + v + q) == quarter_text_value(ys, d),
        parse_quarter(p + v + q) matches Some((qn, fy)) ==> {
            let (sy, sm) = quarter_start(qn, fy, fsm);
            let (ey, em) = quarter_end(qn, fy, fsm);
            &&& 1 <= sm <= 12
            &&& (ey, em) == next_month(next_month(sy, sm).0, next_month(sy, sm).1)
            &&& quarter_bounds(qn, fy, fsm).0 == day_start(sy, sm, 1)
            &&& quarter_bounds(qn, fy, fsm).1 == (days_from_civil(
                next_month(ey, em).0,
                next_month(ey, em).1,
                1,
            ) - 1) * micros_per_day() + 86_399_000_000
            &&& quarter_bounds(qn, fy, fsm).0 < quarter_bounds(qn, fy, fsm).1
        },
{
    reveal_strlit("FY");
    reveal_strlit("-Q");
    reveal_strlit("Q");
    reveal_strlit("-");
    lemma_quarter_forms_agree(ys, d);
    let w = quarter_forms(ys, d)[k];
    let n = ys.len() as int;
    assert(is_digit(ys[0]) && is_digit(ys[n - 1]));
    if k == 0 {
        assert(w[0] == 'F');
        assert(w.last() == d);
    } else if k == 1 {
        assert(w[0] == ys[0]);
        assert(w.last() == d);
    } else if k == 2 {
        assert(w[0] == 'Q');
        assert(w.last() == ys[n - 1]);
    } else {
        assert(w[0] == ys[0]);
        assert(w.last() == d);
    }
    lemma_quarter_padding_case(p, v, q, w);
    if '1' <= d <= '4' {
        let qn = (d as int) - 48;
        let fy = digits_value(ys) as int;
        let (sy, sm) = quarter_start(qn, fy, fsm);
        assert(1 <= sm <= 12);
        lemma_quarter_bounds_ordered(qn, fy, fsm);
    }
}

} // verus!
