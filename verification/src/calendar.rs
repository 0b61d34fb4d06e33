//! UTC calendar months of epoch-microsecond timestamps, labelled the way
//! `%Y-%m` formats them ("2025-01"; years outside 0..=9999 carry a sign and
//! at least four digits, e.g. "-0001-03", "+10000-12").

use vstd::arithmetic::div_mod::lemma_fundamental_div_mod_converse_div;
use vstd::prelude::*;

verus! {

pub open spec fn micros_per_day() -> int {
    86_400_000_000
}

/// The UTC day number (days since 1970-01-01) of an instant.
pub open spec fn utc_day(micros: int) -> int {
    micros / micros_per_day()
}

/// Proleptic Gregorian `(year, month)` of a day number (days since
/// 1970-01-01), by the standard civil-from-days conversion.
pub open spec fn civil_year_month(day: int) -> (int, int) {
    let z = day + 719468;
    let era = z / 146097;
    let doe = z - era * 146097;
    let yoe = (doe - doe / 1460 + doe / 36524 - doe / 146096) / 365;
    let y = yoe + era * 400;
    let doy = doe - (365 * yoe + yoe / 4 - yoe / 100);
    let mp = (5 * doy + 2) / 153;
    let m = if mp < 10 {
        mp + 3
    } else {
        mp - 9
    };
    (if m <= 2 {
        y + 1
    } else {
        y
    }, m)
}

pub open spec fn digit_char(d: int) -> char {
    ((d + 48) as u32) as char
}

/// Decimal digits of `n`, most significant first.
pub open spec fn decimal(n: nat) -> Seq<char>
    decreases n,
{
    if n < 10 {
        seq![digit_char(n as int)]
    } else {
        decimal(n / 10).push(digit_char((n % 10) as int))
    }
}

/// `s` left-padded with '0' to at least `w` chars.
pub open spec fn zero_pad(s: Seq<char>, w: nat) -> Seq<char> {
    if s.len() >= w {
        s
    } else {
        Seq::new((w - s.len()) as nat, |i: int| '0') + s
    }
}

/// The `%Y` rendering of a year.
pub open spec fn year_text(y: int) -> Seq<char> {
    if 0 <= y <= 9999 {
        zero_pad(decimal(y as nat), 4)
    } else if y >= 0 {
        seq!['+'] + zero_pad(decimal(y as nat), 4)
    } else {
        seq!['-'] + zero_pad(decimal((-y) as nat), 4)
    }
}

/// The `%Y-%m` label of the UTC month containing an instant.
pub open spec fn month_label(micros: int) -> Seq<char> {
    let (y, m) = civil_year_month(utc_day(micros));
    year_text(y) + seq!['-'] + zero_pad(decimal(m as nat), 2)
}

/// Floor division by a positive divisor, computed on a non-negative shift.
fn floor_div(x: i128, d: i128, shift: i128) -> (q: i128)
    requires
        d > 0,
        shift >= 0,
        x + d * shift >= 0,
        d * shift <= 0x1000_0000_0000_0000_0000_0000_0000,
        -0x1000_0000_0000_0000_0000_0000_0000 <= x <= 0x1000_0000_0000_0000_0000_0000_0000,
        d <= 0x1_0000_0000_0000,
    ensures
        q == x / d,
{
    let s = x + d * shift;
    let q0 = s / d;
    let r = s % d;
    proof {
        assert(s == d * q0 + r && 0 <= r < d) by (nonlinear_arith)
            requires
                q0 == s / d,
                r == s % d,
                d > 0,
                s >= 0,
        ;
        assert(x == d * (q0 - shift) + r) by (nonlinear_arith)
            requires
                s == d * q0 + r,
                s == x + d * shift,
        ;
        lemma_fundamental_div_mod_converse_div(x as int, d as int, q0 - shift, r as int);
    }
    q0 - shift
}

/// `civil_year_month` of a day number within +-110 million days.
fn civil_exec(day: i128) -> (r: (i128, i128))
    requires
        -110_000_000 <= day <= 110_000_000,
    ensures
        r.0 == civil_year_month(day as int).0,
        r.1 == civil_year_month(day as int).1,
        1 <= r.1 <= 12,
        -400_000 <= r.0 <= 400_000,
{
    let z = day + 719468;
    let era = floor_div(z, 146097, 1000);
    assert(-1000 <= era <= 1000) by (nonlinear_arith)
        requires
            era == z / 146097,
            -120_000_000 <= z <= 120_000_000,
    ;
    let doe = z - era * 146097;
    assert(0 <= doe < 146097) by (nonlinear_arith)
        requires
            era == z / 146097,
            doe == z - era * 146097,
    ;
    let yoe = (doe - doe / 1460 + doe / 36524 - doe / 146096) / 365;
    assert(0 <= yoe <= 400) by (nonlinear_arith)
        requires
            0 <= doe < 146097,
            yoe == (doe - doe / 1460 + doe / 36524 - doe / 146096) / 365,
    ;
    let y = yoe + era * 400;
    let doy = doe - (365 * yoe + yoe / 4 - yoe / 100);
    assert(0 <= doy <= 400) by (nonlinear_arith)
        requires
            0 <= doe < 146097,
            yoe == (doe - doe / 1460 + doe / 36524 - doe / 146096) / 365,
            doy == doe - (365 * yoe + yoe / 4 - yoe / 100),
    ;
    let mp = (5 * doy + 2) / 153;
    assert(0 <= mp <= 13) by (nonlinear_arith)
        requires
            0 <= doy <= 400,
            mp == (5 * doy + 2) / 153,
    ;
    let m = if mp < 10 { mp + 3 } else { mp - 9 };
    let year = if m <= 2 { y + 1 } else { y };
    assert(1 <= m <= 12) by (nonlinear_arith)
        requires
            0 <= doe < 146097,
            yoe == (doe - doe / 1460 + doe / 36524 - doe / 146096) / 365,
            doy == doe - (365 * yoe + yoe / 4 - yoe / 100),
            mp == (5 * doy + 2) / 153,
            m == (if mp < 10 { mp + 3 } else { mp - 9 }),
    ;
    (year, m)
}

fn digit_char_exec(d: u32) -> (c: char)
    requires
        d < 10,
    ensures
        c == digit_char(d as int),
{
    let b: u8 = (d + 48) as u8;
    b as char
}

fn decimal_exec(n: u64) -> (r: Vec<char>)
    ensures
        r@ == decimal(n as nat),
    decreases n,
{
    if n < 10 {
        let mut v: Vec<char> = Vec::new();
        v.push(digit_char_exec(n as u32));
        v
    } else {
        let mut v = decimal_exec(n / 10);
        v.push(digit_char_exec((n % 10) as u32));
        v
    }
}

fn zero_pad_exec(s: Vec<char>, w: usize) -> (r: Vec<char>)
    ensures
        r@ == zero_pad(s@, w as nat),
{
    if s.len() >= w {
        return s;
    }
    let mut r: Vec<char> = Vec::new();
    let fill = w - s.len();
    let mut k: usize = 0;
    while k < fill
        invariant
            k <= fill,
            r@ == Seq::new(k as nat, |i: int| '0'),
        decreases fill - k,
    {
        r.push('0');
        k = k + 1;
        assert(r@ =~= Seq::new(k as nat, |i: int| '0'));
    }
    let mut j: usize = 0;
    while j < s.len()
        invariant
            j <= s.len(),
            r@ == Seq::new(fill as nat, |i: int| '0') + s@.take(j as int),
        decreases s.len() - j,
    {
        r.push(s[j]);
        j = j + 1;
        assert(r@ =~= Seq::new(fill as nat, |i: int| '0') + s@.take(j as int));
    }
    assert(s@.take(s.len() as int) =~= s@);
    r
}

/// The `%Y` rendering of a year.
fn year_text_exec(year: i128) -> (r: Vec<char>)
    requires
        -400_000 <= year <= 400_000,
    ensures
        r@ == year_text(year as int),
{
    if 0 <= year && year <= 9999 {
        zero_pad_exec(decimal_exec(year as u64), 4)
    } else if year >= 0 {
        let mut v: Vec<char> = Vec::new();
        v.push('+');
        let mut d = zero_pad_exec(decimal_exec(year as u64), 4);
        let ghost dv = d@;
        v.append(&mut d);
        assert(v@ =~= seq!['+'] + dv);
        v
    } else {
        let mut v: Vec<char> = Vec::new();
        v.push('-');
        let mut d = zero_pad_exec(decimal_exec((-year) as u64), 4);
        let ghost dv = d@;
        v.append(&mut d);
        assert(v@ =~= seq!['-'] + dv);
        v
    }
}

/// The `%Y-%m` label of the UTC month of `micros` (microseconds since the
/// Unix epoch).
pub fn month_label_of(micros: i64) -> (r: Vec<char>)
    ensures
        r@ == month_label(micros as int),
{
    let day = floor_div(micros as i128, 86_400_000_000, 110_000_000);
    assert(-110_000_000 <= day <= 110_000_000) by (nonlinear_arith)
        requires
            day == (micros as int) / 86_400_000_000,
            -0x8000_0000_0000_0000 <= micros < 0x8000_0000_0000_0000,
    ;
    let (year, m) = civil_exec(day);
    let mut label = year_text_exec(year);
    label.push('-');
    let mut mm = zero_pad_exec(decimal_exec(m as u64), 2);
    let ghost mv = mm@;
    label.append(&mut mm);
    assert(label@ =~= year_text(year as int) + seq!['-'] + zero_pad(decimal(m as nat), 2));
    label
}

} // verus!
