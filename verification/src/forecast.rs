//! Forecast-ledger timekeeping: canonical UTC timestamps
//! (`YYYY-MM-DDTHH:MM:SSZ`) — recognising them, the calendar arithmetic
//! behind them, and writing the current time in that form.
//!
//! Every ledger in the library keys its ordering on these strings, so the
//! canonical form is the only one accepted at a write boundary: a
//! fractional-seconds or offset form would sort out of chronological order.

use vstd::prelude::*;
use crate::text::{chars_of, empty_string, lex_lt, owned, push_char, str_eq};
use crate::corpus::{hex_digit, hex_fixed};
use crate::json::{artifact_parsed, lookup_field, lookup_path, parse_artifact, path_segments, scalar_string, scalar_text, Json};

verus! {

/// `c` is an ASCII decimal digit.
pub open spec fn is_digit(c: char) -> bool {
    48 <= (c as int) <= 57
}

/// The value of an ASCII decimal digit.
pub open spec fn digit_value(c: char) -> int {
    (c as int) - 48
}

/// The two-digit number at positions `i`, `i + 1`.
pub open spec fn num2(s: Seq<char>, i: int) -> int {
    10 * digit_value(s[i]) + digit_value(s[i + 1])
}

/// The four-digit number at positions `i` .. `i + 3`.
pub open spec fn num4(s: Seq<char>, i: int) -> int {
    100 * num2(s, i) + num2(s, i + 2)
}

/// The fixed layout: 20 characters, separators at their places, digits
/// everywhere else.
pub open spec fn canonical_layout(s: Seq<char>) -> bool {
    &&& s.len() == 20
    &&& forall|i: int|
        0 <= i < 20 ==> {
            let c = #[trigger] s[i];
            if i == 4 || i == 7 {
                c == '-'
            } else if i == 10 {
                c == 'T'
            } else if i == 13 || i == 16 {
                c == ':'
            } else if i == 19 {
                c == 'Z'
            } else {
                is_digit(c)
            }
        }
}

pub open spec fn ts_year(s: Seq<char>) -> int {
    num4(s, 0)
}

pub open spec fn ts_month(s: Seq<char>) -> int {
    num2(s, 5)
}

pub open spec fn ts_day(s: Seq<char>) -> int {
    num2(s, 8)
}

pub open spec fn ts_hour(s: Seq<char>) -> int {
    num2(s, 11)
}

pub open spec fn ts_minute(s: Seq<char>) -> int {
    num2(s, 14)
}

pub open spec fn ts_second(s: Seq<char>) -> int {
    num2(s, 17)
}

/// `YYYY-MM-DDTHH:MM:SSZ` with month 1–12, day 1–31, hour < 24, minute and
/// second < 60.
pub open spec fn canonical_utc(s: Seq<char>) -> bool {
    &&& canonical_layout(s)
    &&& 1 <= ts_month(s) <= 12
    &&& 1 <= ts_day(s) <= 31
    &&& ts_hour(s) < 24
    &&& ts_minute(s) < 60
    &&& ts_second(s) < 60
}

/// Days from 1970-01-01 to the proleptic-Gregorian date `(y, m, d)`: 365 a
/// year plus the leap days, counting years from March so that February's
/// length only affects the year after it.
pub open spec fn civil_day_number(y: int, m: int, d: int) -> int {
    let y = if m <= 2 { y - 1 } else { y };
    let mp = if m > 2 { m - 3 } else { m + 9 };
    365 * y + y / 4 - y / 100 + y / 400 + (153 * mp + 2) / 5 + d - 1 - 719468
}

/// Seconds since the epoch that a canonical timestamp denotes.
pub open spec fn epoch_of(s: Seq<char>) -> int {
    civil_day_number(ts_year(s), ts_month(s), ts_day(s)) * 86400 + ts_hour(s) * 3600 + ts_minute(
        s,
    ) * 60 + ts_second(s)
}

/// The value of a digit character.
pub(crate) fn digit(c: char) -> (r: u32)
    requires
        is_digit(c),
    ensures
        r == digit_value(c),
        r <= 9,
{
    (c as u32) - 48
}

/// Whether `ts` is canonical UTC (`YYYY-MM-DDTHH:MM:SSZ`).
///
/// Offsets and fractional seconds are refused: `…T18:00:00.500Z` would sort
/// before `…T18:00:00Z` under string comparison (`.` < `Z`).
pub fn is_canonical_utc(ts: &str) -> (r: bool)
    ensures
        r == canonical_utc(ts@),
{
    let cs = chars_of(ts);
    if cs.len() != 20 {
        return false;
    }
    let mut i: usize = 0;
    while i < 20
        invariant
            cs@ == ts@,
            cs@.len() == 20,
            i <= 20,
            forall|j: int|
                0 <= j < i ==> {
                    let c = #[trigger] cs@[j];
                    if j == 4 || j == 7 {
                        c == '-'
                    } else if j == 10 {
                        c == 'T'
                    } else if j == 13 || j == 16 {
                        c == ':'
                    } else if j == 19 {
                        c == 'Z'
                    } else {
                        is_digit(c)
                    }
                },
        decreases 20 - i,
    {
        let c = cs[i];
        let ok = if i == 4 || i == 7 {
            c == '-'
        } else if i == 10 {
            c == 'T'
        } else if i == 13 || i == 16 {
            c == ':'
        } else if i == 19 {
            c == 'Z'
        } else {
            '0' <= c && c <= '9'
        };
        if !ok {
            proof {
                assert(!canonical_layout(ts@)) by {
                    let k = i as int;
                    assert(ts@[k] == c);
                }
            }
            return false;
        }
        i = i + 1;
    }
    let month = digit(cs[5]) * 10 + digit(cs[6]);
    let day = digit(cs[8]) * 10 + digit(cs[9]);
    let hour = digit(cs[11]) * 10 + digit(cs[12]);
    let minute = digit(cs[14]) * 10 + digit(cs[15]);
    let second = digit(cs[17]) * 10 + digit(cs[18]);
    1 <= month && month <= 12 && 1 <= day && day <= 31 && hour < 24 && minute < 60 && second < 60
}

/// Gregorian leap year.
pub open spec fn is_leap(y: int) -> bool {
    y % 4 == 0 && (y % 100 != 0 || y % 400 == 0)
}

/// Length of month `m` (1–12) of year `y`.
pub open spec fn days_in_month(y: int, m: int) -> int {
    if m == 2 {
        if is_leap(y) {
            29
        } else {
            28
        }
    } else if m == 4 || m == 6 || m == 9 || m == 11 {
        30
    } else {
        31
    }
}

/// `(y, m, d)` names a day of the proleptic Gregorian calendar.
pub open spec fn valid_date(y: int, m: int, d: int) -> bool {
    1 <= m <= 12 && 1 <= d <= days_in_month(y, m)
}

/// Within a 400-year era, Hinnant's year-of-era estimate lands the day in
/// its year, and the year's 366th day only occurs in a leap year.
#[verifier::rlimit(100)]
proof fn lemma_year_of_era(doe: u64)
    by (bit_vector)
    requires
        doe < 146097,
    ensures
        ({
            let yoe = (doe - doe / 1460 + doe / 36524 - doe / 146096) / 365;
            let base = 365 * yoe + yoe / 4 - yoe / 100;
            &&& yoe <= 399
            &&& base <= doe
            &&& doe - base <= 365
            &&& (doe - base == 365 ==> ((yoe + 1) % 4 == 0 && ((yoe + 1) % 100 != 0 || yoe == 399)))
        }),
{
}

/// Splitting a March-based day-of-year into month and day.
proof fn lemma_month_of_year(doy: u64)
    by (bit_vector)
    requires
        doy <= 365,
    ensures
        ({
            let mp = (5 * doy + 2) / 153;
            let d = doy - (153 * mp + 2) / 5 + 1;
            &&& mp <= 11
            &&& (153 * mp + 2) / 5 <= doy
            &&& 1 <= d
            &&& d <= (if mp == 1 || mp == 3 || mp == 6 || mp == 8 { 30u64 } else if mp == 11 { 29u64 } else { 31u64 })
            &&& (mp == 11 && d == 29 ==> doy == 365)
        }),
{
}

/// Splitting a year into its 400-year era and year-of-era commutes with the
/// leap-rule divisions.
proof fn lemma_year_split(era: int, yoe: int)
    requires
        0 <= era,
        0 <= yoe < 400,
    ensures
        (400 * era + yoe) / 4 == 100 * era + yoe / 4,
        (400 * era + yoe) / 100 == 4 * era + yoe / 100,
        (400 * era + yoe) / 400 == era,
        (400 * era + yoe + 1) % 4 == (yoe + 1) % 4,
        (400 * era + yoe + 1) % 100 == (yoe + 1) % 100,
        yoe == 399 ==> (400 * era + yoe + 1) % 400 == 0,
{
    let x = 400 * era + yoe;
    vstd::arithmetic::div_mod::lemma_fundamental_div_mod_converse(x, 4, 100 * era + yoe / 4, yoe % 4);
    vstd::arithmetic::div_mod::lemma_fundamental_div_mod_converse(x, 100, 4 * era + yoe / 100, yoe % 100);
    vstd::arithmetic::div_mod::lemma_fundamental_div_mod_converse(x, 400, era, yoe);
    vstd::arithmetic::div_mod::lemma_fundamental_div_mod_converse(
        x + 1,
        4,
        100 * era + (yoe + 1) / 4,
        (yoe + 1) % 4,
    );
    vstd::arithmetic::div_mod::lemma_fundamental_div_mod_converse(
        x + 1,
        100,
        4 * era + (yoe + 1) / 100,
        (yoe + 1) % 100,
    );
    if yoe == 399 {
        vstd::arithmetic::div_mod::lemma_fundamental_div_mod_converse(x + 1, 400, era + 1, 0);
    }
}

/// The closed-form day count agrees with the era decomposition.
proof fn lemma_days_by_era(year: int, m: int, d: int, era: int, yoe: int, mp: int)
    requires
        0 <= era,
        0 <= yoe < 400,
        0 <= mp <= 11,
        m == (if mp < 10 { mp + 3 } else { mp - 9 }),
        year == (if m <= 2 { 400 * era + yoe + 1 } else { 400 * era + yoe }),
    ensures
        civil_day_number(year, m, d) == era * 146097 + (365 * yoe + yoe / 4 - yoe / 100) + (153 * mp
            + 2) / 5 + d - 1 - 719468,
{
    lemma_year_split(era, yoe);
    let y = 400 * era + yoe;
    assert(365 * y == 146000 * era + 365 * yoe);
}

/// `(y, m, d)` for the day `z` days after 1970-01-01, by Howard Hinnant's
/// `civil_from_days`.
fn civil_from_days(z: u64) -> (r: (i64, u32, u32))
    requires
        z <= 0x1_0000_0000_0000,
    ensures
        valid_date(r.0 as int, r.1 as int, r.2 as int),
        civil_day_number(r.0 as int, r.1 as int, r.2 as int) == z,
        r.0 >= 1970,
{
    let zz: u64 = z + 719_468;
    let era: u64 = zz / 146_097;
    let doe: u64 = zz - era * 146_097;
    proof {
        lemma_year_of_era(doe);
    }
    let yoe: u64 = (doe - doe / 1460 + doe / 36_524 - doe / 146_096) / 365;
    let y: u64 = yoe + era * 400;
    let doy: u64 = doe - (365 * yoe + yoe / 4 - yoe / 100);
    proof {
        lemma_month_of_year(doy);
    }
    let mp: u64 = (5 * doy + 2) / 153;
    let d: u64 = doy - (153 * mp + 2) / 5 + 1;
    let m: u64 = if mp < 10 { mp + 3 } else { mp - 9 };
    let year: u64 = if m <= 2 { y + 1 } else { y };
    proof {
        lemma_days_by_era(year as int, m as int, d as int, era as int, yoe as int, mp as int);
        lemma_year_split(era as int, yoe as int);
        assert(zz == era * 146097 + doe);
    }
    (year as i64, m as u32, d as u32)
}

/// The decimal character for a digit value.
pub open spec fn digit_char(v: int) -> char {
    (v + 48) as char
}

/// The decimal representation of `n`, most significant digit first.
pub open spec fn decimal(n: nat) -> Seq<char>
    decreases n,
{
    if n < 10 {
        seq![digit_char(n as int)]
    } else {
        decimal(n / 10).push(digit_char((n % 10) as int))
    }
}

/// The decimal representation of `n`, left-padded with zeros to `width`.
pub open spec fn padded(n: nat, width: nat) -> Seq<char> {
    let digits = decimal(n);
    if digits.len() < width {
        Seq::new((width - digits.len()) as nat, |i: int| '0') + digits
    } else {
        digits
    }
}

/// `YYYY-MM-DDTHH:MM:SSZ` for the given fields (wider years use more digits).
pub open spec fn render_utc(y: nat, mo: nat, d: nat, h: nat, mi: nat, s: nat) -> Seq<char> {
    padded(y, 4) + seq!['-'] + padded(mo, 2) + seq!['-'] + padded(d, 2) + seq!['T'] + padded(h, 2)
        + seq![':'] + padded(mi, 2) + seq![':'] + padded(s, 2) + seq!['Z']
}

fn digit_char_exec(v: u64) -> (c: char)
    requires
        v < 10,
    ensures
        c == digit_char(v as int),
        is_digit(c),
        digit_value(c) == v,
{
    if v == 0 { '0' } else if v == 1 { '1' } else if v == 2 { '2' } else if v == 3 { '3' }
    else if v == 4 { '4' } else if v == 5 { '5' } else if v == 6 { '6' } else if v == 7 { '7' }
    else if v == 8 { '8' } else { '9' }
}

fn push_decimal(out: &mut Vec<char>, n: u64)
    ensures
        final(out)@ == old(out)@ + decimal(n as nat),
    decreases n,
{
    if n >= 10 {
        push_decimal(out, n / 10);
    }
    let c = digit_char_exec(n % 10);
    out.push(c);
    proof {
        if n >= 10 {
            assert(old(out)@ + decimal(n as nat) =~= old(out)@ + decimal((n / 10) as nat) + seq![c]);
        } else {
            assert(old(out)@ + decimal(n as nat) =~= old(out)@ + seq![c]);
        }
    }
}

fn push_padded(out: &mut Vec<char>, n: u64, width: usize)
    ensures
        final(out)@ == old(out)@ + padded(n as nat, width as nat),
{
    let mut digits: Vec<char> = Vec::new();
    push_decimal(&mut digits, n);
    proof {
        assert(digits@ =~= decimal(n as nat));
    }
    let ghost start = out@;
    if digits.len() < width {
        let zeros = width - digits.len();
        let mut i: usize = 0;
        while i < zeros
            invariant
                i <= zeros,
                out@ == start + Seq::new(i as nat, |j: int| '0'),
            decreases zeros - i,
        {
            out.push('0');
            proof {
                assert(start + Seq::new((i + 1) as nat, |j: int| '0') =~= start + Seq::new(
                    i as nat,
                    |j: int| '0',
                ).push('0'));
            }
            i = i + 1;
        }
    }
    let mut k: usize = 0;
    let ghost mid = out@;
    while k < digits.len()
        invariant
            k <= digits@.len(),
            out@ == mid + digits@.take(k as int),
        decreases digits@.len() - k,
    {
        out.push(digits[k]);
        proof {
            assert(mid + digits@.take(k + 1) =~= (mid + digits@.take(k as int)).push(digits@[k as int]));
        }
        k = k + 1;
    }
    proof {
        assert(digits@.take(digits@.len() as int) =~= digits@);
        assert(out@ =~= start + padded(n as nat, width as nat));
    }
}

/// The characters of `render_utc` for the given fields.
fn render_fields(y: u64, mo: u64, d: u64, h: u64, mi: u64, sec: u64) -> (out: Vec<char>)
    ensures
        out@ == render_utc(y as nat, mo as nat, d as nat, h as nat, mi as nat, sec as nat),
{
    let mut out: Vec<char> = Vec::new();
    push_padded(&mut out, y, 4);
    let ghost a = out@;
    out.push('-');
    push_padded(&mut out, mo, 2);
    let ghost b = out@;
    assert(b =~= a + seq!['-'] + padded(mo as nat, 2));
    out.push('-');
    push_padded(&mut out, d, 2);
    let ghost c = out@;
    assert(c =~= b + seq!['-'] + padded(d as nat, 2));
    out.push('T');
    push_padded(&mut out, h, 2);
    let ghost e = out@;
    assert(e =~= c + seq!['T'] + padded(h as nat, 2));
    out.push(':');
    push_padded(&mut out, mi, 2);
    let ghost f = out@;
    assert(f =~= e + seq![':'] + padded(mi as nat, 2));
    out.push(':');
    push_padded(&mut out, sec, 2);
    let ghost g = out@;
    assert(g =~= f + seq![':'] + padded(sec as nat, 2));
    out.push('Z');
    assert(out@ =~= render_utc(y as nat, mo as nat, d as nat, h as nat, mi as nat, sec as nat));
    out
}

/// Canonical UTC for `secs` seconds after the Unix epoch.
pub fn format_utc(secs: u64) -> (r: String)
    ensures
        format_spec_holds(r@, secs),
{
    let days = secs / 86_400;
    let rem = secs % 86_400;
    let (y, m, d) = civil_from_days(days);
    let out = render_fields(y as u64, m as u64, d as u64, rem / 3600, (rem % 3600) / 60, rem % 60);
    proof {
        assert(rem / 3600 == secs % 86400 / 3600);
        assert((rem % 3600) / 60 == secs % 3600 / 60) by {
            vstd::arithmetic::div_mod::lemma_mod_mod(secs as int, 3600, 24);
        }
        assert(rem % 60 == secs % 60) by {
            vstd::arithmetic::div_mod::lemma_mod_mod(secs as int, 60, 1440);
        }
        assert(civil_day_number(y as int, m as int, d as int) == secs / 86400);
    }
    crate::text::string_from_chars(out.as_slice())
}

/// Seconds since the Unix epoch, read from `SystemTime::now` (0 when the
/// clock reads before the epoch). Trusted, and nothing is claimed of the
/// value: it is whatever the clock reads.
#[verifier::external_body]
fn unix_now_secs() -> u64 {
    std::time::SystemTime::now().duration_since(std::time::UNIX_EPOCH).map(|d| d.as_secs()).unwrap_or(0)
}

/// The current UTC time as `YYYY-MM-DDTHH:MM:SSZ`.
pub fn rfc3339_now() -> (r: String)
    ensures
        exists|secs: u64| #![trigger format_spec_holds(r@, secs)] format_spec_holds(r@, secs),
{
    let secs = unix_now_secs();
    format_utc(secs)
}

/// `text` is what [`format_utc`] writes for `secs`.
pub open spec fn format_spec_holds(text: Seq<char>, secs: u64) -> bool {
    exists|y: int, m: int, d: int|
        #![trigger civil_day_number(y, m, d)]
        y >= 1970 && valid_date(y, m, d) && civil_day_number(y, m, d) == secs / 86400 && text
            == render_utc(
            y as nat,
            m as nat,
            d as nat,
            (secs % 86400 / 3600) as nat,
            (secs % 3600 / 60) as nat,
            (secs % 60) as nat,
        )
}

proof fn lemma_digit_char(v: int)
    requires
        0 <= v < 10,
    ensures
        is_digit(digit_char(v)),
        digit_value(digit_char(v)) == v,
{
}

/// Two zero-padded digits read back as the number written.
proof fn lemma_padded2(n: nat)
    requires
        n < 100,
    ensures
        padded(n, 2).len() == 2,
        is_digit(padded(n, 2)[0]),
        is_digit(padded(n, 2)[1]),
        num2(padded(n, 2), 0) == n,
{
    let p = padded(n, 2);
    lemma_digit_char((n / 10) as int);
    lemma_digit_char((n % 10) as int);
    if n < 10 {
        assert(decimal(n) == seq![digit_char(n as int)]);
        assert(p =~= seq!['0', digit_char(n as int)]);
    } else {
        assert(decimal(n / 10) == seq![digit_char((n / 10) as int)]);
        assert(decimal(n) =~= seq![digit_char((n / 10) as int), digit_char((n % 10) as int)]);
        assert(p =~= decimal(n));
    }
}

/// Four zero-padded digits read back as the number written.
proof fn lemma_padded4(n: nat)
    requires
        n < 10000,
    ensures
        padded(n, 4).len() == 4,
        forall|i: int| 0 <= i < 4 ==> is_digit(#[trigger] padded(n, 4)[i]),
        num4(padded(n, 4), 0) == n,
{
    let p = padded(n, 4);
    let d0 = digit_char((n / 1000) as int);
    let d1 = digit_char((n / 100 % 10) as int);
    let d2 = digit_char((n / 10 % 10) as int);
    let d3 = digit_char((n % 10) as int);
    lemma_digit_char((n / 1000) as int);
    lemma_digit_char((n / 100 % 10) as int);
    lemma_digit_char((n / 10 % 10) as int);
    lemma_digit_char((n % 10) as int);
    let z = digit_char(0);
    lemma_digit_char(0);
    assert(z == '0');
    if n < 10 {
        assert(decimal(n) == seq![d3]);
        assert(p =~= seq!['0', '0', '0', d3]);
    } else if n < 100 {
        assert(decimal(n / 10) == seq![digit_char((n / 10) as int)]);
        assert(decimal(n) =~= seq![d2, d3]);
        assert(p =~= seq!['0', '0', d2, d3]);
    } else if n < 1000 {
        assert(decimal(n / 100) == seq![digit_char((n / 100) as int)]);
        assert(decimal(n / 10) =~= seq![d1, d2]);
        assert(decimal(n) =~= seq![d1, d2, d3]);
        assert(p =~= seq!['0', d1, d2, d3]);
    } else {
        assert(decimal(n / 1000) == seq![d0]);
        assert(decimal(n / 100) =~= seq![d0, d1]);
        assert(decimal(n / 10) =~= seq![d0, d1, d2]);
        assert(decimal(n) =~= seq![d0, d1, d2, d3]);
        assert(p =~= decimal(n));
    }
}

/// The last day a four-digit year can name, 9999-12-31, is day 2 932 896.
proof fn lemma_four_digit_years(y: int, m: int, d: int)
    requires
        valid_date(y, m, d),
        civil_day_number(y, m, d) < 2932897,
    ensures
        y <= 9999,
{
    if y >= 10000 {
        let yy = if m <= 2 { y - 1 } else { y };
        assert(yy >= 9999);
        assert(yy / 4 >= 2499);
        assert(yy / 100 <= yy / 4);
        assert(yy / 4 - yy / 100 >= 2424) by {
            vstd::arithmetic::div_mod::lemma_fundamental_div_mod(yy, 100);
            vstd::arithmetic::div_mod::lemma_fundamental_div_mod(yy, 4);
        }
        assert(false);
    }
}

/// A rendered timestamp with in-range fields is canonical and reads back as
/// its fields.
proof fn lemma_render_reads_back(y: nat, m: nat, d: nat, h: nat, mi: nat, s: nat)
    requires
        y < 10000,
        1 <= m <= 12,
        1 <= d <= 31,
        h < 24,
        mi < 60,
        s < 60,
    ensures
        canonical_utc(render_utc(y, m, d, h, mi, s)),
        ts_year(render_utc(y, m, d, h, mi, s)) == y,
        ts_month(render_utc(y, m, d, h, mi, s)) == m,
        ts_day(render_utc(y, m, d, h, mi, s)) == d,
        ts_hour(render_utc(y, m, d, h, mi, s)) == h,
        ts_minute(render_utc(y, m, d, h, mi, s)) == mi,
        ts_second(render_utc(y, m, d, h, mi, s)) == s,
{
    let text = render_utc(y, m, d, h, mi, s);
    lemma_padded4(y);
    lemma_padded2(m);
    lemma_padded2(d);
    lemma_padded2(h);
    lemma_padded2(mi);
    lemma_padded2(s);
    let py = padded(y, 4);
    let pm = padded(m, 2);
    let pd = padded(d, 2);
    let ph = padded(h, 2);
    let pmi = padded(mi, 2);
    let ps = padded(s, 2);
    assert(text =~= seq![py[0], py[1], py[2], py[3], '-', pm[0], pm[1], '-', pd[0], pd[1], 'T',
        ph[0], ph[1], ':', pmi[0], pmi[1], ':', ps[0], ps[1], 'Z']);
    assert(ts_year(text) == num4(py, 0));
    assert(ts_month(text) == num2(pm, 0));
    assert(ts_day(text) == num2(pd, 0));
    assert(ts_hour(text) == num2(ph, 0));
    assert(ts_minute(text) == num2(pmi, 0));
    assert(ts_second(text) == num2(ps, 0));
    assert(canonical_layout(text));
}

/// Seconds split into whole days, hours, minutes and seconds add back up.
proof fn lemma_split_seconds(secs: int)
    requires
        0 <= secs,
    ensures
        secs == (secs / 86400) * 86400 + (secs % 86400 / 3600) * 3600 + (secs % 3600 / 60) * 60
            + secs % 60,
        secs % 86400 / 3600 < 24,
        secs % 3600 / 60 < 60,
{
    vstd::arithmetic::div_mod::lemma_fundamental_div_mod(secs, 86400);
    vstd::arithmetic::div_mod::lemma_fundamental_div_mod(secs % 86400, 3600);
    vstd::arithmetic::div_mod::lemma_fundamental_div_mod(secs % 86400 % 3600, 60);
    vstd::arithmetic::div_mod::lemma_mod_mod(secs, 3600, 24);
    vstd::arithmetic::div_mod::lemma_mod_mod(secs, 60, 1440);
    vstd::arithmetic::div_mod::lemma_mod_mod(secs, 60, 60);
}

/// Reading back what [`format_utc`] wrote gives the seconds it was given, for
/// every instant up to the end of year 9999: the written form is canonical,
/// and its epoch value is `secs`.
pub proof fn law_parse_inverts_format(secs: u64, text: Seq<char>)
    requires
        format_spec_holds(text, secs),
        secs < 253402300800,
    ensures
        canonical_utc(text),
        epoch_of(text) == secs,
{
    let (y, m, d) = choose|y: int, m: int, d: int|
        #![trigger civil_day_number(y, m, d)]
        y >= 1970 && valid_date(y, m, d) && civil_day_number(y, m, d) == secs / 86400 && text
            == render_utc(
            y as nat,
            m as nat,
            d as nat,
            (secs % 86400 / 3600) as nat,
            (secs % 3600 / 60) as nat,
            (secs % 60) as nat,
        );
    lemma_four_digit_years(y, m, d);
    lemma_split_seconds(secs as int);
    lemma_render_reads_back(
        y as nat,
        m as nat,
        d as nat,
        (secs % 86400 / 3600) as nat,
        (secs % 3600 / 60) as nat,
        (secs % 60) as nat,
    );
}


/// The decimal digits of `n`, as a string.
pub fn decimal_string(n: u64) -> (s: String)
    ensures
        s@ == decimal(n as nat),
{
    let mut v: Vec<char> = Vec::new();
    push_decimal(&mut v, n);
    proof {
        assert(v@ =~= decimal(n as nat));
    }
    crate::text::string_from_chars(v.as_slice())
}


/// The ledger day-file name for a canonical timestamp (`YYYY-MM-DD.jsonl`,
/// after its date), or `None` when the timestamp is not canonical UTC — a
/// record stamped so is refused at the write boundary.
pub fn day_file_name(ts: &str) -> (r: Option<String>)
    ensures
        match r {
            Some(name) => canonical_utc(ts@) && name@ == ts@.take(10) + seq!['.', 'j', 's', 'o', 'n', 'l'],
            None => !canonical_utc(ts@),
        },
{
    if !is_canonical_utc(ts) {
        return None;
    }
    let cs = chars_of(ts);
    let mut name: Vec<char> = Vec::new();
    let mut i: usize = 0;
    while i < 10
        invariant
            cs@ == ts@,
            cs@.len() == 20,
            i <= 10,
            name@ == cs@.take(i as int),
        decreases 10 - i,
    {
        name.push(cs[i]);
        proof {
            assert(cs@.take(i as int).push(cs@[i as int]) =~= cs@.take(i + 1));
        }
        i = i + 1;
    }
    name.push('.');
    name.push('j');
    name.push('s');
    name.push('o');
    name.push('n');
    name.push('l');
    proof {
        assert(name@ =~= ts@.take(10) + seq!['.', 'j', 's', 'o', 'n', 'l']);
    }
    Some(crate::text::string_from_chars(name.as_slice()))
}

/// The forecast-record schema identity.
pub const FORECAST_SCHEMA: &'static str = "hari-forecast-record-v0.1.0";

/// Where a forecast's outcome will be read from, pinned at emission time.
#[derive(Debug, Clone, PartialEq, Eq)]
pub struct Observable {
    /// Repo-relative artifact path in the producing repo.
    pub source: String,
    /// Pointer-ish path within the artifact: `/`-separated segments; a
    /// `key=value` segment selects the first array element whose `key`
    /// string-equals `value`.
    pub field: String,
    /// The claim being forecast: `== <literal>` or `!= <literal>`.
    pub predicate: String,
}

/// How a forecast resolved.
#[derive(Debug, Clone, Copy, PartialEq, Eq, Structural)]
pub enum Outcome {
    True,
    False,
    /// Could not be scored mechanically: recorded, never dropped.
    Void,
}

/// Links from a forecast to others.
#[derive(Debug, Clone, PartialEq, Eq)]
pub struct Links {
    pub supersedes: Option<String>,
}

impl Default for Links {
    fn default() -> (l: Self)
        ensures
            l.supersedes is None,
    {
        Links { supersedes: None }
    }
}

/// A horizon has passed at `now` when it is at or before `now` in string
/// order — chronological for canonical UTC timestamps.
pub fn is_past_horizon(horizon: &str, now: &str) -> (r: bool)
    ensures
        r == crate::text::lex_le(horizon@, now@),
{
    match crate::text::compare_strs(horizon, now) {
        crate::text::KeyOrder::Greater => {
            proof {
                crate::text::lemma_lex_asymmetric(now@, horizon@);
                crate::text::lemma_lex_irreflexive(horizon@);
            }
            false
        },
        _ => true,
    }
}

/// Which forecasts are overdue at `now`: still unresolved (`pending`) with a
/// horizon that has passed. A healthy ledger has none. Indices in ledger
/// order.
pub fn overdue_unresolved(horizons: &[(String, bool)], now: &str) -> (r: Vec<usize>)
    ensures
        forall|k: int| 0 <= k < r@.len() ==> (#[trigger] r@[k]) < horizons@.len(),
        forall|a: int, b: int| 0 <= a < b < r@.len() ==> r@[a] < r@[b],
        forall|i: int|
            0 <= i < horizons@.len() ==> (r@.contains(i as usize) <==> (#[trigger] horizons@[i]).1
                && crate::text::lex_le(horizons@[i].0@, now@)),
{
    let mut r: Vec<usize> = Vec::new();
    let mut i: usize = 0;
    while i < horizons.len()
        invariant
            i <= horizons@.len(),
            forall|k: int| 0 <= k < r@.len() ==> (#[trigger] r@[k]) < i,
            forall|a: int, b: int| 0 <= a < b < r@.len() ==> r@[a] < r@[b],
            forall|j: int|
                0 <= j < i ==> (r@.contains(j as usize) <==> (#[trigger] horizons@[j]).1 && crate::text::lex_le(
                    horizons@[j].0@,
                    now@,
                )),
        decreases horizons@.len() - i,
    {
        let (h, pending) = (&horizons[i].0, horizons[i].1);
        let ghost before = r@;
        if pending && is_past_horizon(h.as_str(), now) {
            r.push(i);
        }
        proof {
            assert forall|j: int|
                0 <= j < i + 1 implies (r@.contains(j as usize) <==> (#[trigger] horizons@[j]).1 && crate::text::lex_le(
                    horizons@[j].0@,
                    now@,
                )) by {
                if j < i {
                    if r@.contains(j as usize) && !before.contains(j as usize) {
                        assert(r@.last() == i);
                    }
                    if before.contains(j as usize) {
                        let q = choose|q: int| 0 <= q < before.len() && before[q] == j as usize;
                        assert(r@[q] == j as usize);
                    }
                } else {
                    if r@.contains(j as usize) && !before.contains(j as usize) {
                    } else if before.contains(j as usize) {
                        let q = choose|q: int| 0 <= q < before.len() && before[q] == j as usize;
                        assert(before[q] < i);
                    }
                    if pending && crate::text::lex_le(horizons@[j].0@, now@) {
                        assert(r@[r@.len() - 1] == i);
                    }
                }
            }
        }
        i = i + 1;
    }
    r
}

/// Whether a ledger entry is due for resolution against an artifact of
/// `source` at `now`: still pending, observing that source, with a horizon
/// at or before `now`.
pub open spec fn due(entry_source: Seq<char>, horizon: Seq<char>, pending: bool, source: Seq<char>, now: Seq<char>) -> bool {
    pending && entry_source == source && crate::text::lex_le(horizon, now)
}

/// Which ledger entries, given as `(observable source, horizon, pending)`,
/// are due for resolution against `source` at `now`. Indices in ledger order.
pub fn due_for_resolution(entries: &[(String, String, bool)], source: &str, now: &str) -> (r: Vec<usize>)
    ensures
        forall|k: int| 0 <= k < r@.len() ==> (#[trigger] r@[k]) < entries@.len(),
        forall|a: int, b: int| 0 <= a < b < r@.len() ==> r@[a] < r@[b],
        forall|i: int|
            0 <= i < entries@.len() ==> (r@.contains(i as usize) <==> due(
                (#[trigger] entries@[i]).0@,
                entries@[i].1@,
                entries@[i].2,
                source@,
                now@,
            )),
{
    let mut r: Vec<usize> = Vec::new();
    let mut i: usize = 0;
    while i < entries.len()
        invariant
            i <= entries@.len(),
            forall|k: int| 0 <= k < r@.len() ==> (#[trigger] r@[k]) < i,
            forall|a: int, b: int| 0 <= a < b < r@.len() ==> r@[a] < r@[b],
            forall|j: int|
                0 <= j < i ==> (r@.contains(j as usize) <==> due(
                    (#[trigger] entries@[j]).0@,
                    entries@[j].1@,
                    entries@[j].2,
                    source@,
                    now@,
                )),
        decreases entries@.len() - i,
    {
        let e = &entries[i];
        let ghost before = r@;
        let hit = e.2 && str_eq(e.0.as_str(), source) && is_past_horizon(e.1.as_str(), now);
        if hit {
            r.push(i);
        }
        proof {
            assert forall|j: int|
                0 <= j < i + 1 implies (r@.contains(j as usize) <==> due(
                    (#[trigger] entries@[j]).0@,
                    entries@[j].1@,
                    entries@[j].2,
                    source@,
                    now@,
                )) by {
                if before.contains(j as usize) {
                    let q = choose|q: int| 0 <= q < before.len() && before[q] == j as usize;
                    assert(r@[q] == j as usize);
                    assert(before[q] < i);
                }
                if r@.contains(j as usize) && !before.contains(j as usize) {
                    let q = choose|q: int| 0 <= q < r@.len() && r@[q] == j as usize;
                    assert(q == before.len());
                }
                if j == i && hit {
                    assert(r@[r@.len() - 1] == i);
                }
            }
        }
        i = i + 1;
    }
    r
}

/// `s` without leading and trailing white space.
pub open spec fn trimmed(s: Seq<char>) -> Seq<char> {
    crate::text::trim_end(crate::text::trim_start(s))
}

/// What a predicate says of a value: `== <literal>` holds when the value's
/// scalar text is the literal, `!= <literal>` when it is not (both sides
/// trimmed). `None` when it cannot be scored mechanically: no operator, or a
/// value with no scalar text.
pub open spec fn predicate_verdict(predicate: Seq<char>, value: Json) -> Option<bool> {
    let p = trimmed(predicate);
    if p.len() >= 2 && p[1] == '=' && (p[0] == '=' || p[0] == '!') {
        match scalar_text(value) {
            Some(lhs) => Some((lhs == trimmed(p.skip(2))) != (p[0] == '!')),
            None => None,
        }
    } else {
        None
    }
}

/// Evaluate `== <literal>` / `!= <literal>` against a field value; `None`
/// means the predicate could not be scored mechanically.
pub fn eval_predicate(predicate: &str, value: &Json) -> (r: Option<bool>)
    ensures
        r == predicate_verdict(predicate@, *value),
{
    let cs = chars_of(predicate);
    let p = crate::text::trim_chars(&cs);
    if p.len() >= 2 && p[1] == '=' && (p[0] == '=' || p[0] == '!') {
        let negated = p[0] == '!';
        let mut rest: Vec<char> = Vec::new();
        let mut i: usize = 2;
        while i < p.len()
            invariant
                2 <= i <= p@.len(),
                rest@ == p@.subrange(2, i as int),
            decreases p@.len() - i,
        {
            rest.push(p[i]);
            proof {
                assert(p@.subrange(2, i + 1) =~= p@.subrange(2, i as int).push(p@[i as int]));
            }
            i = i + 1;
        }
        proof {
            assert(p@.skip(2) =~= rest@);
        }
        let rhs = crate::text::trim_chars(&rest);
        match scalar_string(value) {
            Some(lhs) => {
                let l = chars_of(lhs.as_str());
                Some(crate::text::chars_eq(&l, &rhs) != negated)
            },
            None => None,
        }
    } else {
        None
    }
}

/// The value an observable reads from an artifact, if the artifact was
/// readable and the path leads somewhere.
pub open spec fn observed_in(field: Seq<char>, artifact: Option<Json>) -> Option<Json> {
    match artifact {
        Some(doc) => lookup_path(doc, path_segments(field)),
        None => None,
    }
}

/// The outcome of scoring `predicate` against what was observed.
pub open spec fn outcome_of(predicate: Seq<char>, observed: Option<Json>) -> Outcome {
    match observed {
        Some(v) => match predicate_verdict(predicate, v) {
            Some(true) => Outcome::True,
            Some(false) => Outcome::False,
            None => Outcome::Void,
        },
        None => Outcome::Void,
    }
}

/// The artifact a caller handed over, as a value.
pub open spec fn artifact_value(artifact: Option<&Json>) -> Option<Json> {
    match artifact {
        Some(doc) => Some(*doc),
        None => None,
    }
}

/// How one forecast resolved. (Its Brier score, `(p - t)^2` with `t` 1 for
/// `True` and 0 for `False`, is absent for `Void`.)
#[derive(Debug, Clone, PartialEq, Eq)]
pub struct Resolution {
    pub resolved_at: String,
    pub outcome: Outcome,
    /// The scalar text of the observed value, when there was one.
    pub observed_value: Option<String>,
}

/// Score one observable against the artifact content (or its absence).
/// An unreadable artifact, a missing field or an unscorable predicate
/// resolves `Void`.
pub fn resolve(observable: &Observable, artifact: Option<&Json>, resolved_at: &str) -> (r: Resolution)
    ensures
        r.resolved_at@ == resolved_at@,
        r.outcome == outcome_of(observable.predicate@, observed_in(observable.field@, artifact_value(artifact))),
        match observed_in(observable.field@, artifact_value(artifact)) {
            Some(v) => match r.observed_value {
                Some(s) => scalar_text(v) == Some(s@),
                None => scalar_text(v) is None,
            },
            None => r.observed_value is None,
        },
{
    let observed: Option<&Json> = match artifact {
        Some(doc) => lookup_field(doc, observable.field.as_str()),
        None => None,
    };
    match observed {
        Some(v) => {
            let observed_value = scalar_string(v);
            let outcome = match eval_predicate(observable.predicate.as_str(), v) {
                Some(true) => Outcome::True,
                Some(false) => Outcome::False,
                None => Outcome::Void,
            };
            Resolution { resolved_at: owned(resolved_at), outcome, observed_value }
        },
        None => Resolution { resolved_at: owned(resolved_at), outcome: Outcome::Void, observed_value: None },
    }
}

/// Score one observable against an artifact given by its raw text: absent
/// text (the artifact could not be read) or text that does not parse as JSON
/// resolves `Void`, like a missing field.
pub fn resolve_artifact_text(observable: &Observable, artifact_text: Option<&str>, resolved_at: &str) -> (r:
    Resolution)
    ensures
        r.resolved_at@ == resolved_at@,
        r.outcome == outcome_of(observable.predicate@, observed_in(observable.field@, artifact_parsed(artifact_text))),
        match observed_in(observable.field@, artifact_parsed(artifact_text)) {
            Some(v) => match r.observed_value {
                Some(s) => scalar_text(v) == Some(s@),
                None => scalar_text(v) is None,
            },
            None => r.observed_value is None,
        },
{
    let doc = parse_artifact(artifact_text);
    resolve(observable, doc.as_ref(), resolved_at)
}

/// The high word of a version-7 UUID: 48 bits of milliseconds, the version
/// nibble 7, then 12 random bits.
pub open spec fn uuid_high(ms: u64, r1: u64) -> u64 {
    ((ms & 0xFFFF_FFFF_FFFF) << 16u64) | 0x7000u64 | (r1 & 0x0FFFu64)
}

/// The low word of a version-7 UUID: the variant bits `10`, then 62 random
/// bits.
pub open spec fn uuid_low(r2: u64) -> u64 {
    0x8000_0000_0000_0000u64 | (r2 & 0x3FFF_FFFF_FFFF_FFFFu64)
}

/// The canonical 8-4-4-4-12 lowercase-hex text of a UUID's two words.
pub open spec fn uuid_text(hi: u64, lo: u64) -> Seq<char> {
    hex_fixed((hi >> 32u64) as nat, 8) + seq!['-'] + hex_fixed(((hi >> 16u64) & 0xFFFFu64) as nat, 4) + seq!['-']
        + hex_fixed((hi & 0xFFFFu64) as nat, 4) + seq!['-'] + hex_fixed((lo >> 48u64) as nat, 4) + seq!['-']
        + hex_fixed((lo & 0xFFFF_FFFF_FFFFu64) as nat, 12)
}

proof fn lemma_hex_fixed_len(h: nat, width: nat)
    ensures
        hex_fixed(h, width).len() == width,
    decreases width,
{
    if width > 0 {
        lemma_hex_fixed_len(h / 16, (width - 1) as nat);
    }
}

/// The leading digit of a four-digit group.
proof fn lemma_hex4_first(h: nat)
    ensures
        hex_fixed(h, 4)[0] == hex_digit(((h / 16) / 16 / 16) % 16),
{
    reveal_with_fuel(hex_fixed, 5);
    lemma_hex_fixed_len(h / 16 / 16 / 16, 1);
    lemma_hex_fixed_len(h / 16 / 16, 2);
    lemma_hex_fixed_len(h / 16, 3);
}

/// A version-7 UUID from the current Unix time in milliseconds (only its
/// low 48 bits are kept) and two random words: time-sortable, version
/// nibble `7`, variant `10`.
pub fn uuidv7_from(ms: u64, r1: u64, r2: u64) -> (r: String)
    ensures
        r@ == uuid_text(uuid_high(ms, r1), uuid_low(r2)),
        r@.len() == 36,
        r@[14] == '7',
        r@[19] == '8' || r@[19] == '9' || r@[19] == 'a' || r@[19] == 'b',
{
    let hi: u64 = ((ms & 0xFFFF_FFFF_FFFF) << 16u64) | 0x7000u64 | (r1 & 0x0FFFu64);
    let lo: u64 = 0x8000_0000_0000_0000u64 | (r2 & 0x3FFF_FFFF_FFFF_FFFFu64);
    let mut s = empty_string();
    crate::corpus::push_hex(&mut s, hi >> 32u64, 8);
    push_char(&mut s, '-');
    crate::corpus::push_hex(&mut s, (hi >> 16u64) & 0xFFFFu64, 4);
    push_char(&mut s, '-');
    crate::corpus::push_hex(&mut s, hi & 0xFFFFu64, 4);
    push_char(&mut s, '-');
    crate::corpus::push_hex(&mut s, lo >> 48u64, 4);
    push_char(&mut s, '-');
    crate::corpus::push_hex(&mut s, lo & 0xFFFF_FFFF_FFFFu64, 12);
    proof {
        let a = hex_fixed((hi >> 32u64) as nat, 8);
        let b = hex_fixed(((hi >> 16u64) & 0xFFFFu64) as nat, 4);
        let c = hex_fixed((hi & 0xFFFFu64) as nat, 4);
        let d = hex_fixed((lo >> 48u64) as nat, 4);
        let e = hex_fixed((lo & 0xFFFF_FFFF_FFFFu64) as nat, 12);
        lemma_hex_fixed_len((hi >> 32u64) as nat, 8);
        lemma_hex_fixed_len(((hi >> 16u64) & 0xFFFFu64) as nat, 4);
        lemma_hex_fixed_len((hi & 0xFFFFu64) as nat, 4);
        lemma_hex_fixed_len((lo >> 48u64) as nat, 4);
        lemma_hex_fixed_len((lo & 0xFFFF_FFFF_FFFFu64) as nat, 12);
        assert(s@ =~= uuid_text(hi, lo));
        let v: u64 = hi & 0xFFFFu64;
        assert(v / 16 / 16 / 16 % 16 == 7) by (bit_vector)
            requires
                v == (((ms & 0xFFFF_FFFF_FFFF) << 16u64) | 0x7000u64 | (r1 & 0x0FFFu64)) & 0xFFFFu64,
        ;
        lemma_hex4_first(v as nat);
        assert(s@[14] == c[0]);
        let w: u64 = lo >> 48u64;
        assert(8 <= w / 16 / 16 / 16 % 16 <= 11) by (bit_vector)
            requires
                w == (0x8000_0000_0000_0000u64 | (r2 & 0x3FFF_FFFF_FFFF_FFFFu64)) >> 48u64,
        ;
        lemma_hex4_first(w as nat);
        assert(s@[19] == d[0]);
    }
    s
}

/// Record `i` is the last one in the ledger with its id.
pub open spec fn is_last_of_its_id(ids: Seq<String>, i: int) -> bool {
    forall|j: int| i < j < ids.len() ==> (#[trigger] ids[j])@ != ids[i]@
}

/// Which ledger records a reader keeps: the last record per forecast id (a
/// resolved copy supersedes its pending original), in ledger order of those
/// last records. `ids` are the records' forecast ids in ledger order.
pub fn latest_per_id(ids: &[String]) -> (r: Vec<usize>)
    ensures
        forall|k: int| 0 <= k < r@.len() ==> (#[trigger] r@[k]) < ids@.len(),
        forall|a: int, b: int| 0 <= a < b < r@.len() ==> r@[a] < r@[b],
        forall|i: int| 0 <= i < ids@.len() ==> (r@.contains(i as usize) <==> is_last_of_its_id(ids@, i)),
{
    let n = ids.len();
    let mut r: Vec<usize> = Vec::new();
    let mut i: usize = 0;
    while i < n
        invariant
            n == ids@.len(),
            i <= n,
            forall|k: int| 0 <= k < r@.len() ==> (#[trigger] r@[k]) < i,
            forall|a: int, b: int| 0 <= a < b < r@.len() ==> r@[a] < r@[b],
            forall|q: int| 0 <= q < i ==> (r@.contains(q as usize) <==> is_last_of_its_id(ids@, q)),
        decreases n - i,
    {
        let mut j: usize = i + 1;
        let mut later = false;
        while j < n
            invariant
                n == ids@.len(),
                i < n,
                i + 1 <= j <= n,
                later == exists|q: int| i < q < j && (#[trigger] ids@[q])@ == ids@[i as int]@,
            decreases n - j,
        {
            if crate::text::str_eq(ids[j].as_str(), ids[i].as_str()) {
                later = true;
            }
            j = j + 1;
        }
        let ghost before = r@;
        if !later {
            r.push(i);
        }
        proof {
            assert(!later <==> is_last_of_its_id(ids@, i as int));
            assert forall|q: int| 0 <= q < i + 1 implies (r@.contains(q as usize) <==> is_last_of_its_id(
                ids@,
                q,
            )) by {
                if q < i {
                    if before.contains(q as usize) {
                        let w = choose|w: int| 0 <= w < before.len() && before[w] == q as usize;
                        assert(r@[w] == q as usize);
                    }
                    if r@.contains(q as usize) && !before.contains(q as usize) {
                        assert(r@.last() == i);
                    }
                } else {
                    if before.contains(q as usize) {
                        let w = choose|w: int| 0 <= w < before.len() && before[w] == q as usize;
                        assert(before[w] < i);
                    }
                    if !later {
                        assert(r@[r@.len() - 1] == i);
                    }
                }
            }
        }
        i = i + 1;
    }
    r
}

/// One forecast, one resolution: of every forecast id in the ledger exactly
/// one record is the last of its id — some record at or after any record
/// with that id, and no two such records share an id.
pub proof fn law_one_record_per_forecast_id(ids: Seq<String>, i: int)
    requires
        0 <= i < ids.len(),
    ensures
        exists|j: int| i <= j < ids.len() && ids[j]@ == ids[i]@ && is_last_of_its_id(ids, j),
        forall|j: int, k: int|
            0 <= j < k < ids.len() && is_last_of_its_id(ids, j) && is_last_of_its_id(ids, k) ==> ids[j]@
                != ids[k]@,
    decreases ids.len() - i,
{
    if !is_last_of_its_id(ids, i) {
        let q = choose|q: int| i < q < ids.len() && (#[trigger] ids[q])@ == ids[i]@;
        law_one_record_per_forecast_id(ids, q);
    }
}

/// `16^w`.
pub open spec fn pow16(w: nat) -> nat
    decreases w,
{
    if w == 0 {
        1
    } else {
        16 * pow16((w - 1) as nat)
    }
}

/// Appending to equal-length sequences keeps their order.
proof fn lemma_lex_extend(a: Seq<char>, b: Seq<char>, c: Seq<char>, d: Seq<char>)
    requires
        a.len() == b.len(),
        lex_lt(a, b),
    ensures
        lex_lt(a + c, b + d),
    decreases a.len(),
{
    if a[0] == b[0] {
        lemma_lex_extend(a.drop_first(), b.drop_first(), c, d);
        assert((a + c).drop_first() =~= a.drop_first() + c);
        assert((b + d).drop_first() =~= b.drop_first() + d);
    }
    assert((a + c)[0] == a[0]);
    assert((b + d)[0] == b[0]);
}

/// Fixed-width hexadecimal text orders as the numbers it writes.
proof fn lemma_hex_fixed_order(h1: nat, h2: nat, w: nat)
    requires
        h1 < h2 < pow16(w),
    ensures
        lex_lt(hex_fixed(h1, w), hex_fixed(h2, w)),
    decreases w,
{
    if w == 0 {
    } else {
        let (p1, p2) = (hex_fixed(h1 / 16, (w - 1) as nat), hex_fixed(h2 / 16, (w - 1) as nat));
        lemma_hex_fixed_len(h1 / 16, (w - 1) as nat);
        lemma_hex_fixed_len(h2 / 16, (w - 1) as nat);
        assert(h2 / 16 < pow16((w - 1) as nat));
        if h1 / 16 < h2 / 16 {
            lemma_hex_fixed_order(h1 / 16, h2 / 16, (w - 1) as nat);
            lemma_lex_extend(p1, p2, seq![hex_digit(h1 % 16)], seq![hex_digit(h2 % 16)]);
            assert(p1.push(hex_digit(h1 % 16)) =~= p1 + seq![hex_digit(h1 % 16)]);
            assert(p2.push(hex_digit(h2 % 16)) =~= p2 + seq![hex_digit(h2 % 16)]);
        } else {
            assert(h1 / 16 == h2 / 16);
            assert(h1 % 16 < h2 % 16);
            let (x, y) = (p1.push(hex_digit(h1 % 16)), p2.push(hex_digit(h2 % 16)));
            crate::text::lemma_lex_common_prefix(x, y, p1.len() as int);
            assert(x.skip(p1.len() as int) =~= seq![hex_digit(h1 % 16)]);
            assert(y.skip(p1.len() as int) =~= seq![hex_digit(h2 % 16)]);
            assert(seq![hex_digit(h1 % 16)].drop_first() =~= Seq::<char>::empty());
            assert(seq![hex_digit(h2 % 16)].drop_first() =~= Seq::<char>::empty());
        }
    }
}

/// Version-7 ids sort by time: an id minted at an earlier millisecond (of
/// the 48 bits kept) sorts before one minted later, whatever their random
/// bits.
pub proof fn law_uuids_sort_by_time(ms1: u64, a1: u64, a2: u64, ms2: u64, b1: u64, b2: u64)
    requires
        (ms1 & 0xFFFF_FFFF_FFFF) < (ms2 & 0xFFFF_FFFF_FFFF),
    ensures
        lex_lt(uuid_text(uuid_high(ms1, a1), uuid_low(a2)), uuid_text(uuid_high(ms2, b1), uuid_low(b2))),
{
    let (h1, h2) = (uuid_high(ms1, a1), uuid_high(ms2, b1));
    let (m1, m2) = (ms1 & 0xFFFF_FFFF_FFFF, ms2 & 0xFFFF_FFFF_FFFF);
    assert(h1 >> 32u64 == m1 >> 16u64 && (h1 >> 16u64) & 0xFFFFu64 == m1 & 0xFFFFu64) by (bit_vector)
        requires
            h1 == ((ms1 & 0xFFFF_FFFF_FFFF) << 16u64) | 0x7000u64 | (a1 & 0x0FFFu64),
            m1 == ms1 & 0xFFFF_FFFF_FFFF,
    ;
    assert(h2 >> 32u64 == m2 >> 16u64 && (h2 >> 16u64) & 0xFFFFu64 == m2 & 0xFFFFu64) by (bit_vector)
        requires
            h2 == ((ms2 & 0xFFFF_FFFF_FFFF) << 16u64) | 0x7000u64 | (b1 & 0x0FFFu64),
            m2 == ms2 & 0xFFFF_FFFF_FFFF,
    ;
    assert(m1 == (m1 >> 16u64) * 65536 + (m1 & 0xFFFFu64) && (m1 & 0xFFFFu64) < 65536) by (bit_vector);
    assert(m2 == (m2 >> 16u64) * 65536 + (m2 & 0xFFFFu64) && (m2 & 0xFFFFu64) < 65536) by (bit_vector);
    assert(m1 >> 16u64 <= m2 >> 16u64) by (nonlinear_arith)
        requires
            m1 == (m1 >> 16u64) * 65536 + (m1 & 0xFFFFu64),
            m2 == (m2 >> 16u64) * 65536 + (m2 & 0xFFFFu64),
            (m1 & 0xFFFFu64) < 65536,
            (m2 & 0xFFFFu64) < 65536,
            m1 < m2,
    ;
    assert(h1 >> 32u64 < 0x1_0000_0000 && h2 >> 32u64 < 0x1_0000_0000) by (bit_vector);
    reveal_with_fuel(pow16, 9);
    let (t1, t2) = ((h1 >> 32u64) as nat, (h2 >> 32u64) as nat);
    let (u1, u2) = (((h1 >> 16u64) & 0xFFFFu64) as nat, ((h2 >> 16u64) & 0xFFFFu64) as nat);
    let x = uuid_text(h1, uuid_low(a2));
    let y = uuid_text(h2, uuid_low(b2));
    let (ta, tb) = (hex_fixed(t1, 8), hex_fixed(t2, 8));
    lemma_hex_fixed_len(t1, 8);
    lemma_hex_fixed_len(t2, 8);
    let rest_x = x.skip(8);
    let rest_y = y.skip(8);
    assert(x =~= ta + rest_x);
    assert(y =~= tb + rest_y);
    if t1 < t2 {
        lemma_hex_fixed_order(t1, t2, 8);
        lemma_lex_extend(ta, tb, rest_x, rest_y);
    } else {
        assert(t1 == t2);
        assert(u1 < u2);
        let (ua, ub) = (hex_fixed(u1, 4), hex_fixed(u2, 4));
        lemma_hex_fixed_len(u1, 4);
        lemma_hex_fixed_len(u2, 4);
        lemma_hex_fixed_order(u1, u2, 4);
        assert(forall|j: int| 0 <= j < 9 ==> x[j] == y[j]);
        crate::text::lemma_lex_common_prefix(x, y, 9);
        assert(x.skip(9) =~= ua + x.skip(13));
        assert(y.skip(9) =~= ub + y.skip(13));
        lemma_lex_extend(ua, ub, x.skip(13), y.skip(13));
    }
}

} // verus!
