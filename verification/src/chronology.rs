//! Why the ledgers may compare canonical timestamps as strings: for
//! `YYYY-MM-DDTHH:MM:SSZ` timestamps naming real calendar days, string
//! order is time order.

use vstd::prelude::*;
use crate::forecast::{
    canonical_layout, canonical_utc, civil_day_number, days_in_month, digit_value, epoch_of, is_digit,
    is_leap, num2, ts_day, ts_hour, ts_minute, ts_month, ts_second, ts_year, valid_date,
};
use crate::text::{lex_le, lex_lt, lemma_lex_asymmetric, lemma_lex_irreflexive, lemma_lex_total};

verus! {

/// A canonical timestamp that names a real calendar day.
pub open spec fn dated_utc(s: Seq<char>) -> bool {
    canonical_utc(s) && valid_date(ts_year(s), ts_month(s), ts_day(s))
}

/// Where `a` and `b` first differ, for equal-length sequences with `a`
/// before `b` in string order.
proof fn lemma_first_difference(a: Seq<char>, b: Seq<char>) -> (k: int)
    requires
        a.len() == b.len(),
        lex_lt(a, b),
    ensures
        0 <= k < a.len(),
        forall|j: int| 0 <= j < k ==> a[j] == b[j],
        (a[k] as int) < (b[k] as int),
    decreases a.len(),
{
    if a[0] != b[0] {
        0
    } else {
        let k = lemma_first_difference(a.drop_first(), b.drop_first());
        assert forall|j: int| 0 <= j < k + 1 implies a[j] == b[j] by {
            if j > 0 {
                assert(a[j] == a.drop_first()[j - 1]);
                assert(b[j] == b.drop_first()[j - 1]);
            }
        }
        k + 1
    }
}

/// Two-digit fields compare by their first differing digit.
proof fn lemma_num2_order(a: Seq<char>, b: Seq<char>, p: int)
    requires
        0 <= p,
        p + 1 < a.len(),
        p + 1 < b.len(),
        is_digit(a[p]),
        is_digit(a[p + 1]),
        is_digit(b[p]),
        is_digit(b[p + 1]),
    ensures
        (a[p] as int) < (b[p] as int) ==> num2(a, p) < num2(b, p),
        a[p] == b[p] && (a[p + 1] as int) < (b[p + 1] as int) ==> num2(a, p) < num2(b, p),
        a[p] == b[p] && a[p + 1] == b[p + 1] ==> num2(a, p) == num2(b, p),
{
}

/// The six fields of `a` before those of `b`, in order of significance.
pub open spec fn fields_before(a: Seq<char>, b: Seq<char>) -> bool {
    ||| ts_year(a) < ts_year(b)
    ||| ts_year(a) == ts_year(b) && ts_month(a) < ts_month(b)
    ||| ts_year(a) == ts_year(b) && ts_month(a) == ts_month(b) && ts_day(a) < ts_day(b)
    ||| ts_year(a) == ts_year(b) && ts_month(a) == ts_month(b) && ts_day(a) == ts_day(b) && ts_hour(a)
        < ts_hour(b)
    ||| ts_year(a) == ts_year(b) && ts_month(a) == ts_month(b) && ts_day(a) == ts_day(b) && ts_hour(a)
        == ts_hour(b) && ts_minute(a) < ts_minute(b)
    ||| ts_year(a) == ts_year(b) && ts_month(a) == ts_month(b) && ts_day(a) == ts_day(b) && ts_hour(a)
        == ts_hour(b) && ts_minute(a) == ts_minute(b) && ts_second(a) < ts_second(b)
}

/// In the fixed layout, string order is field order.
proof fn lemma_layout_order(a: Seq<char>, b: Seq<char>)
    requires
        canonical_layout(a),
        canonical_layout(b),
        lex_lt(a, b),
    ensures
        fields_before(a, b),
{
    let k = lemma_first_difference(a, b);
    // Every position's character class is fixed by the layout.
    assert forall|i: int| 0 <= i < 20 && i != 4 && i != 7 && i != 10 && i != 13 && i != 16 && i != 19
        implies is_digit(#[trigger] a[i]) && is_digit(b[i]) by {}
    assert(a[4] == b[4] && a[7] == b[7] && a[10] == b[10] && a[13] == b[13] && a[16] == b[16] && a[19]
        == b[19]);
    assert(k != 4 && k != 7 && k != 10 && k != 13 && k != 16 && k != 19);
    lemma_num2_order(a, b, 0);
    lemma_num2_order(a, b, 2);
    lemma_num2_order(a, b, 5);
    lemma_num2_order(a, b, 8);
    lemma_num2_order(a, b, 11);
    lemma_num2_order(a, b, 14);
    lemma_num2_order(a, b, 17);
    if k >= 1 {
        assert(a[0] == b[0]);
    }
    if k >= 2 {
        assert(a[1] == b[1]);
    }
    if k >= 3 {
        assert(a[2] == b[2]);
    }
    if k >= 4 {
        assert(a[3] == b[3]);
    }
    if k >= 6 {
        assert(a[5] == b[5]);
    }
    if k >= 7 {
        assert(a[6] == b[6]);
    }
    if k >= 9 {
        assert(a[8] == b[8]);
    }
    if k >= 10 {
        assert(a[9] == b[9]);
    }
    if k >= 12 {
        assert(a[11] == b[11]);
    }
    if k >= 13 {
        assert(a[12] == b[12]);
    }
    if k >= 15 {
        assert(a[14] == b[14]);
    }
    if k >= 16 {
        assert(a[15] == b[15]);
    }
    if k >= 18 {
        assert(a[17] == b[17]);
    }
}

/// Days before month `m` in a common year.
pub open spec fn days_before_month(m: int) -> int {
    if m <= 1 {
        0
    } else if m == 2 {
        31
    } else if m == 3 {
        59
    } else if m == 4 {
        90
    } else if m == 5 {
        120
    } else if m == 6 {
        151
    } else if m == 7 {
        181
    } else if m == 8 {
        212
    } else if m == 9 {
        243
    } else if m == 10 {
        273
    } else if m == 11 {
        304
    } else {
        334
    }
}

/// Days from January 1 of year `y` to the start of month `m`.
pub open spec fn month_start(y: int, m: int) -> int {
    days_before_month(m) + if m > 2 && is_leap(y) {
        1int
    } else {
        0int
    }
}

/// Day number of January 1 of year `y`.
pub open spec fn new_year(y: int) -> int {
    civil_day_number(y, 1, 1)
}

/// The leap-day count between consecutive years.
proof fn lemma_leap_step(y: int)
    ensures
        365 * y + y / 4 - y / 100 + y / 400 == 365 * (y - 1) + (y - 1) / 4 - (y - 1) / 100 + (y - 1) / 400 + 365
            + if is_leap(y) {
            1int
        } else {
            0int
        },
{
    assert(y / 4 - (y - 1) / 4 == if y % 4 == 0 {
        1int
    } else {
        0int
    }) by (nonlinear_arith);
    assert(y / 100 - (y - 1) / 100 == if y % 100 == 0 {
        1int
    } else {
        0int
    }) by (nonlinear_arith);
    assert(y / 400 - (y - 1) / 400 == if y % 400 == 0 {
        1int
    } else {
        0int
    }) by (nonlinear_arith);
    assert(y % 100 == 0 ==> y % 4 == 0) by (nonlinear_arith);
    assert(y % 400 == 0 ==> y % 100 == 0) by (nonlinear_arith);
}

/// A day's number is its year's new-year day plus its offset in the year.
proof fn lemma_day_in_year(y: int, m: int, d: int)
    requires
        1 <= m <= 12,
    ensures
        civil_day_number(y, m, d) == new_year(y) + month_start(y, m) + d - 1,
{
    lemma_leap_step(y);
}

/// Each year is as long as its days.
proof fn lemma_year_length(y: int)
    ensures
        new_year(y + 1) == new_year(y) + 365 + if is_leap(y) {
            1int
        } else {
            0int
        },
{
    lemma_leap_step(y);
}

proof fn lemma_new_year_monotone(y1: int, y2: int)
    requires
        y1 <= y2,
    ensures
        new_year(y1) <= new_year(y2),
    decreases y2 - y1,
{
    if y1 < y2 {
        lemma_new_year_monotone(y1, y2 - 1);
        lemma_year_length(y2 - 1);
    }
}

/// Months follow each other without gaps.
proof fn lemma_month_order(y: int, m1: int, m2: int)
    requires
        1 <= m1 < m2 <= 12,
    ensures
        month_start(y, m1) + days_in_month(y, m1) <= month_start(y, m2),
{
}

/// A valid day lies within its year.
proof fn lemma_within_year(y: int, m: int, d: int)
    requires
        valid_date(y, m, d),
    ensures
        0 <= month_start(y, m) + d - 1 < 365 + if is_leap(y) {
            1int
        } else {
            0int
        },
{
}

/// Among valid dates, the calendar order is the day-number order.
proof fn lemma_date_order(y1: int, m1: int, d1: int, y2: int, m2: int, d2: int)
    requires
        valid_date(y1, m1, d1),
        valid_date(y2, m2, d2),
        y1 < y2 || (y1 == y2 && m1 < m2) || (y1 == y2 && m1 == m2 && d1 < d2),
    ensures
        civil_day_number(y1, m1, d1) < civil_day_number(y2, m2, d2),
{
    lemma_day_in_year(y1, m1, d1);
    lemma_day_in_year(y2, m2, d2);
    lemma_within_year(y1, m1, d1);
    lemma_within_year(y2, m2, d2);
    if y1 < y2 {
        lemma_year_length(y1);
        lemma_new_year_monotone(y1 + 1, y2);
    } else if m1 < m2 {
        lemma_month_order(y1, m1, m2);
    }
}

/// A timestamp before another in string order is before it in time.
proof fn lemma_earlier_string_is_earlier_time(a: Seq<char>, b: Seq<char>)
    requires
        dated_utc(a),
        dated_utc(b),
        lex_lt(a, b),
    ensures
        epoch_of(a) < epoch_of(b),
{
    lemma_layout_order(a, b);
    let (ya, ma, da) = (ts_year(a), ts_month(a), ts_day(a));
    let (yb, mb, db) = (ts_year(b), ts_month(b), ts_day(b));
    if ya < yb || (ya == yb && ma < mb) || (ya == yb && ma == mb && da < db) {
        lemma_date_order(ya, ma, da, yb, mb, db);
    }
}

/// For timestamps naming real calendar days, string order is time order:
/// `a` sorts before `b` exactly when it is earlier, and they are the same
/// string exactly when they are the same instant.
pub proof fn law_string_order_is_time_order(a: Seq<char>, b: Seq<char>)
    requires
        dated_utc(a),
        dated_utc(b),
    ensures
        lex_lt(a, b) <==> epoch_of(a) < epoch_of(b),
        a == b <==> epoch_of(a) == epoch_of(b),
        lex_le(a, b) <==> epoch_of(a) <= epoch_of(b),
{
    lemma_lex_total(a, b);
    lemma_lex_asymmetric(a, b);
    lemma_lex_irreflexive(a);
    if lex_lt(a, b) {
        lemma_earlier_string_is_earlier_time(a, b);
    }
    if lex_lt(b, a) {
        lemma_earlier_string_is_earlier_time(b, a);
    }
}

} // verus!
