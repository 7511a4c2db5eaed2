//! RFC 3339 timestamps: their form, the instant each one denotes, and the
//! order of update times by that instant.

use vstd::prelude::*;

use crate::text::{
    bytes_less, bytes_lt, chars_of, lemma_bytes_lt_asymmetric, lemma_bytes_lt_irreflexive,
    lemma_bytes_lt_total, lemma_bytes_lt_transitive, utf8,
};

verus! {

// ---------------------------------------------------------------------------
// Form
// ---------------------------------------------------------------------------

/// Whether `c` is one of `0`-`9`.
pub open spec fn is_decimal_digit(c: char) -> bool {
    '0' as u32 <= c as u32 <= '9' as u32
}

/// The value of the digit `c`.
pub open spec fn digit_value(c: char) -> int {
    c as u32 - '0' as u32
}

/// Whether the first nineteen characters of `s` read `YYYY-MM-DDTHH:MM:SS`
/// (with digits in place of the letters) and more characters follow.
pub open spec fn has_date_time_fields(s: Seq<char>) -> bool {
    &&& s.len() >= 20
    &&& forall|i: int|
        0 <= i < 19 ==> if i == 4 || i == 7 {
            s[i] == '-'
        } else if i == 10 {
            s[i] == 'T'
        } else if i == 13 || i == 16 {
            s[i] == ':'
        } else {
            is_decimal_digit(#[trigger] s[i])
        }
}

/// The fraction of a second in an RFC 3339 time: nothing, or a `.` and one to
/// nine digits.
pub open spec fn is_rfc3339_fraction(f: Seq<char>) -> bool {
    ||| f.len() == 0
    ||| {
        &&& 2 <= f.len() <= 10
        &&& f[0] == '.'
        &&& forall|i: int| 1 <= i < f.len() ==> is_decimal_digit(#[trigger] f[i])
    }
}

/// The offset of an RFC 3339 time: `Z`, or a sign, two digits, `:` and two
/// digits.
pub open spec fn is_rfc3339_offset(o: Seq<char>) -> bool {
    ||| o =~= seq!['Z']
    ||| {
        &&& o.len() == 6
        &&& (o[0] == '+' || o[0] == '-')
        &&& is_decimal_digit(o[1])
        &&& is_decimal_digit(o[2])
        &&& o[3] == ':'
        &&& is_decimal_digit(o[4])
        &&& is_decimal_digit(o[5])
    }
}

/// Whether `s` is an RFC 3339 date and time with a four-digit year, such as
/// `2026-01-01T00:00:00Z` or `2026-01-01T08:30:05.25+02:00`.
pub open spec fn is_rfc3339_date_time(s: Seq<char>) -> bool {
    &&& has_date_time_fields(s)
    &&& exists|f: int|
        0 <= f <= s.len() - 19 && is_rfc3339_fraction(#[trigger] s.subrange(19, 19 + f))
            && is_rfc3339_offset(s.subrange(19 + f, s.len() as int))
}

// ---------------------------------------------------------------------------
// The instant a timestamp denotes
// ---------------------------------------------------------------------------

/// The number written by the two digits at `i` of `s`.
pub open spec fn two_digits(s: Seq<char>, i: int) -> int {
    10 * digit_value(s[i]) + digit_value(s[i + 1])
}

/// The number written by the four digits at `i` of `s`.
pub open spec fn four_digits(s: Seq<char>, i: int) -> int {
    100 * two_digits(s, i) + two_digits(s, i + 2)
}

/// How many digits follow one another from position `i` of `s`.
pub open spec fn digit_run(s: Seq<char>, i: int) -> int
    decreases s.len() - i,
{
    if 0 <= i < s.len() && is_decimal_digit(s[i]) {
        1 + digit_run(s, i + 1)
    } else {
        0
    }
}

/// The number of digits of the fraction of a second of a timestamp.
pub open spec fn fraction_len(s: Seq<char>) -> int {
    if s[19] == '.' {
        digit_run(s, 20)
    } else {
        0
    }
}

/// Where the offset of a timestamp starts.
pub open spec fn offset_start(s: Seq<char>) -> int {
    if s[19] == '.' {
        20 + digit_run(s, 20)
    } else {
        19
    }
}

/// The seconds by which the time at `s` runs ahead of UTC, when `s` ends,
/// from `o` on, with `Z` or with `+hh:mm` or `-hh:mm`.
pub open spec fn offset_seconds(s: Seq<char>, o: int) -> Option<int> {
    if o == s.len() - 1 && s[o] == 'Z' {
        Some(0)
    } else if o == s.len() - 6 && (s[o] == '+' || s[o] == '-') && is_decimal_digit(s[o + 1])
        && is_decimal_digit(s[o + 2]) && s[o + 3] == ':' && is_decimal_digit(s[o + 4])
        && is_decimal_digit(s[o + 5]) {
        let ahead = two_digits(s, o + 1) * 3600 + two_digits(s, o + 4) * 60;
        Some(
            if s[o] == '+' {
                ahead
            } else {
                -ahead
            },
        )
    } else {
        None
    }
}

/// The first `k` of nine fraction digits, of which the first `n` come from
/// the timestamp from position 20 and the rest are zeros, read as a number.
pub open spec fn padded_fraction(s: Seq<char>, n: int, k: nat) -> int
    decreases k,
{
    if k == 0 {
        0
    } else {
        padded_fraction(s, n, (k - 1) as nat) * 10 + if k - 1 < n {
            digit_value(s[20 + k - 1])
        } else {
            0
        }
    }
}

/// The days of the proleptic Gregorian calendar up to year `y`, month `m`,
/// day `d`, counted from a fixed day 400 years before year 0.
pub open spec fn day_number(y: int, m: int, d: int) -> int {
    let y2 = y + 400 - if m <= 2 {
        1int
    } else {
        0int
    };
    let mp = if m > 2 {
        m - 3
    } else {
        m + 9
    };
    y2 * 365 + y2 / 4 - y2 / 100 + y2 / 400 + (153 * mp + 2) / 5 + d - 1
}

/// The whole seconds of the local date and time of a timestamp, counted from
/// the day that `day_number` starts at.
pub open spec fn local_seconds(s: Seq<char>) -> int {
    day_number(four_digits(s, 0), two_digits(s, 5), two_digits(s, 8)) * 86400 + two_digits(s, 11)
        * 3600 + two_digits(s, 14) * 60 + two_digits(s, 17)
}

/// The instant that the timestamp `s` denotes, as whole seconds (counted from
/// a fixed instant) and nanoseconds; none when `s` is not an RFC 3339 date
/// and time with a four-digit year.
pub open spec fn instant_of(s: Seq<char>) -> Option<(int, int)> {
    if !has_date_time_fields(s) || (s[19] == '.' && !(1 <= digit_run(s, 20) <= 9)) {
        None
    } else {
        match offset_seconds(s, offset_start(s)) {
            Some(ahead) => Some((local_seconds(s) - ahead, padded_fraction(s, fraction_len(s), 9))),
            None => None,
        }
    }
}

/// The update time `a` is later than `b`: it denotes a later instant; a
/// timestamp is later than a text that is none; two texts that are not
/// timestamps compare by their bytes.
pub closed spec fn later(a: Seq<char>, b: Seq<char>) -> bool {
    match (instant_of(a), instant_of(b)) {
        (Some(x), Some(y)) => x.0 > y.0 || (x.0 == y.0 && x.1 > y.1),
        (Some(_), None) => true,
        (None, Some(_)) => false,
        (None, None) => bytes_lt(utf8(b), utf8(a)),
    }
}

/// The update times `a` and `b` are the same: they denote the same instant,
/// or neither is a timestamp and they have the same bytes.
pub closed spec fn same_time(a: Seq<char>, b: Seq<char>) -> bool {
    match (instant_of(a), instant_of(b)) {
        (Some(x), Some(y)) => x == y,
        (None, None) => utf8(a) == utf8(b),
        _ => false,
    }
}

// ---------------------------------------------------------------------------
// Laws of the order
// ---------------------------------------------------------------------------

/// Later is transitive.
pub proof fn lemma_later_transitive(a: Seq<char>, b: Seq<char>, c: Seq<char>)
    requires
        later(a, b),
        later(b, c),
    ensures
        later(a, c),
{
    if bytes_lt(utf8(c), utf8(b)) && bytes_lt(utf8(b), utf8(a)) {
        lemma_bytes_lt_transitive(utf8(c), utf8(b), utf8(a));
    }
}

/// Of two update times, one is later or they are the same.
pub proof fn lemma_later_total(a: Seq<char>, b: Seq<char>)
    ensures
        later(a, b) || later(b, a) || same_time(a, b),
{
    lemma_bytes_lt_total(utf8(a), utf8(b));
}

/// Later excludes the reverse and the same time.
pub proof fn lemma_later_strict(a: Seq<char>, b: Seq<char>)
    ensures
        later(a, b) ==> !later(b, a) && !same_time(a, b) && !same_time(b, a),
        !later(a, a),
        same_time(a, a),
        same_time(a, b) == same_time(b, a),
{
    lemma_bytes_lt_asymmetric(utf8(a), utf8(b));
    lemma_bytes_lt_irreflexive(utf8(a));
}

/// Update times that are the same stand in the same relations to every
/// other update time.
pub proof fn lemma_same_time_congruent(a: Seq<char>, b: Seq<char>, c: Seq<char>)
    requires
        same_time(a, b),
    ensures
        same_time(b, a),
        later(a, c) == later(b, c),
        later(c, a) == later(c, b),
        same_time(a, c) == same_time(b, c),
        same_time(c, a) == same_time(c, b),
{
}

proof fn lemma_digit_run(s: Seq<char>, i: int, j: int)
    requires
        0 <= i <= j <= s.len(),
        forall|k: int| i <= k < j ==> is_decimal_digit(#[trigger] s[k]),
        j < s.len() ==> !is_decimal_digit(s[j]),
    ensures
        digit_run(s, i) == j - i,
    decreases j - i,
{
    if i < j {
        lemma_digit_run(s, i + 1, j);
    }
}

/// Every RFC 3339 date and time with a four-digit year, such as the library
/// writes, denotes an instant; so update times that the library wrote are
/// ordered by that instant.
pub proof fn lemma_rfc3339_denotes_instant(s: Seq<char>)
    requires
        is_rfc3339_date_time(s),
    ensures
        instant_of(s) is Some,
{
    let f = choose|f: int|
        0 <= f <= s.len() - 19 && is_rfc3339_fraction(#[trigger] s.subrange(19, 19 + f))
            && is_rfc3339_offset(s.subrange(19 + f, s.len() as int));
    let frac = s.subrange(19, 19 + f);
    let off = s.subrange(19 + f, s.len() as int);
    if off =~= seq!['Z'] {
        assert(off[0] == s[19 + f]);
    } else {
        assert(off[0] == s[19 + f]);
    }
    if f > 0 {
        assert(frac[0] == s[19]);
        assert forall|k: int| 20 <= k < 19 + f implies is_decimal_digit(#[trigger] s[k]) by {
            assert(frac[k - 19] == s[k]);
        }
        lemma_digit_run(s, 20, 19 + f);
    } else {
        assert(s[19] == off[0]);
    }
    assert(offset_start(s) == 19 + f);
    let o = 19 + f;
    if !(off =~= seq!['Z']) {
        assert(off[1] == s[o + 1] && off[2] == s[o + 2] && off[3] == s[o + 3]);
        assert(off[4] == s[o + 4] && off[5] == s[o + 5]);
    }
}

// ---------------------------------------------------------------------------
// The calendar behind `day_number`
// ---------------------------------------------------------------------------

/// Whether `y` is a leap year of the Gregorian calendar.
pub open spec fn is_leap_year(y: int) -> bool {
    (y % 4 == 0 && y % 100 != 0) || y % 400 == 0
}

/// The number of days of month `m` (1 to 12) of year `y`.
pub open spec fn days_in_month(y: int, m: int) -> int {
    if m == 2 {
        if is_leap_year(y) {
            29
        } else {
            28
        }
    } else if m == 4 || m == 6 || m == 9 || m == 11 {
        30
    } else {
        31
    }
}

/// The number of days from a date in year `y` to the same date a year later:
/// 366 when the span holds a 29 February, else 365.
pub open spec fn days_to_same_date_next_year(y: int, m: int) -> int {
    if (m <= 2 && is_leap_year(y)) || (m > 2 && is_leap_year(y + 1)) {
        366
    } else {
        365
    }
}

proof fn lemma_div_step(n: int, k: int)
    requires
        n >= 1,
        k >= 1,
    ensures
        n / k - (n - 1) / k == if n % k == 0 {
            1int
        } else {
            0int
        },
{
    vstd::arithmetic::div_mod::lemma_fundamental_div_mod(n, k);
    vstd::arithmetic::div_mod::lemma_fundamental_div_mod(n - 1, k);
    assert(n / k - (n - 1) / k == if n % k == 0 {
        1int
    } else {
        0int
    }) by (nonlinear_arith)
        requires
            n == k * (n / k) + n % k,
            n - 1 == k * ((n - 1) / k) + (n - 1) % k,
            0 <= n % k < k,
            0 <= (n - 1) % k < k,
            k >= 1,
    ;
}

proof fn lemma_leap_shift(y: int)
    requires
        y >= 0,
    ensures
        is_leap_year(y + 400) == is_leap_year(y),
{
    vstd::arithmetic::div_mod::lemma_mod_add_multiples_vanish(y + 0, 4);
    assert((y + 400) % 4 == y % 4) by {
        vstd::arithmetic::div_mod::lemma_mod_add_multiples_vanish(y, 4);
        vstd::arithmetic::div_mod::lemma_mod_multiples_vanish(100, y, 4);
    }
    assert((y + 400) % 100 == y % 100) by {
        vstd::arithmetic::div_mod::lemma_mod_multiples_vanish(4, y, 100);
    }
    assert((y + 400) % 400 == y % 400) by {
        vstd::arithmetic::div_mod::lemma_mod_add_multiples_vanish(y, 400);
    }
}

/// The first day of the next month comes the month's length after the
/// first day of a month: `day_number` counts days of the Gregorian calendar.
pub proof fn lemma_day_number_months(y: int, m: int)
    requires
        y >= 0,
        1 <= m <= 12,
    ensures
        m < 12 ==> day_number(y, m + 1, 1) - day_number(y, m, 1) == days_in_month(y, m),
        m == 12 ==> day_number(y + 1, 1, 1) - day_number(y, 12, 1) == days_in_month(y, 12),
{
    if m == 2 {
        let n = y + 400;
        lemma_div_step(n, 4);
        lemma_div_step(n, 100);
        lemma_div_step(n, 400);
        lemma_leap_shift(y);
    }
}

/// A date a year later is 365 days later, or 366 when a 29 February lies in
/// between.
pub proof fn lemma_day_number_years(y: int, m: int, d: int)
    requires
        y >= 0,
        1 <= m <= 12,
    ensures
        day_number(y + 1, m, d) - day_number(y, m, d) == days_to_same_date_next_year(y, m),
{
    let n = if m <= 2 {
        y + 400
    } else {
        y + 401
    };
    lemma_div_step(n, 4);
    lemma_div_step(n, 100);
    lemma_div_step(n, 400);
    lemma_leap_shift(y);
    lemma_leap_shift(y + 1);
}

// ---------------------------------------------------------------------------
// What the fields of a timestamp count
// ---------------------------------------------------------------------------

/// `t` is `s` with the digit at `pos` one higher and every other character
/// the same.
pub open spec fn one_higher_at(s: Seq<char>, t: Seq<char>, pos: int) -> bool {
    &&& s.len() == t.len()
    &&& 0 <= pos < s.len()
    &&& forall|i: int| 0 <= i < s.len() && i != pos ==> s[i] == t[i]
    &&& is_decimal_digit(s[pos])
    &&& is_decimal_digit(t[pos])
    &&& digit_value(t[pos]) == digit_value(s[pos]) + 1
}

proof fn lemma_digit_run_agree(s: Seq<char>, t: Seq<char>, i: int, stop: int)
    requires
        0 <= i <= stop,
        stop <= s.len(),
        stop <= t.len(),
        forall|k: int| i <= k < stop ==> s[k] == t[k],
        stop < s.len() ==> !is_decimal_digit(s[stop]),
        stop < t.len() ==> !is_decimal_digit(t[stop]),
    ensures
        digit_run(s, i) == digit_run(t, i),
    decreases stop - i,
{
    if i < stop {
        lemma_digit_run_agree(s, t, i + 1, stop);
    }
}

proof fn lemma_digit_run_bound(s: Seq<char>, i: int)
    requires
        0 <= i,
    ensures
        0 <= digit_run(s, i),
        i < s.len() ==> i + digit_run(s, i) <= s.len(),
        forall|k: int| i <= k < i + digit_run(s, i) ==> is_decimal_digit(#[trigger] s[k]),
        i + digit_run(s, i) < s.len() ==> !is_decimal_digit(s[i + digit_run(s, i)]),
    decreases s.len() - i,
{
    if 0 <= i < s.len() && is_decimal_digit(s[i]) {
        lemma_digit_run_bound(s, i + 1);
    }
}

proof fn lemma_padded_fraction_agree(s: Seq<char>, t: Seq<char>, n: int, k: nat)
    requires
        forall|j: int| 20 <= j < 20 + n ==> s[j] == t[j],
    ensures
        padded_fraction(s, n, k) == padded_fraction(t, n, k),
    decreases k,
{
    if k > 0 {
        lemma_padded_fraction_agree(s, t, n, (k - 1) as nat);
    }
}

/// One more in the units digit of the day, the hour, the minute or the
/// second of a timestamp makes it denote an instant one day, one hour, one
/// minute or one second later.
pub proof fn lemma_clock_fields_count_time(s: Seq<char>, t: Seq<char>, pos: int)
    requires
        instant_of(s) is Some,
        one_higher_at(s, t, pos),
        pos == 9 || pos == 12 || pos == 15 || pos == 18,
    ensures
        instant_of(t) is Some,
        instant_of(t).unwrap().1 == instant_of(s).unwrap().1,
        instant_of(t).unwrap().0 == instant_of(s).unwrap().0 + if pos == 18 {
            1int
        } else if pos == 15 {
            60int
        } else if pos == 12 {
            3600int
        } else {
            86400int
        },
{
    lemma_same_tail(s, t);
    assert(two_digits(t, pos - 1) == two_digits(s, pos - 1) + 1);
    assert(four_digits(t, 0) == four_digits(s, 0));
    if pos != 9 {
        assert(two_digits(t, 8) == two_digits(s, 8));
    }
    if pos != 12 {
        assert(two_digits(t, 11) == two_digits(s, 11));
    }
    if pos != 15 {
        assert(two_digits(t, 14) == two_digits(s, 14));
    }
    if pos != 18 {
        assert(two_digits(t, 17) == two_digits(s, 17));
    }
    assert(two_digits(t, 5) == two_digits(s, 5));
}

/// Timestamps that agree from the fraction of a second on, and whose first
/// nineteen characters have the same form, agree on the fraction and the
/// offset.
proof fn lemma_same_tail(s: Seq<char>, t: Seq<char>)
    requires
        instant_of(s) is Some,
        s.len() == t.len(),
        forall|i: int| 19 <= i < s.len() ==> s[i] == t[i],
        forall|i: int|
            0 <= i < 19 && (i == 4 || i == 7 || i == 10 || i == 13 || i == 16) ==> s[i] == t[i],
        forall|i: int| 0 <= i < 19 ==> is_decimal_digit(s[i]) ==> is_decimal_digit(#[trigger] t[i]),
    ensures
        has_date_time_fields(t),
        digit_run(t, 20) == digit_run(s, 20),
        fraction_len(t) == fraction_len(s),
        offset_start(t) == offset_start(s),
        offset_seconds(t, offset_start(t)) == offset_seconds(s, offset_start(s)),
        padded_fraction(t, fraction_len(t), 9) == padded_fraction(s, fraction_len(s), 9),
        instant_of(t) is Some,
        instant_of(t).unwrap().0 == local_seconds(t) - (local_seconds(s) - instant_of(s).unwrap().0),
        instant_of(t).unwrap().1 == instant_of(s).unwrap().1,
{
    assert(has_date_time_fields(t)) by {
        assert forall|i: int| 0 <= i < 19 implies if i == 4 || i == 7 {
            t[i] == '-'
        } else if i == 10 {
            t[i] == 'T'
        } else if i == 13 || i == 16 {
            t[i] == ':'
        } else {
            is_decimal_digit(#[trigger] t[i])
        } by {
            assert(if i == 4 || i == 7 {
                s[i] == '-'
            } else if i == 10 {
                s[i] == 'T'
            } else if i == 13 || i == 16 {
                s[i] == ':'
            } else {
                is_decimal_digit(s[i])
            });
        }
    }
    lemma_digit_run_agree(s, t, 20, s.len() as int);
    lemma_digit_run_bound(s, 20);
    lemma_padded_fraction_agree(s, t, fraction_len(s), 9);
    let o = offset_start(s);
    if o + 5 < s.len() {
        assert(s[o] == t[o] && s[o + 1] == t[o + 1] && s[o + 2] == t[o + 2]);
        assert(s[o + 3] == t[o + 3] && s[o + 4] == t[o + 4] && s[o + 5] == t[o + 5]);
    }
    if o < s.len() {
        assert(s[o] == t[o]);
    }
}

/// One more in the units digit of the month (within one year) makes a
/// timestamp denote an instant the length of that month later.
pub proof fn lemma_month_field_counts_days(s: Seq<char>, t: Seq<char>)
    requires
        instant_of(s) is Some,
        one_higher_at(s, t, 6),
        1 <= two_digits(s, 5) < 12,
    ensures
        instant_of(t) is Some,
        instant_of(t).unwrap().1 == instant_of(s).unwrap().1,
        instant_of(t).unwrap().0 == instant_of(s).unwrap().0 + days_in_month(
            four_digits(s, 0),
            two_digits(s, 5),
        ) * 86400,
{
    lemma_same_tail(s, t);
    let y = four_digits(s, 0);
    let m = two_digits(s, 5);
    let d = two_digits(s, 8);
    assert(four_digits(t, 0) == y);
    assert(two_digits(t, 5) == m + 1);
    assert(two_digits(t, 8) == d);
    assert(two_digits(t, 11) == two_digits(s, 11));
    assert(two_digits(t, 14) == two_digits(s, 14));
    assert(two_digits(t, 17) == two_digits(s, 17));
    lemma_day_number_months(y, m);
    assert(day_number(y, m + 1, d) - day_number(y, m, d) == day_number(y, m + 1, 1) - day_number(
        y,
        m,
        1,
    ));
}

/// One more in the units digit of the year makes a timestamp denote an
/// instant 365 days later, or 366 when a 29 February lies in between.
pub proof fn lemma_year_field_counts_days(s: Seq<char>, t: Seq<char>)
    requires
        instant_of(s) is Some,
        one_higher_at(s, t, 3),
        1 <= two_digits(s, 5) <= 12,
    ensures
        instant_of(t) is Some,
        instant_of(t).unwrap().1 == instant_of(s).unwrap().1,
        instant_of(t).unwrap().0 == instant_of(s).unwrap().0 + days_to_same_date_next_year(
            four_digits(s, 0),
            two_digits(s, 5),
        ) * 86400,
{
    lemma_same_tail(s, t);
    let y = four_digits(s, 0);
    let m = two_digits(s, 5);
    let d = two_digits(s, 8);
    assert(four_digits(t, 0) == y + 1);
    assert(two_digits(t, 5) == m);
    assert(two_digits(t, 8) == d);
    assert(two_digits(t, 11) == two_digits(s, 11));
    assert(two_digits(t, 14) == two_digits(s, 14));
    assert(two_digits(t, 17) == two_digits(s, 17));
    lemma_day_number_years(y, m, d);
}

/// Replacing the `Z` of a timestamp by an offset `+hh:mm` (or `-hh:mm`)
/// makes it denote the instant that much earlier (or later): the local
/// date and time are read as running ahead of UTC by the offset.
pub proof fn lemma_offset_shifts_instant(s: Seq<char>, t: Seq<char>)
    requires
        instant_of(s) is Some,
        s[s.len() - 1] == 'Z',
        t.len() == s.len() + 5,
        forall|i: int| 0 <= i < s.len() - 1 ==> t[i] == s[i],
        t[s.len() - 1] == '+' || t[s.len() - 1] == '-',
        is_decimal_digit(t[s.len() as int]),
        is_decimal_digit(t[s.len() + 1int]),
        t[s.len() + 2int] == ':',
        is_decimal_digit(t[s.len() + 3int]),
        is_decimal_digit(t[s.len() + 4int]),
    ensures
        instant_of(t) is Some,
        instant_of(t).unwrap().1 == instant_of(s).unwrap().1,
        ({
            let ahead = (10 * digit_value(t[s.len() as int]) + digit_value(t[s.len() + 1int]))
                * 3600 + (10 * digit_value(t[s.len() + 3int]) + digit_value(t[s.len() + 4int]))
                * 60;
            instant_of(t).unwrap().0 == if t[s.len() - 1] == '+' {
                instant_of(s).unwrap().0 - ahead
            } else {
                instant_of(s).unwrap().0 + ahead
            }
        }),
{
    let o = s.len() - 1;
    lemma_digit_run_bound(s, 20);
    assert(offset_start(s) == o);
    assert(has_date_time_fields(t)) by {
        assert forall|i: int| 0 <= i < 19 implies if i == 4 || i == 7 {
            t[i] == '-'
        } else if i == 10 {
            t[i] == 'T'
        } else if i == 13 || i == 16 {
            t[i] == ':'
        } else {
            is_decimal_digit(#[trigger] t[i])
        } by {
            assert(t[i] == s[i]);
        }
    }
    if s[19] == '.' {
        lemma_digit_run_agree(s, t, 20, o);
    }
    assert(offset_start(t) == o);
    assert(fraction_len(t) == fraction_len(s));
    lemma_padded_fraction_agree(s, t, fraction_len(s), 9);
    assert(offset_seconds(s, o) == Some(0int));
    let ahead = (10 * digit_value(t[o + 1]) + digit_value(t[o + 2])) * 3600 + (10 * digit_value(
        t[o + 4],
    ) + digit_value(t[o + 5])) * 60;
    assert(offset_seconds(t, o) == Some(
        if t[o] == '+' {
            ahead
        } else {
            -ahead
        },
    ));
    assert(two_digits(t, 0) == two_digits(s, 0) && two_digits(t, 2) == two_digits(s, 2));
    assert(two_digits(t, 5) == two_digits(s, 5) && two_digits(t, 8) == two_digits(s, 8));
    assert(two_digits(t, 11) == two_digits(s, 11) && two_digits(t, 14) == two_digits(s, 14));
    assert(two_digits(t, 17) == two_digits(s, 17));
}

proof fn lemma_padded_fraction_first_digit(s: Seq<char>, t: Seq<char>, n: int, k: nat)
    requires
        1 <= n,
        1 <= k,
        digit_value(t[20]) == digit_value(s[20]) + 1,
        forall|j: int| 21 <= j < 20 + n ==> s[j] == t[j],
    ensures
        padded_fraction(t, n, k) == padded_fraction(s, n, k) + pow10_upto((k - 1) as nat),
    decreases k,
{
    if k > 1 {
        lemma_padded_fraction_first_digit(s, t, n, (k - 1) as nat);
        let j = 20 + k - 1;
        if k - 1 < n {
            assert(s[j] == t[j]);
        }
        assert(pow10_upto((k - 1) as nat) == 10 * pow10_upto((k - 2) as nat));
    } else {
        assert(padded_fraction(t, n, 0) == 0);
        assert(padded_fraction(s, n, 0) == 0);
        assert(pow10_upto(0) == 1);
    }
}

/// One more in the first digit of the fraction of a second makes a
/// timestamp denote an instant a tenth of a second (100 000 000
/// nanoseconds) later.
pub proof fn lemma_fraction_first_digit_counts(s: Seq<char>, t: Seq<char>)
    requires
        instant_of(s) is Some,
        one_higher_at(s, t, 20),
        s[19] == '.',
    ensures
        instant_of(t) is Some,
        instant_of(t).unwrap().0 == instant_of(s).unwrap().0,
        instant_of(t).unwrap().1 == instant_of(s).unwrap().1 + 100_000_000,
{
    lemma_digit_run_agree(s, t, 21, s.len() as int);
    assert(digit_run(t, 20) == digit_run(s, 20));
    lemma_digit_run_bound(s, 20);
    assert(has_date_time_fields(t)) by {
        assert forall|i: int| 0 <= i < 19 implies if i == 4 || i == 7 {
            t[i] == '-'
        } else if i == 10 {
            t[i] == 'T'
        } else if i == 13 || i == 16 {
            t[i] == ':'
        } else {
            is_decimal_digit(#[trigger] t[i])
        } by {
            assert(t[i] == s[i]);
        }
    }
    let o = offset_start(s);
    assert(offset_start(t) == o);
    if o + 5 < s.len() {
        assert(s[o] == t[o] && s[o + 1] == t[o + 1] && s[o + 2] == t[o + 2]);
        assert(s[o + 3] == t[o + 3] && s[o + 4] == t[o + 4] && s[o + 5] == t[o + 5]);
    }
    if o < s.len() {
        assert(s[o] == t[o]);
    }
    lemma_padded_fraction_first_digit(s, t, fraction_len(s), 9);
    lemma_pow10_upto_bound(8);
    assert(pow10_upto(8) == 100_000_000) by {
        assert(pow10_upto(0) == 1);
        assert(pow10_upto(1) == 10);
        assert(pow10_upto(2) == 100);
        assert(pow10_upto(3) == 1000);
        assert(pow10_upto(4) == 10000);
        assert(pow10_upto(5) == 100000);
        assert(pow10_upto(6) == 1000000);
        assert(pow10_upto(7) == 10000000);
    }
    assert(two_digits(t, 0) == two_digits(s, 0) && two_digits(t, 2) == two_digits(s, 2));
    assert(two_digits(t, 5) == two_digits(s, 5) && two_digits(t, 8) == two_digits(s, 8));
    assert(two_digits(t, 11) == two_digits(s, 11) && two_digits(t, 14) == two_digits(s, 14));
    assert(two_digits(t, 17) == two_digits(s, 17));
}

/// For update times that are both timestamps, one is later than the other
/// exactly when it denotes a later instant.
pub proof fn lemma_later_is_later_instant(a: Seq<char>, b: Seq<char>)
    requires
        instant_of(a) is Some,
        instant_of(b) is Some,
    ensures
        later(a, b) == (instant_of(a).unwrap().0 > instant_of(b).unwrap().0 || (instant_of(
            a,
        ).unwrap().0 == instant_of(b).unwrap().0 && instant_of(a).unwrap().1 > instant_of(
            b,
        ).unwrap().1)),
        same_time(a, b) == (instant_of(a).unwrap() == instant_of(b).unwrap()),
{
}

/// A timestamp is later than any text that is not one.
pub proof fn lemma_timestamp_later_than_other_text(a: Seq<char>, b: Seq<char>)
    requires
        instant_of(a) is Some,
        instant_of(b) is None,
    ensures
        later(a, b),
        !later(b, a),
{
}

// ---------------------------------------------------------------------------
// Computing the instant
// ---------------------------------------------------------------------------

/// The value of `c` when it is a digit.
fn decimal_digit(c: char) -> (r: Option<u64>)
    ensures
        match r {
            Some(v) => is_decimal_digit(c) && v == digit_value(c) && v <= 9,
            None => !is_decimal_digit(c),
        },
{
    let n = c as u32;
    if 48 <= n && n <= 57 {
        Some((n - 48) as u64)
    } else {
        None
    }
}

/// The number written by the two digits at `i` of `cs`.
fn two_digits_at(cs: &Vec<char>, i: usize) -> (r: u64)
    requires
        i + 1 < cs.len(),
        is_decimal_digit(cs@[i as int]),
        is_decimal_digit(cs@[i + 1]),
    ensures
        r == two_digits(cs@, i as int),
        r <= 99,
{
    let high = decimal_digit(cs[i]).unwrap();
    let low = decimal_digit(cs[i + 1]).unwrap();
    10 * high + low
}

/// How many digits follow one another from position `from` of `cs`.
fn digit_run_at(cs: &Vec<char>, from: usize) -> (r: usize)
    requires
        from <= cs@.len(),
    ensures
        r == digit_run(cs@, from as int),
        from + r <= cs@.len(),
        forall|k: int| from <= k < from + r ==> is_decimal_digit(#[trigger] cs@[k]),
{
    let mut j: usize = from;
    while j < cs.len() && decimal_digit(cs[j]).is_some()
        invariant
            from <= j <= cs@.len(),
            digit_run(cs@, from as int) == (j - from) + digit_run(cs@, j as int),
            forall|k: int| from <= k < j ==> is_decimal_digit(#[trigger] cs@[k]),
        decreases cs@.len() - j,
    {
        j = j + 1;
    }
    j - from
}

/// The instant that the timestamp `s` denotes, as whole seconds and
/// nanoseconds; none when `s` is not an RFC 3339 date and time with a
/// four-digit year.
#[verifier::rlimit(40)]
pub fn instant_of_text(s: &str) -> (r: Option<(u64, u64)>)
    ensures
        match instant_of(s@) {
            Some(x) => r matches Some(y) && y.0 == x.0 && y.1 == x.1,
            None => r is None,
        },
{
    let cs = chars_of(s);
    let n = cs.len();
    if n < 20 {
        return None;
    }
    let mut i: usize = 0;
    while i < 19
        invariant
            0 <= i <= 19,
            cs@ == s@,
            n == cs@.len(),
            n >= 20,
            forall|k: int|
                0 <= k < i ==> if k == 4 || k == 7 {
                    cs@[k] == '-'
                } else if k == 10 {
                    cs@[k] == 'T'
                } else if k == 13 || k == 16 {
                    cs@[k] == ':'
                } else {
                    is_decimal_digit(#[trigger] cs@[k])
                },
        decreases 19 - i,
    {
        let c = cs[i];
        let fits = if i == 4 || i == 7 {
            c == '-'
        } else if i == 10 {
            c == 'T'
        } else if i == 13 || i == 16 {
            c == ':'
        } else {
            decimal_digit(c).is_some()
        };
        if !fits {
            assert(!has_date_time_fields(s@)) by {
                assert(!(if i == 4 || i == 7 {
                    cs@[i as int] == '-'
                } else if i == 10 {
                    cs@[i as int] == 'T'
                } else if i == 13 || i == 16 {
                    cs@[i as int] == ':'
                } else {
                    is_decimal_digit(cs@[i as int])
                }));
            }
            return None;
        }
        i = i + 1;
    }
    assert(has_date_time_fields(s@));
    let year = 100 * two_digits_at(&cs, 0) + two_digits_at(&cs, 2);
    let month = two_digits_at(&cs, 5);
    let day = two_digits_at(&cs, 8);
    let hour = two_digits_at(&cs, 11);
    let minute = two_digits_at(&cs, 14);
    let second = two_digits_at(&cs, 17);

    let mut frac: usize = 0;
    let mut o: usize = 19;
    if cs[19] == '.' {
        frac = digit_run_at(&cs, 20);
        if frac < 1 || frac > 9 {
            return None;
        }
        o = 20 + frac;
    }
    assert(fraction_len(s@) == frac);
    assert(offset_start(s@) == o);

    // The offset.
    let mut plus = true;
    let mut ahead: u64 = 0;
    if o + 1 == n && cs[o] == 'Z' {
    } else if o + 6 == n && (cs[o] == '+' || cs[o] == '-') && decimal_digit(cs[o + 1]).is_some()
        && decimal_digit(cs[o + 2]).is_some() && cs[o + 3] == ':' && decimal_digit(
        cs[o + 4],
    ).is_some() && decimal_digit(cs[o + 5]).is_some() {
        plus = cs[o] == '+';
        ahead = two_digits_at(&cs, o + 1) * 3600 + two_digits_at(&cs, o + 4) * 60;
    } else {
        return None;
    }

    // The fraction, padded to nine digits.
    let mut nanos: u64 = 0;
    let mut k: usize = 0;
    while k < 9
        invariant
            0 <= k <= 9,
            cs@ == s@,
            frac <= 9,
            20 + frac <= cs@.len(),
            forall|m: int| 20 <= m < 20 + frac ==> is_decimal_digit(#[trigger] cs@[m]),
            nanos == padded_fraction(s@, frac as int, k as nat),
            nanos < pow10_upto(k as nat),
        decreases 9 - k,
    {
        let digit: u64 = if k < frac {
            decimal_digit(cs[20 + k]).unwrap()
        } else {
            0
        };
        proof {
            lemma_pow10_upto_bound(k as nat);
        }
        nanos = nanos * 10 + digit;
        k = k + 1;
    }

    // The local date and time, in seconds.
    let y2: u64 = year + 400 - if month <= 2 {
        1
    } else {
        0
    };
    let mp: u64 = if month > 2 {
        month - 3
    } else {
        month + 9
    };
    let days: u64 = y2 * 365 + y2 / 4 - y2 / 100 + y2 / 400 + (153 * mp + 2) / 5 + day - 1;
    let local: u64 = days * 86400 + hour * 3600 + minute * 60 + second;
    let seconds: u64 = if plus {
        local - ahead
    } else {
        local + ahead
    };
    Some((seconds, nanos))
}

/// 10 to the power `k`.
spec fn pow10_upto(k: nat) -> int
    decreases k,
{
    if k == 0 {
        1
    } else {
        10 * pow10_upto((k - 1) as nat)
    }
}

proof fn lemma_pow10_upto_bound(k: nat)
    requires
        k <= 8,
    ensures
        pow10_upto(k) <= 100_000_000,
{
    assert(pow10_upto(0) == 1);
    assert(pow10_upto(1) == 10);
    assert(pow10_upto(2) == 100);
    assert(pow10_upto(3) == 1000);
    assert(pow10_upto(4) == 10000);
    assert(pow10_upto(5) == 100000);
    assert(pow10_upto(6) == 1000000);
    assert(pow10_upto(7) == 10000000);
    assert(pow10_upto(8) == 100000000);
}

/// Whether the update time `a` is later than `b`.
pub fn is_later(a: &str, b: &str) -> (r: bool)
    ensures
        r == later(a@, b@),
{
    match (instant_of_text(a), instant_of_text(b)) {
        (Some(x), Some(y)) => x.0 > y.0 || (x.0 == y.0 && x.1 > y.1),
        (Some(_), None) => true,
        (None, Some(_)) => false,
        (None, None) => bytes_less(b.as_bytes(), a.as_bytes()),
    }
}

} // verus!
