//! Dates written `YYYY-MM-DD`: parsing, day numbers in the proleptic
//! Gregorian calendar, and adding days to a date.
use vstd::prelude::*;
use crate::text::{
    chars_of, is_digit, join, lacks, lemma_parse_pad, lemma_split_join, pad, pad_int,
    parse_integer, parse_integer_chars, push_padded, push_padded_int, split, split_chars, views,
};

verus! {

/// The error texts of date handling.
pub open spec fn date_format_error(v: Seq<char>) -> Seq<char> {
    "invalid date: "@ + v + "; expected YYYY-MM-DD"@
}

/// What `parse_date` accepts: three `-`-separated integers, a year that
/// fits `i32`, a month in `1..=12` and a day in `1..=31` (the day is not
/// checked against the month's length).
pub open spec fn spec_parse_date(v: Seq<char>) -> Result<(int, int, int), Seq<char>> {
    let parts = split(v, '-');
    if parts.len() != 3 {
        Err(date_format_error(v))
    } else {
        match parse_integer(parts[0], i32::MIN as int, i32::MAX as int) {
            None => Err("invalid date year: "@ + v),
            Some(y) => match parse_integer(parts[1], 0, u32::MAX as int) {
                None => Err("invalid date month: "@ + v),
                Some(m) => match parse_integer(parts[2], 0, u32::MAX as int) {
                    None => Err("invalid date day: "@ + v),
                    Some(d) => if !(1 <= m && m <= 12) || !(1 <= d && d <= 31) {
                        Err("invalid date: "@ + v)
                    } else {
                        Ok((y, m, d))
                    },
                },
            },
        }
    }
}

/// The number of days from 1970-01-01 to the given date. A day past the
/// end of its month counts on into the next month, as `mktime` normalises it.
pub open spec fn days_from_civil(y: int, m: int, d: int) -> int {
    let y2 = if m <= 2 {
        y - 1
    } else {
        y
    };
    let era = y2 / 400;
    let yoe = y2 - era * 400;
    let mp = if m > 2 {
        m - 3
    } else {
        m + 9
    };
    let doy = (153 * mp + 2) / 5 + d - 1;
    let doe = yoe * 365 + yoe / 4 - yoe / 100 + doy;
    era * 146097 + doe - 719468
}

/// The date (year, month, day) that lies `z` days after 1970-01-01.
pub open spec fn civil_from_days(z: int) -> (int, int, int) {
    let z2 = z + 719468;
    let era = z2 / 146097;
    let doe = z2 - era * 146097;
    let yoe = (doe - doe / 1460 + doe / 36524 - doe / 146096) / 365;
    let doy = doe - (365 * yoe + yoe / 4 - yoe / 100);
    let mp = (5 * doy + 2) / 153;
    let d = doy - (153 * mp + 2) / 5 + 1;
    let m = if mp < 10 {
        mp + 3
    } else {
        mp - 9
    };
    let y = yoe + era * 400;
    (if m <= 2 {
        y + 1
    } else {
        y
    }, m, d)
}

/// A date written `YYYY-MM-DD`, each field zero-padded.
pub open spec fn format_date(y: int, m: int, d: int) -> Seq<char> {
    pad_int(y, 4) + seq!['-'] + pad(m as nat, 2) + seq!['-'] + pad(d as nat, 2)
}

/// The largest number of days that can be added to a date: beyond it the
/// count of seconds in those days no longer fits an `i64`.
pub open spec fn max_day_offset() -> int {
    i64::MAX / 86400
}

/// The date `days` days after `date`, counted in the proleptic Gregorian
/// calendar (stepping from noon to noon in local time gives the same date,
/// except in a time zone that skips or repeats a whole calendar day). A day
/// past the end of its month counts on into the next month. Fails where
/// `date` does not parse, where it lies before 1970-01-01 (its noon would
/// have a negative epoch), and where the resulting year does not fit the C
/// library's year field.
#[verifier::opaque]
pub open spec fn spec_add_days(date: Seq<char>, days: int) -> Result<Seq<char>, Seq<char>> {
    match spec_parse_date(date) {
        Err(e) => Err(e),
        Ok((y, m, d)) => {
            let start = days_from_civil(y, m, d);
            if start < 0 {
                Err("failed to convert local time to epoch: "@ + date + " 12:00"@)
            } else {
                let (ry, rm, rd) = civil_from_days(start + days);
                if ry < i32::MIN + 1900 || ry > i32::MAX {
                    Err("localtime_r failed"@)
                } else {
                    Ok(format_date(ry, rm, rd))
                }
            }
        },
    }
}

/// `a` followed by `b`.
pub fn cat(a: &str, b: &str) -> (r: String)
    ensures
        r@ == a@ + b@,
{
    let mut r = String::from_str(a);
    r.append(b);
    r
}

/// `a`, then `b`, then `c`.
pub fn cat3(a: &str, b: &str, c: &str) -> (r: String)
    ensures
        r@ == a@ + b@ + c@,
{
    let mut r = String::from_str(a);
    r.append(b);
    r.append(c);
    r
}

/// Parses a date written `YYYY-MM-DD` into (year, month, day).
pub fn parse_date(value: &str) -> (r: Result<(i32, u32, u32), String>)
    ensures
        match r {
            Ok((y, m, d)) => spec_parse_date(value@) == Ok::<(int, int, int), Seq<char>>(
                (y as int, m as int, d as int),
            ),
            Err(e) => spec_parse_date(value@) == Err::<(int, int, int), Seq<char>>(e@),
        },
{
    let v = chars_of(value);
    let parts = split_chars(v.as_slice(), '-');
    if parts.len() != 3 {
        return Err(cat3("invalid date: ", value, "; expected YYYY-MM-DD"));
    }
    assert(views(parts@)[0] == parts@[0]@);
    assert(views(parts@)[1] == parts@[1]@);
    assert(views(parts@)[2] == parts@[2]@);
    let year = match parse_integer_chars(parts[0].as_slice(), i32::MIN as i64, i32::MAX as i64) {
        Some(y) => y,
        None => return Err(cat("invalid date year: ", value)),
    };
    let month = match parse_integer_chars(parts[1].as_slice(), 0, u32::MAX as i64) {
        Some(m) => m,
        None => return Err(cat("invalid date month: ", value)),
    };
    let day = match parse_integer_chars(parts[2].as_slice(), 0, u32::MAX as i64) {
        Some(d) => d,
        None => return Err(cat("invalid date day: ", value)),
    };
    if !(1 <= month && month <= 12) || !(1 <= day && day <= 31) {
        return Err(cat("invalid date: ", value));
    }
    Ok((year as i32, month as u32, day as u32))
}

/// The day number of a date, for a year that fits `i32` and a month in `1..=12`.
pub fn days_from_civil_exec(y: i64, m: i64, d: i64) -> (r: i64)
    requires
        i32::MIN <= y <= i32::MAX,
        1 <= m <= 12,
        1 <= d <= 31,
    ensures
        r == days_from_civil(y as int, m as int, d as int),
        -800_000_000_000 <= r <= 800_000_000_000,
{
    let y2: i64 = if m <= 2 {
        y - 1
    } else {
        y
    };
    // Shift by whole 400-year eras so that the divisions below see no negative number.
    let shifted: i64 = y2 + 4_000_000_000;
    let era_s: i64 = shifted / 400;
    proof {
        vstd::arithmetic::div_mod::lemma_hoist_over_denominator(y2 as int, 10_000_000, 400);
    }
    let yoe: i64 = shifted - era_s * 400;
    let mp: i64 = if m > 2 {
        m - 3
    } else {
        m + 9
    };
    let doy: i64 = (153 * mp + 2) / 5 + d - 1;
    let doe: i64 = yoe * 365 + yoe / 4 - yoe / 100 + doy;
    (era_s - 10_000_000) * 146097 + doe - 719468
}

/// The date `z` days after 1970-01-01, for `z` within 10^15 days.
#[verifier::rlimit(40)]
pub fn civil_from_days_exec(z: i64) -> (r: (i64, i64, i64))
    requires
        -1_000_000_000_000_000 <= z <= 1_000_000_000_000_000,
    ensures
        (r.0 as int, r.1 as int, r.2 as int) == civil_from_days(z as int),
        1 <= r.1 <= 12,
        1 <= r.2 <= 31,
{
    let z2: i64 = z + 719468;
    // Shift by whole 400-year eras so that the divisions below see no negative number.
    let shifted: i64 = z2 + 1_460_970_000_000_000;
    let era_s: i64 = shifted / 146097;
    proof {
        vstd::arithmetic::div_mod::lemma_hoist_over_denominator(
            z2 as int,
            10_000_000_000,
            146097,
        );
    }
    let doe: i64 = shifted - era_s * 146097;
    let yoe: i64 = (doe - doe / 1460 + doe / 36524 - doe / 146096) / 365;
    let doy: i64 = doe - (365 * yoe + yoe / 4 - yoe / 100);
    let mp: i64 = (5 * doy + 2) / 153;
    let d: i64 = doy - (153 * mp + 2) / 5 + 1;
    let m: i64 = if mp < 10 {
        mp + 3
    } else {
        mp - 9
    };
    let y: i64 = yoe + (era_s - 10_000_000_000) * 400;
    (if m <= 2 {
        y + 1
    } else {
        y
    }, m, d)
}

/// Appends a date written `YYYY-MM-DD`.
pub fn push_date(s: &mut String, y: i64, m: i64, d: i64)
    requires
        1 <= m <= 12,
        1 <= d <= 31,
    ensures
        final(s)@ == old(s)@ + format_date(y as int, m as int, d as int),
{
    push_padded_int(s, y, 4);
    s.push('-');
    push_padded(s, m as u64, 2);
    s.push('-');
    push_padded(s, d as u64, 2);
    assert(final(s)@ =~= old(s)@ + format_date(y as int, m as int, d as int));
}

/// The date `days` days after `date` (or before it, for a negative count).
pub fn add_days(date: &str, days: i64) -> (r: Result<String, String>)
    requires
        -max_day_offset() <= days <= max_day_offset(),
    ensures
        match r {
            Ok(s) => spec_add_days(date@, days as int) == Ok::<Seq<char>, Seq<char>>(s@),
            Err(e) => spec_add_days(date@, days as int) == Err::<Seq<char>, Seq<char>>(e@),
        },
{
    proof {
        reveal(spec_add_days);
    }
    let (y, m, d) = match parse_date(date) {
        Ok(t) => t,
        Err(e) => return Err(e),
    };
    let start = days_from_civil_exec(y as i64, m as i64, d as i64);
    if start < 0 {
        return Err(cat3("failed to convert local time to epoch: ", date, " 12:00"));
    }
    let (ry, rm, rd) = civil_from_days_exec(start + days);
    if ry < i32::MIN as i64 + 1900 || ry > i32::MAX as i64 {
        return Err(String::from_str("localtime_r failed"));
    }
    let mut s = String::new();
    push_date(&mut s, ry, rm, rd);
    assert(s@ =~= format_date(ry as int, rm as int, rd as int));
    Ok(s)
}

// ---------------------------------------------------------------------------
// Day numbers and dates are inverse
// ---------------------------------------------------------------------------

/// The intermediate quantities of `civil_from_days` lie in their ranges.
pub proof fn lemma_civil_ranges(doe: int)
    requires
        0 <= doe <= 146096,
    ensures
        ({
            let yoe = (doe - doe / 1460 + doe / 36524 - doe / 146096) / 365;
            let doy = doe - (365 * yoe + yoe / 4 - yoe / 100);
            let mp = (5 * doy + 2) / 153;
            let d = doy - (153 * mp + 2) / 5 + 1;
            &&& 0 <= yoe <= 399
            &&& 0 <= doy <= 365
            &&& 0 <= mp <= 11
            &&& 1 <= d <= 31
        }),
{
}

/// The date of a day number has a month in `1..=12` and a day in
/// `1..=31`, and its day number is the one it came from.
pub proof fn lemma_days_civil(z: int)
    ensures
        ({
            let (y, m, d) = civil_from_days(z);
            &&& 1 <= m <= 12
            &&& 1 <= d <= 31
            &&& days_from_civil(y, m, d) == z
            &&& z >= 0 ==> y >= 1600
        }),
{
    let z2 = z + 719468;
    let era = z2 / 146097;
    let doe = z2 - era * 146097;
    assert(0 <= doe <= 146096);
    lemma_civil_ranges(doe);
    let yoe = (doe - doe / 1460 + doe / 36524 - doe / 146096) / 365;
    let y2 = yoe + era * 400;
    vstd::arithmetic::div_mod::lemma_hoist_over_denominator(yoe, era, 400);
    assert(yoe / 400 == 0);
    assert(y2 / 400 == era);
    if z >= 0 {
        assert(era >= 4);
    }
}

/// A date of a year from 0 to `i32::MAX`, written `YYYY-MM-DD`, parses back.
pub proof fn lemma_parse_format_date(y: int, m: int, d: int)
    requires
        0 <= y <= i32::MAX,
        1 <= m <= 12,
        1 <= d <= 31,
    ensures
        spec_parse_date(format_date(y, m, d)) == Ok::<(int, int, int), Seq<char>>((y, m, d)),
{
    let py = pad(y as nat, 4);
    let pm = pad(m as nat, 2);
    let pd = pad(d as nat, 2);
    lemma_parse_pad(y as nat, 4, i32::MIN as int, i32::MAX as int);
    lemma_parse_pad(m as nat, 2, 0, u32::MAX as int);
    lemma_parse_pad(d as nat, 2, 0, u32::MAX as int);
    let parts = seq![py, pm, pd];
    assert forall|k: int| 0 <= k < parts.len() implies lacks(#[trigger] parts[k], '-') by {
        assert forall|j: int| 0 <= j < parts[k].len() implies parts[k][j] != '-' by {
            assert(is_digit(parts[k][j]));
        }
    }
    lemma_split_join(parts, '-');
    let text = format_date(y, m, d);
    assert(parts.drop_first().drop_first() =~= seq![pd]);
    assert(parts.drop_first() =~= seq![pm, pd]);
    assert(join(seq![pd], seq!['-']) == pd);
    assert(join(seq![pm, pd], seq!['-']) == pm + seq!['-'] + pd);
    assert(join(parts, seq!['-']) == py + seq!['-'] + (pm + seq!['-'] + pd));
    assert(pad_int(y, 4) == py);
    assert(join(parts, seq!['-']) =~= text);
}

/// The day number of a date string, where it parses.
pub open spec fn date_day(date: Seq<char>) -> Option<int> {
    match spec_parse_date(date) {
        Ok((y, m, d)) => Some(days_from_civil(y, m, d)),
        Err(_) => None,
    }
}

/// Adding days twice is adding their sum, as long as the date in between is
/// not before 1970-01-01: the second step reads back the date the first
/// wrote, and lands on the same day number.
pub proof fn lemma_add_days_compose(date: Seq<char>, a: int, b: int)
    requires
        spec_add_days(date, a) is Ok,
        date_day(date) matches Some(z) && z + a >= 0,
    ensures
        date_day(spec_add_days(date, a)->Ok_0) == Some(date_day(date)->Some_0 + a),
        spec_add_days(spec_add_days(date, a)->Ok_0, b) == spec_add_days(date, a + b),
{
    reveal(spec_add_days);
    let z = date_day(date)->Some_0 + a;
    lemma_days_civil(z);
    let (ry, rm, rd) = civil_from_days(z);
    lemma_parse_format_date(ry, rm, rd);
    assert(z + b == date_day(date)->Some_0 + (a + b));
}

proof fn lemma_year_of_era(yoe: int, doy: int)
    requires
        0 <= yoe <= 399,
        0 <= doy <= 364 || (doy == 365 && (yoe + 1) % 4 == 0 && ((yoe + 1) % 100 != 0 || yoe
            == 399)),
    ensures
        ({
            let doe = yoe * 365 + yoe / 4 - yoe / 100 + doy;
            &&& 0 <= doe <= 146096
            &&& (doe - doe / 1460 + doe / 36524 - doe / 146096) / 365 == yoe
        }),
{
}

/// A leap year of the Gregorian calendar.
pub open spec fn is_leap(y: int) -> bool {
    y % 4 == 0 && (y % 100 != 0 || y % 400 == 0)
}

/// The number of days of month `m` of year `y`.
pub open spec fn days_in_month(y: int, m: int) -> int {
    if m == 2 {
        if is_leap(y) {
            29
        } else {
            28
        }
    } else if m == 4 || m == 6 || m == 9 || m == 11 {
        30
    } else {
        31
    }
}

/// The date of a valid date's day number is that date.
pub proof fn lemma_civil_days(y: int, m: int, d: int)
    requires
        1 <= m <= 12,
        1 <= d <= days_in_month(y, m),
    ensures
        civil_from_days(days_from_civil(y, m, d)) == (y, m, d),
{
    let y2 = if m <= 2 {
        y - 1
    } else {
        y
    };
    let era = y2 / 400;
    let yoe = y2 - era * 400;
    let mp = if m > 2 {
        m - 3
    } else {
        m + 9
    };
    let doy = (153 * mp + 2) / 5 + d - 1;
    assert(0 <= yoe <= 399);
    assert((y2 + 1) % 4 == (yoe + 1) % 4);
    assert((y2 + 1) % 100 == (yoe + 1) % 100);
    assert((y2 + 1) % 400 == (yoe + 1) % 400);
    assert(0 <= doy <= 364 || (doy == 365 && (yoe + 1) % 4 == 0 && ((yoe + 1) % 100 != 0 || yoe
        == 399)));
    lemma_year_of_era(yoe, doy);
    let doe = yoe * 365 + yoe / 4 - yoe / 100 + doy;
    let z = days_from_civil(y, m, d);
    assert(z + 719468 == era * 146097 + doe);
    vstd::arithmetic::div_mod::lemma_hoist_over_denominator(doe, era, 146097);
    assert(doe / 146097 == 0);
    assert((z + 719468) / 146097 == era);
    assert((5 * doy + 2) / 153 == mp);
}

/// A valid date on or after 1970-01-01, written `YYYY-MM-DD`, plus zero days is itself.
pub proof fn lemma_add_zero(y: int, m: int, d: int)
    requires
        y <= i32::MAX,
        1 <= m <= 12,
        1 <= d <= days_in_month(y, m),
        days_from_civil(y, m, d) >= 0,
    ensures
        spec_add_days(format_date(y, m, d), 0) == Ok::<Seq<char>, Seq<char>>(format_date(y, m, d)),
{
    reveal(spec_add_days);
    lemma_days_civil(days_from_civil(y, m, d));
    lemma_civil_days(y, m, d);
    lemma_parse_format_date(y, m, d);
}

/// Going `a` days forward and `a` days back again returns to a valid date
/// written `YYYY-MM-DD`, as long as neither date is before 1970-01-01.
pub proof fn lemma_add_days_undo(y: int, m: int, d: int, a: int)
    requires
        y <= i32::MAX,
        1 <= m <= 12,
        1 <= d <= days_in_month(y, m),
        days_from_civil(y, m, d) >= 0,
        days_from_civil(y, m, d) + a >= 0,
        spec_add_days(format_date(y, m, d), a) is Ok,
    ensures
        spec_add_days(spec_add_days(format_date(y, m, d), a)->Ok_0, -a) == Ok::<
            Seq<char>,
            Seq<char>,
        >(format_date(y, m, d)),
{
    lemma_days_civil(days_from_civil(y, m, d));
    lemma_parse_format_date(y, m, d);
    lemma_add_days_compose(format_date(y, m, d), a, -a);
    lemma_add_zero(y, m, d);
}

} // verus!
