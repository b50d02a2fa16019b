//! The civil calendar: dates and times of day, in UTC, from seconds and
//! nanoseconds since 1970.
use crate::text;
use vstd::prelude::*;

verus! {

/// Whether a year has a leap day.
pub open spec fn leap(y: int) -> bool {
    y % 4 == 0 && (y % 100 != 0 || y % 400 == 0)
}

/// The days of a month.
pub open spec fn month_length(y: int, m: int) -> int {
    if m == 2 {
        if leap(y) {
            29
        } else {
            28
        }
    } else if m == 4 || m == 6 || m == 9 || m == 11 {
        30
    } else {
        31
    }
}

/// The days of a year before a month.
pub open spec fn month_start(y: int, m: int) -> int
    decreases m,
{
    if m <= 1 {
        0
    } else {
        month_start(y, m - 1) + month_length(y, m - 1)
    }
}

/// The leap years before a year, from year 1 on.
pub open spec fn leaps_before(y: int) -> int {
    (y - 1) / 4 - (y - 1) / 100 + (y - 1) / 400
}

/// The days between the start of 1970 and the start of a year.
pub open spec fn year_start(y: int) -> int {
    365 * (y - 1970) + leaps_before(y) - leaps_before(1970)
}

/// Whether year, month and day name a date.
pub open spec fn is_date(y: int, m: int, d: int) -> bool {
    1 <= m <= 12 && 1 <= d <= month_length(y, m)
}

/// The days between 1970-01-01 and a date.
pub open spec fn day_number(y: int, m: int, d: int) -> int {
    year_start(y) + month_start(y, m) + d - 1
}

/// A year starts where the year before it ends.
pub proof fn years_follow(y: int)
    ensures
        year_start(y + 1) == year_start(y) + (if leap(y) {
            366int
        } else {
            365int
        }),
{
    lemma_fourth(y);
    lemma_hundredth(y);
    lemma_four_hundredth(y);
    lemma_multiples(y);
}

proof fn lemma_fourth(y: int)
    ensures
        y / 4 == (y - 1) / 4 + (if y % 4 == 0 {
            1int
        } else {
            0int
        }),
{
}

proof fn lemma_hundredth(y: int)
    ensures
        y / 100 == (y - 1) / 100 + (if y % 100 == 0 {
            1int
        } else {
            0int
        }),
{
}

proof fn lemma_four_hundredth(y: int)
    ensures
        y / 400 == (y - 1) / 400 + (if y % 400 == 0 {
            1int
        } else {
            0int
        }),
{
}

proof fn lemma_multiples(y: int)
    ensures
        y % 100 == 0 ==> y % 4 == 0,
        y % 400 == 0 ==> y % 100 == 0,
{
}

proof fn lemma_same_in_era(era: int, k: int)
    ensures
        leap(400 * era + k) == leap(k),
{
    assert((400 * era + k) % 4 == k % 4);
    assert((400 * era + k) % 100 == k % 100);
    assert((400 * era + k) % 400 == k % 400);
}

proof fn lemma_day_of_era(doe: int) -> (yoe: int)
    requires
        0 <= doe <= 146_096,
    ensures
        yoe == (doe - doe / 1460 + doe / 36524 - doe / 146_096) / 365,
        0 <= yoe <= 399,
        0 <= doe - (365 * yoe + yoe / 4 - yoe / 100) <= 365,
        doe - (365 * yoe + yoe / 4 - yoe / 100) == 365 ==> (yoe % 4 == 3 && (yoe % 100 != 99
            || yoe == 399)),
{
    let a = doe / 1460;
    let b = doe / 36524;
    let c = doe / 146_096;
    let yoe = (doe - a + b - c) / 365;
    assert(c == 0 || (c == 1 && doe == 146_096));
    assert(b == 0 || b == 1 || b == 2 || b == 3 || b == 4);
    yoe
}

proof fn lemma_years_increase(a: int, b: int)
    requires
        a <= b,
    ensures
        year_start(a) <= year_start(b),
    decreases b - a,
{
    if a < b {
        lemma_years_increase(a, b - 1);
        years_follow(b - 1);
    }
}

/// A date lies within its year.
proof fn lemma_within_year(y: int, m: int, d: int)
    requires
        is_date(y, m, d),
    ensures
        year_start(y) <= day_number(y, m, d) < year_start(y + 1),
{
    years_follow(y);
    reveal_with_fuel(month_start, 13);
    assert(m == 1 || m == 2 || m == 3 || m == 4 || m == 5 || m == 6 || m == 7 || m == 8 || m == 9
        || m == 10 || m == 11 || m == 12);
}

proof fn lemma_months_increase(y: int, m: int, n: int)
    requires
        1 <= m < n <= 12,
    ensures
        month_start(y, m) + month_length(y, m) <= month_start(y, n),
    decreases n,
{
    if m < n - 1 {
        lemma_months_increase(y, m, n - 1);
    }
}

/// No two dates are the same number of days after 1970-01-01.
pub proof fn days_tell_dates_apart(y: int, m: int, d: int, yy: int, mm: int, dd: int)
    requires
        is_date(y, m, d),
        is_date(yy, mm, dd),
        day_number(y, m, d) == day_number(yy, mm, dd),
    ensures
        y == yy,
        m == mm,
        d == dd,
{
    lemma_within_year(y, m, d);
    lemma_within_year(yy, mm, dd);
    if y < yy {
        lemma_years_increase(y + 1, yy);
    } else if yy < y {
        lemma_years_increase(yy + 1, y);
    } else if m < mm {
        lemma_months_increase(y, m, mm);
    } else if mm < m {
        lemma_months_increase(y, mm, m);
    }
}

/// The date, as year, month and day, that is `z` days after 1970-01-01.
pub open spec fn date_of(z: int) -> (int, int, int) {
    choose|p: (int, int, int)| is_date(p.0, p.1, p.2) && #[trigger] day_number(p.0, p.1, p.2) == z
}

proof fn day_fixes_the_date(y: int, m: int, d: int)
    requires
        is_date(y, m, d),
    ensures
        date_of(day_number(y, m, d)) == (y, m, d),
{
    let z = day_number(y, m, d);
    let p = (y, m, d);
    assert(is_date(p.0, p.1, p.2) && day_number(p.0, p.1, p.2) == z);
    let q = date_of(z);
    days_tell_dates_apart(y, m, d, q.0, q.1, q.2);
}

/// The first of March of a year of an era of 400 years.
proof fn lemma_march(era: int, yoe: int)
    requires
        0 <= yoe <= 399,
    ensures
        ({
            let y = 400 * era + yoe;
            year_start(y) + month_start(y, 3) == era * 146_097 + 365 * yoe + yoe / 4 - yoe / 100
                - 719_468
        }),
{
    let y = 400 * era + yoe;
    assert(month_start(y, 3) == 31 + month_length(y, 2)) by {
        reveal_with_fuel(month_start, 4);
    }
    lemma_era_quotients(era, yoe - 1);
    lemma_same_in_era(era, yoe);
    lemma_fourth(yoe);
    lemma_hundredth(yoe);
    lemma_multiples(yoe);
    assert((yoe - 1) / 400 == if yoe == 0 {
        -1int
    } else {
        0int
    });
}

proof fn lemma_era_quotients(era: int, k: int)
    ensures
        (400 * era + k) / 4 == 100 * era + k / 4,
        (400 * era + k) / 100 == 4 * era + k / 100,
        (400 * era + k) / 400 == era + k / 400,
{
}

/// The months from March on, by the day of a year that starts in March.
proof fn lemma_months(y: int, doy: int) -> (r: (int, int))
    requires
        0 <= doy <= 365,
        doy == 365 ==> leap(y + 1),
    ensures
        ({
            let mp = (5 * doy + 2) / 153;
            let d = doy - (153 * mp + 2) / 5 + 1;
            let m = if mp < 10 {
                mp + 3
            } else {
                mp - 9
            };
            let yy = if m <= 2 {
                y + 1
            } else {
                y
            };
            &&& r == (m, d)
            &&& 0 <= mp <= 11
            &&& is_date(yy, m, d)
            &&& day_number(yy, m, d) == year_start(y) + month_start(y, 3) + doy
        }),
{
    reveal_with_fuel(month_start, 13);
    years_follow(y);
    let mp = (5 * doy + 2) / 153;
    let d = doy - (153 * mp + 2) / 5 + 1;
    let m = if mp < 10 {
        mp + 3
    } else {
        mp - 9
    };
    assert(mp == 0 || mp == 1 || mp == 2 || mp == 3 || mp == 4 || mp == 5 || mp == 6 || mp == 7
        || mp == 8 || mp == 9 || mp == 10 || mp == 11);
    (m, d)
}

/// Quotient and remainder, the remainder never negative.
pub fn floor_divide(a: i64, b: i64) -> (r: (i64, i64))
    requires
        0 < b,
    ensures
        r.0 == a as int / b as int,
        r.1 == a as int % b as int,
        a == r.0 * b + r.1,
        0 <= r.1 < b,
{
    let (q, m): (i64, i64) = if a >= 0 {
        (a / b, a % b)
    } else {
        let q: i64 = -((-(a + 1)) / b) - 1;
        (q, b - 1 - (-(a + 1)) % b)
    };
    proof {
        vstd::arithmetic::div_mod::lemma_fundamental_div_mod(a as int, b as int);
        assert(q * b == b * q) by (nonlinear_arith);
        if a < 0 {
            let n = -(a as int + 1);
            vstd::arithmetic::div_mod::lemma_fundamental_div_mod(n, b as int);
            let k = n / b as int;
            assert((-k - 1) * b == -(b * k) - b) by (nonlinear_arith);
            vstd::arithmetic::div_mod::lemma_fundamental_div_mod_converse(
                a as int,
                b as int,
                q as int,
                m as int,
            );
        }
    }
    (q, m)
}

/// The date that is `z` days after 1970-01-01.
pub fn civil_from_days(z: i64) -> (r: (i64, u32, u32))
    requires
        -0x0fff_ffff_ffff_ffff <= z <= 0x0fff_ffff_ffff_ffff,
    ensures
        is_date(r.0 as int, r.1 as int, r.2 as int),
        day_number(r.0 as int, r.1 as int, r.2 as int) == z,
        (r.0 as int, r.1 as int, r.2 as int) == date_of(z as int),
        z >= -719_162 ==> r.0 >= 1,
{
    let (era, doe): (i64, i64) = floor_divide(z + 719_468, 146_097);
    let ghost yoe_g = lemma_day_of_era(doe as int);
    let yoe: i64 = (doe - doe / 1460 + doe / 36524 - doe / 146_096) / 365;
    let y: i64 = yoe + era * 400;
    let doy: i64 = doe - (365 * yoe + yoe / 4 - yoe / 100);
    proof {
        lemma_march(era as int, yoe as int);
        lemma_same_in_era(era as int, yoe + 1);
        lemma_months(y as int, doy as int);
    }
    let mp: i64 = (5 * doy + 2) / 153;
    let d: u32 = (doy - (153 * mp + 2) / 5 + 1) as u32;
    let m: u32 = if mp < 10 {
        (mp + 3) as u32
    } else {
        (mp - 9) as u32
    };
    let year: i64 = if m <= 2 {
        y + 1
    } else {
        y
    };
    proof {
        day_fixes_the_date(year as int, m as int, d as int);
        if year < 1 {
            lemma_years_increase(year + 1, 1);
            lemma_within_year(year as int, m as int, d as int);
            assert(year_start(1) == -719_162);
        }
    }
    (year, m, d)
}

/// A date and a time of day in UTC, with microseconds, as RFC 3339 writes it.
pub open spec fn rfc3339(secs: int, micros: int) -> Seq<char> {
    let date = date_of(secs / 86_400);
    let sod = secs % 86_400;
    text::padded(date.0 as nat, 4) + "-"@ + text::padded(date.1 as nat, 2) + "-"@ + text::padded(
        date.2 as nat,
        2,
    ) + "T"@ + text::padded((sod / 3600) as nat, 2) + ":"@ + text::padded(
        ((sod % 3600) / 60) as nat,
        2,
    ) + ":"@ + text::padded((sod % 60) as nat, 2) + "."@ + text::padded(micros as nat, 6) + "Z"@
}

/// The hour that holds a time in nanoseconds since 1970, as `YYYYMMDDHH` in
/// UTC.
pub open spec fn hour_text(ts_ns: int) -> Seq<char> {
    let secs = ts_ns / 1_000_000_000;
    let date = date_of(secs / 86_400);
    text::padded(date.0 as nat, 4) + text::padded(date.1 as nat, 2) + text::padded(
        date.2 as nat,
        2,
    ) + text::padded(((secs % 86_400) / 3600) as nat, 2)
}

proof fn lemma_date_found(z: int)
    ensures
        ({
            let p = date_of(z);
            is_date(p.0, p.1, p.2) && day_number(p.0, p.1, p.2) == z
        }),
{
    let era = (z + 719_468) / 146_097;
    let doe = (z + 719_468) % 146_097;
    let yoe = lemma_day_of_era(doe);
    let y = 400 * era + yoe;
    let doy = doe - (365 * yoe + yoe / 4 - yoe / 100);
    lemma_march(era, yoe);
    lemma_same_in_era(era, yoe + 1);
    let (m, d) = lemma_months(y, doy);
    let yy = if m <= 2 {
        y + 1
    } else {
        y
    };
    day_fixes_the_date(yy, m, d);
}

/// Later days have later dates.
pub proof fn later_days_have_later_dates(a: int, b: int)
    requires
        a < b,
    ensures
        ({
            let p = date_of(a);
            let q = date_of(b);
            p.0 < q.0 || p.0 == q.0 && (p.1 < q.1 || p.1 == q.1 && p.2 < q.2)
        }),
{
    lemma_date_found(a);
    lemma_date_found(b);
    let p = date_of(a);
    let q = date_of(b);
    lemma_within_year(p.0, p.1, p.2);
    lemma_within_year(q.0, q.1, q.2);
    if q.0 < p.0 {
        lemma_years_increase(q.0 + 1, p.0);
    } else if q.0 == p.0 && q.1 < p.1 {
        lemma_months_increase(p.0, q.1, p.1);
    }
}

/// The number that an hour's text spells.
spec fn hour_stamp(h: int) -> int {
    let date = date_of(h / 24);
    1_000_000 * date.0 + 10_000 * date.1 + 100 * date.2 + h % 24
}

proof fn lemma_joined_by_hundred(a: Seq<char>, b: Seq<char>)
    requires
        b.len() == 2,
        text::tens(2) == 100,
    ensures
        text::number(a + b) == 100 * text::number(a) + text::number(b),
{
    text::numbers_join(a, b);
    let n = text::number(a);
    let t = text::tens(b.len());
    assert(n * t == 100 * n) by (nonlinear_arith)
        requires
            t == 100,
    ;
}

proof fn lemma_hour_spelled(ts_ns: i64)
    ensures
        hour_text(ts_ns as int).len() == 10,
        forall|i: int| 0 <= i < 10 ==> text::is_digit(#[trigger] hour_text(ts_ns as int)[i]),
        text::number(hour_text(ts_ns as int)) == hour_stamp(ts_ns as int / 3_600_000_000_000),
{
    let secs = ts_ns as int / 1_000_000_000;
    let h = ts_ns as int / 3_600_000_000_000;
    assert(h == secs / 3600);
    assert(secs / 86_400 == h / 24);
    assert((secs % 86_400) / 3600 == h % 24);
    let z = secs / 86_400;
    assert(-106_752 <= z <= 106_752);
    lemma_date_found(z);
    let p = date_of(z);
    lemma_within_year(p.0, p.1, p.2);
    assert(year_start(1) == -719_162);
    if p.0 < 1 {
        lemma_years_increase(p.0 + 1, 1);
    }
    if p.0 >= 9_999 {
        lemma_years_increase(9_999, p.0);
        assert(year_start(9_999) > 106_752);
    }
    let a = text::padded(p.0 as nat, 4);
    let b = text::padded(p.1 as nat, 2);
    let c = text::padded(p.2 as nat, 2);
    let d = text::padded((h % 24) as nat, 2);
    assert(text::tens(2) == 100 && text::tens(4) == 10_000) by {
        reveal_with_fuel(text::tens, 5);
    }
    text::numeral_length(p.0 as nat, 4);
    text::numeral_length(p.1 as nat, 2);
    text::numeral_length(p.2 as nat, 2);
    text::numeral_length((h % 24) as nat, 2);
    text::padded_spells(p.0 as nat, 4);
    text::padded_spells(p.1 as nat, 2);
    text::padded_spells(p.2 as nat, 2);
    text::padded_spells((h % 24) as nat, 2);
    lemma_joined_by_hundred(a, b);
    lemma_joined_by_hundred(a + b, c);
    lemma_joined_by_hundred(a + b + c, d);
    let t = hour_text(ts_ns as int);
    assert(t == a + b + c + d);
    assert forall|i: int| 0 <= i < 10 implies text::is_digit(#[trigger] t[i]) by {
        if i < 4 {
            assert(t[i] == a[i]);
        } else if i < 6 {
            assert(t[i] == b[i - 4]);
        } else if i < 8 {
            assert(t[i] == c[i - 6]);
        } else {
            assert(t[i] == d[i - 8]);
        }
    }
}

/// Hours come in the order of their texts, which are ten digits each, and two
/// times have the text of one hour exactly where they lie in one.
pub proof fn hours_are_in_the_order_of_their_texts(a: i64, b: i64)
    requires
        a <= b,
    ensures
        hour_text(a as int).len() == 10,
        forall|i: int| 0 <= i < 10 ==> text::is_digit(#[trigger] hour_text(a as int)[i]),
        !text::before(hour_text(b as int), hour_text(a as int)),
        hour_text(a as int) == hour_text(b as int) <==> a as int / 3_600_000_000_000 == b as int
            / 3_600_000_000_000,
{
    let g = a as int / 3_600_000_000_000;
    let h = b as int / 3_600_000_000_000;
    lemma_hour_spelled(a);
    lemma_hour_spelled(b);
    text::digits_are_in_order(hour_text(b as int), hour_text(a as int));
    assert(g <= h);
    if g / 24 < h / 24 {
        lemma_date_found(g / 24);
        lemma_date_found(h / 24);
        later_days_have_later_dates(g / 24, h / 24);
        assert(hour_stamp(g) < hour_stamp(h));
    }
}

/// The time `secs` seconds and `micros` microseconds after 1970 in UTC, as
/// RFC 3339 writes it.
pub fn write_rfc3339(secs: u64, micros: u32) -> (r: String)
    requires
        secs <= 0x7fff_ffff_ffff_ffff,
    ensures
        r@ == rfc3339(secs as int, micros as int),
{
    let days: i64 = (secs / 86_400) as i64;
    let sod: u64 = secs % 86_400;
    let (y, m, d): (i64, u32, u32) = civil_from_days(days);
    let mut s = text::show_padded(y as u64, 4);
    s.append("-");
    s.append(text::show_padded(m as u64, 2).as_str());
    s.append("-");
    s.append(text::show_padded(d as u64, 2).as_str());
    s.append("T");
    s.append(text::show_padded(sod / 3600, 2).as_str());
    s.append(":");
    s.append(text::show_padded((sod % 3600) / 60, 2).as_str());
    s.append(":");
    s.append(text::show_padded(sod % 60, 2).as_str());
    s.append(".");
    s.append(text::show_padded(micros as u64, 6).as_str());
    s.append("Z");
    s
}

/// The hour that holds `ts_ns`, as `YYYYMMDDHH` in UTC.
pub fn write_hour(ts_ns: i64) -> (r: String)
    ensures
        r@ == hour_text(ts_ns as int),
{
    let (secs, _): (i64, i64) = floor_divide(ts_ns, 1_000_000_000);
    let (days, sod): (i64, i64) = floor_divide(secs, 86_400);
    assert(-719_162 <= days <= 0x0fff_ffff_ffff_ffff);
    let (y, m, d): (i64, u32, u32) = civil_from_days(days);
    let mut s = text::show_padded(y as u64, 4);
    s.append(text::show_padded(m as u64, 2).as_str());
    s.append(text::show_padded(d as u64, 2).as_str());
    s.append(text::show_padded((sod / 3600) as u64, 2).as_str());
    s
}

/// The text of a time spells it: the digits of its date are those of the day,
/// and its hours, minutes, seconds and microseconds add up to the time of day.
pub proof fn the_text_of_a_time_spells_it(secs: int, micros: int)
    requires
        0 <= date_of(secs / 86_400).0 <= 9_999,
        0 <= micros < 1_000_000,
    ensures
        ({
            let t = rfc3339(secs, micros);
            let year = text::number(t.subrange(0, 4));
            let month = text::number(t.subrange(5, 7));
            let day = text::number(t.subrange(8, 10));
            let hour = text::number(t.subrange(11, 13));
            let minute = text::number(t.subrange(14, 16));
            let second = text::number(t.subrange(17, 19));
            &&& t.len() == 27
            &&& is_date(year as int, month as int, day as int)
            &&& hour < 24
            &&& minute < 60
            &&& second < 60
            &&& 86_400 * day_number(year as int, month as int, day as int) + 3_600 * hour + 60
                * minute + second == secs
            &&& text::number(t.subrange(20, 26)) == micros
        }),
{
    reveal_strlit("-");
    reveal_strlit("T");
    reveal_strlit(":");
    reveal_strlit(".");
    reveal_strlit("Z");
    lemma_date_found(secs / 86_400);
    let date = date_of(secs / 86_400);
    let sod = secs % 86_400;
    reveal_with_fuel(text::tens, 8);
    text::numeral_length(date.0 as nat, 4);
    text::numeral_length(date.1 as nat, 2);
    text::numeral_length(date.2 as nat, 2);
    text::numeral_length((sod / 3600) as nat, 2);
    text::numeral_length(((sod % 3600) / 60) as nat, 2);
    text::numeral_length((sod % 60) as nat, 2);
    text::numeral_length(micros as nat, 6);
    text::padded_spells(date.0 as nat, 4);
    text::padded_spells(date.1 as nat, 2);
    text::padded_spells(date.2 as nat, 2);
    text::padded_spells((sod / 3600) as nat, 2);
    text::padded_spells(((sod % 3600) / 60) as nat, 2);
    text::padded_spells((sod % 60) as nat, 2);
    text::padded_spells(micros as nat, 6);
    let t = rfc3339(secs, micros);
    assert(t.subrange(0, 4) =~= text::padded(date.0 as nat, 4));
    assert(t.subrange(5, 7) =~= text::padded(date.1 as nat, 2));
    assert(t.subrange(8, 10) =~= text::padded(date.2 as nat, 2));
    assert(t.subrange(11, 13) =~= text::padded((sod / 3600) as nat, 2));
    assert(t.subrange(14, 16) =~= text::padded(((sod % 3600) / 60) as nat, 2));
    assert(t.subrange(17, 19) =~= text::padded((sod % 60) as nat, 2));
    assert(t.subrange(20, 26) =~= text::padded(micros as nat, 6));
}

/// Days are counted from the first of January 1970 on, one by one: within a month,
/// from the last day of a month to the first of the next, and from the last of
/// December to the first of January. April, June, September and November have
/// thirty days, February has twenty-eight or, every fourth year but three times in
/// four hundred, twenty-nine, and the others have thirty-one.
pub proof fn days_are_counted_one_by_one(y: int, m: int, d: int)
    requires
        is_date(y, m, d),
    ensures
        day_number(1970, 1, 1) == 0,
        is_date(y, m, d + 1) ==> day_number(y, m, d + 1) == day_number(y, m, d) + 1,
        m < 12 && !is_date(y, m, d + 1) ==> day_number(y, m + 1, 1) == day_number(y, m, d) + 1,
        m == 12 && d == 31 ==> day_number(y + 1, 1, 1) == day_number(y, m, d) + 1,
        m == 4 || m == 6 || m == 9 || m == 11 ==> (is_date(y, m, d + 1) <==> d < 30),
        m == 1 || m == 3 || m == 5 || m == 7 || m == 8 || m == 10 || m == 12 ==> (is_date(
            y,
            m,
            d + 1,
        ) <==> d < 31),
        m == 2 && (y % 400 == 0 || y % 4 == 0 && y % 100 != 0) ==> (is_date(y, m, d + 1) <==> d
            < 29),
        m == 2 && !(y % 400 == 0 || y % 4 == 0 && y % 100 != 0) ==> (is_date(y, m, d + 1) <==> d
            < 28),
{
    reveal_with_fuel(month_start, 13);
    years_follow(y);
    if m == 12 && d == 31 {
        lemma_within_year(y, m, d);
    }
}

} // verus!
