//! Points in time, in microseconds since the Unix epoch, and their texts.

use vstd::prelude::*;
use vstd::string::*;
use vstd::utf8::*;

use crate::number::decimal;
use crate::number::decimal_text;
use crate::number::digit;
use crate::number::signed_decimal;
use crate::number::signed_text;
use crate::number::zero_padded;
use crate::order::bytes_before;
use crate::order::lemma_first_difference;
use crate::order::lemma_text_irreflexive;
use crate::order::lemma_text_total;
use crate::order::text_before;

verus! {

/// Microseconds in a day.
pub const MICROS_PER_DAY: i64 = 86_400_000_000;

/// The earliest point in time that has a date.
pub const EARLIEST_US: i64 = -377_705_023_201_000_000;

/// The latest point in time that has a date.
pub const LATEST_US: i64 = 253_402_207_200_000_000;

/// Whether a point in time has a date.
pub open spec fn has_date(us: int) -> bool {
    EARLIEST_US <= us <= LATEST_US
}

/// Whether a year of the Gregorian calendar, extended to all years, is a leap year.
pub open spec fn is_leap(y: int) -> bool {
    y % 4 == 0 && (y % 100 != 0 || y % 400 == 0)
}

pub open spec fn days_in_month(y: int, m: int) -> int {
    if m == 2 {
        if is_leap(y) {
            29
        } else {
            28
        }
    } else if m == 4 || m == 6 || m == 9 || m == 11 {
        30
    } else {
        31
    }
}

/// Number of days of a year before its month `m`.
pub open spec fn days_before_month(y: int, m: int) -> int
    decreases m,
{
    if m <= 1 {
        0
    } else {
        days_before_month(y, m - 1) + days_in_month(y, m - 1)
    }
}

/// Number of days from the first day of year zero to the first day of a year.
pub open spec fn days_before_year(y: int) -> int {
    365 * y + (y + 3) / 4 - (y + 99) / 100 + (y + 399) / 400
}

pub open spec fn is_date(y: int, m: int, d: int) -> bool {
    1 <= m <= 12 && 1 <= d <= days_in_month(y, m)
}

/// Number of days from 1970-01-01 to a date.
pub open spec fn day_number(y: int, m: int, d: int) -> int {
    days_before_year(y) + days_before_month(y, m) + d - 1 - 719528
}

/// The day of a point in time, counted from 1970-01-01.
pub open spec fn day_of(us: int) -> int {
    us / 86_400_000_000
}

/// A year in four characters at least, a minus sign among them.
pub open spec fn year_text(y: int) -> Seq<char> {
    if y < 0 {
        seq!['-'] + zero_padded((-y) as nat, 3)
    } else {
        zero_padded(y as nat, 4)
    }
}

pub open spec fn date_text(y: int, m: int, d: int) -> Seq<char> {
    year_text(y) + seq!['-'] + zero_padded(m as nat, 2) + seq!['-'] + zero_padded(d as nat, 2)
}

/// `text` is the date of a point in time, in UTC.
pub open spec fn is_date_of(text: Seq<char>, us: int) -> bool {
    exists|y: int, m: int, d: int| #[trigger]
        is_date(y, m, d) && day_number(y, m, d) == day_of(us) && text == date_text(y, m, d)
}

/// The date of a point in time, in UTC, and nothing where it has none.
pub open spec fn date_of(us: int) -> Seq<char> {
    if has_date(us) {
        choose|text: Seq<char>| is_date_of(text, us)
    } else {
        Seq::empty()
    }
}

/// The point in time that a text writes, cut to whole microseconds; nothing where it writes
/// none.
pub uninterp spec fn timestamp_us(text: Seq<char>) -> Option<i64>;

/// The text of a point in time that has a date.
pub uninterp spec fn timestamp_display(us: i64) -> Seq<char>;

/// The text of a point in time, or its number where it has no date.
pub open spec fn us_text(us: i64) -> Seq<char> {
    if has_date(us as int) {
        timestamp_display(us)
    } else {
        signed_decimal(us as int)
    }
}

/// A number of units that have passed.
pub open spec fn ago(n: nat, unit: Seq<char>) -> Seq<char> {
    decimal(n) + " "@ + unit + (if n == 1 {
        Seq::empty()
    } else {
        "s"@
    }) + " ago"@
}

/// The label of a span of seconds: in the greatest unit of which it holds one, where a month
/// has thirty days and a year twelve months.
pub open spec fn age_of(secs: nat) -> Seq<char> {
    let mins = secs / 60;
    let hours = mins / 60;
    let days = hours / 24;
    let months = days / 30;
    let years = months / 12;
    if secs < 60 {
        "just now"@
    } else if mins < 60 {
        ago(mins, "minute"@)
    } else if hours < 24 {
        ago(hours, "hour"@)
    } else if days < 30 {
        ago(days, "day"@)
    } else if months < 12 {
        ago(months, "month"@)
    } else {
        ago(years, "year"@)
    }
}

/// Number of whole seconds between two points in time.
pub open spec fn seconds_between(a: int, b: int) -> nat {
    if a >= b {
        ((a - b) / 1_000_000) as nat
    } else {
        ((b - a) / 1_000_000) as nat
    }
}

/// The age of a timestamp text at a point in time; the text itself where it is no timestamp.
pub open spec fn humanized(text: Seq<char>, now: int) -> Seq<char> {
    match timestamp_us(text) {
        Some(then) => age_of(seconds_between(now, then as int)),
        None => text,
    }
}

/// `jiff::Timestamp::from_microsecond`, then `strftime` with the year, the month and the day.
/// There is no result for a point in time outside the range that the crate supports, and
/// otherwise it is the date in UTC, a month and a day in two digits and a year in four
/// characters or more.
#[verifier::external_body]
fn utc_date(us: i64) -> (r: Option<String>)
    ensures
        match r {
            Some(text) => has_date(us as int) && is_date_of(text@, us as int),
            None => !has_date(us as int),
        },
{
    jiff::Timestamp::from_microsecond(us).ok().map(|ts| ts.strftime("%Y-%m-%d").to_string())
}

/// `jiff::Timestamp`'s `FromStr`, then `as_microsecond`. Claims only that the result depends on
/// the text alone: a text without an offset from UTC is no timestamp, and a time zone in
/// brackets is not looked up.
#[verifier::external_body]
pub(crate) fn parse_us(text: &str) -> (r: Option<i64>)
    ensures
        r == timestamp_us(text@),
{
    text.parse::<jiff::Timestamp>().ok().map(|ts| ts.as_microsecond())
}

/// `jiff::Timestamp::from_microsecond`, then `Display`. There is no result for a point in time
/// outside the range that the crate supports. Otherwise the text depends on the point in time
/// alone, and reading it back gives that point in time.
#[verifier::external_body]
fn display_us(us: i64) -> (r: Option<String>)
    ensures
        match r {
            Some(text) => has_date(us as int) && text@ == timestamp_display(us) && timestamp_us(
                text@,
            ) == Some(us),
            None => !has_date(us as int),
        },
{
    jiff::Timestamp::from_microsecond(us).ok().map(|ts| ts.to_string())
}

/// `jiff::Timestamp::now`, then `as_microsecond`. What the clock shows is left open but for
/// the range of the crate's timestamps, whose last second has all its microseconds. The crate
/// panics where the system's clock is set outside that range.
#[verifier::external_body]
pub(crate) fn clock_us() -> (us: i64)
    ensures
        EARLIEST_US <= us <= LATEST_US + 999_999,
{
    jiff::Timestamp::now().as_microsecond()
}

/// The date on which a point in time falls, in UTC.
pub fn day_key(us: i64) -> (r: String)
    ensures
        r@ == date_of(us as int),
        has_date(us as int) ==> is_date_of(r@, us as int),
{
    match utc_date(us) {
        Some(text) => {
            proof {
                let other = date_of(us as int);
                assert(is_date_of(other, us as int));
                law_date_is_unique(text@, other, us as int);
            }
            text
        },
        None => String::new(),
    }
}

/// A point in time as text.
pub fn format_us(us: i64) -> (r: String)
    ensures
        r@ == us_text(us),
        has_date(us as int) ==> timestamp_us(r@) == Some(us),
{
    match display_us(us) {
        Some(text) => text,
        None => signed_text(us),
    }
}

fn ago_text(n: u64, unit: &str) -> (r: String)
    ensures
        r@ == ago(n as nat, unit@),
{
    let mut r = decimal_text(n);
    r.append(" ");
    r.append(unit);
    if n != 1 {
        r.append("s");
    }
    r.append(" ago");
    assert(r@ =~= ago(n as nat, unit@));
    r
}

/// The age of a point in time, seen from another.
pub fn age_label(then_us: i64, now_us: i64) -> (r: String)
    ensures
        r@ == age_of(seconds_between(now_us as int, then_us as int)),
{
    let diff: i128 = now_us as i128 - then_us as i128;
    let secs: u64 = if diff >= 0 {
        (diff / 1_000_000) as u64
    } else {
        ((-diff) / 1_000_000) as u64
    };
    if secs < 60 {
        return "just now".to_owned();
    }
    let mins: u64 = secs / 60;
    if mins < 60 {
        return ago_text(mins, "minute");
    }
    let hours: u64 = mins / 60;
    if hours < 24 {
        return ago_text(hours, "hour");
    }
    let days: u64 = hours / 24;
    if days < 30 {
        return ago_text(days, "day");
    }
    let months: u64 = days / 30;
    if months < 12 {
        return ago_text(months, "month");
    }
    ago_text(months / 12, "year")
}

/// The age of a timestamp text at a given point in time.
pub fn humanize_at(iso: &str, now_us: i64) -> (r: String)
    ensures
        r@ == humanized(iso@, now_us as int),
{
    match parse_us(iso) {
        Some(then_us) => age_label(then_us, now_us),
        None => iso.to_owned(),
    }
}

/// The age of a timestamp text.
pub fn humanize(iso: &str) -> (r: String)
    ensures
        exists|now: int|
            EARLIEST_US <= now <= LATEST_US + 999_999 && #[trigger] humanized(iso@, now) == r@,
        timestamp_us(iso@) is None ==> r@ == iso@,
{
    let now: i64 = clock_us();
    let r = humanize_at(iso, now);
    assert(humanized(iso@, now as int) == r@);
    r
}

proof fn lemma_year_step(y: int)
    ensures
        days_before_year(y + 1) == days_before_year(y) + 365 + (if is_leap(y) {
            1int
        } else {
            0int
        }),
{
    let l4 = (y + 4) / 4 - (y + 3) / 4;
    let l100 = (y + 100) / 100 - (y + 99) / 100;
    let l400 = (y + 400) / 400 - (y + 399) / 400;
    assert(l4 == if y % 4 == 0 {
        1int
    } else {
        0int
    });
    assert(l100 == if y % 100 == 0 {
        1int
    } else {
        0int
    });
    assert(l400 == if y % 400 == 0 {
        1int
    } else {
        0int
    });
    assert(y % 400 == 0 ==> y % 100 == 0);
    assert(y % 100 == 0 ==> y % 4 == 0);
}

/// Years follow each other.
proof fn lemma_years_increase(a: int, b: int)
    requires
        a <= b,
    ensures
        days_before_year(a) + 365 * (b - a) <= days_before_year(b),
    decreases b - a,
{
    if a < b {
        lemma_years_increase(a, b - 1);
        lemma_year_step(b - 1);
    }
}

proof fn lemma_months_increase(y: int, a: int, b: int)
    requires
        1 <= a <= b <= 13,
    ensures
        0 <= days_before_month(y, a) <= days_before_month(y, b),
        a < b ==> days_before_month(y, a) + days_in_month(y, a) <= days_before_month(y, b),
    decreases b,
{
    if a < b {
        lemma_months_increase(y, a, b - 1);
    } else if a > 1 {
        lemma_months_increase(y, 1, a - 1);
    }
}

proof fn lemma_year_length(y: int)
    ensures
        days_before_month(y, 13) == 365 + (if is_leap(y) {
            1int
        } else {
            0int
        }),
{
    reveal_with_fuel(days_before_month, 14);
}

/// A date falls into its year.
proof fn lemma_day_in_year(y: int, m: int, d: int)
    requires
        is_date(y, m, d),
    ensures
        days_before_year(y) <= day_number(y, m, d) + 719528 < days_before_year(y + 1),
{
    lemma_months_increase(y, 1, m);
    lemma_months_increase(y, m, 13);
    lemma_year_length(y);
    lemma_year_step(y);
}

/// The order of dates is that of their days.
pub proof fn lemma_date_order(y: int, m: int, d: int, y2: int, m2: int, d2: int)
    requires
        is_date(y, m, d),
        is_date(y2, m2, d2),
    ensures
        day_number(y, m, d) < day_number(y2, m2, d2) <==> (y < y2 || y == y2 && (m < m2 || m == m2
            && d < d2)),
{
    lemma_day_in_year(y, m, d);
    lemma_day_in_year(y2, m2, d2);
    if y < y2 {
        lemma_years_increase(y + 1, y2);
    } else if y2 < y {
        lemma_years_increase(y2 + 1, y);
    } else if m < m2 {
        lemma_months_increase(y, m, m2);
    } else if m2 < m {
        lemma_months_increase(y, m2, m);
    }
}

/// The day after a date is a date.
proof fn lemma_next_date(n: int)
    requires
        has_day(n),
    ensures
        has_day(n + 1),
{
    let (y, m, d) = choose|y: int, m: int, d: int| #[trigger]
        is_date(y, m, d) && day_number(y, m, d) == n;
    if d < days_in_month(y, m) {
        assert(is_date(y, m, d + 1) && day_number(y, m, d + 1) == n + 1);
    } else if m < 12 {
        assert(is_date(y, m + 1, 1) && day_number(y, m + 1, 1) == n + 1);
    } else {
        lemma_year_length(y);
        lemma_year_step(y);
        assert(days_before_month(y, 13) == days_before_month(y, 12) + 31);
        assert(is_date(y + 1, 1, 1) && day_number(y + 1, 1, 1) == n + 1);
    }
}

/// The day before a date is a date.
proof fn lemma_previous_date(n: int)
    requires
        has_day(n),
    ensures
        has_day(n - 1),
{
    let (y, m, d) = choose|y: int, m: int, d: int| #[trigger]
        is_date(y, m, d) && day_number(y, m, d) == n;
    if d > 1 {
        assert(is_date(y, m, d - 1) && day_number(y, m, d - 1) == n - 1);
    } else if m > 1 {
        let last = days_in_month(y, m - 1);
        assert(is_date(y, m - 1, last) && day_number(y, m - 1, last) == n - 1);
    } else {
        lemma_year_length(y - 1);
        lemma_year_step(y - 1);
        assert(days_before_month(y - 1, 13) == days_before_month(y - 1, 12) + 31);
        assert(is_date(y - 1, 12, 31) && day_number(y - 1, 12, 31) == n - 1);
    }
}

/// Whether some date falls on a day.
spec fn has_day(n: int) -> bool {
    exists|y: int, m: int, d: int| #[trigger] is_date(y, m, d) && day_number(y, m, d) == n
}

proof fn lemma_every_day(n: int)
    ensures
        has_day(n),
    decreases
            if n >= 0 {
                n
            } else {
                -n
            },
{
    if n == 0 {
        assert(is_date(1970, 1, 1) && day_number(1970, 1, 1) == 0);
    } else if n > 0 {
        lemma_every_day(n - 1);
        lemma_next_date(n - 1);
    } else {
        lemma_every_day(n + 1);
        lemma_previous_date(n + 1);
    }
}

/// Every point in time within the range has a date.
pub proof fn law_every_time_has_a_date(us: int)
    requires
        has_date(us),
    ensures
        is_date_of(date_of(us), us),
{
    lemma_every_day(day_of(us));
    let (y, m, d) = choose|y: int, m: int, d: int| #[trigger]
        is_date(y, m, d) && day_number(y, m, d) == day_of(us);
    assert(is_date_of(date_text(y, m, d), us));
}

/// A point in time has one date only.
pub proof fn law_date_is_unique(a: Seq<char>, b: Seq<char>, us: int)
    requires
        is_date_of(a, us),
        is_date_of(b, us),
    ensures
        a == b,
{
    let (y, m, d) = choose|y: int, m: int, d: int| #[trigger]
        is_date(y, m, d) && day_number(y, m, d) == day_of(us) && a == date_text(y, m, d);
    let (y2, m2, d2) = choose|y: int, m: int, d: int| #[trigger]
        is_date(y, m, d) && day_number(y, m, d) == day_of(us) && b == date_text(y, m, d);
    lemma_date_order(y, m, d, y2, m2, d2);
    lemma_date_order(y2, m2, d2, y, m, d);
}

proof fn lemma_two_digits(n: nat)
    requires
        n < 100,
    ensures
        zero_padded(n, 2) == seq![digit(n / 10), digit(n % 10)],
{
    reveal_with_fuel(decimal, 3);
    assert(zero_padded(n, 2) =~= seq![digit(n / 10), digit(n % 10)]);
}

proof fn lemma_four_digits(n: nat)
    requires
        n < 10000,
    ensures
        zero_padded(n, 4) == seq![
            digit(n / 1000),
            digit(n / 100 % 10),
            digit(n / 10 % 10),
            digit(n % 10),
        ],
{
    reveal_with_fuel(decimal, 5);
    assert(n / 10 / 10 == n / 100);
    assert(n / 100 / 10 == n / 1000);
    assert(zero_padded(n, 4) =~= seq![
        digit(n / 1000),
        digit(n / 100 % 10),
        digit(n / 10 % 10),
        digit(n % 10),
    ]);
}

proof fn lemma_three_digits(n: nat)
    requires
        n < 10000,
    ensures
        n < 1000 ==> zero_padded(n, 3) == seq![digit(n / 100), digit(n / 10 % 10), digit(n % 10)],
        n >= 1000 ==> zero_padded(n, 3) == zero_padded(n, 4),
{
    reveal_with_fuel(decimal, 5);
    assert(n / 10 / 10 == n / 100);
    assert(n / 100 / 10 == n / 1000);
    if n < 1000 {
        assert(zero_padded(n, 3) =~= seq![digit(n / 100), digit(n / 10 % 10), digit(n % 10)]);
    } else {
        assert(zero_padded(n, 3) =~= zero_padded(n, 4));
    }
}

/// A year is told by its text.
proof fn lemma_year_text_injective(y: int, y2: int)
    requires
        -9999 <= y <= 9999,
        -9999 <= y2 <= 9999,
        year_text(y) == year_text(y2),
    ensures
        y == y2,
{
    let (t, t2) = (year_text(y), year_text(y2));
    assert(t[0] == t2[0]);
    let n = if y < 0 {
        (-y) as nat
    } else {
        y as nat
    };
    let n2 = if y2 < 0 {
        (-y2) as nat
    } else {
        y2 as nat
    };
    lemma_three_digits(n);
    lemma_three_digits(n2);
    lemma_four_digits(n);
    lemma_four_digits(n2);
    lemma_digits_of(n as int);
    lemma_digits_of(n2 as int);
    assert(t.len() == t2.len());
    if y < 0 && y2 < 0 {
        assert(t[1] == t2[1] && t[2] == t2[2] && t[3] == t2[3]);
        if n >= 1000 {
            assert(t[4] == t2[4]);
        }
    } else if y >= 0 && y2 >= 0 {
        assert(t[1] == t2[1] && t[2] == t2[2] && t[3] == t2[3]);
    }
}

/// A date is told by its text.
proof fn lemma_date_text_injective(y: int, m: int, d: int, y2: int, m2: int, d2: int)
    requires
        is_date(y, m, d),
        is_date(y2, m2, d2),
        -9999 <= y <= 9999,
        -9999 <= y2 <= 9999,
        date_text(y, m, d) == date_text(y2, m2, d2),
    ensures
        y == y2,
        m == m2,
        d == d2,
{
    lemma_two_digits(m as nat);
    lemma_two_digits(d as nat);
    lemma_two_digits(m2 as nat);
    lemma_two_digits(d2 as nat);
    let (t, t2) = (date_text(y, m, d), date_text(y2, m2, d2));
    let n = t.len() as int;
    assert(t[n - 1] == t2[n - 1] && t[n - 2] == t2[n - 2]);
    assert(t[n - 4] == t2[n - 4] && t[n - 5] == t2[n - 5]);
    assert(t.take(n - 6) =~= year_text(y));
    assert(t2.take(n - 6) =~= year_text(y2));
    lemma_year_text_injective(y, y2);
}

/// The years of dates within the range.
proof fn lemma_dated_year(y: int, m: int, d: int, us: int)
    requires
        is_date(y, m, d),
        has_date(us),
        day_number(y, m, d) == day_of(us),
    ensures
        -9999 <= y <= 9999,
{
    lemma_day_in_year(y, m, d);
    if y < -9999 {
        lemma_years_increase(y + 1, -9999);
    }
    if y > 9999 {
        lemma_years_increase(10000, y);
    }
}

/// Points in time of the same date fall on the same day, and only those do.
pub proof fn law_dates_tell_days_apart(us: int, us2: int)
    requires
        has_date(us),
        has_date(us2),
    ensures
        date_of(us) == date_of(us2) <==> day_of(us) == day_of(us2),
        date_of(us).len() > 0,
{
    law_every_time_has_a_date(us);
    law_every_time_has_a_date(us2);
    let (a, b) = (date_of(us), date_of(us2));
    let (y, m, d) = choose|y: int, m: int, d: int| #[trigger]
        is_date(y, m, d) && day_number(y, m, d) == day_of(us) && a == date_text(y, m, d);
    let (y2, m2, d2) = choose|y: int, m: int, d: int| #[trigger]
        is_date(y, m, d) && day_number(y, m, d) == day_of(us2) && b == date_text(y, m, d);
    lemma_dated_year(y, m, d, us);
    lemma_dated_year(y2, m2, d2, us2);
    if a == b {
        lemma_date_text_injective(y, m, d, y2, m2, d2);
    }
    if day_of(us) == day_of(us2) {
        assert(is_date_of(b, us));
        law_date_is_unique(a, b, us);
    }
}

/// From year zero on, dates as texts are in the order of their days.
pub proof fn law_dates_sort_by_time(a: Seq<char>, b: Seq<char>, us: int, us2: int)
    requires
        is_date_of(a, us),
        is_date_of(b, us2),
        -62_167_219_200_000_000 <= us <= LATEST_US,
        -62_167_219_200_000_000 <= us2 <= LATEST_US,
    ensures
        text_before(a, b) <==> day_of(us) < day_of(us2),
        a == b <==> day_of(us) == day_of(us2),
{
    let (y, m, d) = choose|y: int, m: int, d: int| #[trigger]
        is_date(y, m, d) && day_number(y, m, d) == day_of(us) && a == date_text(y, m, d);
    let (y2, m2, d2) = choose|y: int, m: int, d: int| #[trigger]
        is_date(y, m, d) && day_number(y, m, d) == day_of(us2) && b == date_text(y, m, d);
    lemma_year_range(y, m, d);
    lemma_year_range(y2, m2, d2);
    lemma_date_order(y, m, d, y2, m2, d2);
    lemma_date_order(y2, m2, d2, y, m, d);
    if day_of(us) < day_of(us2) {
        lemma_date_text_order(y, m, d, y2, m2, d2);
    } else if day_of(us2) < day_of(us) {
        lemma_date_text_order(y2, m2, d2, y, m, d);
    }
    lemma_text_total(a, b);
    lemma_text_irreflexive(a);
}

proof fn lemma_year_range(y: int, m: int, d: int)
    requires
        is_date(y, m, d),
        -719528 <= day_number(y, m, d) <= 2932895,
    ensures
        0 <= y <= 9999,
{
    lemma_day_in_year(y, m, d);
    if y < 0 {
        lemma_years_increase(y + 1, 0);
    }
    if y > 9999 {
        lemma_years_increase(10000, y);
    }
}

/// The bytes of a date of four digit years.
spec fn date_bytes(y: int, m: int, d: int) -> Seq<u8> {
    seq![
        (48 + y / 1000) as u8,
        (48 + y / 100 % 10) as u8,
        (48 + y / 10 % 10) as u8,
        (48 + y % 10) as u8,
        45u8,
        (48 + m / 10) as u8,
        (48 + m % 10) as u8,
        45u8,
        (48 + d / 10) as u8,
        (48 + d % 10) as u8,
    ]
}

proof fn lemma_date_bytes(y: int, m: int, d: int)
    requires
        is_date(y, m, d),
        0 <= y <= 9999,
    ensures
        encode_utf8(date_text(y, m, d)) == date_bytes(y, m, d),
{
    lemma_four_digits(y as nat);
    lemma_two_digits(m as nat);
    lemma_two_digits(d as nat);
    let a = date_text(y, m, d);
    let chars = seq![
        digit((y / 1000) as nat),
        digit((y / 100 % 10) as nat),
        digit((y / 10 % 10) as nat),
        digit((y % 10) as nat),
        '-',
        digit((m / 10) as nat),
        digit((m % 10) as nat),
        '-',
        digit((d / 10) as nat),
        digit((d % 10) as nat),
    ];
    assert(a =~= chars);
    assert(is_ascii_chars(chars));
    is_ascii_chars_encode_utf8(chars);
    assert(encode_utf8(chars) =~= date_bytes(y, m, d));
}

proof fn lemma_digits_of(n: int)
    requires
        0 <= n <= 9999,
    ensures
        n == 1000 * (n / 1000) + 100 * (n / 100 % 10) + 10 * (n / 10 % 10) + n % 10,
        0 <= n / 1000 <= 9,
        0 <= n / 100 % 10 <= 9,
        0 <= n / 10 % 10 <= 9,
{
    assert(n / 1000 == n / 100 / 10);
    assert(n / 100 == n / 10 / 10);
}

/// Of two numbers the smaller has the smaller digit where they first differ.
proof fn lemma_digit_order(a: int, b: int)
    requires
        0 <= a < b <= 9999,
    ensures
        a / 1000 <= b / 1000,
        a / 1000 == b / 1000 ==> a / 100 % 10 <= b / 100 % 10,
        a / 1000 == b / 1000 && a / 100 % 10 == b / 100 % 10 ==> a / 10 % 10 <= b / 10 % 10,
        a / 1000 == b / 1000 && a / 100 % 10 == b / 100 % 10 && a / 10 % 10 == b / 10 % 10 ==> a
            % 10 < b % 10,
{
    lemma_digits_of(a);
    lemma_digits_of(b);
}

/// An earlier date comes before a later one as a text.
proof fn lemma_date_text_order(y: int, m: int, d: int, y2: int, m2: int, d2: int)
    requires
        is_date(y, m, d),
        is_date(y2, m2, d2),
        0 <= y <= 9999,
        0 <= y2 <= 9999,
        y < y2 || y == y2 && (m < m2 || m == m2 && d < d2),
    ensures
        text_before(date_text(y, m, d), date_text(y2, m2, d2)),
{
    lemma_date_bytes(y, m, d);
    lemma_date_bytes(y2, m2, d2);
    let a = date_bytes(y, m, d);
    let b = date_bytes(y2, m2, d2);
    if y < y2 {
        lemma_year_first(y, m, d, y2, m2, d2);
    } else if m < m2 {
        if m / 10 != m2 / 10 {
            lemma_first_difference(a, b, 5);
        } else {
            lemma_first_difference(a, b, 6);
        }
    } else {
        if d / 10 != d2 / 10 {
            lemma_first_difference(a, b, 8);
        } else {
            lemma_first_difference(a, b, 9);
        }
    }
}

proof fn lemma_year_first(y: int, m: int, d: int, y2: int, m2: int, d2: int)
    requires
        0 <= y < y2 <= 9999,
    ensures
        bytes_before(date_bytes(y, m, d), date_bytes(y2, m2, d2)),
{
    let a = date_bytes(y, m, d);
    let b = date_bytes(y2, m2, d2);
    lemma_digit_order(y, y2);
    lemma_digits_of(y);
    lemma_digits_of(y2);
    if y / 1000 != y2 / 1000 {
        lemma_first_difference(a, b, 0);
    } else if y / 100 % 10 != y2 / 100 % 10 {
        lemma_first_difference(a, b, 1);
    } else if y / 10 % 10 != y2 / 10 % 10 {
        lemma_first_difference(a, b, 2);
    } else {
        lemma_first_difference(a, b, 3);
    }
}

/// An age is the whole number of the greatest unit of which it holds one: minutes, hours, days,
/// months of thirty days, years of twelve months. A minute has to pass first.
pub proof fn law_age_is_in_the_greatest_unit(secs: nat, n: nat)
    ensures
        secs < 60 ==> age_of(secs) == "just now"@,
        1 <= n < 60 && n * 60 <= secs < (n + 1) * 60 ==> age_of(secs) == decimal(n) + " "@
            + "minute"@ + (if n == 1 {
            Seq::empty()
        } else {
            "s"@
        }) + " ago"@,
        1 <= n < 24 && n * 3600 <= secs < (n + 1) * 3600 ==> age_of(secs) == decimal(n) + " "@
            + "hour"@ + (if n == 1 {
            Seq::empty()
        } else {
            "s"@
        }) + " ago"@,
        1 <= n < 30 && n * 86_400 <= secs < (n + 1) * 86_400 ==> age_of(secs) == decimal(n) + " "@
            + "day"@ + (if n == 1 {
            Seq::empty()
        } else {
            "s"@
        }) + " ago"@,
        1 <= n < 12 && n * 2_592_000 <= secs < (n + 1) * 2_592_000 ==> age_of(secs) == decimal(n)
            + " "@ + "month"@ + (if n == 1 {
            Seq::empty()
        } else {
            "s"@
        }) + " ago"@,
        1 <= n && n * 31_104_000 <= secs < (n + 1) * 31_104_000 ==> age_of(secs) == decimal(n)
            + " "@ + "year"@ + (if n == 1 {
            Seq::empty()
        } else {
            "s"@
        }) + " ago"@,
{
    let mins = secs / 60;
    let hours = mins / 60;
    let days = hours / 24;
    let months = days / 30;
    assert(hours == secs / 3600);
    assert(days == secs / 86_400);
    assert(months == secs / 2_592_000);
    assert(months / 12 == secs / 31_104_000);
}

/// What a text is shown as goes by the distance between its time and the present, whichever of
/// them is the later. A text that is no time is shown as it is.
pub proof fn law_ages_go_by_the_distance(text: Seq<char>, now: int)
    ensures
        timestamp_us(text) is None ==> humanized(text, now) == text,
        timestamp_us(text) matches Some(then) ==> {
            &&& now >= then ==> humanized(text, now) == age_of(
                ((now - then) / 1_000_000) as nat,
            )
            &&& now <= then ==> humanized(text, now) == age_of(
                ((then - now) / 1_000_000) as nat,
            )
        },
{
}

/// A point in time is shown as a timestamp where it has a date, and else as its number. It has
/// one from the year -9999 to the year 9999.
pub proof fn law_times_without_a_date_are_shown_as_numbers(us: i64)
    ensures
        -377_705_023_201_000_000 <= us <= 253_402_207_200_000_000 ==> us_text(us)
            == timestamp_display(us),
        us < -377_705_023_201_000_000 || us > 253_402_207_200_000_000 ==> us_text(us)
            == signed_decimal(us as int) && date_of(us as int).len() == 0,
{
}

/// Days are counted from the first of 1970, and dates follow each other as in the calendar:
/// within a month by the day, then to the first of the next month, and from the last day of a
/// year to the first of the next. February has 29 days in a year that 4 divides, unless 100 does
/// and 400 does not.
pub proof fn law_days_follow_the_calendar(y: int, m: int, d: int)
    requires
        1 <= m <= 12,
        1 <= d,
        m == 2 ==> d <= 28 || d == 29 && y % 4 == 0 && (y % 100 != 0 || y % 400 == 0),
        m == 4 || m == 6 || m == 9 || m == 11 ==> d <= 30,
        d <= 31,
    ensures
        is_date(y, m, d),
        day_number(1970, 1, 1) == 0,
        is_date(y, m, d + 1) ==> day_number(y, m, d + 1) == day_number(y, m, d) + 1,
        !is_date(y, m, d + 1) && m < 12 ==> is_date(y, m + 1, 1) && day_number(y, m + 1, 1)
            == day_number(y, m, d) + 1,
        !is_date(y, m, d + 1) && m == 12 ==> is_date(y + 1, 1, 1) && day_number(y + 1, 1, 1)
            == day_number(y, m, d) + 1,
        d >= 31 ==> !is_date(y, m, d + 1),
        d == 30 ==> (is_date(y, m, d + 1) <==> m != 4 && m != 6 && m != 9 && m != 11),
        d == 29 ==> (is_date(y, m, d + 1) <==> m != 2),
        d == 28 ==> (is_date(y, m, d + 1) <==> m != 2 || y % 4 == 0 && (y % 100 != 0 || y % 400
            == 0)),
        d < 28 ==> is_date(y, m, d + 1),
{
    reveal_with_fuel(days_before_month, 2);
    if m == 12 && d == 31 {
        lemma_year_length(y);
        lemma_year_step(y);
        assert(days_before_month(y, 13) == days_before_month(y, 12) + 31);
    }
}

/// The date of a point in time is that of the day in which it lies, from its first microsecond
/// to its last, written as a year of four digits, a month and a day of two, with hyphens between
/// them.
pub proof fn law_date_is_that_of_its_day(us: int, y: int, m: int, d: int)
    requires
        -377_705_023_201_000_000 <= us <= 253_402_207_200_000_000,
        is_date(y, m, d),
        day_number(y, m, d) * 86_400_000_000 <= us < (day_number(y, m, d) + 1) * 86_400_000_000,
    ensures
        y >= 0 ==> date_of(us) == zero_padded(y as nat, 4) + seq!['-'] + zero_padded(m as nat, 2)
            + seq!['-'] + zero_padded(d as nat, 2),
        y < 0 ==> date_of(us) == seq!['-'] + zero_padded((-y) as nat, 3) + seq!['-'] + zero_padded(
            m as nat,
            2,
        ) + seq!['-'] + zero_padded(d as nat, 2),
{
    assert(day_of(us) == day_number(y, m, d));
    law_every_time_has_a_date(us);
    assert(is_date_of(date_text(y, m, d), us));
    law_date_is_unique(date_text(y, m, d), date_of(us), us);
}

} // verus!
