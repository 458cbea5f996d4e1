//! The calendar: days as dates, and the order of dates.

use vstd::prelude::*;

use crate::order::precedes;
use crate::text::decimal;
use crate::text::digit;

verus! {

/// Whether a year has a 29th of February.
pub open spec fn is_leap_year(year: int) -> bool {
    year % 4 == 0 && (year % 100 != 0 || year % 400 == 0)
}

/// How many days a year has.
pub open spec fn year_len(year: int) -> int {
    if is_leap_year(year) {
        366
    } else {
        365
    }
}

/// How many days a month has, the first one being January.
pub open spec fn month_len(year: int, month: int) -> int {
    if month == 2 {
        if is_leap_year(year) {
            29
        } else {
            28
        }
    } else if month == 4 || month == 6 || month == 9 || month == 11 {
        30
    } else {
        31
    }
}

/// The year that is reached `n` days after the first day of `year`, and the days from its own
/// first day on.
pub open spec fn year_and_rest(year: int, n: int) -> (int, int)
    decreases n,
{
    if n < year_len(year) {
        (year, n)
    } else {
        year_and_rest(year + 1, n - year_len(year))
    }
}

/// The month that is reached `n` days after the first day of `month`, and the day in it.
pub open spec fn month_and_day(year: int, month: int, n: int) -> (int, int)
    decreases 12 - month,
{
    if month >= 12 || n < month_len(year, month) {
        (month, n + 1)
    } else {
        month_and_day(year, month + 1, n - month_len(year, month))
    }
}

/// A number below a hundred in two digits.
pub open spec fn two_digits(n: int) -> Seq<char> {
    seq![digit((n / 10) as nat), digit((n % 10) as nat)]
}

/// A year: in four digits, or after a `+` where it has more.
pub open spec fn year_text(year: int) -> Seq<char> {
    if year <= 9999 {
        two_digits(year / 100) + two_digits(year % 100)
    } else {
        seq!['+'] + decimal(year as nat)
    }
}

/// A date as year, month and day.
pub open spec fn date_text(year: int, month: int, day: int) -> Seq<char> {
    year_text(year) + seq!['-'] + two_digits(month) + seq!['-'] + two_digits(day)
}

/// The date of a day, counted from the first day of 1970. The count may go back to the first
/// day of 1969.
pub open spec fn calendar_date(day: int) -> Seq<char> {
    let (year, rest) = year_and_rest(1969, day + 365);
    let (month, day_of_month) = month_and_day(year, 1, rest);
    date_text(year, month, day_of_month)
}

/// The last day of the year 9999, counted from the first day of 1970.
pub const LAST_DAY_OF_9999: i64 = 2_932_896;

/// How many days there are from the first day of 1969 to the first day of a year.
spec fn days_before(year: int) -> int {
    365 * (year - 1969) + (year - 1) / 4 - (year - 1) / 100 + (year - 1) / 400 - 477
}

/// The rest is a day of the year that is reached, and the year is not past 9999 if the days
/// are not.
proof fn lemma_year_and_rest(year: int, n: int)
    requires
        1969 <= year <= 9999,
        0 <= n,
        days_before(year) + n < days_before(10000),
    ensures
        year <= year_and_rest(year, n).0 <= 9999,
        0 <= year_and_rest(year, n).1 < year_len(year_and_rest(year, n).0),
    decreases n,
{
    if n >= year_len(year) {
        assert(days_before(year + 1) == days_before(year) + year_len(year));
        lemma_year_and_rest(year + 1, n - year_len(year));
    }
}

/// Of two days the later one is in a later year, or later in the same year.
proof fn lemma_year_order(year: int, m: int, n: int)
    requires
        0 <= m < n,
    ensures
        year <= year_and_rest(year, m).0 <= year_and_rest(year, n).0,
        year_and_rest(year, m).0 == year_and_rest(year, n).0 ==> year_and_rest(year, m).1
            < year_and_rest(year, n).1,
    decreases n,
{
    if n >= year_len(year) {
        if m >= year_len(year) {
            lemma_year_order(year + 1, m - year_len(year), n - year_len(year));
        } else {
            lemma_year_is_later(year + 1, n - year_len(year));
        }
    }
}

/// Days go forward in years.
proof fn lemma_year_is_later(year: int, n: int)
    ensures
        year_and_rest(year, n).0 >= year,
    decreases n,
{
    if n >= year_len(year) {
        lemma_year_is_later(year + 1, n - year_len(year));
    }
}

/// How many days there are from the first day of a month to the end of the year.
spec fn days_from(year: int, month: int) -> int
    decreases 12 - month,
{
    if month >= 12 {
        31
    } else {
        month_len(year, month) + days_from(year, month + 1)
    }
}

/// A day of the year is a day of a month.
proof fn lemma_month_and_day(year: int, month: int, n: int)
    requires
        1 <= month <= 12,
        0 <= n < days_from(year, month),
    ensures
        month <= month_and_day(year, month, n).0 <= 12,
        1 <= month_and_day(year, month, n).1 <= 31,
    decreases 12 - month,
{
    if month < 12 && n >= month_len(year, month) {
        lemma_month_and_day(year, month + 1, n - month_len(year, month));
    }
}

/// Of two days of a year the later one is in a later month, or later in the same month.
proof fn lemma_month_order(year: int, month: int, m: int, n: int)
    requires
        1 <= month <= 12,
        0 <= m < n < days_from(year, month),
    ensures
        month_and_day(year, month, m).0 <= month_and_day(year, month, n).0,
        month_and_day(year, month, m).0 == month_and_day(year, month, n).0 ==> month_and_day(
            year,
            month,
            m,
        ).1 < month_and_day(year, month, n).1,
    decreases 12 - month,
{
    if month < 12 && n >= month_len(year, month) {
        let rest = n - month_len(year, month);
        lemma_month_and_day(year, month + 1, rest);
        if m >= month_len(year, month) {
            lemma_month_order(year, month + 1, m - month_len(year, month), rest);
        }
    }
}

/// The months of a year make up the year.
proof fn lemma_days_of_year(year: int)
    ensures
        days_from(year, 1) == year_len(year),
{
    reveal_with_fuel(days_from, 12);
}

/// Digits are in the order of their numbers.
proof fn lemma_digits(i: nat, j: nat)
    requires
        i < j < 10,
    ensures
        digit(i) < digit(j),
{
    let digits = seq!['0', '1', '2', '3', '4', '5', '6', '7', '8', '9'];
    assert(digits[0] == '0' && digits[1] == '1' && digits[2] == '2' && digits[3] == '3' && digits[4]
        == '4' && digits[5] == '5' && digits[6] == '6' && digits[7] == '7' && digits[8] == '8'
        && digits[9] == '9');
}

/// A text with the smaller character at the first difference stands before the other one.
proof fn lemma_precedes_at(a: Seq<char>, b: Seq<char>, k: int)
    requires
        0 <= k < a.len(),
        k < b.len(),
        forall|i: int| 0 <= i < k ==> a[i] == b[i],
        a[k] < b[k],
    ensures
        precedes(a, b),
    decreases k,
{
    if k > 0 {
        let x = a.drop_first();
        let y = b.drop_first();
        assert forall|i: int| 0 <= i < k - 1 implies x[i] == y[i] by {
            assert(a[i + 1] == b[i + 1]);
        }
        lemma_precedes_at(x, y, k - 1);
    }
}

/// Two texts that hold two numbers at one place, and the same before it, are in the order of
/// the numbers.
proof fn lemma_two_digits(a: Seq<char>, b: Seq<char>, at: int, m: int, n: int)
    requires
        0 <= at,
        at + 2 <= a.len(),
        at + 2 <= b.len(),
        0 <= m < n < 100,
        forall|i: int| 0 <= i < at ==> a[i] == b[i],
        a[at] == two_digits(m)[0],
        a[at + 1] == two_digits(m)[1],
        b[at] == two_digits(n)[0],
        b[at + 1] == two_digits(n)[1],
    ensures
        precedes(a, b),
{
    if m / 10 < n / 10 {
        lemma_digits((m / 10) as nat, (n / 10) as nat);
        lemma_precedes_at(a, b, at);
    } else {
        assert(m / 10 == n / 10);
        lemma_digits((m % 10) as nat, (n % 10) as nat);
        lemma_precedes_at(a, b, at + 1);
    }
}

/// The later date stands after the earlier one as a text, as long as years have four digits.
pub proof fn lemma_dates_in_order(m: int, n: int)
    requires
        -365 <= m < n <= LAST_DAY_OF_9999,
    ensures
        precedes(calendar_date(m), calendar_date(n)),
{
    let (year_m, rest_m) = year_and_rest(1969, m + 365);
    let (year_n, rest_n) = year_and_rest(1969, n + 365);
    lemma_year_and_rest(1969, m + 365);
    lemma_year_and_rest(1969, n + 365);
    lemma_year_order(1969, m + 365, n + 365);
    lemma_days_of_year(year_m);
    lemma_days_of_year(year_n);
    let (month_m, day_m) = month_and_day(year_m, 1, rest_m);
    let (month_n, day_n) = month_and_day(year_n, 1, rest_n);
    lemma_month_and_day(year_m, 1, rest_m);
    lemma_month_and_day(year_n, 1, rest_n);
    let a = calendar_date(m);
    let b = calendar_date(n);
    if year_m < year_n {
        if year_m / 100 < year_n / 100 {
            lemma_two_digits(a, b, 0, year_m / 100, year_n / 100);
        } else {
            assert(year_m / 100 == year_n / 100);
            assert(year_m % 100 < year_n % 100);
            lemma_two_digits(a, b, 2, year_m % 100, year_n % 100);
        }
    } else {
        lemma_month_order(year_m, 1, rest_m, rest_n);
        if month_m < month_n {
            lemma_two_digits(a, b, 5, month_m, month_n);
        } else {
            lemma_two_digits(a, b, 8, day_m, day_n);
        }
    }
}

} // verus!
