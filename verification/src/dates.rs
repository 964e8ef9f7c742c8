//! Calendar dates, read and written by `chrono`.
//!
//! A date is held as its day number counted from the Common Era (day 1 is
//! 0001-01-01), as `chrono::Datelike::num_days_from_ce` gives it.  What
//! chrono computes from a day number (its calendar text, its ISO week, its
//! year and month) is named here and not restated; what the contracts
//! state besides is what chrono's source shows of its calendar: the days it
//! can hold form one range, a date's text names that date alone, two days
//! share an ISO week when they fall in the same Monday-to-Sunday run (day 1
//! is a Monday), and year and month never go back as days go forward.
use vstd::prelude::*;
use chrono::{Datelike, NaiveDate};

verus! {

/// The day number of `NaiveDate::MIN`, -262143-01-01.
pub const FIRST_DAY: i32 = -95746129;

/// The day number of `NaiveDate::MAX`, 262142-12-31.
pub const LAST_DAY: i32 = 95745399;

/// The day number of the date that `NaiveDate::parse_from_str(s, "%Y-%m-%d")`
/// reads from `s`, when it reads one.
pub uninterp spec fn chrono_parse_day(s: Seq<char>) -> Option<i32>;

/// The text `"%Y-%m-%d"` that chrono writes for day `n`, when `n` is a day
/// that `NaiveDate` can hold.
pub uninterp spec fn chrono_day_label(n: i32) -> Option<Seq<char>>;

/// The ISO week text `"%G-W%V"` that chrono writes for day `n`, when `n` is a
/// day that `NaiveDate` can hold.
pub uninterp spec fn chrono_week_label(n: i32) -> Option<Seq<char>>;

/// The year and month of day `n`, when `n` is a day that `NaiveDate` can
/// hold.
pub uninterp spec fn chrono_year_month(n: i32) -> Option<(i32, u32)>;

/// Calls `NaiveDate::parse_from_str(s, "%Y-%m-%d")` and gives the day number
/// (`num_days_from_ce`) of the date it reads, or `None` where it fails.
/// The contract names the result; which texts chrono accepts is not
/// restated.  A date chrono reads is one it can hold, so its day number lies
/// from `FIRST_DAY` to `LAST_DAY`.
#[verifier::external_body]
pub fn parse_day(s: &str) -> (r: Option<i32>)
    ensures
        r == chrono_parse_day(s@),
        r matches Some(d) ==> FIRST_DAY <= d <= LAST_DAY,
{
    match NaiveDate::parse_from_str(s, "%Y-%m-%d") {
        Ok(d) => Some(d.num_days_from_ce()),
        Err(_) => None,
    }
}

/// Calls `NaiveDate::from_num_days_from_ce_opt(n)` and writes the date it
/// gives with `format("%Y-%m-%d")`.  The contract names the text, says
/// that there is one exactly for the days from `FIRST_DAY` to `LAST_DAY`,
/// and that no other day has the same text (year, month and day are all
/// written out).
#[verifier::external_body]
pub fn day_label(n: i32) -> (r: Option<String>)
    ensures
        match r {
            Some(s) => chrono_day_label(n) == Some(s@),
            None => chrono_day_label(n) is None,
        },
        r is Some <==> FIRST_DAY <= n <= LAST_DAY,
        r matches Some(s) ==> forall|k: i32| #[trigger] chrono_day_label(k) == Some(s@) ==> k == n,
{
    match NaiveDate::from_num_days_from_ce_opt(n) {
        Some(d) => Some(d.format("%Y-%m-%d").to_string()),
        None => None,
    }
}

/// Calls `NaiveDate::from_num_days_from_ce_opt(n)` and writes the date it
/// gives with `format("%G-W%V")`, its ISO week.  The contract names the
/// text, says that there is one exactly for the days from `FIRST_DAY` to
/// `LAST_DAY`, and that another day has the same text exactly when it falls
/// in the same Monday-to-Sunday week (ISO year and week number together
/// name one week, and day 1, 0001-01-01, is a Monday).
#[verifier::external_body]
pub fn week_label(n: i32) -> (r: Option<String>)
    ensures
        match r {
            Some(s) => chrono_week_label(n) == Some(s@),
            None => chrono_week_label(n) is None,
        },
        r is Some <==> FIRST_DAY <= n <= LAST_DAY,
        r matches Some(s) ==> forall|k: i32| #[trigger] chrono_week_label(k) matches Some(t) ==> (t
            == s@ <==> (k - 1) / 7 == (n - 1) / 7),
{
    match NaiveDate::from_num_days_from_ce_opt(n) {
        Some(d) => Some(d.format("%G-W%V").to_string()),
        None => None,
    }
}

/// Calls `NaiveDate::from_num_days_from_ce_opt(n)` and gives the `year()` and
/// `month()` of the date.  Besides naming the result, the contract states
/// what chrono's source shows of every `NaiveDate`: its month lies in
/// `1..=12` and its year in `MIN_YEAR..=MAX_YEAR`, that is
/// `-262143..=262142`; that there is a date exactly for the days from
/// `FIRST_DAY` to `LAST_DAY`; and that the month of an earlier day is never
/// a later one.
#[verifier::external_body]
pub fn year_month(n: i32) -> (r: Option<(i32, u32)>)
    ensures
        r == chrono_year_month(n),
        r matches Some((y, m)) ==> 1 <= m <= 12 && -262143 <= y <= 262142,
        r is Some <==> FIRST_DAY <= n <= LAST_DAY,
        r matches Some((y, m)) ==> forall|k: i32| #[trigger] chrono_year_month(k) matches Some((y2, m2))
            ==> (k <= n ==> y2 * 12 + m2 <= y * 12 + m) && (n <= k ==> y * 12 + m <= y2 * 12 + m2),
{
    match NaiveDate::from_num_days_from_ce_opt(n) {
        Some(d) => Some((d.year(), d.month())),
        None => None,
    }
}

} // verus!
