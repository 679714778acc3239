//! Date normalization: rewriting the site's free-text schedule fragments into
//! a canonical `day-month-hour-minute` form, and resolving that form to an
//! absolute timestamp with a nearest-year heuristic.
//!
//! The timestamp arithmetic is stated exactly: `epoch_seconds` is the
//! proleptic-Gregorian count of seconds since the Unix epoch, and the chrono
//! calls this module relies on are trusted to agree with it.

use vstd::arithmetic::div_mod::{lemma_div_multiples_vanish_fancy, lemma_fundamental_div_mod};
use vstd::arithmetic::mul::{lemma_mul_is_associative, lemma_mul_is_distributive_add};
use vstd::prelude::*;

use crate::text::{
    chars_to_string, digits_value, is_u32_string, parse_u32_chars, replace_chars, spec_replace,
    spec_split, spec_trim, split_chars, str_to_chars, trim_chars, unsigned_digits,
};

verus! {

/// Why a schedule fragment failed to resolve to an instant.
#[derive(Clone, Copy, Debug, PartialEq, Eq, Structural)]
pub enum DateParseError {
    /// One of the four numeric components is missing or not a number.
    Unparseable,
    /// The components do not name a valid calendar instant.
    InvalidInstant,
}

/// Leap years of the proleptic Gregorian calendar.
pub open spec fn is_leap(y: int) -> bool {
    (y % 4 == 0 && y % 100 != 0) || y % 400 == 0
}

pub open spec fn days_in_month(y: int, m: int) -> int {
    if m == 2 {
        if is_leap(y) {
            29
        } else {
            28
        }
    } else if m == 4 || m == 6 || m == 9 || m == 11 {
        30
    } else {
        31
    }
}

/// Days in year `y` before the first day of month `m`.
pub open spec fn days_before_month(y: int, m: int) -> int {
    let base = if m == 1 {
        0int
    } else if m == 2 {
        31
    } else if m == 3 {
        59
    } else if m == 4 {
        90
    } else if m == 5 {
        120
    } else if m == 6 {
        151
    } else if m == 7 {
        181
    } else if m == 8 {
        212
    } else if m == 9 {
        243
    } else if m == 10 {
        273
    } else if m == 11 {
        304
    } else {
        334
    };
    base + if m >= 3 && is_leap(y) {
        1int
    } else {
        0int
    }
}

/// Days from the first day of year 0 to the first day of year `y` (`y >= 0`).
pub open spec fn days_before_year(y: int) -> int {
    365 * y + (y + 3) / 4 - (y + 99) / 100 + (y + 399) / 400
}

/// Days from the first day of year 0 to the Unix epoch, 1970-01-01.
pub open spec fn epoch_day_offset() -> int {
    719528
}

pub open spec fn valid_civil(y: int, m: int, d: int, h: int, mi: int) -> bool {
    &&& 1 <= m <= 12
    &&& 1 <= d <= days_in_month(y, m)
    &&& 0 <= h < 24
    &&& 0 <= mi < 60
}

/// Seconds since the Unix epoch of the civil instant `y-m-d h:mi:00` UTC in
/// the proleptic Gregorian calendar.
pub open spec fn epoch_seconds(y: int, m: int, d: int, h: int, mi: int) -> int {
    86400 * (days_before_year(y) + days_before_month(y, m) + d - 1 - epoch_day_offset()) + 3600 * h
        + 60 * mi
}

/// Relies on chrono's `Utc.with_ymd_and_hms` and `DateTime::timestamp`:
/// for years 1 through 9999 the mapping succeeds exactly on valid civil
/// instants, and `timestamp` counts proleptic-Gregorian seconds since the
/// Unix epoch.
#[verifier::external_body]
fn civil_to_timestamp(year: i32, month: u32, day: u32, hour: u32, minute: u32) -> (r: Option<i64>)
    ensures
        1 <= year <= 9999 ==> r == (if valid_civil(
            year as int,
            month as int,
            day as int,
            hour as int,
            minute as int,
        ) {
            Some(
                epoch_seconds(year as int, month as int, day as int, hour as int, minute as int)
                    as i64,
            )
        } else {
            None::<i64>
        }),
{
    match chrono::TimeZone::with_ymd_and_hms(&chrono::Utc, year, month, day, hour, minute, 0) {
        chrono::LocalResult::Single(t) => Some(t.timestamp()),
        _ => None,
    }
}

/// Relies on chrono's `Utc::now`, `timestamp` and `Datelike::year`: the clock
/// reading lies within the civil year chrono reports for it, and the wall
/// clock of this machine is between 1970 and 9998.
#[verifier::external_body]
fn utc_now_parts() -> (r: (i64, i32))
    ensures
        1970 <= r.1 <= 9998,
        epoch_seconds(r.1 as int, 1, 1, 0, 0) <= r.0 as int,
        (r.0 as int) < epoch_seconds(r.1 as int + 1, 1, 1, 0, 0),
{
    let now = chrono::Utc::now();
    (now.timestamp(), chrono::Datelike::year(&now))
}

/// The canonical form of a schedule fragment: whitespace trimmed, month names
/// rewritten to their numbers, the literal ` at ` and the `:` time separator
/// rewritten, spaces turned into dashes, and ordinal suffixes dropped.
pub open spec fn spec_date_canon(s: Seq<char>) -> Seq<char> {
    let t = spec_trim(s);
    let t = spec_replace(t, " at "@, " "@);
    let t = spec_replace(t, "January"@, "1"@);
    let t = spec_replace(t, "February"@, "2"@);
    let t = spec_replace(t, "March"@, "3"@);
    let t = spec_replace(t, "April"@, "4"@);
    let t = spec_replace(t, "May"@, "5"@);
    let t = spec_replace(t, "June"@, "6"@);
    let t = spec_replace(t, "July"@, "7"@);
    let t = spec_replace(t, "August"@, "8"@);
    let t = spec_replace(t, "September"@, "9"@);
    let t = spec_replace(t, "October"@, "10"@);
    let t = spec_replace(t, "November"@, "11"@);
    let t = spec_replace(t, "December"@, "12"@);
    let t = spec_replace(t, ":"@, " "@);
    let t = spec_replace(t, " "@, "-"@);
    let t = spec_replace(t, "th"@, ""@);
    let t = spec_replace(t, "st"@, ""@);
    let t = spec_replace(t, "nd"@, ""@);
    spec_replace(t, "rd"@, ""@)
}

/// Rewrites a schedule fragment such as `1 February at 0:00` into the
/// canonical `day-month-hour-minute` token form `1-2-0-00`.
pub fn date_parser(date: &str) -> (r: String)
    ensures
        r@ == spec_date_canon(date@),
{
    let cs = str_to_chars(date);
    let t = trim_chars(&cs);
    let t = replace_chars(&t, &str_to_chars(" at "), &str_to_chars(" "));
    let t = replace_chars(&t, &str_to_chars("January"), &str_to_chars("1"));
    let t = replace_chars(&t, &str_to_chars("February"), &str_to_chars("2"));
    let t = replace_chars(&t, &str_to_chars("March"), &str_to_chars("3"));
    let t = replace_chars(&t, &str_to_chars("April"), &str_to_chars("4"));
    let t = replace_chars(&t, &str_to_chars("May"), &str_to_chars("5"));
    let t = replace_chars(&t, &str_to_chars("June"), &str_to_chars("6"));
    let t = replace_chars(&t, &str_to_chars("July"), &str_to_chars("7"));
    let t = replace_chars(&t, &str_to_chars("August"), &str_to_chars("8"));
    let t = replace_chars(&t, &str_to_chars("September"), &str_to_chars("9"));
    let t = replace_chars(&t, &str_to_chars("October"), &str_to_chars("10"));
    let t = replace_chars(&t, &str_to_chars("November"), &str_to_chars("11"));
    let t = replace_chars(&t, &str_to_chars("December"), &str_to_chars("12"));
    let t = replace_chars(&t, &str_to_chars(":"), &str_to_chars(" "));
    let t = replace_chars(&t, &str_to_chars(" "), &str_to_chars("-"));
    let t = replace_chars(&t, &str_to_chars("th"), &str_to_chars(""));
    let t = replace_chars(&t, &str_to_chars("st"), &str_to_chars(""));
    let t = replace_chars(&t, &str_to_chars("nd"), &str_to_chars(""));
    let t = replace_chars(&t, &str_to_chars("rd"), &str_to_chars(""));
    chars_to_string(&t)
}

/// The four numeric components of a canonical `d-m-h-mi` token string, when
/// each of the first four dash-separated fields is a decimal number.
pub open spec fn date_components(s: Seq<char>) -> Option<(int, int, int, int)> {
    let parts = spec_split(s, '-');
    if parts.len() >= 4 && is_u32_string(parts[0]) && is_u32_string(parts[1]) && is_u32_string(
        parts[2],
    ) && is_u32_string(parts[3]) {
        Some(
            (
                digits_value(unsigned_digits(parts[0])),
                digits_value(unsigned_digits(parts[1])),
                digits_value(unsigned_digits(parts[2])),
                digits_value(unsigned_digits(parts[3])),
            ),
        )
    } else {
        None
    }
}

/// The year an instant is resolved in: the caller's year, except that the
/// all-ones component pattern is the site's "time unknown" sentinel and is
/// pinned to 1990.
pub open spec fn effective_year(c: (int, int, int, int), year: int) -> int {
    if c == (1int, 1int, 1int, 1int) {
        1990
    } else {
        year
    }
}

/// Resolves a canonical `d-m-h-mi` token string against an explicit year.
///
/// The contract pins the result for every resolution year between 1 and 9999;
/// the library only resolves years near the current clock year and the 1990
/// sentinel, all of which lie in that range.
pub fn date_parser_to_instant(date: &str, year: i32) -> (r: Result<i64, DateParseError>)
    ensures
        date_components(date@) is None <==> r == Err::<i64, DateParseError>(
            DateParseError::Unparseable,
        ),
        date_components(date@) matches Some(c) ==> (1 <= effective_year(c, year as int) <= 9999)
            ==> r == (if valid_civil(effective_year(c, year as int), c.1, c.0, c.2, c.3) {
            Ok::<i64, DateParseError>(
                epoch_seconds(effective_year(c, year as int), c.1, c.0, c.2, c.3) as i64,
            )
        } else {
            Err::<i64, DateParseError>(DateParseError::InvalidInstant)
        }),
{
    let cs = str_to_chars(date);
    let parts = split_chars(&cs, '-');
    proof {
        assert(parts.deep_view().len() == parts@.len());
    }
    if parts.len() < 4 {
        return Err(DateParseError::Unparseable);
    }
    proof {
        assert(parts.deep_view()[0] == parts@[0]@);
        assert(parts.deep_view()[1] == parts@[1]@);
        assert(parts.deep_view()[2] == parts@[2]@);
        assert(parts.deep_view()[3] == parts@[3]@);
    }
    let day = match parse_u32_chars(&parts[0]) {
        Some(v) => v,
        None => {
            return Err(DateParseError::Unparseable);
        },
    };
    let month = match parse_u32_chars(&parts[1]) {
        Some(v) => v,
        None => {
            return Err(DateParseError::Unparseable);
        },
    };
    let hour = match parse_u32_chars(&parts[2]) {
        Some(v) => v,
        None => {
            return Err(DateParseError::Unparseable);
        },
    };
    let minute = match parse_u32_chars(&parts[3]) {
        Some(v) => v,
        None => {
            return Err(DateParseError::Unparseable);
        },
    };
    let resolved: i32 = if day == 1 && month == 1 && hour == 1 && minute == 1 {
        1990
    } else {
        year
    };
    match civil_to_timestamp(resolved, month, day, hour, minute) {
        Some(t) => Ok(t),
        None => Err(DateParseError::InvalidInstant),
    }
}

pub open spec fn abs_i(x: int) -> int {
    if x < 0 {
        -x
    } else {
        x
    }
}

/// The candidate among this, next and last year that the resolver picks:
/// the strictly closest one to `now`, with the last-year candidate winning
/// all remaining ties.
pub open spec fn closest_pick(now: int, t_this: int, t_next: int, t_last: int) -> int {
    let d0 = abs_i(now - t_this);
    let d1 = abs_i(now - t_next);
    let d2 = abs_i(now - t_last);
    if d0 < d1 && d0 < d2 {
        t_this
    } else if d1 < d0 && d1 < d2 {
        t_next
    } else {
        t_last
    }
}

/// The pick is at minimal absolute distance from `now`. The one exception is
/// an exact tie between the this-year and next-year candidates with the
/// last-year candidate further away: there the tie falls through to the
/// last-year candidate, so such ties are excluded here.
pub proof fn lemma_closest_pick_minimal(now: int, t_this: int, t_next: int, t_last: int)
    requires
        abs_i(now - t_this) == abs_i(now - t_next) ==> abs_i(now - t_last) <= abs_i(now - t_this),
    ensures
        abs_i(now - closest_pick(now, t_this, t_next, t_last)) <= abs_i(now - t_this),
        abs_i(now - closest_pick(now, t_this, t_next, t_last)) <= abs_i(now - t_next),
        abs_i(now - closest_pick(now, t_this, t_next, t_last)) <= abs_i(now - t_last),
{
}

/// What resolving a canonical token string against a clock reading returns.
pub open spec fn closest_year_result(
    date: Seq<char>,
    now: int,
    year: int,
    r: Result<i64, DateParseError>,
) -> bool {
    match date_components(date) {
        None => r == Err::<i64, DateParseError>(DateParseError::Unparseable),
        Some(c) => {
            let y0 = effective_year(c, year);
            let y1 = effective_year(c, year + 1);
            let y2 = effective_year(c, year - 1);
            if valid_civil(y0, c.1, c.0, c.2, c.3) && valid_civil(y1, c.1, c.0, c.2, c.3)
                && valid_civil(y2, c.1, c.0, c.2, c.3) {
                r == Ok::<i64, DateParseError>(
                    closest_pick(
                        now,
                        epoch_seconds(y0, c.1, c.0, c.2, c.3),
                        epoch_seconds(y1, c.1, c.0, c.2, c.3),
                        epoch_seconds(y2, c.1, c.0, c.2, c.3),
                    ) as i64,
                )
            } else {
                r == Err::<i64, DateParseError>(DateParseError::InvalidInstant)
            }
        },
    }
}

/// The instant the resolver returns, as a partial function: defined exactly
/// when the components parse and all three candidate years form valid civil
/// instants.
pub open spec fn closest_instant(date: Seq<char>, now: int, year: int) -> Option<int> {
    match date_components(date) {
        None => None,
        Some(c) => {
            let y0 = effective_year(c, year);
            let y1 = effective_year(c, year + 1);
            let y2 = effective_year(c, year - 1);
            if valid_civil(y0, c.1, c.0, c.2, c.3) && valid_civil(y1, c.1, c.0, c.2, c.3)
                && valid_civil(y2, c.1, c.0, c.2, c.3) {
                Some(
                    closest_pick(
                        now,
                        epoch_seconds(y0, c.1, c.0, c.2, c.3),
                        epoch_seconds(y1, c.1, c.0, c.2, c.3),
                        epoch_seconds(y2, c.1, c.0, c.2, c.3),
                    ),
                )
            } else {
                None
            }
        },
    }
}

/// The relation form and the partial-function form of the resolver agree.
pub proof fn lemma_closest_result_fn(
    date: Seq<char>,
    now: int,
    year: int,
    r: Result<i64, DateParseError>,
)
    requires
        closest_year_result(date, now, year, r),
        2 <= year <= 9998,
    ensures
        r matches Ok(t) ==> closest_instant(date, now, year) == Some(t as int),
        r is Err ==> closest_instant(date, now, year) is None,
{
    if r is Ok {
        let c = date_components(date).unwrap();
        let y0 = effective_year(c, year);
        let y1 = effective_year(c, year + 1);
        let y2 = effective_year(c, year - 1);
        lemma_epoch_bounds(y0, c.1, c.0, c.2, c.3);
        lemma_epoch_bounds(y1, c.1, c.0, c.2, c.3);
        lemma_epoch_bounds(y2, c.1, c.0, c.2, c.3);
    }
}

/// A clock reading paired with the civil year it falls in.
pub open spec fn clock_reading_ok(now: int, year: int) -> bool {
    &&& 1970 <= year <= 9998
    &&& epoch_seconds(year, 1, 1, 0, 0) <= now
    &&& now < epoch_seconds(year + 1, 1, 1, 0, 0)
}

/// Any timestamp this module can produce for years 1 through 9999 lies well
/// inside the 64-bit range.
pub proof fn lemma_epoch_bounds(y: int, m: int, d: int, h: int, mi: int)
    requires
        1 <= y <= 9999,
        valid_civil(y, m, d, h, mi),
    ensures
        -70_000_000_000 <= epoch_seconds(y, m, d, h, mi) <= 260_000_000_000,
{
    lemma_div_bounds_all(y);
}

proof fn lemma_div_bounds_all(y: int)
    requires
        1 <= y <= 9999,
    ensures
        1 <= (y + 3) / 4 <= 2500,
        1 <= (y + 99) / 100 <= 100,
        1 <= (y + 399) / 400 <= 25,
{
    vstd::arithmetic::div_mod::lemma_div_is_ordered(4, y + 3, 4);
    vstd::arithmetic::div_mod::lemma_div_is_ordered(y + 3, 10002, 4);
    vstd::arithmetic::div_mod::lemma_div_is_ordered(100, y + 99, 100);
    vstd::arithmetic::div_mod::lemma_div_is_ordered(y + 99, 10098, 100);
    vstd::arithmetic::div_mod::lemma_div_is_ordered(400, y + 399, 400);
    vstd::arithmetic::div_mod::lemma_div_is_ordered(y + 399, 10398, 400);
    assert(4int / 4 == 1 && 10002int / 4 == 2500);
    assert(100int / 100 == 1 && 10098int / 100 == 100);
    assert(400int / 400 == 1 && 10398int / 400 == 25);
}

/// Reads the machine clock: the timestamp and the civil year it falls in,
/// with the bounds the resolver needs.
pub fn clock_now() -> (r: (i64, i32))
    ensures
        clock_reading_ok(r.0 as int, r.1 as int),
        2 <= r.1 <= 9998,
        -70_000_000_000 <= r.0 <= 260_000_000_000,
{
    let (now, year) = utc_now_parts();
    proof {
        lemma_epoch_bounds(year as int, 1, 1, 0, 0);
        lemma_epoch_bounds(year as int + 1, 1, 1, 0, 0);
    }
    (now, year)
}

/// Resolves a canonical token string by picking, among this, next and last
/// year relative to the given clock reading, the candidate instant closest
/// to that reading.
pub fn closest_year_instant(date: &str, now: i64, year: i32) -> (r: Result<i64, DateParseError>)
    requires
        2 <= year <= 9998,
        -70_000_000_000 <= now <= 260_000_000_000,
    ensures
        closest_year_result(date@, now as int, year as int, r),
{
    let this_year = date_parser_to_instant(date, year)?;
    let next_year = date_parser_to_instant(date, year + 1)?;
    let last_year = date_parser_to_instant(date, year - 1)?;
    proof {
        let c = date_components(date@).unwrap();
        lemma_epoch_bounds(effective_year(c, year as int), c.1, c.0, c.2, c.3);
        lemma_epoch_bounds(effective_year(c, year as int + 1), c.1, c.0, c.2, c.3);
        lemma_epoch_bounds(effective_year(c, year as int - 1), c.1, c.0, c.2, c.3);
    }
    let diff = if now >= this_year {
        now - this_year
    } else {
        this_year - now
    };
    let diff_next = if now >= next_year {
        now - next_year
    } else {
        next_year - now
    };
    let diff_last = if now >= last_year {
        now - last_year
    } else {
        last_year - now
    };
    if diff < diff_next && diff < diff_last {
        Ok(this_year)
    } else if diff_next < diff && diff_next < diff_last {
        Ok(next_year)
    } else {
        Ok(last_year)
    }
}

/// Resolves a canonical token string against the machine clock: among this,
/// next and last calendar year, the instant closest to now wins.
pub fn date_parser_with_closest_year(date: &str) -> (r: Result<i64, DateParseError>)
    ensures
        exists|now: int, year: int|
            #[trigger] clock_reading_ok(now, year) && closest_year_result(date@, now, year, r),
{
    let (now, year) = clock_now();
    let r = closest_year_instant(date, now, year);
    proof {
        assert(closest_year_result(date@, now as int, year as int, r));
    }
    r
}

/// Canonicalizes a free-text schedule fragment and resolves it against the
/// machine clock.
pub fn date_string_to_timestamp(date: &str) -> (r: Result<i64, DateParseError>)
    ensures
        exists|now: int, year: int|
            #[trigger] clock_reading_ok(now, year) && closest_year_result(
                spec_date_canon(date@),
                now,
                year,
                r,
            ),
{
    let canon = date_parser(date);
    date_parser_with_closest_year(canon.as_str())
}

/// How many days a one-year shift covers: the number of days between the
/// same civil date in consecutive years, which is 366 exactly when a leap
/// day lies in between.
pub open spec fn year_shift_days(y: int, m: int) -> int {
    if m >= 3 {
        if is_leap(y + 1) {
            366
        } else {
            365
        }
    } else {
        if is_leap(y) {
            366
        } else {
            365
        }
    }
}

proof fn lemma_div_step(y: int, n: int)
    requires
        n >= 1,
        y >= 0,
    ensures
        (y + n) / n == y / n + 1,
        (y + (n - 1)) / n == y / n + (if y % n == 0 {
            0int
        } else {
            1int
        }),
{
    let q = y / n;
    let r = y % n;
    lemma_fundamental_div_mod(y, n);
    lemma_mul_is_distributive_add(n, q, 1);
    assert(y + n == n * (q + 1) + r);
    lemma_div_multiples_vanish_fancy(q + 1, r, n);
    if r == 0 {
        assert(y + (n - 1) == n * q + (n - 1));
        lemma_div_multiples_vanish_fancy(q, n - 1, n);
    } else {
        assert(y + (n - 1) == n * (q + 1) + (r - 1));
        lemma_div_multiples_vanish_fancy(q + 1, r - 1, n);
    }
}

proof fn lemma_mod_chain(y: int)
    requires
        y >= 0,
    ensures
        y % 400 == 0 ==> y % 100 == 0,
        y % 100 == 0 ==> y % 4 == 0,
{
    if y % 400 == 0 {
        lemma_fundamental_div_mod(y, 400);
        let k = y / 400;
        assert(y == 400 * k);
        lemma_mul_is_associative(4, 100, k);
        assert(y == (4 * k) * 100) by {
            lemma_mul_is_associative(100, 4, k);
            assert(400 * k == 100 * (4 * k));
        }
        vstd::arithmetic::div_mod::lemma_mod_multiples_basic(4 * k, 100);
    }
    if y % 100 == 0 {
        lemma_fundamental_div_mod(y, 100);
        let k = y / 100;
        assert(y == 100 * k);
        assert(y == (25 * k) * 4) by {
            lemma_mul_is_associative(4, 25, k);
            assert(100 * k == 4 * (25 * k));
        }
        vstd::arithmetic::div_mod::lemma_mod_multiples_basic(25 * k, 4);
    }
}

proof fn lemma_days_before_year_step(y: int)
    requires
        y >= 0,
    ensures
        days_before_year(y + 1) - days_before_year(y) == 365 + (if is_leap(y) {
            1int
        } else {
            0int
        }),
{
    lemma_div_step(y, 4);
    lemma_div_step(y, 100);
    lemma_div_step(y, 400);
    lemma_mod_chain(y);
}

/// Shifting the resolution year of a fixed valid civil date by one year moves
/// the instant by exactly 365 or 366 days' worth of seconds, depending on
/// whether a leap day lies between the two dates.
pub proof fn lemma_instant_year_shift(y: int, m: int, d: int, h: int, mi: int)
    requires
        1 <= y,
        y + 1 <= 9999,
        valid_civil(y, m, d, h, mi),
        valid_civil(y + 1, m, d, h, mi),
    ensures
        epoch_seconds(y + 1, m, d, h, mi) - epoch_seconds(y, m, d, h, mi) == 86400
            * year_shift_days(y, m),
{
    lemma_days_before_year_step(y);
}

} // verus!

