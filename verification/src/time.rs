//! Rendering of epoch seconds as RFC 3339 timestamps.
//!
//! Snapshot directories are named by their backup time in the form
//! `YYYY-MM-DDTHH:MM:SSZ`. The calendar arithmetic is spelled out as
//! spec functions — year by year from 1970, month by month within the
//! year — and the renderer is proved to follow it exactly.

use vstd::prelude::*;

use crate::digest::string_from_ascii;
use crate::error::StoreError;

verus! {

/// Gregorian leap year.
pub open spec fn is_leap(y: int) -> bool {
    y % 4 == 0 && (y % 100 != 0 || y % 400 == 0)
}

/// Days of a year.
pub open spec fn days_in_year(y: int) -> int {
    if is_leap(y) {
        366
    } else {
        365
    }
}

/// Days of a month, one-based.
pub open spec fn days_in_month(m: int, leap: bool) -> int {
    if m == 2 {
        if leap {
            29
        } else {
            28
        }
    } else if m == 4 || m == 6 || m == 9 || m == 11 {
        30
    } else {
        31
    }
}

/// Walk forward from 1970: the year a day count falls in, and the days
/// left within it.
pub open spec fn year_and_rest(days: int, y: int) -> (int, int)
    decreases days,
{
    if days < days_in_year(y) || days < 0 {
        (y, days)
    } else {
        year_and_rest(days - days_in_year(y), y + 1)
    }
}

/// Walk through the months: the month a day count falls in, and the
/// one-based day within it.
pub open spec fn month_and_day(days: int, m: int, leap: bool) -> (int, int)
    decreases 12 - m,
{
    if m >= 12 || days < days_in_month(m, leap) {
        (m, days + 1)
    } else {
        month_and_day(days - days_in_month(m, leap), m + 1, leap)
    }
}

/// The calendar date of a nonnegative epoch time.
pub open spec fn civil_of_epoch(t: int) -> (int, int, int) {
    let (y, rest) = year_and_rest(t / 86400, 1970);
    let (m, d) = month_and_day(rest, 1, is_leap(y));
    (y, m, d)
}

/// ASCII digits of a two-digit number.
pub open spec fn two_digits(v: int) -> Seq<u8> {
    seq![(0x30 + v / 10) as u8, (0x30 + v % 10) as u8]
}

/// ASCII digits of a four-digit number.
pub open spec fn four_digits(v: int) -> Seq<u8> {
    seq![
        (0x30 + v / 1000) as u8,
        (0x30 + (v / 100) % 10) as u8,
        (0x30 + (v / 10) % 10) as u8,
        (0x30 + v % 10) as u8,
    ]
}

/// The twenty ASCII bytes of the RFC 3339 rendering of an epoch time.
pub open spec fn rfc3339_bytes(t: int) -> Seq<u8> {
    let (y, m, d) = civil_of_epoch(t);
    let rem = t % 86400;
    four_digits(y) + seq![0x2du8] + two_digits(m) + seq![0x2du8] + two_digits(d) + seq![0x54u8]
        + two_digits(rem / 3600) + seq![0x3au8] + two_digits((rem / 60) % 60) + seq![0x3au8]
        + two_digits(rem % 60) + seq![0x5au8]
}

/// The RFC 3339 rendering as characters.
pub open spec fn rfc3339_str(t: int) -> Seq<char> {
    rfc3339_bytes(t).map_values(|b: u8| b as char)
}

/// The year a nonnegative epoch time falls in.
pub open spec fn year_of_epoch(t: int) -> int {
    civil_of_epoch(t).0
}

/// The year a day count reaches never lies below the starting year.
proof fn lemma_year_walk_monotone(days: int, y: int)
    ensures
        year_and_rest(days, y).0 >= y,
    decreases days,
{
    if !(days < days_in_year(y) || days < 0) {
        lemma_year_walk_monotone(days - days_in_year(y), y + 1);
    }
}

/// Days of a year, for a year reachable from 1970.
fn year_len(y: i64) -> (r: i64)
    requires
        0 <= y <= 0x7fff_ffff_ffff_0000,
    ensures
        r == days_in_year(y as int),
{
    if y % 4 == 0 && (y % 100 != 0 || y % 400 == 0) {
        366
    } else {
        365
    }
}

/// Days of a month, one-based.
fn month_len(m: i64, leap: bool) -> (r: i64)
    requires
        1 <= m <= 12,
    ensures
        r == days_in_month(m as int, leap),
        28 <= r <= 31,
{
    if m == 2 {
        if leap {
            29
        } else {
            28
        }
    } else if m == 4 || m == 6 || m == 9 || m == 11 {
        30
    } else {
        31
    }
}

/// Render an epoch time as `YYYY-MM-DDTHH:MM:SSZ`.
///
/// Fails only for times past the last four-digit year.
#[verifier::rlimit(60)]
pub fn epoch_to_rfc3339(t: i64) -> (r: Result<String, StoreError>)
    requires
        0 <= t,
    ensures
        r is Ok <==> year_of_epoch(t as int) <= 9999,
        r matches Ok(s) ==> s@ == rfc3339_str(t as int) && s@.len() == 20,
        r matches Err(e) ==> e == StoreError::Protocol,
{
    let days0 = t / 86400;
    let rem = t % 86400;
    let mut days = days0;
    let mut y: i64 = 1970;
    proof {
        vstd::arithmetic::div_mod::lemma_div_is_ordered(t as int, i64::MAX as int, 86400);
    }
    while y <= 9999 && days >= year_len(y)
        invariant
            0 <= days <= days0,
            days0 <= i64::MAX / 86400,
            1970 <= y <= 1970 + days0 - days,
            year_and_rest(days0 as int, 1970) == year_and_rest(days as int, y as int),
        decreases days,
    {
        let len = year_len(y);
        proof {
            assert(year_and_rest(days as int, y as int) == year_and_rest(
                days as int - len as int,
                y as int + 1,
            ));
        }
        days = days - len;
        y = y + 1;
    }
    if y > 9999 {
        proof {
            lemma_year_walk_monotone(days as int, y as int);
        }
        return Err(StoreError::Protocol);
    }
    proof {
        assert(year_and_rest(days as int, y as int) == (y as int, days as int));
    }
    let leap = y % 4 == 0 && (y % 100 != 0 || y % 400 == 0);
    proof {
        assert(is_leap(y as int) == leap);
    }
    let mut m: i64 = 1;
    let mut mdays = days;
    while m < 12 && mdays >= month_len(m, leap)
        invariant
            1 <= m <= 12,
            0 <= mdays <= days,
            days < 366,
            month_and_day(days as int, 1, leap) == month_and_day(mdays as int, m as int, leap),
        decreases 12 - m,
    {
        let len = month_len(m, leap);
        proof {
            assert(month_and_day(mdays as int, m as int, leap) == month_and_day(
                mdays as int - len as int,
                m as int + 1,
                leap,
            ));
        }
        mdays = mdays - len;
        m = m + 1;
    }
    proof {
        assert(month_and_day(mdays as int, m as int, leap) == (m as int, mdays as int + 1));
    }
    let d = mdays + 1;
    let hour = rem / 3600;
    let minute = (rem / 60) % 60;
    let second = rem % 60;
    let mut b: Vec<u8> = Vec::new();
    b.push((0x30 + y / 1000) as u8);
    b.push((0x30 + (y / 100) % 10) as u8);
    b.push((0x30 + (y / 10) % 10) as u8);
    b.push((0x30 + y % 10) as u8);
    b.push(0x2d);
    b.push((0x30 + m / 10) as u8);
    b.push((0x30 + m % 10) as u8);
    b.push(0x2d);
    b.push((0x30 + d / 10) as u8);
    b.push((0x30 + d % 10) as u8);
    b.push(0x54);
    b.push((0x30 + hour / 10) as u8);
    b.push((0x30 + hour % 10) as u8);
    b.push(0x3a);
    b.push((0x30 + minute / 10) as u8);
    b.push((0x30 + minute % 10) as u8);
    b.push(0x3a);
    b.push((0x30 + second / 10) as u8);
    b.push((0x30 + second % 10) as u8);
    b.push(0x5a);
    proof {
        assert(b@ =~= rfc3339_bytes(t as int));
        assert(forall|i: int| 0 <= i < b@.len() ==> b@[i] < 128);
    }
    let s = string_from_ascii(b);
    proof {
        assert(s@ =~= rfc3339_str(t as int));
    }
    Ok(s)
}

} // verus!
