//! Calendar dates given as `YYYY-MM-DD` text: reading them into numeric
//! components and counting days between them in the proleptic Gregorian
//! calendar.

use vstd::prelude::*;
use vstd::arithmetic::div_mod::{lemma_fundamental_div_mod, lemma_fundamental_div_mod_converse, lemma_mod_bound};
use vstd::utf8::is_char_boundary;
use vstd::string::StringSliceAdditionalSpecFns;

verus! {

/// Why a run of bytes could not be read as a decimal integer.
#[derive(Debug, Clone, Copy, PartialEq, Eq, Structural)]
pub enum IntErrorKind {
    /// There were no bytes at all.
    Empty,
    /// A byte that is not an ASCII digit (or a lone sign).
    InvalidDigit,
    /// The value is above the largest value of the target type.
    PosOverflow,
    /// The value is below the smallest value of the target type.
    NegOverflow,
}

/// `b` is one of the ASCII digits `0` to `9`.
pub open spec fn is_ascii_digit(b: u8) -> bool {
    48 <= b <= 57
}

/// The outcome of reading the first `k` bytes of `d` as decimal digits,
/// accumulating toward negative values when `neg` holds, and failing as soon
/// as a byte is not a digit or the running value leaves `[lo, hi]`.
pub open spec fn digits_prefix(d: Seq<u8>, k: nat, neg: bool, lo: int, hi: int) -> Result<int, IntErrorKind>
    decreases k,
{
    if k == 0 {
        Ok(0)
    } else {
        match digits_prefix(d, (k - 1) as nat, neg, lo, hi) {
            Err(e) => Err(e),
            Ok(v) => {
                let c = d[k - 1];
                if !is_ascii_digit(c) {
                    Err(IntErrorKind::InvalidDigit)
                } else {
                    let nv = if neg { v * 10 - (c - 48) } else { v * 10 + (c - 48) };
                    if lo <= nv && nv <= hi {
                        Ok(nv)
                    } else if neg {
                        Err(IntErrorKind::NegOverflow)
                    } else {
                        Err(IntErrorKind::PosOverflow)
                    }
                }
            },
        }
    }
}

/// Reading `s` as a decimal integer in `[lo, hi]` the way Rust's integer
/// `from_str` does: an optional `+`, or `-` for signed types, then at least
/// one ASCII digit.
pub open spec fn parse_int_spec(s: Seq<u8>, signed: bool, lo: int, hi: int) -> Result<int, IntErrorKind> {
    if s.len() == 0 {
        Err(IntErrorKind::Empty)
    } else if s.len() == 1 && (s[0] == 43u8 || s[0] == 45u8) {
        Err(IntErrorKind::InvalidDigit)
    } else if s[0] == 43u8 {
        digits_prefix(s.drop_first(), (s.len() - 1) as nat, false, lo, hi)
    } else if s[0] == 45u8 && signed {
        digits_prefix(s.drop_first(), (s.len() - 1) as nat, true, lo, hi)
    } else {
        digits_prefix(s, s.len(), false, lo, hi)
    }
}

/// Once reading fails, reading further bytes keeps the same failure.
proof fn lemma_digits_prefix_err_sticky(d: Seq<u8>, k: nat, k2: nat, neg: bool, lo: int, hi: int)
    requires
        k <= k2,
        digits_prefix(d, k, neg, lo, hi) is Err,
    ensures
        digits_prefix(d, k2, neg, lo, hi) == digits_prefix(d, k, neg, lo, hi),
    decreases k2 - k,
{
    if k < k2 {
        lemma_digits_prefix_err_sticky(d, k, (k2 - 1) as nat, neg, lo, hi);
    }
}

/// Reads `b[from..to]` as a decimal integer in `[lo, hi]`.
fn parse_decimal(b: &[u8], from: usize, to: usize, signed: bool, lo: i64, hi: i64) -> (r: Result<i64, IntErrorKind>)
    requires
        from <= to <= b@.len(),
        -0x1_0000_0000 <= lo <= 0 <= hi <= 0x1_0000_0000,
    ensures
        match r {
            Ok(v) => parse_int_spec(b@.subrange(from as int, to as int), signed, lo as int, hi as int) == Ok::<int, IntErrorKind>(v as int),
            Err(e) => parse_int_spec(b@.subrange(from as int, to as int), signed, lo as int, hi as int) == Err::<int, IntErrorKind>(e),
        },
{
    let ghost s = b@.subrange(from as int, to as int);
    if from == to {
        return Err(IntErrorKind::Empty);
    }
    let first = b[from];
    if to - from == 1 && (first == 43u8 || first == 45u8) {
        return Err(IntErrorKind::InvalidDigit);
    }
    let neg = first == 45u8 && signed;
    let start = if first == 43u8 || neg { from + 1 } else { from };
    let ghost d = b@.subrange(start as int, to as int);
    assert(s.len() > 1 ==> s.drop_first() =~= b@.subrange(from + 1, to as int));
    assert(parse_int_spec(s, signed, lo as int, hi as int) == digits_prefix(d, d.len(), neg, lo as int, hi as int));
    let mut acc: i64 = 0;
    let mut i = start;
    while i < to
        invariant
            from <= start <= i <= to <= b@.len(),
            d == b@.subrange(start as int, to as int),
            parse_int_spec(b@.subrange(from as int, to as int), signed, lo as int, hi as int)
                == digits_prefix(d, d.len(), neg, lo as int, hi as int),
            -0x1_0000_0000 <= lo <= 0 <= hi <= 0x1_0000_0000,
            lo <= acc <= hi,
            digits_prefix(d, (i - start) as nat, neg, lo as int, hi as int) == Ok::<int, IntErrorKind>(acc as int),
        decreases to - i,
    {
        let c = b[i];
        assert(d[(i - start) as int] == c);
        if c < 48u8 || c > 57u8 {
            proof {
                lemma_digits_prefix_err_sticky(d, (i + 1 - start) as nat, d.len(), neg, lo as int, hi as int);
            }
            return Err(IntErrorKind::InvalidDigit);
        }
        let digit = (c - 48u8) as i64;
        let nv = if neg { acc * 10 - digit } else { acc * 10 + digit };
        if nv < lo || nv > hi {
            proof {
                lemma_digits_prefix_err_sticky(d, (i + 1 - start) as nat, d.len(), neg, lo as int, hi as int);
            }
            return if neg { Err(IntErrorKind::NegOverflow) } else { Err(IntErrorKind::PosOverflow) };
        }
        acc = nv;
        i = i + 1;
    }
    assert(d.len() == (to - start) as nat);
    Ok(acc)
}

/// Why a date text could not be read as `YYYY-MM-DD`.
#[derive(Debug, Clone, Copy, PartialEq, Eq, Structural)]
pub enum DateError {
    /// The text is shorter than ten bytes.
    TooShort,
    /// The year field is not a valid `i32`.
    InvalidYear(IntErrorKind),
    /// There is no `-` after the year within the first ten bytes.
    MissingMonth,
    /// The month field is not a valid `u32`.
    InvalidMonth(IntErrorKind),
    /// There is no `-` after the month within the first ten bytes.
    MissingDay,
    /// The day field is not a valid `u32`.
    InvalidDay(IntErrorKind),
}

/// The position of the first `-` in `p` at or after `i`, or `p.len()` when
/// there is none.
pub open spec fn dash_from(p: Seq<u8>, i: int) -> int
    decreases p.len() - i,
{
    if i >= p.len() {
        p.len() as int
    } else if p[i] == 45u8 {
        i
    } else {
        dash_from(p, i + 1)
    }
}

/// Reading the first ten bytes of `b` as `year-month-day`: the fields are
/// the pieces between `-` separators, read in order, the year as an `i32`
/// and month and day as `u32`; anything after the day field is ignored.
pub open spec fn parse_date_spec(b: Seq<u8>) -> Result<(i32, u32, u32), DateError> {
    if b.len() < 10 {
        Err(DateError::TooShort)
    } else {
        let p = b.take(10);
        let e1 = dash_from(p, 0);
        match parse_int_spec(p.subrange(0, e1), true, i32::MIN as int, i32::MAX as int) {
            Err(k) => Err(DateError::InvalidYear(k)),
            Ok(y) => if e1 >= 10 {
                Err(DateError::MissingMonth)
            } else {
                let e2 = dash_from(p, e1 + 1);
                match parse_int_spec(p.subrange(e1 + 1, e2), false, 0, u32::MAX as int) {
                    Err(k) => Err(DateError::InvalidMonth(k)),
                    Ok(m) => if e2 >= 10 {
                        Err(DateError::MissingDay)
                    } else {
                        let e3 = dash_from(p, e2 + 1);
                        match parse_int_spec(p.subrange(e2 + 1, e3), false, 0, u32::MAX as int) {
                            Err(k) => Err(DateError::InvalidDay(k)),
                            Ok(d) => Ok((y as i32, m as u32, d as u32)),
                        }
                    },
                }
            },
        }
    }
}

/// The value of the ASCII digit `c`.
pub open spec fn digit_value(c: u8) -> int {
    c - 48
}

/// A text that starts with `YYYY-MM-DD` in ASCII digits reads as the year,
/// month and day those digits spell.
pub proof fn lemma_iso_date_reads(b: Seq<u8>)
    requires
        b.len() >= 10,
        b[4] == 45u8,
        b[7] == 45u8,
        forall|i: int| 0 <= i < 10 && i != 4 && i != 7 ==> is_ascii_digit(#[trigger] b[i]),
    ensures
        parse_date_spec(b) == Ok::<(i32, u32, u32), DateError>((
            (1000 * digit_value(b[0]) + 100 * digit_value(b[1]) + 10 * digit_value(b[2]) + digit_value(b[3])) as i32,
            (10 * digit_value(b[5]) + digit_value(b[6])) as u32,
            (10 * digit_value(b[8]) + digit_value(b[9])) as u32,
        )),
{
    let p = b.take(10);
    reveal_with_fuel(dash_from, 6);
    assert(is_ascii_digit(b[0]) && is_ascii_digit(b[1]) && is_ascii_digit(b[2]) && is_ascii_digit(b[3]));
    assert(is_ascii_digit(b[5]) && is_ascii_digit(b[6]) && is_ascii_digit(b[8]) && is_ascii_digit(b[9]));
    assert(dash_from(p, 0) == 4);
    assert(dash_from(p, 5) == 7);
    assert(dash_from(p, 8) == 10);
    let ys = p.subrange(0, 4);
    let ms = p.subrange(5, 7);
    let ds = p.subrange(8, 10);
    reveal_with_fuel(digits_prefix, 5);
    assert(parse_int_spec(ys, true, i32::MIN as int, i32::MAX as int) == Ok::<int, IntErrorKind>(
        1000 * digit_value(b[0]) + 100 * digit_value(b[1]) + 10 * digit_value(b[2]) + digit_value(b[3])));
    assert(parse_int_spec(ms, false, 0, u32::MAX as int) == Ok::<int, IntErrorKind>(10 * digit_value(b[5]) + digit_value(b[6])));
    assert(parse_int_spec(ds, false, 0, u32::MAX as int) == Ok::<int, IntErrorKind>(10 * digit_value(b[8]) + digit_value(b[9])));
}

/// Reading a date has no byte boundary problem: when the text has at least
/// ten bytes, the tenth byte ends a character.
pub open spec fn date_prefix_on_char_boundary(date: &str) -> bool {
    date.spec_bytes().len() >= 10 ==> is_char_boundary(date.spec_bytes(), 10)
}

proof fn lemma_dash_from_bounds(p: Seq<u8>, i: int)
    requires
        0 <= i,
    ensures
        i <= dash_from(p, i) || dash_from(p, i) == p.len(),
        dash_from(p, i) <= p.len() || i > p.len(),
        dash_from(p, i) < p.len() ==> p[dash_from(p, i)] == 45u8,
    decreases p.len() - i,
{
    if i < p.len() && p[i] != 45u8 {
        lemma_dash_from_bounds(p, i + 1);
    }
}

/// The first `-` in `b[from..end]`, or `end` when there is none.
fn find_dash(b: &[u8], from: usize, end: usize) -> (r: usize)
    requires
        from <= end <= b@.len(),
    ensures
        r == dash_from(b@.take(end as int), from as int),
        from <= r <= end,
{
    let ghost p = b@.take(end as int);
    let mut i = from;
    while i < end
        invariant
            from <= i <= end <= b@.len(),
            p == b@.take(end as int),
            dash_from(p, i as int) == dash_from(p, from as int),
        decreases end - i,
    {
        if b[i] == 45u8 {
            return i;
        }
        i = i + 1;
    }
    i
}

/// Reads the `year`, `month` and `day` fields of a `YYYY-MM-DD` date.
pub fn parse_date_components(date: &str) -> (r: Result<(i32, u32, u32), DateError>)
    requires
        date_prefix_on_char_boundary(date),
    ensures
        r == parse_date_spec(date.spec_bytes()),
{
    let b = date.as_bytes();
    if b.len() < 10 {
        return Err(DateError::TooShort);
    }
    let ghost p = b@.take(10);
    let e1 = find_dash(b, 0, 10);
    assert(b@.subrange(0, e1 as int) =~= p.subrange(0, e1 as int));
    let year = match parse_decimal(b, 0, e1, true, i32::MIN as i64, i32::MAX as i64) {
        Err(k) => return Err(DateError::InvalidYear(k)),
        Ok(v) => v as i32,
    };
    if e1 >= 10 {
        return Err(DateError::MissingMonth);
    }
    let e2 = find_dash(b, e1 + 1, 10);
    assert(b@.subrange(e1 + 1, e2 as int) =~= p.subrange(e1 + 1, e2 as int));
    let month = match parse_decimal(b, e1 + 1, e2, false, 0, u32::MAX as i64) {
        Err(k) => return Err(DateError::InvalidMonth(k)),
        Ok(v) => v as u32,
    };
    if e2 >= 10 {
        return Err(DateError::MissingDay);
    }
    let e3 = find_dash(b, e2 + 1, 10);
    assert(b@.subrange(e2 + 1, e3 as int) =~= p.subrange(e2 + 1, e3 as int));
    let day = match parse_decimal(b, e2 + 1, e3, false, 0, u32::MAX as i64) {
        Err(k) => return Err(DateError::InvalidDay(k)),
        Ok(v) => v as u32,
    };
    Ok((year, month, day))
}

/// The year that a March-based year of the date `(y, m, _)` belongs to:
/// January and February count with the previous year.
pub open spec fn march_year(y: int, m: int) -> int {
    if m <= 2 { y - 1 } else { y }
}

/// The month counted from March (March is 0, February is 11).
pub open spec fn march_month(m: int) -> int {
    if m > 2 { m - 3 } else { m + 9 }
}

/// Day of the March-based year: the months from March to January have
/// 31, 30, 31, 30, 31, 31, 30, 31, 30, 31, 31 days.
pub open spec fn day_of_march_year(m: int, d: int) -> int {
    (153 * march_month(m) + 2) / 5 + d - 1
}

/// Days from 0000-03-01 to the first of March of March-based year `a`:
/// 365 days a year plus one for each leap day of the Gregorian calendar.
pub open spec fn days_before_march_year(a: int) -> int {
    365 * a + a / 4 - a / 100 + a / 400
}

/// The number of days from 1970-01-01 to `y-m-d` in the proleptic Gregorian
/// calendar (negative before 1970).
pub open spec fn civil_day_number(y: int, m: int, d: int) -> int {
    days_before_march_year(march_year(y, m)) + day_of_march_year(m, d) - 719468
}

/// The inputs for which the day count is computed with 32-bit intermediate
/// values: month and day fit an `i32`, and no intermediate step leaves the
/// `i32` range.
pub open spec fn civil_in_range(y: int, m: int, d: int) -> bool {
    let a = march_year(y, m);
    let yoe = a % 400;
    let mp = march_month(m);
    &&& 0 <= m <= i32::MAX
    &&& 0 <= d <= i32::MAX
    &&& i32::MIN + 399 <= a
    &&& 153 * mp + 2 <= i32::MAX
    &&& (153 * mp + 2) / 5 + d <= i32::MAX
    &&& yoe * 365 + yoe / 4 - yoe / 100 + day_of_march_year(m, d) <= i32::MAX
}

/// `365 * a + a / 4 - a / 100 + a / 400`, computed from the 400-year era of
/// `a` and the year within it.
proof fn lemma_era_decomposition(a: int, era: int, yoe: int)
    requires
        a == era * 400 + yoe,
        0 <= yoe < 400,
    ensures
        days_before_march_year(a) == era * 146097 + yoe * 365 + yoe / 4 - yoe / 100,
        era == a / 400,
        yoe == a % 400,
{
    lemma_fundamental_div_mod(yoe, 4);
    lemma_fundamental_div_mod(yoe, 100);
    lemma_fundamental_div_mod_converse(a, 4, era * 100 + yoe / 4, yoe % 4);
    lemma_fundamental_div_mod_converse(a, 100, era * 4 + yoe / 100, yoe % 100);
    lemma_fundamental_div_mod_converse(a, 400, era, yoe);
}

/// Number of days from 1970-01-01 to `year-month-day` in the proleptic
/// Gregorian calendar.
pub fn days_from_civil(year: i32, month: u32, day: u32) -> (r: i64)
    requires
        civil_in_range(year as int, month as int, day as int),
    ensures
        r == civil_day_number(year as int, month as int, day as int),
{
    let month = month as i32;
    let day = day as i32;
    let adjusted_year = year - if month <= 2 { 1 } else { 0 };
    let era = if adjusted_year >= 0 { adjusted_year } else { adjusted_year - 399 } / 400;
    let year_of_era = adjusted_year - era * 400;
    proof {
        let a = adjusted_year as int;
        if a < 0 {
            assert(era * 400 <= a);
        }
        assert(0 <= year_of_era < 400);
        lemma_era_decomposition(a, era as int, year_of_era as int);
    }
    let month_prime = month + if month > 2 { -3 } else { 9 };
    let day_of_year = (153 * month_prime + 2) / 5 + day - 1;
    let day_of_era = year_of_era * 365 + year_of_era / 4 - year_of_era / 100 + day_of_year;
    (era as i64) * 146_097 + day_of_era as i64 - 719_468
}

/// Tells whether `days_from_civil` accepts `year-month-day`, that is,
/// whether the day count stays within 32-bit intermediate values.
pub fn civil_date_in_range(year: i32, month: u32, day: u32) -> (r: bool)
    ensures
        r == civil_in_range(year as int, month as int, day as int),
{
    if month > i32::MAX as u32 || day > i32::MAX as u32 {
        return false;
    }
    let a: i64 = year as i64 - if month <= 2 { 1 } else { 0 };
    if a < i32::MIN as i64 + 399 {
        return false;
    }
    let rem: i64 = a % 400;
    let yoe: i64 = if rem < 0 { rem + 400 } else { rem };
    proof {
        lemma_fundamental_div_mod(a as int, 400);
        lemma_mod_bound(a as int, 400);
        if a >= 0 {
            assert(yoe == (a as int) % 400);
        } else {
            let q = (a as int) / 400;
            let t = -((-(a as int)) % 400);
            assert(rem == t);
            lemma_fundamental_div_mod(-(a as int), 400);
            lemma_mod_bound(-(a as int), 400);
            if t < 0 {
                lemma_fundamental_div_mod_converse(a as int, 400, -((-(a as int)) / 400) - 1, t + 400);
            } else {
                lemma_fundamental_div_mod_converse(a as int, 400, -((-(a as int)) / 400), 0);
            }
        }
    }
    let mp: i64 = month as i64 + if month > 2 { -3 } else { 9 };
    let head: i64 = 153 * mp + 2;
    if head > i32::MAX as i64 {
        return false;
    }
    let doy_base: i64 = head / 5 + day as i64;
    if doy_base > i32::MAX as i64 {
        return false;
    }
    yoe * 365 + yoe / 4 - yoe / 100 + (doy_base - 1) <= i32::MAX as i64
}

pub open spec fn pow10(n: nat) -> int
    decreases n,
{
    if n == 0 { 1 } else { 10 * pow10((n - 1) as nat) }
}

/// Reading `k` digits toward positive values gives less than `10^k`.
proof fn lemma_digits_prefix_bound(d: Seq<u8>, k: nat, lo: int, hi: int)
    requires
        lo <= 0 <= hi,
    ensures
        digits_prefix(d, k, false, lo, hi) matches Ok(v) ==> 0 <= v < pow10(k),
    decreases k,
{
    if k > 0 {
        lemma_digits_prefix_bound(d, (k - 1) as nat, lo, hi);
    }
}

/// A field of at most six bytes that holds no `-` reads as a value below a
/// million.
proof fn lemma_short_field_bound(s: Seq<u8>, signed: bool, lo: int, hi: int)
    requires
        s.len() <= 6,
        lo <= 0 <= hi,
        s.len() > 0 ==> s[0] != 45u8,
    ensures
        parse_int_spec(s, signed, lo, hi) matches Ok(v) ==> 0 <= v < 1_000_000,
{
    reveal_with_fuel(pow10, 7);
    if s.len() > 0 {
        if s[0] == 43u8 {
            lemma_digits_prefix_bound(s.drop_first(), (s.len() - 1) as nat, lo, hi);
        } else {
            lemma_digits_prefix_bound(s, s.len(), lo, hi);
        }
    }
}

/// Every date that reads has its year, month and day below a million, so
/// its day number is computed within 32-bit intermediate values.
pub proof fn lemma_read_dates_in_range(b: Seq<u8>)
    ensures
        parse_date_spec(b) matches Ok((y, m, d)) ==> civil_in_range(y as int, m as int, d as int),
{
    if parse_date_spec(b) is Ok {
        let p = b.take(10);
        let e1 = dash_from(p, 0);
        lemma_dash_from_bounds(p, 0);
        let e2 = dash_from(p, e1 + 1);
        lemma_dash_from_bounds(p, e1 + 1);
        let e3 = dash_from(p, e2 + 1);
        lemma_dash_from_bounds(p, e2 + 1);
        let ys = p.subrange(0, e1);
        let ms = p.subrange(e1 + 1, e2);
        let ds = p.subrange(e2 + 1, e3);
        assert(ys.len() > 0 && ms.len() > 0 && ds.len() > 0);
        assert(e1 > 0 ==> p[0] != 45u8);
        assert(ms.len() > 0 ==> ms[0] != 45u8);
        assert(ds.len() > 0 ==> ds[0] != 45u8);
        lemma_short_field_bound(ys, true, i32::MIN as int, i32::MAX as int);
        lemma_short_field_bound(ms, false, 0, u32::MAX as int);
        lemma_short_field_bound(ds, false, 0, u32::MAX as int);
        let (y, m, dd) = parse_date_spec(b).unwrap();
        let a = march_year(y as int, m as int);
        lemma_mod_bound(a, 400);
    }
}

/// The whole days from `as_of` to `expiration_date`, and zero once the
/// expiration date has passed; the first date that does not read gives the
/// error, `as_of` first.
pub open spec fn days_to_expiry_spec(as_of: Seq<u8>, expiration_date: Seq<u8>) -> Result<i64, DateError> {
    match parse_date_spec(as_of) {
        Err(e) => Err(e),
        Ok((y1, m1, d1)) => match parse_date_spec(expiration_date) {
            Err(e) => Err(e),
            Ok((y2, m2, d2)) => {
                let days = civil_day_number(y2 as int, m2 as int, d2 as int) - civil_day_number(y1 as int, m1 as int, d1 as int);
                Ok(if days > 0 { days as i64 } else { 0i64 })
            },
        },
    }
}

/// For two dates that read, the time to expiry counts the calendar days from
/// the as-of date to the expiry date, and is zero when the expiry is not
/// later: a strictly later expiry gives a strictly positive count, and the
/// as-of day number plus the count is the expiry day number.
pub proof fn lemma_days_to_expiry_counts_days(as_of: Seq<u8>, expiration_date: Seq<u8>)
    requires
        parse_date_spec(as_of) is Ok,
        parse_date_spec(expiration_date) is Ok,
    ensures
        ({
            let (y1, m1, d1) = parse_date_spec(as_of).unwrap();
            let (y2, m2, d2) = parse_date_spec(expiration_date).unwrap();
            let start = civil_day_number(y1 as int, m1 as int, d1 as int);
            let end = civil_day_number(y2 as int, m2 as int, d2 as int);
            &&& days_to_expiry_spec(as_of, expiration_date) matches Ok(k)
            &&& k >= 0
            &&& end > start ==> k > 0 && start + k == end
            &&& end <= start ==> k == 0
            &&& (y1 == y2 && m1 == m2) ==> k as int == (if d2 > d1 { d2 - d1 } else { 0 })
        }),
{
    lemma_read_dates_in_range(as_of);
    lemma_read_dates_in_range(expiration_date);
}

/// The whole days from `as_of` to `expiration_date`, never negative.
pub fn days_to_expiry(as_of: &str, expiration_date: &str) -> (r: Result<i64, DateError>)
    requires
        date_prefix_on_char_boundary(as_of),
        date_prefix_on_char_boundary(expiration_date),
    ensures
        r == days_to_expiry_spec(as_of.spec_bytes(), expiration_date.spec_bytes()),
        parse_date_spec(as_of.spec_bytes()) is Ok && parse_date_spec(expiration_date.spec_bytes()) is Ok ==> {
            let (y1, m1, d1) = parse_date_spec(as_of.spec_bytes()).unwrap();
            let (y2, m2, d2) = parse_date_spec(expiration_date.spec_bytes()).unwrap();
            let days = civil_day_number(y2 as int, m2 as int, d2 as int) - civil_day_number(y1 as int, m1 as int, d1 as int);
            r matches Ok(k) && k as int == (if days > 0 { days } else { 0 })
        },
{
    let (as_of_year, as_of_month, as_of_day) = match parse_date_components(as_of) {
        Ok(c) => c,
        Err(e) => return Err(e),
    };
    let (expiry_year, expiry_month, expiry_day) = match parse_date_components(expiration_date) {
        Ok(c) => c,
        Err(e) => return Err(e),
    };
    proof {
        lemma_read_dates_in_range(as_of.spec_bytes());
        lemma_read_dates_in_range(expiration_date.spec_bytes());
    }
    let expiry = days_from_civil(expiry_year, expiry_month, expiry_day);
    let start = days_from_civil(as_of_year, as_of_month, as_of_day);
    let days = expiry - start;
    Ok(if days > 0 { days } else { 0 })
}

/// Gregorian leap years: divisible by 4, except centuries not divisible by 400.
pub open spec fn is_leap_year(y: int) -> bool {
    y % 4 == 0 && (y % 100 != 0 || y % 400 == 0)
}

/// The number of days of month `m` (1 to 12) of year `y`.
pub open spec fn days_in_month(y: int, m: int) -> int {
    if m == 2 {
        if is_leap_year(y) { 29 } else { 28 }
    } else if m == 4 || m == 6 || m == 9 || m == 11 {
        30
    } else {
        31
    }
}

/// Going back one from `a` lowers `a / d` by one exactly when `d` divides `a`.
proof fn lemma_div_step(a: int, d: int)
    requires
        d > 0,
    ensures
        a / d - (a - 1) / d == if a % d == 0 { 1int } else { 0int },
{
    lemma_fundamental_div_mod(a, d);
    lemma_mod_bound(a, d);
    let q = a / d;
    let r = a % d;
    assert(q * d == d * q) by (nonlinear_arith);
    if r == 0 {
        assert((q - 1) * d == q * d - d) by (nonlinear_arith);
        lemma_fundamental_div_mod_converse(a - 1, d, q - 1, d - 1);
    } else {
        lemma_fundamental_div_mod_converse(a - 1, d, q, r - 1);
    }
}

/// The March-based year ending in February of year `a` has 366 days when
/// `a` is a leap year and 365 days otherwise.
proof fn lemma_march_year_length(a: int)
    ensures
        days_before_march_year(a) - days_before_march_year(a - 1) == if is_leap_year(a) { 366int } else { 365int },
{
    lemma_div_step(a, 4);
    lemma_div_step(a, 100);
    lemma_div_step(a, 400);
    lemma_fundamental_div_mod(a, 400);
    lemma_fundamental_div_mod(a, 100);
    lemma_fundamental_div_mod(a, 4);
    if a % 400 == 0 {
        lemma_fundamental_div_mod_converse(a, 100, (a / 400) * 4, 0);
        lemma_fundamental_div_mod_converse(a, 4, (a / 400) * 100, 0);
    } else if a % 100 == 0 {
        lemma_fundamental_div_mod_converse(a, 4, (a / 100) * 25, 0);
    } else if a % 4 != 0 {
        if a % 100 == 0 {
            lemma_fundamental_div_mod_converse(a, 4, (a / 100) * 25, 0);
        }
    }
    assert(a % 4 != 0 ==> a % 100 != 0 && a % 400 != 0) by {
        if a % 100 == 0 {
            lemma_fundamental_div_mod_converse(a, 4, (a / 100) * 25, 0);
        }
        if a % 400 == 0 {
            lemma_fundamental_div_mod_converse(a, 4, (a / 400) * 100, 0);
        }
    }
    assert(a % 100 != 0 ==> a % 400 != 0) by {
        if a % 400 == 0 {
            lemma_fundamental_div_mod_converse(a, 100, (a / 400) * 4, 0);
        }
    }
}

/// Day 0 of the count is 1970-01-01.
pub proof fn lemma_civil_epoch()
    ensures
        civil_day_number(1970, 1, 1) == 0,
{
}

/// Consecutive days of a month have consecutive day numbers.
pub proof fn lemma_civil_next_day(y: int, m: int, d: int)
    ensures
        civil_day_number(y, m, d + 1) == civil_day_number(y, m, d) + 1,
{
}

/// The first of the next month comes `days_in_month(y, m)` days after the
/// first of month `m`, for January to November.
pub proof fn lemma_civil_next_month(y: int, m: int)
    requires
        1 <= m <= 11,
    ensures
        civil_day_number(y, m + 1, 1) == civil_day_number(y, m, 1) + days_in_month(y, m),
{
    if m == 2 {
        lemma_march_year_length(y);
    }
}

/// January 1st of the next year comes 31 days after December 1st.
pub proof fn lemma_civil_next_year(y: int)
    ensures
        civil_day_number(y + 1, 1, 1) == civil_day_number(y, 12, 1) + 31,
{
}

/// A year has 366 days when it is a leap year and 365 days otherwise.
pub proof fn lemma_civil_year_length(y: int)
    ensures
        civil_day_number(y + 1, 1, 1) - civil_day_number(y, 1, 1) == if is_leap_year(y) { 366int } else { 365int },
{
    lemma_march_year_length(y);
}

} // verus!
