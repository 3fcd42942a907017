use vstd::prelude::*;
use crate::text::chars_of;

verus! {

/// Whether `c` is an ASCII decimal digit.
pub open spec fn is_digit(c: char) -> bool {
    '0' <= c <= '9'
}

/// Whether every character of `s` is an ASCII decimal digit.
pub open spec fn all_digits(s: Seq<char>) -> bool {
    forall|i: int| 0 <= i < s.len() ==> is_digit(#[trigger] s[i])
}

/// The number written in decimal by the digits `s`.
pub open spec fn digits_value(s: Seq<char>) -> int
    decreases s.len(),
{
    if s.len() == 0 {
        0
    } else {
        digits_value(s.drop_last()) * 10 + (s.last() as int - '0' as int)
    }
}

/// What `str::parse::<u64>` returns for `s`: an optional `+` followed by at
/// least one digit, of value at most `u64::MAX`.
pub open spec fn parse_u64_spec(s: Seq<char>) -> Option<u64> {
    let d = if s.len() > 0 && s[0] == '+' {
        s.drop_first()
    } else {
        s
    };
    if d.len() > 0 && all_digits(d) && digits_value(d) <= u64::MAX {
        Some(digits_value(d) as u64)
    } else {
        None
    }
}

/// What `str::parse::<i64>` returns for `s`: an optional sign followed by at
/// least one digit, of value within the range of `i64`.
pub open spec fn parse_i64_spec(s: Seq<char>) -> Option<i64> {
    if s.len() > 0 && s[0] == '-' {
        let d = s.drop_first();
        if d.len() > 0 && all_digits(d) && digits_value(d) <= 0x8000_0000_0000_0000 {
            Some((-digits_value(d)) as i64)
        } else {
            None
        }
    } else {
        let d = if s.len() > 0 && s[0] == '+' {
            s.drop_first()
        } else {
            s
        };
        if d.len() > 0 && all_digits(d) && digits_value(d) <= i64::MAX {
            Some(digits_value(d) as i64)
        } else {
            None
        }
    }
}

proof fn lemma_digits_step(s: Seq<char>, i: int)
    requires
        0 <= i < s.len(),
    ensures
        digits_value(s.take(i + 1)) == digits_value(s.take(i)) * 10 + (s[i] as int - '0' as int),
{
    assert(s.take(i + 1).drop_last() == s.take(i));
}

proof fn lemma_digits_nonneg(s: Seq<char>)
    requires
        all_digits(s),
    ensures
        digits_value(s) >= 0,
    decreases s.len(),
{
    if s.len() > 0 {
        assert(is_digit(s[s.len() - 1]));
        assert(all_digits(s.drop_last())) by {
            assert forall|i: int| 0 <= i < s.drop_last().len() implies is_digit(#[trigger] s.drop_last()[i]) by {
                assert(s.drop_last()[i] == s[i]);
            }
        }
        lemma_digits_nonneg(s.drop_last());
    }
}

proof fn lemma_digits_mono(s: Seq<char>, i: int, j: int)
    requires
        0 <= i <= j <= s.len(),
        all_digits(s),
    ensures
        digits_value(s.take(i)) <= digits_value(s.take(j)),
    decreases j - i,
{
    if i < j {
        lemma_digits_mono(s, i, j - 1);
        lemma_digits_step(s, j - 1);
        assert(all_digits(s.take(j - 1))) by {
            assert forall|k: int| 0 <= k < s.take(j - 1).len() implies is_digit(#[trigger] s.take(j - 1)[k]) by {
                assert(s.take(j - 1)[k] == s[k]);
            }
        }
        lemma_digits_nonneg(s.take(j - 1));
        assert(is_digit(s[j - 1]));
    }
}

/// The value of the digits `s[from..]`, when they are all digits, there is at
/// least one, and the value fits in `u64`.
fn parse_digits(s: &[char], from: usize) -> (r: Option<u64>)
    requires
        from <= s.len(),
    ensures
        ({
            let d = s@.skip(from as int);
            match r {
                Some(v) => d.len() > 0 && all_digits(d) && digits_value(d) <= u64::MAX && v == digits_value(d),
                None => !(d.len() > 0 && all_digits(d) && digits_value(d) <= u64::MAX),
            }
        }),
{
    let ghost d = s@.skip(from as int);
    if from >= s.len() {
        return None;
    }
    let mut v: u64 = 0;
    let mut i: usize = from;
    assert(d.take(0) == Seq::<char>::empty());
    while i < s.len()
        invariant
            from <= i <= s.len(),
            d == s@.skip(from as int),
            all_digits(d.take(i - from)),
            v as int == digits_value(d.take(i - from)),
        decreases s.len() - i,
    {
        let c = s[i];
        assert(d[i - from] == c);
        if !('0' <= c && c <= '9') {
            assert(!is_digit(d[i - from]));
            return None;
        }
        let dv = (c as u32 - '0' as u32) as u64;
        proof {
            lemma_digits_step(d, i - from);
            assert(all_digits(d.take(i - from + 1))) by {
                assert forall|k: int| 0 <= k < d.take(i - from + 1).len() implies is_digit(#[trigger] d.take(i - from + 1)[k]) by {
                    if k < i - from {
                        assert(d.take(i - from + 1)[k] == d.take(i - from)[k]);
                    }
                }
            }
        }
        match v.checked_mul(10) {
            None => {
                proof {
                    if all_digits(d) {
                        lemma_digits_mono(d, i - from + 1, d.len() as int);
                        assert(d.take(d.len() as int) == d);
                    }
                }
                return None;
            },
            Some(v10) => match v10.checked_add(dv) {
                None => {
                    proof {
                        if all_digits(d) {
                            lemma_digits_mono(d, i - from + 1, d.len() as int);
                            assert(d.take(d.len() as int) == d);
                        }
                    }
                    return None;
                },
                Some(nv) => {
                    v = nv;
                },
            },
        }
        i = i + 1;
    }
    assert(d.take(i - from) == d);
    Some(v)
}

/// Parses `s` as `str::parse::<u64>` does.
pub fn parse_u64(s: &[char]) -> (r: Option<u64>)
    ensures
        r == parse_u64_spec(s@),
{
    let from: usize = if s.len() > 0 && s[0] == '+' {
        1
    } else {
        0
    };
    proof {
        if from == 1 {
            assert(s@.skip(1) == s@.drop_first());
        } else {
            assert(s@.skip(0) == s@);
        }
    }
    parse_digits(s, from)
}

/// Parses `s` as `str::parse::<i64>` does.
pub fn parse_i64(s: &[char]) -> (r: Option<i64>)
    ensures
        r == parse_i64_spec(s@),
{
    if s.len() > 0 && s[0] == '-' {
        assert(s@.skip(1) == s@.drop_first());
        match parse_digits(s, 1) {
            None => None,
            Some(v) => {
                if v <= 0x8000_0000_0000_0000 {
                    if v == 0x8000_0000_0000_0000 {
                        Some(i64::MIN)
                    } else {
                        Some(-(v as i64))
                    }
                } else {
                    None
                }
            },
        }
    } else {
        let from: usize = if s.len() > 0 && s[0] == '+' {
            1
        } else {
            0
        };
        proof {
            if from == 1 {
                assert(s@.skip(1) == s@.drop_first());
            } else {
                assert(s@.skip(0) == s@);
            }
        }
        match parse_digits(s, from) {
            None => None,
            Some(v) => {
                if v <= 0x7fff_ffff_ffff_ffff {
                    Some(v as i64)
                } else {
                    None
                }
            },
        }
    }
}

} // verus!

verus! {

/// Whether `x` is within the range of `i64`.
pub open spec fn in_i64(x: int) -> bool {
    i64::MIN <= x <= i64::MAX
}

/// The value of a `u64` cast with `as i64` (two's complement wrap).
pub open spec fn wrap_i64(x: int) -> int {
    if x <= i64::MAX {
        x
    } else {
        x - 0x1_0000_0000_0000_0000
    }
}

/// The value of an `i64` cast with `as u64` (two's complement wrap).
pub open spec fn wrap_u64(x: int) -> int {
    if x >= 0 {
        x
    } else {
        x + 0x1_0000_0000_0000_0000
    }
}

/// Integer division rounding toward zero (Rust's `/` on signed integers), for
/// a positive divisor.
pub open spec fn tdiv(a: int, b: int) -> int {
    if a >= 0 {
        a / b
    } else {
        -((-a) / b)
    }
}

/// Month with March as month 0, as the day count below uses.
pub open spec fn shifted_month(m: int) -> int {
    if m > 2 {
        m - 3
    } else {
        m + 9
    }
}

/// The year that the day count below uses: January and February count as the
/// previous year.
pub open spec fn shifted_year(year: int, m: int) -> int {
    if m <= 2 {
        year - 1
    } else {
        year
    }
}

/// Day of the shifted year.
pub open spec fn day_of_year(m: int, d: int) -> int {
    tdiv(153 * shifted_month(m) + 2, 5) + d - 1
}

/// Day of the 400-year era.
pub open spec fn day_of_era(y: int, m: int, d: int) -> int {
    let yoe = y % 400;
    yoe * 365 + yoe / 4 - yoe / 100 + day_of_year(m, d)
}

/// Days from 1970-01-01 to the civil date `year`-`month`-`day` (proleptic
/// Gregorian calendar), where month and day are first cast to `i64`.
pub open spec fn days_from_epoch_spec(year: int, month: int, day: int) -> int {
    let m = wrap_i64(month);
    let d = wrap_i64(day);
    let y = shifted_year(year, m);
    (y / 400) * 146_097 + day_of_era(y, m, d) - 719_468
}

/// Whether each step of the day count stays within `i64` (else the
/// computation overflows).
pub open spec fn days_fits(year: int, month: int, day: int) -> bool {
    let m = wrap_i64(month);
    let d = wrap_i64(day);
    let y = shifted_year(year, m);
    let p = 153 * shifted_month(m) + 2;
    let doy = day_of_year(m, d);
    let doe = day_of_era(y, m, d);
    &&& in_i64(y)
    &&& in_i64(153 * shifted_month(m))
    &&& in_i64(p)
    &&& in_i64(tdiv(p, 5) + d)
    &&& in_i64(doy)
    &&& in_i64(doe)
    &&& in_i64((y / 400) * 146_097)
    &&& in_i64((y / 400) * 146_097 + doe)
    &&& in_i64((y / 400) * 146_097 + doe - 719_468)
}

proof fn lemma_wrap_i64(x: u64)
    ensures
        (x as i64) as int == wrap_i64(x as int),
{
    assert(x <= 0x7fff_ffff_ffff_ffffu64 ==> (x as i64) as int == x as int) by (bit_vector);
    assert(x > 0x7fff_ffff_ffff_ffffu64 ==> (x as i64) as int == x as int - 0x1_0000_0000_0000_0000int) by (bit_vector);
}

proof fn lemma_wrap_u64(x: i64)
    ensures
        (x as u64) as int == wrap_u64(x as int),
{
    assert(x >= 0 ==> (x as u64) as int == x as int) by (bit_vector);
    assert(x < 0 ==> (x as u64) as int == x as int + 0x1_0000_0000_0000_0000int) by (bit_vector);
}

/// Days from 1970-01-01 to the civil date `year`-`month`-`day`.
pub fn days_from_epoch(year: i64, month: u64, day: u64) -> (r: i64)
    requires
        days_fits(year as int, month as int, day as int),
    ensures
        r as int == days_from_epoch_spec(year as int, month as int, day as int),
{
    proof {
        lemma_wrap_i64(month);
        lemma_wrap_i64(day);
    }
    let m = month as i64;
    let d = day as i64;
    let y = if m <= 2 {
        year - 1
    } else {
        year
    };
    let era = y.checked_div_euclid(400).unwrap();
    let yoe = y.checked_rem_euclid(400).unwrap();
    let doy = (153 * (if m > 2 {
        m - 3
    } else {
        m + 9
    }) + 2) / 5 + d - 1;
    let doe = yoe * 365 + yoe / 4 - yoe / 100 + doy;
    era * 146_097 + doe - 719_468
}

} // verus!

verus! {

/// Why a `--since` value was refused.
#[derive(Debug, Clone, Copy, PartialEq, Eq, Structural)]
pub enum SinceError {
    /// A relative value (`7d`, `24h`, `2w`) whose count is not a number.
    InvalidNumber,
    /// Neither a relative value nor a `YYYY-MM-DD` date.
    InvalidFormat,
}

/// `a - b`, or 0 when that is negative (`u64::saturating_sub`).
pub open spec fn sat_sub(a: int, b: int) -> int {
    if a >= b {
        a - b
    } else {
        0
    }
}

/// Index of the first `c` in `s` at or after `from`, or `s.len()`.
pub open spec fn find_char(s: Seq<char>, c: char, from: int) -> int
    decreases s.len() - from,
{
    if from < 0 || from >= s.len() {
        s.len() as int
    } else if s[from] == c {
        from
    } else {
        find_char(s, c, from + 1)
    }
}

/// The three numbers of a `YEAR-MONTH-DAY` value: `s` holds exactly two
/// dashes, the first part parses as `i64` and the others as `u64`.
pub open spec fn date_parts(s: Seq<char>) -> Option<(i64, u64, u64)> {
    let i = find_char(s, '-', 0);
    let j = find_char(s, '-', i + 1);
    let k = find_char(s, '-', j + 1);
    if i < s.len() && j < s.len() && k >= s.len() {
        match (
            parse_i64_spec(s.take(i)),
            parse_u64_spec(s.subrange(i + 1, j)),
            parse_u64_spec(s.subrange(j + 1, s.len() as int)),
        ) {
            (Some(y), Some(m), Some(d)) => Some((y, m, d)),
            _ => None,
        }
    } else {
        None
    }
}

/// Seconds in the unit that a relative value ends with (`d`, `h`, `w`), or 0.
pub open spec fn unit_seconds(c: char) -> int {
    if c == 'd' {
        86_400
    } else if c == 'h' {
        3_600
    } else if c == 'w' {
        604_800
    } else {
        0
    }
}

/// Whether `s` is a relative value: it ends with `d`, `h` or `w`.
pub open spec fn is_relative(s: Seq<char>) -> bool {
    s.len() > 0 && unit_seconds(s.last()) != 0
}

/// The cutoff (seconds since the Unix epoch) that a `--since` value names,
/// with `now` the current time: `N` days, hours or weeks before `now`
/// (never below 0), or midnight at the start of a `YEAR-MONTH-DAY` date
/// (cast from `i64` to `u64`).
pub open spec fn since_spec(s: Seq<char>, now: int) -> Result<int, SinceError> {
    if is_relative(s) {
        match parse_u64_spec(s.drop_last()) {
            Some(n) => Ok(sat_sub(now, n * unit_seconds(s.last()))),
            None => Err(SinceError::InvalidNumber),
        }
    } else {
        match date_parts(s) {
            Some((y, m, d)) => Ok(wrap_u64(days_from_epoch_spec(y as int, m as int, d as int) * 86_400)),
            None => Err(SinceError::InvalidFormat),
        }
    }
}

/// Whether the arithmetic for `s` stays within the machine integers (a count
/// of days, hours or weeks whose seconds fit in `u64`; a date whose day count
/// and seconds fit in `i64`).
pub open spec fn since_fits(s: Seq<char>) -> bool {
    if is_relative(s) {
        match parse_u64_spec(s.drop_last()) {
            Some(n) => n * unit_seconds(s.last()) <= u64::MAX,
            None => true,
        }
    } else {
        match date_parts(s) {
            Some((y, m, d)) => days_fits(y as int, m as int, d as int) && in_i64(
                days_from_epoch_spec(y as int, m as int, d as int) * 86_400,
            ),
            None => true,
        }
    }
}

fn find_char_exec(s: &[char], c: char, from: usize) -> (r: usize)
    ensures
        r as int == find_char(s@, c, from as int),
        r <= s.len(),
        r < s.len() ==> from <= r,
{
    let mut i = from;
    while i < s.len()
        invariant
            from <= i,
            find_char(s@, c, i as int) == find_char(s@, c, from as int),
        decreases s.len() - i,
    {
        if s[i] == c {
            return i;
        }
        i = i + 1;
    }
    s.len()
}

/// The day count, or `None` when a step of it overflows `i64`.
fn days_checked(year: i64, month: u64, day: u64) -> (r: Option<i64>)
    ensures
        r.is_some() == days_fits(year as int, month as int, day as int),
        r matches Some(v) ==> v as int == days_from_epoch_spec(year as int, month as int, day as int),
{
    proof {
        lemma_wrap_i64(month);
        lemma_wrap_i64(day);
    }
    let m = month as i64;
    let d = day as i64;
    let y = if m <= 2 {
        year.checked_sub(1)?
    } else {
        year
    };
    let mm: i64 = if m > 2 {
        m - 3
    } else {
        m + 9
    };
    let p0 = 153i64.checked_mul(mm)?;
    let p = p0.checked_add(2)?;
    let q = p / 5;
    let qd = q.checked_add(d)?;
    let doy = qd.checked_sub(1)?;
    let era = y.checked_div_euclid(400).unwrap();
    let yoe = y.checked_rem_euclid(400).unwrap();
    let t = yoe * 365 + yoe / 4 - yoe / 100;
    let doe = t.checked_add(doy)?;
    let e = era.checked_mul(146_097)?;
    let e2 = e.checked_add(doe)?;
    let r = e2.checked_sub(719_468)?;
    Some(r)
}

/// The `--since` cutoff for `s`, or `None` where the arithmetic would
/// overflow.
fn since_eval(s: &[char], now: u64) -> (r: Option<Result<u64, SinceError>>)
    ensures
        r.is_some() == since_fits(s@),
        r matches Some(v) ==> match (v, since_spec(s@, now as int)) {
            (Ok(a), Ok(b)) => a as int == b,
            (Err(a), Err(b)) => a == b,
            _ => false,
        },
{
    let n = s.len();
    if n > 0 && (s[n - 1] == 'd' || s[n - 1] == 'h' || s[n - 1] == 'w') {
        let unit: u64 = if s[n - 1] == 'd' {
            86_400
        } else if s[n - 1] == 'h' {
            3_600
        } else {
            604_800
        };
        assert(s@.drop_last() == s@.subrange(0, n - 1));
        match parse_u64(vstd::slice::slice_subrange(s, 0, n - 1)) {
            None => Some(Err(SinceError::InvalidNumber)),
            Some(count) => match count.checked_mul(unit) {
                None => None,
                Some(secs) => Some(Ok(now.saturating_sub(secs))),
            },
        }
    } else {
        let i = find_char_exec(s, '-', 0);
        if i >= n {
            return Some(Err(SinceError::InvalidFormat));
        }
        let j = find_char_exec(s, '-', i + 1);
        if j >= n {
            return Some(Err(SinceError::InvalidFormat));
        }
        let k = find_char_exec(s, '-', j + 1);
        if k < n {
            return Some(Err(SinceError::InvalidFormat));
        }
        assert(s@.take(i as int) == s@.subrange(0, i as int));
        let y = parse_i64(vstd::slice::slice_subrange(s, 0, i));
        let m = parse_u64(vstd::slice::slice_subrange(s, i + 1, j));
        let d = parse_u64(vstd::slice::slice_subrange(s, j + 1, n));
        match (y, m, d) {
            (Some(y), Some(m), Some(d)) => {
                match days_checked(y, m, d) {
                    None => None,
                    Some(days) => match days.checked_mul(86_400) {
                        None => None,
                        Some(secs) => {
                            proof {
                                lemma_wrap_u64(secs);
                            }
                            Some(Ok(secs as u64))
                        },
                    },
                }
            },
            _ => Some(Err(SinceError::InvalidFormat)),
        }
    }
}

/// Whether `parse_since` can evaluate `s` without overflowing: the count of a
/// relative value, in seconds, fits in `u64`, and the day count of a date, in
/// seconds, fits in `i64`.
pub fn since_in_range(s: &str) -> (r: bool)
    ensures
        r == since_fits(s@),
{
    let cs = chars_of(s);
    since_eval(cs.as_slice(), 0).is_some()
}

/// Parses a `--since` value into a cutoff in seconds since the Unix epoch,
/// `now` being the current time: `7d`, `24h` and `2w` count back from `now`
/// (not below 0); `2024-01-01` is midnight UTC at the start of that day.
pub fn parse_since(s: &str, now: u64) -> (r: Result<u64, SinceError>)
    requires
        since_fits(s@),
    ensures
        match (r, since_spec(s@, now as int)) {
            (Ok(a), Ok(b)) => a as int == b,
            (Err(a), Err(b)) => a == b,
            _ => false,
        },
{
    let cs = chars_of(s);
    since_eval(cs.as_slice(), now).unwrap()
}

} // verus!

verus! {

/// The epoch itself is day 0, and within a month each next day counts one
/// more.
pub proof fn lemma_days_from_epoch_steps(year: int, month: int, day: int)
    requires
        0 <= month <= i64::MAX,
        0 <= day < i64::MAX,
    ensures
        days_from_epoch_spec(1970, 1, 1) == 0,
        days_from_epoch_spec(year, month, day + 1) == days_from_epoch_spec(year, month, day) + 1,
{
    assert(days_from_epoch_spec(1970, 1, 1) == 0);
}

/// Whether `year` is a leap year of the proleptic Gregorian calendar.
pub open spec fn is_leap_year(year: int) -> bool {
    (year % 4 == 0 && year % 100 != 0) || year % 400 == 0
}

/// The number of days of `month` (1 to 12) in `year`.
pub open spec fn days_in_month(year: int, month: int) -> int {
    if month == 2 {
        if is_leap_year(year) {
            29
        } else {
            28
        }
    } else if month == 4 || month == 6 || month == 9 || month == 11 {
        30
    } else {
        31
    }
}

/// Whether `year`-`month`-`day` is a date of the proleptic Gregorian calendar.
pub open spec fn valid_date(year: int, month: int, day: int) -> bool {
    1 <= month <= 12 && 1 <= day <= days_in_month(year, month)
}

/// The calendar day after `year`-`month`-`day`.
pub open spec fn next_day(year: int, month: int, day: int) -> (int, int, int) {
    if day < days_in_month(year, month) {
        (year, month, day + 1)
    } else if month < 12 {
        (year, month + 1, 1)
    } else {
        (year + 1, 1, 1)
    }
}

proof fn lemma_leap_shift(year: int)
    requires
        year % 400 != 0,
    ensures
        (year % 400) / 4 - (year % 400 - 1) / 4 == (if year % 4 == 0 { 1int } else { 0int }),
        (year % 400) / 100 - (year % 400 - 1) / 100 == (if year % 100 == 0 { 1int } else { 0int }),
        (year - 1) / 400 == year / 400,
        (year - 1) % 400 == year % 400 - 1,
{
    let q = year / 400;
    let r = year % 400;
    assert(year == 400 * q + r && 0 <= r < 400) by {
        vstd::arithmetic::div_mod::lemma_fundamental_div_mod(year, 400);
    }
    assert(year - 1 == 400 * q + (r - 1));
    assert((year - 1) / 400 == q && (year - 1) % 400 == r - 1) by {
        vstd::arithmetic::div_mod::lemma_fundamental_div_mod_converse(year - 1, 400, q, r - 1);
    }
    assert(year % 4 == r % 4) by {
        vstd::arithmetic::div_mod::lemma_fundamental_div_mod_converse(year, 4, 100 * q + r / 4, r % 4);
    }
    assert(year % 100 == r % 100) by {
        vstd::arithmetic::div_mod::lemma_fundamental_div_mod_converse(year, 100, 4 * q + r / 100, r % 100);
    }
    assert(1 <= r < 400);
    assert(r / 4 - (r - 1) / 4 == (if r % 4 == 0 { 1int } else { 0int })) by {
        vstd::arithmetic::div_mod::lemma_fundamental_div_mod(r, 4);
        vstd::arithmetic::div_mod::lemma_fundamental_div_mod(r - 1, 4);
    }
    assert(r / 100 - (r - 1) / 100 == (if r % 100 == 0 { 1int } else { 0int })) by {
        vstd::arithmetic::div_mod::lemma_fundamental_div_mod(r, 100);
        vstd::arithmetic::div_mod::lemma_fundamental_div_mod(r - 1, 100);
    }
}

proof fn lemma_era_shift(year: int)
    requires
        year % 400 == 0,
    ensures
        (year - 1) / 400 == year / 400 - 1,
        (year - 1) % 400 == 399,
{
    let q = year / 400;
    assert(year == 400 * q) by {
        vstd::arithmetic::div_mod::lemma_fundamental_div_mod(year, 400);
    }
    vstd::arithmetic::div_mod::lemma_fundamental_div_mod_converse(year - 1, 400, q - 1, 399);
}

/// The day count is the number of days from 1970-01-01: that day is 0, and
/// the day after any date of the proleptic Gregorian calendar, across month
/// and year ends and leap days, counts one more.
pub proof fn lemma_days_from_epoch_next_day(year: int, month: int, day: int)
    requires
        valid_date(year, month, day),
    ensures
        days_from_epoch_spec(1970, 1, 1) == 0,
        valid_date(next_day(year, month, day).0, next_day(year, month, day).1, next_day(year, month, day).2),
        days_from_epoch_spec(next_day(year, month, day).0, next_day(year, month, day).1, next_day(year, month, day).2)
            == days_from_epoch_spec(year, month, day) + 1,
{
    assert(days_from_epoch_spec(1970, 1, 1) == 0);
    if day < days_in_month(year, month) {
        lemma_days_from_epoch_steps(year, month, day);
    } else if month == 2 {
        let y = year - 1;
        assert(days_from_epoch_spec(year, 2, day) == (y / 400) * 146_097 + (y % 400) * 365 + (y % 400) / 4
            - (y % 400) / 100 + 336 + day - 719_468);
        assert(days_from_epoch_spec(year, 3, 1) == (year / 400) * 146_097 + (year % 400) * 365 + (year % 400) / 4
            - (year % 400) / 100 - 719_468);
        if year % 400 == 0 {
            lemma_era_shift(year);
            assert(is_leap_year(year));
        } else {
            lemma_leap_shift(year);
        }
    } else if month < 12 {
        assert(days_from_epoch_spec(year, month + 1, 1) == days_from_epoch_spec(year, month, day) + 1);
    } else {
        assert(days_from_epoch_spec(year + 1, 1, 1) == days_from_epoch_spec(year, 12, 31) + 1);
    }
}

/// A relative `--since` value never names a moment after `now`.
pub proof fn lemma_relative_since_not_after_now(s: Seq<char>, now: int)
    requires
        is_relative(s),
        0 <= now,
    ensures
        since_spec(s, now) matches Ok(v) ==> 0 <= v <= now,
{
}

} // verus!
