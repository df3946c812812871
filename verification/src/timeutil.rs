use vstd::prelude::*;

use crate::calendar::{civil_date, lemma_civil_date, lemma_civil_parts};
use crate::text::{chars_of, digits_len, digits_value, is_digit, lemma_digits_len_prefix, dec, padded, push_range, push_str, string_of_range, trim, trim_bounds, push_char, push_decimal, push_padded, push_signed_padded, signed_padded};

verus! {

#[verifier::external_type_specification]
#[verifier::external_body]
pub struct ExSystemTime(std::time::SystemTime);

#[verifier::external_type_specification]
#[verifier::external_body]
pub struct ExSystemTimeError(std::time::SystemTimeError);

/// `SystemTime::now` from std: the clock, of which nothing is known.
#[verifier::external_body]
fn clock_now() -> std::time::SystemTime {
    std::time::SystemTime::now()
}

/// `SystemTime::duration_since(UNIX_EPOCH)` from std: how far the clock reading
/// lies after 1970-01-01, or an error when it lies before. Nothing is claimed
/// of the outcome: it follows the clock.
#[verifier::external_body]
fn since_epoch(t: &std::time::SystemTime) -> Result<
    std::time::Duration,
    std::time::SystemTimeError,
> {
    t.duration_since(std::time::UNIX_EPOCH)
}

/// `Duration::as_secs` from std: the whole seconds of a duration. The duration
/// is opaque here, so nothing is claimed of the number.
#[verifier::external_body]
fn duration_secs(d: &std::time::Duration) -> u64 {
    d.as_secs()
}

/// The seconds since 1970-01-01 00:00:00 UTC by the system clock, as an `i64`
/// taken bit for bit from the whole seconds; 0 when the clock stands before 1970.
pub fn now_unix() -> (t: i64) {
    match since_epoch(&clock_now()) {
        Ok(d) => seconds_to_unix(Some(duration_secs(&d))),
        Err(_) => seconds_to_unix(None),
    }
}

/// What `now_unix` makes of the clock: the whole seconds, cast to `i64`, or 0
/// when the clock could not be read against 1970.
pub fn seconds_to_unix(secs: Option<u64>) -> (t: i64)
    ensures
        t == match secs {
            Some(s) => s as i64,
            None => 0i64,
        },
{
    match secs {
        Some(s) => s as i64,
        None => 0,
    }
}

/// The text of an age of `secs` seconds, in the largest unit that fits:
/// seconds, minutes, hours, days, months of 30 days or years of 365 days,
/// rounded down.
pub open spec fn age_text(secs: nat) -> Seq<char> {
    if secs < 60 {
        dec(secs) + seq!['s']
    } else if secs < 3600 {
        dec(secs / 60) + seq!['m']
    } else if secs < 86400 {
        dec(secs / 3600) + seq!['h']
    } else if secs < 86400 * 30 {
        dec(secs / 86400) + seq!['d']
    } else if secs < 86400 * 365 {
        dec(secs / (86400 * 30)) + seq!['m', 'o']
    } else {
        dec(secs / (86400 * 365)) + seq!['y']
    }
}

/// The size in seconds of the `i`-th unit of an age: second, minute, hour,
/// day, month of 30 days, year of 365 days.
pub open spec fn age_unit_size(i: int) -> nat {
    seq![1nat, 60nat, 3600nat, 86400nat, 2592000nat, 31536000nat][i]
}

/// The name of the `i`-th unit of an age.
pub open spec fn age_unit_name(i: int) -> Seq<char> {
    seq![seq!['s'], seq!['m'], seq!['h'], seq!['d'], seq!['m', 'o'], seq!['y']][i]
}

/// An age is written in the largest unit that fits it: the label is the
/// whole number of that unit in the age, followed by its name, where the unit
/// is no longer than the age (seconds always fit) and the next unit is longer.
pub proof fn lemma_age_unit(secs: nat)
    ensures
        exists|i: int|
            0 <= i < 6 && (i == 0 || #[trigger] age_unit_size(i) <= secs) && (i == 5 || secs
                < age_unit_size(i + 1)) && age_text(secs) == dec(secs / age_unit_size(i))
                + age_unit_name(i),
{
    let i: int = if secs < 60 {
        0
    } else if secs < 3600 {
        1
    } else if secs < 86400 {
        2
    } else if secs < 86400 * 30 {
        3
    } else if secs < 86400 * 365 {
        4
    } else {
        5
    };
    assert(age_unit_size(i) == seq![1nat, 60nat, 3600nat, 86400nat, 2592000nat, 31536000nat][i]);
    assert(0 <= i < 6 && (i == 0 || age_unit_size(i) <= secs) && (i == 5 || secs < age_unit_size(
        i + 1,
    )) && age_text(secs) == dec(secs / age_unit_size(i)) + age_unit_name(i));
}

/// The decimal notation of a positive number does not begin with `0`.
pub proof fn lemma_dec_leading(n: nat)
    requires
        n >= 1,
    ensures
        dec(n).len() >= 1,
        dec(n)[0] != '0',
    decreases n,
{
    if n >= 10 {
        lemma_dec_leading(n / 10);
        assert(dec(n)[0] == dec(n / 10)[0]);
    } else {
        assert(dec(n) == seq![crate::text::digit(n)]);
        assert(crate::text::digit(n) != '0') by {
            assert(n + 48 >= 49);
        }
    }
}

/// An age of a second or more is never labelled with a count of `0`, and an
/// age from one day up to 30 days is written in whole days.
pub proof fn lemma_age_count(secs: nat)
    ensures
        secs >= 1 ==> age_text(secs)[0] != '0',
        86400 <= secs < 86400 * 30 ==> age_text(secs) == dec(secs / 86400) + seq!['d'],
{
    lemma_age_unit(secs);
    let i = choose|i: int|
        0 <= i < 6 && (i == 0 || #[trigger] age_unit_size(i) <= secs) && (i == 5 || secs
            < age_unit_size(i + 1)) && age_text(secs) == dec(secs / age_unit_size(i))
            + age_unit_name(i);
    if secs >= 1 {
        assert(secs / age_unit_size(i) >= 1) by (nonlinear_arith)
            requires
                age_unit_size(i) >= 1,
                i == 0 || age_unit_size(i) <= secs,
                i != 0 || age_unit_size(i) == 1,
                secs >= 1,
        ;
        lemma_dec_leading(secs / age_unit_size(i));
        assert(age_text(secs)[0] == dec(secs / age_unit_size(i))[0]);
    }
}

/// Formats an age, such as `5s`, `1m`, `2d` or `1mo`.
pub fn format_age(secs: u64) -> (s: String)
    ensures
        s@ == age_text(secs as nat),
{
    let mut out = String::new();
    if secs < 60 {
        push_decimal(&mut out, secs);
        push_char(&mut out, 's');
    } else if secs < 3_600 {
        push_decimal(&mut out, secs / 60);
        push_char(&mut out, 'm');
    } else if secs < 86_400 {
        push_decimal(&mut out, secs / 3_600);
        push_char(&mut out, 'h');
    } else if secs < 86_400 * 30 {
        push_decimal(&mut out, secs / 86_400);
        push_char(&mut out, 'd');
    } else if secs < 86_400 * 365 {
        push_decimal(&mut out, secs / (86_400 * 30));
        push_char(&mut out, 'm');
        push_char(&mut out, 'o');
        assert(out@ == dec((secs as nat) / (86400 * 30)) + seq!['m', 'o']);
    } else {
        push_decimal(&mut out, secs / (86_400 * 365));
        push_char(&mut out, 'y');
    }
    out
}

/// The age of a timestamp at `now`: `now - ts`, at least 0 and at most `i64::MAX`.
pub open spec fn age_secs(ts: int, now: int) -> nat {
    let diff = now - ts;
    if diff < 0 {
        0
    } else if diff > i64::MAX {
        i64::MAX as nat
    } else {
        diff as nat
    }
}

/// The label of the last activity: its age, or a dash when it is unknown.
pub open spec fn age_label_text(last_active: Option<i64>, now: i64) -> Seq<char> {
    match last_active {
        Some(ts) => age_text(age_secs(ts as int, now as int)),
        None => seq!['\u{2014}'],
    }
}

/// An activity in the future is labelled `0s`, one in the past by how long
/// ago it was (held to `i64::MAX` seconds), and an unknown one by a dash.
pub proof fn lemma_age_label(last_active: Option<i64>, now: i64)
    ensures
        last_active is None ==> age_label_text(last_active, now) == seq!['\u{2014}'],
        last_active is Some && last_active->0 >= now ==> age_label_text(last_active, now) == seq![
            '0',
            's',
        ],
        last_active is Some && last_active->0 <= now && now - last_active->0 <= i64::MAX
            ==> age_label_text(last_active, now) == age_text((now - last_active->0) as nat),
{
    if let Some(ts) = last_active {
        if ts >= now {
            assert(age_text(0) == seq!['0', 's']) by {
                assert(dec(0) == seq![crate::text::digit(0)]);
                assert(crate::text::digit(0) == '0');
            }
        }
    }
}

/// Labels the last activity of a worktree at time `now`.
pub fn age_label(last_active: Option<i64>, now: i64) -> (s: String)
    ensures
        s@ == age_label_text(last_active, now),
{
    match last_active {
        Some(ts) => {
            let diff: i128 = now as i128 - ts as i128;
            let secs: u64 = if diff < 0 {
                0
            } else if diff > i64::MAX as i128 {
                i64::MAX as u64
            } else {
                diff as u64
            };
            format_age(secs)
        },
        None => {
            let mut s = String::new();
            push_char(&mut s, '\u{2014}');
            s
        },
    }
}

/// The year, month and day of day `days_since_epoch` after 1970-01-01; the year
/// is cut to 32 bits as an `i32` cast does.
pub fn civil_from_days(days_since_epoch: i64) -> (r: (i32, u32, u32))
    requires
        days_since_epoch <= i64::MAX - 719468,
    ensures
        r.0 == civil_date(days_since_epoch as int).0 as i32,
        r.1 == civil_date(days_since_epoch as int).1,
        r.2 == civil_date(days_since_epoch as int).2,
{
    proof {
        lemma_civil_date(days_since_epoch as int);
    }
    let z: i64 = days_since_epoch + 719_468;
    let era: i64 = match z.checked_div_euclid(146_097) {
        Some(e) => e,
        None => 0,
    };
    proof {
        vstd::arithmetic::div_mod::lemma_fundamental_div_mod(z as int, 146097);
    }
    let doe: u64 = (z - era * 146_097) as u64;
    assert(doe == (z as int) % 146097);
    let yoe: u64 = (doe - doe / 1_460 + doe / 36_524 - doe / 146_096) / 365;
    let y: i64 = yoe as i64 + era * 400;
    let doy: u64 = doe - (365 * yoe + yoe / 4 - yoe / 100);
    proof {
        lemma_civil_parts(days_since_epoch as int);
    }
    let mp: u64 = (5 * doy + 2) / 153;
    let d: u64 = doy - (153 * mp + 2) / 5 + 1;
    let m: u64 = if mp < 10 {
        mp + 3
    } else {
        mp - 9
    };
    let y: i64 = if m <= 2 {
        y + 1
    } else {
        y
    };
    (y as i32, m as u32, d as u32)
}


/// `YYYY-MM-DD hh:mm:ssZ` for a timestamp in seconds since 1970-01-01 UTC: the
/// year is the 32-bit year, zero-padded to four places with the sign counting,
/// and the other fields are zero-padded to two.
pub open spec fn utc_text(ts: int) -> Seq<char> {
    let days = ts / 86400;
    let tod = ts % 86400;
    let date = civil_date(days);
    signed_padded((date.0 as i32) as int, 4) + seq!['-'] + padded(dec(date.1 as nat), 2) + seq![
        '-',
    ] + padded(dec(date.2 as nat), 2) + seq![' '] + padded(dec((tod / 3600) as nat), 2) + seq![
        ':',
    ] + padded(dec(((tod % 3600) / 60) as nat), 2) + seq![':'] + padded(dec((tod % 60) as nat), 2)
        + seq!['Z']
}

/// Formats a timestamp as a UTC date and time, such as `1970-01-02 00:00:00Z`.
pub fn format_utc(ts: i64) -> (s: String)
    ensures
        s@ == utc_text(ts as int),
{
    let days: i64 = match ts.checked_div_euclid(86_400) {
        Some(q) => q,
        None => 0,
    };
    let tod: u32 = match ts.checked_rem_euclid(86_400) {
        Some(r) => r as u32,
        None => 0,
    };
    let (y, m, d) = civil_from_days(days);
    let h = tod / 3_600;
    let min = (tod % 3_600) / 60;
    let sec = tod % 60;
    let mut out = String::new();
    push_signed_padded(&mut out, y as i64, 4);
    push_char(&mut out, '-');
    push_padded(&mut out, m as u64, 2);
    push_char(&mut out, '-');
    push_padded(&mut out, d as u64, 2);
    push_char(&mut out, ' ');
    push_padded(&mut out, h as u64, 2);
    push_char(&mut out, ':');
    push_padded(&mut out, min as u64, 2);
    push_char(&mut out, ':');
    push_padded(&mut out, sec as u64, 2);
    push_char(&mut out, 'Z');
    out
}


/// Why a duration could not be read.
#[derive(Debug, PartialEq, Eq)]
pub enum DurationError {
    /// The text does not begin with a digit.
    NoNumber,
    /// The digits make a number beyond `i64::MAX`; the digits are kept.
    BadNumber(String),
    /// The text after the digits is no known unit; that text is kept.
    UnknownUnit(String),
}

impl DurationError {
    /// The message shown for the error.
    pub fn message(&self) -> (s: String)
        ensures
            s@ == match self {
                DurationError::NoNumber => "duration must start with a number, for example 14d, 48h, 2w"@,
                DurationError::BadNumber(num) => "cannot parse number "@ + num@,
                DurationError::UnknownUnit(unit) => "unknown unit "@ + unit@
                    + "; use s, m, h, d, or w"@,
            },
    {
        let mut out = String::new();
        match self {
            DurationError::NoNumber => {
                push_str(&mut out, "duration must start with a number, for example 14d, 48h, 2w");
            },
            DurationError::BadNumber(num) => {
                push_str(&mut out, "cannot parse number ");
                push_str(&mut out, num.as_str());
            },
            DurationError::UnknownUnit(unit) => {
                push_str(&mut out, "unknown unit ");
                push_str(&mut out, unit.as_str());
                push_str(&mut out, "; use s, m, h, d, or w");
            },
        }
        out
    }
}

/// The seconds in one of each unit: none or `s`, `m`, `h`, `d`, `w`.
pub open spec fn unit_seconds(unit: Seq<char>) -> Option<int> {
    if unit.len() == 0 {
        Some(1)
    } else if unit.len() != 1 {
        None
    } else if unit[0] == 's' {
        Some(1)
    } else if unit[0] == 'm' {
        Some(60)
    } else if unit[0] == 'h' {
        Some(3600)
    } else if unit[0] == 'd' {
        Some(86400)
    } else if unit[0] == 'w' {
        Some(604800)
    } else {
        None
    }
}

/// What reading `raw` as a duration gives: after trimming whitespace, a number
/// then a unit; the seconds are capped at `i64::MAX`.
pub open spec fn duration_result(raw: Seq<char>) -> Result<i64, DurationError> {
    let s = trim(raw);
    let split = digits_len(s);
    let num = s.subrange(0, split as int);
    let unit = s.subrange(split as int, s.len() as int);
    if split == 0 {
        Err(DurationError::NoNumber)
    } else if digits_value(num) > i64::MAX {
        Err(DurationError::BadNumber(arbitrary()))
    } else {
        match unit_seconds(unit) {
            None => Err(DurationError::UnknownUnit(arbitrary())),
            Some(mult) => Ok(
                if digits_value(num) * mult > i64::MAX {
                    i64::MAX
                } else {
                    (digits_value(num) * mult) as i64
                },
            ),
        }
    }
}

/// The digits and the unit of a trimmed duration text.
pub open spec fn duration_parts(raw: Seq<char>) -> (Seq<char>, Seq<char>) {
    let s = trim(raw);
    let split = digits_len(s);
    (s.subrange(0, split as int), s.subrange(split as int, s.len() as int))
}

/// Reads a duration such as `14d`, `48h` or `2w` into seconds. The number is
/// decimal digits, the unit one of `s`, `m`, `h`, `d`, `w` or nothing (seconds);
/// whitespace around the text is ignored; a product beyond `i64::MAX` is capped.
pub fn parse_duration(raw: &str) -> (r: Result<i64, DurationError>)
    ensures
        match (r, duration_result(raw@)) {
            (Ok(a), Ok(b)) => a == b,
            (Err(DurationError::NoNumber), Err(DurationError::NoNumber)) => true,
            (Err(DurationError::BadNumber(num)), Err(DurationError::BadNumber(_))) => num@
                == duration_parts(raw@).0,
            (Err(DurationError::UnknownUnit(unit)), Err(DurationError::UnknownUnit(_))) => unit@
                == duration_parts(raw@).1,
            _ => false,
        },
{
    let v = chars_of(raw);
    let (start, end) = trim_bounds(&v);
    let ghost s = v@.subrange(start as int, end as int);
    let mut i: usize = start;
    let mut value: u128 = 0;
    let mut over = false;
    while i < end && '0' <= v[i] && v[i] <= '9'
        invariant
            start <= i <= end <= v@.len(),
            s == v@.subrange(start as int, end as int),
            forall|j: int| 0 <= j < i - start ==> is_digit(#[trigger] s[j]),
            over <==> digits_value(s.subrange(0, i - start)) > i64::MAX,
            !over ==> value == digits_value(s.subrange(0, i - start)),
        decreases end - i,
    {
        let ghost prev = s.subrange(0, i - start);
        let c = v[i];
        assert(s.subrange(0, i + 1 - start).drop_last() == prev);
        assert(s.subrange(0, i + 1 - start).last() == c);
        if !over {
            value = value * 10 + (c as u32 - 48) as u128;
            if value > i64::MAX as u128 {
                over = true;
            }
        }
        i = i + 1;
    }
    proof {
        lemma_digits_len_prefix(s, i - start);
        assert(s.subrange(0, i - start) == duration_parts(raw@).0);
        assert(s.subrange(i - start, s.len() as int) == duration_parts(raw@).1);
    }
    if i == start {
        return Err(DurationError::NoNumber);
    }
    if over {
        return Err(DurationError::BadNumber(string_of_range(&v, start, i)));
    }
    let n: i64 = value as i64;
    let ulen = end - i;
    let ghost unit = v@.subrange(i as int, end as int);
    assert(unit == duration_parts(raw@).1);
    assert(ulen == 1 ==> unit[0] == v@[i as int]);
    assert(value == digits_value(duration_parts(raw@).0));
    let mult: i64 = if ulen == 0 {
        1
    } else if ulen == 1 && v[i] == 's' {
        1
    } else if ulen == 1 && v[i] == 'm' {
        60
    } else if ulen == 1 && v[i] == 'h' {
        3_600
    } else if ulen == 1 && v[i] == 'd' {
        86_400
    } else if ulen == 1 && v[i] == 'w' {
        86_400 * 7
    } else {
        return Err(DurationError::UnknownUnit(string_of_range(&v, i, end)));
    };
    assert(0 <= n <= i64::MAX && 1 <= mult <= 604800);
    assert(n * mult <= i64::MAX * 604800) by (nonlinear_arith)
        requires
            0 <= n <= i64::MAX,
            1 <= mult <= 604800,
    ;
    let product: i128 = n as i128 * mult as i128;
    if product > i64::MAX as i128 {
        Ok(i64::MAX)
    } else {
        Ok(product as i64)
    }
}

} // verus!
