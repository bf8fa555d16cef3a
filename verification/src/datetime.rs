//! TOML (RFC 3339) dates and times, and a hand-written parser for them.
use vstd::prelude::*;
use vstd::string::*;
use vstd::utf8::*;
use crate::error::{decimal, decimal_string, digit_char};

verus! {

broadcast use vstd::string::group_string_axioms;

#[derive(Debug, PartialEq, Clone)]
pub struct Date {
    pub year: u16,
    pub month: u8,
    pub day: u8,
}

#[derive(Debug, PartialEq, Clone)]
pub struct Time {
    pub hour: u8,
    pub minute: u8,
    pub second: u8,
    pub microsecond: u32,
}

#[derive(Debug, PartialEq, Clone)]
pub struct Offset {
    pub sign: i8,  // 1 for +, -1 for -
    pub hour: u8,
    pub minute: u8,
}

#[derive(Debug, PartialEq, Clone)]
pub enum Datetime {
    OffsetDateTime { date: Date, time: Time, offset: Offset },
    LocalDateTime { date: Date, time: Time },
    LocalDate(Date),
    LocalTime(Time),
}

const COLON: u8 = 58;
const DASH: u8 = 45;
const DOT: u8 = 46;
const ZERO: u8 = 48;
const NINE: u8 = 57;
const UPPER_T: u8 = 84;
const LOWER_T: u8 = 116;
const SPACE: u8 = 32;
const UPPER_Z: u8 = 90;
const LOWER_Z: u8 = 122;
const PLUS: u8 = 43;

/// An ASCII decimal digit.
pub open spec fn is_digit(b: u8) -> bool {
    48 <= b <= 57
}

/// The decimal value of `b`, when every byte of it is a digit.
pub open spec fn digits_value(b: Seq<u8>) -> Option<int>
    decreases b.len(),
{
    if b.len() == 0 {
        Some(0)
    } else if !is_digit(b.last()) {
        None
    } else {
        match digits_value(b.drop_last()) {
            Some(v) => Some(10 * v + (b.last() - 48)),
            None => None,
        }
    }
}

/// 10 to the power `k`.
pub open spec fn pow10(k: nat) -> int
    decreases k,
{
    if k == 0 {
        1
    } else {
        10 * pow10((k - 1) as nat)
    }
}

/// The first `n` bytes of a fraction, read as millionths: byte `i` weighs `10^(5 - i)`.
pub open spec fn fraction_value(f: Seq<u8>, n: nat) -> int
    decreases n,
{
    if n == 0 {
        0
    } else {
        fraction_value(f, (n - 1) as nat) + (f[n - 1] - 48) * pow10((6 - n) as nat)
    }
}

/// The microseconds of a fraction: its first six bytes (fewer if it is shorter).
pub open spec fn fraction_micros(f: Seq<u8>) -> int {
    fraction_value(
        f,
        if f.len() < 6 {
            f.len()
        } else {
            6
        },
    )
}

/// Every byte is an ASCII decimal digit.
pub open spec fn all_digits(b: Seq<u8>) -> bool {
    forall|i: int| 0 <= i < b.len() ==> is_digit(#[trigger] b[i])
}

/// `HH:MM:SS` at the start of `b`, with digits in each field, an hour of at
/// most 23 and a minute and second of at most 59.
pub open spec fn time_fields_ok(b: Seq<u8>) -> bool {
    &&& b.len() >= 8
    &&& b[2] == 58
    &&& b[5] == 58
    &&& digits_value(b.subrange(0, 2)) is Some
    &&& digits_value(b.subrange(3, 5)) is Some
    &&& digits_value(b.subrange(6, 8)) is Some
    &&& digits_value(b.subrange(0, 2))->0 <= 23
    &&& digits_value(b.subrange(3, 5))->0 <= 59
    &&& digits_value(b.subrange(6, 8))->0 <= 59
}

/// The time that `b` is, all of it: `HH:MM:SS`, optionally followed by a dot
/// and one or more digits; the first six digits of the fraction give the
/// microseconds.
pub open spec fn time_spec(b: Seq<u8>) -> Option<Time> {
    if !time_fields_ok(b) {
        None
    } else if b.len() > 8 && !(b[8] == 46 && b.len() > 9 && all_digits(b.skip(9))) {
        None
    } else {
        Some(
            Time {
                hour: digits_value(b.subrange(0, 2))->0 as u8,
                minute: digits_value(b.subrange(3, 5))->0 as u8,
                second: digits_value(b.subrange(6, 8))->0 as u8,
                microsecond: if b.len() > 8 {
                    fraction_micros(b.skip(9)) as u32
                } else {
                    0
                },
            },
        )
    }
}

/// Number of leading ASCII digits.
pub open spec fn digit_run(b: Seq<u8>) -> nat
    decreases b.len(),
{
    if b.len() > 0 && is_digit(b[0]) {
        1 + digit_run(b.drop_first())
    } else {
        0
    }
}

/// Where the time of a date-time ends in `rem` (which holds at least 8 bytes):
/// after the seconds, or after a dot and the digits that follow it.
pub open spec fn time_end(rem: Seq<u8>) -> int {
    if rem.len() > 8 && rem[8] == 46 {
        9 + digit_run(rem.skip(9)) as int
    } else {
        8
    }
}

/// Whether `y` is a leap year of the Gregorian calendar.
pub open spec fn is_leap_year(y: int) -> bool {
    y % 4 == 0 && (y % 100 != 0 || y % 400 == 0)
}

/// The number of days of month `m` (1 to 12) of year `y`.
pub open spec fn days_in_month(y: int, m: int) -> int {
    if m == 2 {
        if is_leap_year(y) {
            29
        } else {
            28
        }
    } else if m == 4 || m == 6 || m == 9 || m == 11 {
        30
    } else {
        31
    }
}

/// The date `YYYY-MM-DD` at the start of `b` (which holds at least 10 bytes):
/// digits in each field, a month from 1 to 12 and a day that the month has.
pub open spec fn date_spec(b: Seq<u8>) -> Option<Date> {
    match (
        digits_value(b.subrange(0, 4)),
        digits_value(b.subrange(5, 7)),
        digits_value(b.subrange(8, 10)),
    ) {
        (Some(y), Some(m), Some(d)) => if 1 <= m <= 12 && 1 <= d <= days_in_month(y, m) {
            Some(Date { year: y as u16, month: m as u8, day: d as u8 })
        } else {
            None
        },
        _ => None,
    }
}

/// The offset that ends a date-time, all of `after`: `Z` or `z` for UTC, or
/// `+HH:MM` / `-HH:MM` with an hour of at most 23 and a minute of at most 59.
pub open spec fn offset_spec(after: Seq<u8>) -> Option<Offset> {
    if after.len() == 1 && (after[0] == 90 || after[0] == 122) {
        Some(Offset { sign: 1, hour: 0, minute: 0 })
    } else if after.len() == 6 && (after[0] == 43 || after[0] == 45) && after[3] == 58 {
        match (digits_value(after.subrange(1, 3)), digits_value(after.subrange(4, 6))) {
            (Some(h), Some(m)) => if h <= 23 && m <= 59 {
                Some(
                    Offset {
                        sign: if after[0] == 43 {
                            1i8
                        } else {
                            -1i8
                        },
                        hour: h as u8,
                        minute: m as u8,
                    },
                )
            } else {
                None
            },
            _ => None,
        }
    } else {
        None
    }
}

/// The datetime that `b` spells: a local time when `b` starts with one;
/// otherwise a date, alone or followed by `T`, `t` or a space, a time, and
/// optionally an offset.
pub open spec fn datetime_spec(b: Seq<u8>) -> Option<Datetime> {
    if b.len() >= 8 && b[2] == 58 && time_spec(b) is Some {
        Some(Datetime::LocalTime(time_spec(b)->0))
    } else if b.len() < 10 || b[4] != 45 || b[7] != 45 {
        None
    } else {
        match date_spec(b) {
            None => None,
            Some(date) => {
                if b.len() == 10 {
                    Some(Datetime::LocalDate(date))
                } else if !(b[10] == 84 || b[10] == 116 || b[10] == 32) {
                    None
                } else {
                    let rem = b.skip(11);
                    if rem.len() < 8 {
                        None
                    } else {
                        let te = time_end(rem);
                        match time_spec(rem.take(te)) {
                            None => None,
                            Some(time) => {
                                let after = rem.skip(te);
                                if after.len() == 0 {
                                    Some(Datetime::LocalDateTime { date, time })
                                } else {
                                    match offset_spec(after) {
                                        Some(offset) => Some(
                                            Datetime::OffsetDateTime { date, time, offset },
                                        ),
                                        None => None,
                                    }
                                }
                            },
                        }
                    }
                }
            },
        }
    }
}

impl Datetime {
    /// Reads an RFC 3339 datetime as TOML writes it, from the bytes of `s`: a
    /// local time, a local date, a date and time joined by `T`, `t` or a
    /// space, or such a date-time followed by an offset; all of `s` must be
    /// used, and every field must be in range.
    pub fn parse(s: &str) -> (res: Option<Self>)
        ensures
            res == datetime_spec(s.spec_bytes()),
    {
        let bytes = s.as_bytes();
        // Try parsing as Local Time first
        if bytes.len() >= 8 && bytes[2] == COLON {
            if let Some(time) = parse_time(bytes) {
                return Some(Datetime::LocalTime(time));
            }
        }
        // Must start with a Date (YYYY-MM-DD)

        if bytes.len() < 10 || bytes[4] != DASH || bytes[7] != DASH {
            return None;
        }
        let year = match parse_digits(&bytes[0..4]) {
            Some(v) => v,
            None => {
                return None;
            },
        };
        let month = match parse_digits(&bytes[5..7]) {
            Some(v) => v,
            None => {
                return None;
            },
        };
        let day = match parse_digits(&bytes[8..10]) {
            Some(v) => v,
            None => {
                return None;
            },
        };
        if month < 1 || month > 12 || day < 1 || day > days_in(year, month) {
            return None;
        }
        let date = Date { year: year as u16, month: month as u8, day: day as u8 };
        if bytes.len() == 10 {
            return Some(Datetime::LocalDate(date));
        }
        let sep = bytes[10];
        if sep != UPPER_T && sep != LOWER_T && sep != SPACE {
            return None;
        }
        // Parse time part

        let rem = &bytes[11..bytes.len()];
        if rem.len() < 8 {
            return None;
        }
        let mut time_end: usize = 8;
        if rem.len() > 8 && rem[8] == DOT {
            time_end += 1;
            while time_end < rem.len() && rem[time_end] >= ZERO && rem[time_end] <= NINE
                invariant
                    9 <= time_end <= rem@.len(),
                    rem@.len() > 8,
                    rem@[8] == 46,
                    digit_run(rem@.skip(9)) == (time_end - 9) + digit_run(rem@.skip(time_end as int)),
                    forall|i: int| 9 <= i < time_end ==> is_digit(#[trigger] rem@[i]),
                decreases rem@.len() - time_end,
            {
                proof {
                    assert(rem@.skip(time_end as int).drop_first() =~= rem@.skip(time_end + 1));
                }
                time_end += 1;
            }
            proof {
                if time_end < rem@.len() {
                    assert(rem@.skip(time_end as int)[0] == rem@[time_end as int]);
                }
            }
        }
        proof {
            assert(time_end == time_end_of(rem@));
            assert(rem@.take(time_end as int) =~= rem@.subrange(0, time_end as int));
        }
        let time = match parse_time(&rem[0..time_end]) {
            Some(t) => t,
            None => {
                return None;
            },
        };
        let after_time = &rem[time_end..rem.len()];
        if after_time.len() == 0 {
            return Some(Datetime::LocalDateTime { date, time });
        }
        // Parse Offset

        if after_time.len() == 1 && (after_time[0] == UPPER_Z || after_time[0] == LOWER_Z) {
            return Some(
                Datetime::OffsetDateTime { date, time, offset: Offset { sign: 1, hour: 0, minute: 0 } },
            );
        }
        if after_time.len() == 6 && (after_time[0] == PLUS || after_time[0] == DASH)
            && after_time[3] == COLON {
            let sign: i8 = if after_time[0] == PLUS {
                1
            } else {
                -1
            };
            let hour = match parse_digits(&after_time[1..3]) {
                Some(v) => v,
                None => {
                    return None;
                },
            };
            let minute = match parse_digits(&after_time[4..6]) {
                Some(v) => v,
                None => {
                    return None;
                },
            };
            if hour > 23 || minute > 59 {
                return None;
            }
            return Some(
                Datetime::OffsetDateTime {
                    date,
                    time,
                    offset: Offset { sign, hour: hour as u8, minute: minute as u8 },
                },
            );
        }
        None
    }
}

/// `time_end`, restated for the proof of the parser.
spec fn time_end_of(rem: Seq<u8>) -> int {
    time_end(rem)
}

/// The number of days of month `month` (1 to 12) of `year`.
fn days_in(year: u32, month: u32) -> (d: u32)
    requires
        1 <= month <= 12,
    ensures
        d == days_in_month(year as int, month as int),
{
    if month == 2 {
        if year % 4 == 0 && (year % 100 != 0 || year % 400 == 0) {
            29
        } else {
            28
        }
    } else if month == 4 || month == 6 || month == 9 || month == 11 {
        30
    } else {
        31
    }
}

/// Reads all of `bytes` as a time (see `time_spec`).
fn parse_time(bytes: &[u8]) -> (t: Option<Time>)
    ensures
        t == time_spec(bytes@),
{
    if bytes.len() < 8 || bytes[2] != COLON || bytes[5] != COLON {
        return None;
    }
    let hour = match parse_digits(&bytes[0..2]) {
        Some(v) => v,
        None => {
            return None;
        },
    };
    let minute = match parse_digits(&bytes[3..5]) {
        Some(v) => v,
        None => {
            return None;
        },
    };
    let second = match parse_digits(&bytes[6..8]) {
        Some(v) => v,
        None => {
            return None;
        },
    };
    if hour > 23 || minute > 59 || second > 59 {
        return None;
    }
    let mut microsecond: u32 = 0;
    if bytes.len() > 8 {
        if bytes[8] != DOT || bytes.len() == 9 {
            return None;
        }
        let frac = &bytes[9..bytes.len()];
        let ghost f = frac@;
        let mut val: u32 = 0;
        let mut multiplier: u32 = 100_000;
        let mut i: usize = 0;
        proof {
            lemma_pow10_steps();
        }
        while i < frac.len()
            invariant
                f == frac@,
                f == bytes@.skip(9),
                time_fields_ok(bytes@),
                bytes@.len() > 9,
                bytes@[8] == 46,
                0 <= i <= f.len(),
                forall|k: int| 0 <= k < i ==> is_digit(#[trigger] f[k]),
                val == fraction_value(f, if i < 6 { i as nat } else { 6 }),
                i < 6 ==> multiplier == pow10((5 - i) as nat),
                val < 1_000_000,
            decreases f.len() - i,
        {
            let b = frac[i];
            if b < ZERO || b > NINE {
                proof {
                    assert(f[i as int] == b);
                    assert(!is_digit(f[i as int]));
                    assert(!all_digits(bytes@.skip(9)));
                    assert(time_fields_ok(bytes@));
                }
                return None;
            }
            if i < 6 {
                proof {
                    lemma_pow10_steps();
                    lemma_pow10_bound((5 - i) as nat);
                    lemma_fraction_bound(f, i as nat);
                    assert(pow10((6 - (i + 1)) as nat) == multiplier);
                    assert((b - 48) * multiplier <= 9 * multiplier) by (nonlinear_arith)
                        requires
                            b <= 57,
                            b >= 48,
                    ;
                }
                val += (b - ZERO) as u32 * multiplier;
                multiplier /= 10;
                proof {
                    if i + 1 < 6 {
                        assert(pow10((5 - i) as nat) == 10 * pow10((5 - (i + 1)) as nat));
                    }
                    lemma_fraction_bound(f, (i + 1) as nat);
                }
            }
            i += 1;
        }
        proof {
            assert(all_digits(bytes@.skip(9)));
        }
        microsecond = val;
    }
    Some(Time { hour: hour as u8, minute: minute as u8, second: second as u8, microsecond })
}

/// The first `n` fraction digits read as millionths stay below a million.
proof fn lemma_fraction_bound(f: Seq<u8>, n: nat)
    requires
        n <= 6,
        n <= f.len(),
        forall|k: int| 0 <= k < n ==> is_digit(#[trigger] f[k]),
    ensures
        0 <= fraction_value(f, n) <= 1_000_000 - pow10((6 - n) as nat),
    decreases n,
{
    lemma_pow10_steps();
    if n > 0 {
        lemma_fraction_bound(f, (n - 1) as nat);
        let p = pow10((6 - n) as nat);
        assert(pow10((6 - (n - 1)) as nat) == 10 * p);
        let x = f[n - 1] - 48;
        assert(0 <= x * p <= 9 * p) by (nonlinear_arith)
            requires
                0 <= x <= 9,
                p >= 0,
        ;
    }
}

/// The powers of ten that the fraction weighs its digits by.
proof fn lemma_pow10_steps()
    ensures
        pow10(0) == 1,
        pow10(1) == 10,
        pow10(2) == 100,
        pow10(3) == 1000,
        pow10(4) == 10000,
        pow10(5) == 100000,
        pow10(6) == 1000000,
        pow10(7) == 10000000,
        pow10(8) == 100000000,
{
    reveal_with_fuel(pow10, 9);
}

fn parse_digits(bytes: &[u8]) -> (v: Option<u32>)
    requires
        bytes@.len() <= 9,
    ensures
        match v {
            Some(n) => digits_value(bytes@) == Some(n as int),
            None => digits_value(bytes@) is None,
        },
{
    let mut acc: u32 = 0;
    let mut i: usize = 0;
    while i < bytes.len()
        invariant
            0 <= i <= bytes@.len() <= 9,
            digits_value(bytes@.take(i as int)) == Some(acc as int),
            acc < pow10(i as nat),
        decreases bytes@.len() - i,
    {
        let b = bytes[i];
        proof {
            assert(bytes@.take(i + 1).drop_last() =~= bytes@.take(i as int));
            assert(bytes@.take(i + 1).last() == b);
        }
        if b >= ZERO && b <= NINE {
            proof {
                lemma_pow10_steps();
                lemma_pow10_bound(i as nat);
            }
            acc = acc * 10 + (b - ZERO) as u32;
        } else {
            proof {
                lemma_digits_prefix_none(bytes@, i as int);
            }
            return None;
        }
        i += 1;
    }
    proof {
        assert(bytes@.take(i as int) =~= bytes@);
    }
    Some(acc)
}

/// A prefix that is not all digits makes the whole not all digits.
proof fn lemma_digits_prefix_none(b: Seq<u8>, i: int)
    requires
        0 <= i < b.len(),
        !is_digit(b[i]),
    ensures
        digits_value(b) is None,
    decreases b.len(),
{
    if i < b.len() - 1 {
        assert(b.drop_last()[i] == b[i]);
        lemma_digits_prefix_none(b.drop_last(), i);
    }
}

/// Powers of ten up to the ninth fit below `u32::MAX / 10`.
proof fn lemma_pow10_bound(i: nat)
    requires
        i <= 8,
    ensures
        pow10(i) <= 100_000_000,
        pow10(i) > 0,
{
    lemma_pow10_steps();
    assert(i == 0 || i == 1 || i == 2 || i == 3 || i == 4 || i == 5 || i == 6 || i == 7 || i
        == 8);
}

/// `n` in decimal, left-padded with zeros to at least `width` characters
/// (the `{:0width}` format of an unsigned integer).
pub open spec fn zero_padded(n: nat, width: nat) -> Seq<char> {
    if decimal(n).len() < width {
        Seq::new((width - decimal(n).len()) as nat, |i: int| '0') + decimal(n)
    } else {
        decimal(n)
    }
}

/// `YYYY-MM-DD`.
pub open spec fn date_text(d: Date) -> Seq<char> {
    zero_padded(d.year as nat, 4) + seq!['-'] + zero_padded(d.month as nat, 2) + seq!['-']
        + zero_padded(d.day as nat, 2)
}

/// `HH:MM:SS.ffffff`, the fraction in microseconds.
pub open spec fn time_text(t: Time) -> Seq<char> {
    zero_padded(t.hour as nat, 2) + seq![':'] + zero_padded(t.minute as nat, 2) + seq![':']
        + zero_padded(t.second as nat, 2) + seq!['.'] + zero_padded(t.microsecond as nat, 6)
}

/// `+HH:MM` for a sign of zero or more, `-HH:MM` below zero.
pub open spec fn offset_text(o: Offset) -> Seq<char> {
    seq![
        if o.sign >= 0 {
            '+'
        } else {
            '-'
        },
    ] + zero_padded(o.hour as nat, 2) + seq![':'] + zero_padded(o.minute as nat, 2)
}

/// The text of a datetime: date and time joined by `T`, followed by the
/// offset when it has one.
pub open spec fn datetime_text(dt: Datetime) -> Seq<char> {
    match dt {
        Datetime::OffsetDateTime { date, time, offset } => date_text(date) + seq!['T'] + time_text(
            time,
        ) + offset_text(offset),
        Datetime::LocalDateTime { date, time } => date_text(date) + seq!['T'] + time_text(time),
        Datetime::LocalDate(date) => date_text(date),
        Datetime::LocalTime(time) => time_text(time),
    }
}

impl Datetime {
    /// The datetime as text: `YYYY-MM-DD`, `HH:MM:SS.ffffff`, the two joined
    /// by `T`, and an offset `+HH:MM` or `-HH:MM` after them when there is one.
    pub fn to_text(&self) -> (s: String)
        ensures
            s@ == datetime_text(*self),
    {
        proof {
            reveal_strlit("T");
        }
        match self {
            Datetime::OffsetDateTime { date, time, offset } => {
                let mut s = date_string(date);
                push_literal(&mut s, "T");
                let t = time_string(time);
                s.append(t.as_str());
                let o = offset_string(offset);
                s.append(o.as_str());
                assert(s@ =~= datetime_text(*self));
                s
            },
            Datetime::LocalDateTime { date, time } => {
                let mut s = date_string(date);
                push_literal(&mut s, "T");
                let t = time_string(time);
                s.append(t.as_str());
                assert(s@ =~= datetime_text(*self));
                s
            },
            Datetime::LocalDate(date) => date_string(date),
            Datetime::LocalTime(time) => time_string(time),
        }
    }
}

/// Appends a one-character literal.
fn push_literal(s: &mut String, lit: &str)
    requires
        lit@.len() == 1,
    ensures
        final(s)@ == old(s)@ + lit@,
{
    s.append(lit);
}

/// `n` in decimal, left-padded with zeros to `width` characters.
fn zero_padded_string(n: usize, width: usize) -> (s: String)
    ensures
        s@ == zero_padded(n as nat, width as nat),
{
    let digits = decimal_string(n);
    let len = digits.as_str().unicode_len();
    let mut s = String::new();
    let mut k: usize = len;
    proof {
        reveal_strlit("0");
    }
    while k < width
        invariant
            len == digits@.len(),
            len <= k,
            k <= width || k == len,
            s@ =~= Seq::new((k - len) as nat, |i: int| '0'),
        decreases width - k,
    {
        proof {
            reveal_strlit("0");
        }
        s.append("0");
        assert(s@ =~= Seq::new((k + 1 - len) as nat, |i: int| '0'));
        k += 1;
    }
    s.append(digits.as_str());
    s
}

fn date_string(d: &Date) -> (s: String)
    ensures
        s@ == date_text(*d),
{
    proof {
        reveal_strlit("-");
    }
    let mut s = zero_padded_string(d.year as usize, 4);
    push_literal(&mut s, "-");
    let m = zero_padded_string(d.month as usize, 2);
    s.append(m.as_str());
    push_literal(&mut s, "-");
    let day = zero_padded_string(d.day as usize, 2);
    s.append(day.as_str());
    s
}

fn time_string(t: &Time) -> (s: String)
    ensures
        s@ == time_text(*t),
{
    proof {
        reveal_strlit(":");
        reveal_strlit(".");
    }
    let mut s = zero_padded_string(t.hour as usize, 2);
    push_literal(&mut s, ":");
    let m = zero_padded_string(t.minute as usize, 2);
    s.append(m.as_str());
    push_literal(&mut s, ":");
    let sec = zero_padded_string(t.second as usize, 2);
    s.append(sec.as_str());
    push_literal(&mut s, ".");
    let f = zero_padded_string(t.microsecond as usize, 6);
    s.append(f.as_str());
    s
}

fn offset_string(o: &Offset) -> (s: String)
    ensures
        s@ == offset_text(*o),
{
    proof {
        reveal_strlit("+");
        reveal_strlit("-");
        reveal_strlit(":");
    }
    let mut s = String::new();
    if o.sign >= 0 {
        push_literal(&mut s, "+");
    } else {
        push_literal(&mut s, "-");
    }
    let h = zero_padded_string(o.hour as usize, 2);
    s.append(h.as_str());
    push_literal(&mut s, ":");
    let m = zero_padded_string(o.minute as usize, 2);
    s.append(m.as_str());
    s
}

/// A valid datetime whose text the parser reads back: a year of at most four
/// digits, a month from 1 to 12, a day that the month has, an hour of at most
/// 23, minutes and seconds of at most 59, microseconds of at most six digits,
/// and an offset of sign 1 or -1 with an hour of at most 23 and minutes of at
/// most 59.
pub open spec fn fits_text(dt: Datetime) -> bool {
    match dt {
        Datetime::OffsetDateTime { date, time, offset } => date_fits(date) && time_fits(time)
            && offset_fits(offset),
        Datetime::LocalDateTime { date, time } => date_fits(date) && time_fits(time),
        Datetime::LocalDate(date) => date_fits(date),
        Datetime::LocalTime(time) => time_fits(time),
    }
}

pub open spec fn date_fits(d: Date) -> bool {
    d.year <= 9999 && 1 <= d.month <= 12 && 1 <= d.day <= days_in_month(d.year as int, d.month as int)
}

pub open spec fn time_fits(t: Time) -> bool {
    t.hour <= 23 && t.minute <= 59 && t.second <= 59 && t.microsecond <= 999_999
}

pub open spec fn offset_fits(o: Offset) -> bool {
    (o.sign == 1 || o.sign == -1) && o.hour <= 23 && o.minute <= 59
}

/// Reading back the text of a datetime gives the datetime again, for every
/// valid datetime whose year fits four digits and whose offset sign is 1 or
/// -1: the text is ASCII and reads as the same datetime.
pub proof fn law_text_parses_back(dt: Datetime)
    requires
        fits_text(dt),
    ensures
        is_ascii_chars(datetime_text(dt)),
        datetime_spec(encode_utf8(datetime_text(dt))) == Some(dt),
{
    let t = datetime_text(dt);
    lemma_text_bytes(dt);
    is_ascii_chars_encode_utf8(t);
    assert(encode_utf8(t) =~= ascii_bytes(t));
}

/// The bytes of ASCII text, one per character.
spec fn ascii_bytes(t: Seq<char>) -> Seq<u8> {
    Seq::new(t.len(), |i: int| t[i] as u8)
}

/// Every character is a decimal digit.
spec fn digit_chars(t: Seq<char>) -> bool {
    forall|i: int| 0 <= i < t.len() ==> '0' <= #[trigger] t[i] <= '9'
}

proof fn lemma_ascii_bytes_concat(a: Seq<char>, b: Seq<char>)
    ensures
        ascii_bytes(a + b) =~= ascii_bytes(a) + ascii_bytes(b),
{
}

/// The decimal text of `n` is made of digits and reads back as `n`.
proof fn lemma_decimal_digits(n: nat)
    ensures
        decimal(n).len() >= 1,
        digit_chars(decimal(n)),
        digits_value(ascii_bytes(decimal(n))) == Some(n as int),
    decreases n,
{
    let b = ascii_bytes(decimal(n));
    if n < 10 {
        lemma_digit_char(n as int);
        assert(b.drop_last() =~= Seq::<u8>::empty());
        assert(b.last() == 48 + n);
        assert(digits_value(b) == Some(n as int));
    } else {
        lemma_decimal_digits(n / 10);
        lemma_digit_char((n % 10) as int);
        assert(b.drop_last() =~= ascii_bytes(decimal(n / 10)));
        assert(b.last() == 48 + n % 10);
        assert(is_digit(b.last()));
        assert(digits_value(b.drop_last()) == Some((n / 10) as int));
        assert(digits_value(b) == Some(10 * (n / 10) + (b.last() - 48)));
        assert(n == 10 * (n / 10) + n % 10);
    }
}

/// Below `10^k`, the decimal text of `n` has at most `k` digits.
proof fn lemma_decimal_len(n: nat, k: nat)
    requires
        k >= 1,
        n < pow10(k),
    ensures
        decimal(n).len() <= k,
    decreases k,
{
    if n >= 10 {
        if k == 1 {
            assert(pow10(1) == 10) by {
                reveal_with_fuel(pow10, 2);
            }
        } else {
            assert(pow10(k) == 10 * pow10((k - 1) as nat));
            lemma_decimal_len(n / 10, (k - 1) as nat);
        }
    }
}

/// Zeros read as nothing.
proof fn lemma_zeros_value(z: Seq<u8>)
    requires
        forall|i: int| 0 <= i < z.len() ==> z[i] == 48,
    ensures
        digits_value(z) == Some(0int),
    decreases z.len(),
{
    if z.len() > 0 {
        lemma_zeros_value(z.drop_last());
    }
}

/// Leading zeros do not change what digits read as.
proof fn lemma_leading_zeros(z: Seq<u8>, d: Seq<u8>)
    requires
        forall|i: int| 0 <= i < z.len() ==> z[i] == 48,
    ensures
        digits_value(z + d) == digits_value(d),
    decreases d.len(),
{
    if d.len() == 0 {
        assert(z + d =~= z);
        lemma_zeros_value(z);
    } else {
        assert((z + d).drop_last() =~= z + d.drop_last());
        lemma_leading_zeros(z, d.drop_last());
    }
}

/// A number below `10^w`, padded to `w` places, is `w` digits that read as it.
proof fn lemma_zero_padded(n: nat, w: nat)
    requires
        w >= 1,
        n < pow10(w),
    ensures
        zero_padded(n, w).len() == w,
        digit_chars(zero_padded(n, w)),
        digits_value(ascii_bytes(zero_padded(n, w))) == Some(n as int),
{
    lemma_decimal_digits(n);
    lemma_decimal_len(n, w);
    let d = decimal(n);
    if d.len() < w {
        let z = Seq::new((w - d.len()) as nat, |i: int| '0');
        lemma_ascii_bytes_concat(z, d);
        lemma_leading_zeros(ascii_bytes(z), ascii_bytes(d));
    }
}

/// Each digit of a fraction weighs its power of ten: the first `n` digits
/// read as millionths are their decimal value times `10^(6 - n)`.
proof fn lemma_fraction_digits(f: Seq<u8>, n: nat)
    requires
        n <= 6,
        n <= f.len(),
        forall|i: int| 0 <= i < n ==> is_digit(#[trigger] f[i]),
    ensures
        digits_value(f.take(n as int)) is Some,
        fraction_value(f, n) == digits_value(f.take(n as int))->0 * pow10((6 - n) as nat),
    decreases n,
{
    if n == 0 {
        assert(f.take(0) =~= Seq::<u8>::empty());
        assert(digits_value(f.take(0)) == Some(0int));
        let p0 = pow10(6);
        assert(0 * p0 == 0) by (nonlinear_arith);
        assert(fraction_value(f, 0) == 0);
    } else {
        lemma_fraction_digits(f, (n - 1) as nat);
        assert(f.take(n as int).drop_last() =~= f.take(n - 1));
        let v = digits_value(f.take(n - 1))->0;
        let p = pow10((6 - n) as nat);
        assert(pow10((6 - (n - 1)) as nat) == 10 * p);
        let x = f[n - 1] - 48;
        assert(f.take(n as int).last() == f[n - 1]);
        assert(is_digit(f[n - 1]));
        assert(digits_value(f.take(n as int)) == Some(10 * v + x));
        assert(fraction_value(f, n) == fraction_value(f, (n - 1) as nat) + x * p);
        assert(v * (10 * p) + x * p == (10 * v + x) * p) by (nonlinear_arith);
        assert(fraction_value(f, (n - 1) as nat) == v * (10 * p));
        assert(fraction_value(f, n) == (10 * v + x) * p);
        assert(digits_value(f.take(n as int))->0 == 10 * v + x);
        assert(pow10((6 - n) as nat) == p);
    }
}

/// A run of exactly `k` digits at the start of `s`.
proof fn lemma_digit_run(s: Seq<u8>, k: nat)
    requires
        k <= s.len(),
        forall|i: int| 0 <= i < k ==> is_digit(#[trigger] s[i]),
        k == s.len() || !is_digit(s[k as int]),
    ensures
        digit_run(s) == k,
    decreases k,
{
    if k > 0 {
        assert forall|i: int| 0 <= i < k - 1 implies is_digit(#[trigger] s.drop_first()[i]) by {
            assert(s.drop_first()[i] == s[i + 1]);
        }
        lemma_digit_run(s.drop_first(), (k - 1) as nat);
    }
}

/// Two-digit and six-digit padded numbers, as bytes.
proof fn lemma_padded_bytes(n: nat, w: nat)
    requires
        w == 2 || w == 6 || w == 4,
        n < pow10(w),
    ensures
        ascii_bytes(zero_padded(n, w)).len() == w,
        digits_value(ascii_bytes(zero_padded(n, w))) == Some(n as int),
        forall|i: int|
            0 <= i < w ==> is_digit(#[trigger] ascii_bytes(zero_padded(n, w))[i]),
        is_ascii_chars(zero_padded(n, w)),
{
    lemma_zero_padded(n, w);
    let z = zero_padded(n, w);
    assert forall|i: int| 0 <= i < w implies is_digit(#[trigger] ascii_bytes(z)[i]) by {
        assert('0' <= z[i] <= '9');
    }
}

/// The text of a time, as bytes, followed by `r` (nothing, or bytes that do
/// not start with a digit).
proof fn lemma_time_bytes(t: Time, r: Seq<u8>)
    requires
        time_fits(t),
        r.len() == 0 || !is_digit(r[0]),
    ensures
        ({
            let b = ascii_bytes(time_text(t)) + r;
            &&& time_text(t).len() == 15
            &&& is_ascii_chars(time_text(t))
            &&& b[2] == 58
            &&& time_end(b) == 15
            &&& b.take(15) =~= ascii_bytes(time_text(t))
            &&& b.skip(15) =~= r
            &&& time_spec(ascii_bytes(time_text(t))) == Some(t)
        }),
{
    lemma_pow10_steps();
    let h = zero_padded(t.hour as nat, 2);
    let m = zero_padded(t.minute as nat, 2);
    let sec = zero_padded(t.second as nat, 2);
    let f = zero_padded(t.microsecond as nat, 6);
    lemma_padded_bytes(t.hour as nat, 2);
    lemma_padded_bytes(t.minute as nat, 2);
    lemma_padded_bytes(t.second as nat, 2);
    lemma_padded_bytes(t.microsecond as nat, 6);
    let tt = time_text(t);
    let tb = ascii_bytes(tt);
    let b = tb + r;
    assert(tt.len() == 15);
    assert(is_ascii_chars(tt)) by {
        assert forall|i: int| 0 <= i < tt.len() implies '\0' <= #[trigger] tt[i] <= '\u{7f}' by {
            if i < 2 {
                assert(tt[i] == h[i]);
            } else if 3 <= i < 5 {
                assert(tt[i] == m[i - 3]);
            } else if 6 <= i < 8 {
                assert(tt[i] == sec[i - 6]);
            } else if 9 <= i {
                assert(tt[i] == f[i - 9]);
            }
        }
    }
    assert(tb.subrange(0, 2) =~= ascii_bytes(h));
    assert(tb.subrange(3, 5) =~= ascii_bytes(m));
    assert(tb.subrange(6, 8) =~= ascii_bytes(sec));
    assert(tb.skip(9) =~= ascii_bytes(f));
    assert(tb[2] == 58 && tb[5] == 58 && tb[8] == 46);
    lemma_fraction_digits(ascii_bytes(f), 6);
    assert(ascii_bytes(f).take(6) =~= ascii_bytes(f));
    assert(time_fields_ok(tb));
    assert(all_digits(tb.skip(9)));
    assert(time_spec(tb) == Some(t));
    assert(b.skip(9) =~= ascii_bytes(f) + r);
    lemma_digit_run(b.skip(9), 6);
    assert(b[8] == 46);
}

/// The text of a date, as bytes, followed by `r`.
proof fn lemma_date_bytes(d: Date, r: Seq<u8>)
    requires
        date_fits(d),
    ensures
        ({
            let b = ascii_bytes(date_text(d)) + r;
            &&& date_text(d).len() == 10
            &&& is_ascii_chars(date_text(d))
            &&& is_digit(b[2])
            &&& b[4] == 45
            &&& b[7] == 45
            &&& date_spec(b) == Some(d)
            &&& b.skip(10) =~= r
        }),
{
    lemma_pow10_steps();
    let y = zero_padded(d.year as nat, 4);
    let m = zero_padded(d.month as nat, 2);
    let dd = zero_padded(d.day as nat, 2);
    lemma_padded_bytes(d.year as nat, 4);
    lemma_padded_bytes(d.month as nat, 2);
    lemma_padded_bytes(d.day as nat, 2);
    let tt = date_text(d);
    let b = ascii_bytes(tt) + r;
    assert(tt.len() == 10);
    assert(is_ascii_chars(tt)) by {
        assert forall|i: int| 0 <= i < tt.len() implies '\0' <= #[trigger] tt[i] <= '\u{7f}' by {
            if i < 4 {
                assert(tt[i] == y[i]);
            } else if 5 <= i < 7 {
                assert(tt[i] == m[i - 5]);
            } else if 8 <= i {
                assert(tt[i] == dd[i - 8]);
            }
        }
    }
    assert(b.subrange(0, 4) =~= ascii_bytes(y));
    assert(b.subrange(5, 7) =~= ascii_bytes(m));
    assert(b.subrange(8, 10) =~= ascii_bytes(dd));
    assert(b[2] == ascii_bytes(y)[2]);
}

/// The text of an offset, as bytes.
proof fn lemma_offset_bytes(o: Offset)
    requires
        offset_fits(o),
    ensures
        ({
            let b = ascii_bytes(offset_text(o));
            &&& offset_text(o).len() == 6
            &&& is_ascii_chars(offset_text(o))
            &&& !is_digit(b[0])
            &&& offset_spec(b) == Some(o)
        }),
{
    lemma_pow10_steps();
    let h = zero_padded(o.hour as nat, 2);
    let m = zero_padded(o.minute as nat, 2);
    lemma_padded_bytes(o.hour as nat, 2);
    lemma_padded_bytes(o.minute as nat, 2);
    let tt = offset_text(o);
    let b = ascii_bytes(tt);
    assert(tt.len() == 6);
    assert(is_ascii_chars(tt)) by {
        assert forall|i: int| 0 <= i < tt.len() implies '\0' <= #[trigger] tt[i] <= '\u{7f}' by {
            if 1 <= i < 3 {
                assert(tt[i] == h[i - 1]);
            } else if 4 <= i {
                assert(tt[i] == m[i - 4]);
            }
        }
    }
    assert(b.subrange(1, 3) =~= ascii_bytes(h));
    assert(b.subrange(4, 6) =~= ascii_bytes(m));
    assert(b[0] == 43 || b[0] == 45);
    assert(b[3] == 58);
}

/// The text of a datetime whose fields fit is ASCII and reads back as it.
proof fn lemma_text_bytes(dt: Datetime)
    requires
        fits_text(dt),
    ensures
        is_ascii_chars(datetime_text(dt)),
        datetime_spec(ascii_bytes(datetime_text(dt))) == Some(dt),
{
    let tx = datetime_text(dt);
    let b = ascii_bytes(tx);
    let empty = Seq::<u8>::empty();
    match dt {
        Datetime::OffsetDateTime { date, time, offset } => {
            lemma_offset_bytes(offset);
            let ob = ascii_bytes(offset_text(offset));
            lemma_time_bytes(time, ob);
            let tb = ascii_bytes(time_text(time));
            let rest = seq![84u8] + tb + ob;
            lemma_date_bytes(date, rest);
            let db = ascii_bytes(date_text(date));
            lemma_ascii_bytes_concat(date_text(date), seq!['T']);
            lemma_ascii_bytes_concat(date_text(date) + seq!['T'], time_text(time));
            lemma_ascii_bytes_concat(date_text(date) + seq!['T'] + time_text(time), offset_text(offset));
            assert(ascii_bytes(seq!['T']) =~= seq![84u8]);
            assert(b =~= db + rest);
            assert(is_ascii_chars(tx)) by {
                is_ascii_chars_concat(date_text(date) + seq!['T'], date_text(date), seq!['T']);
                is_ascii_chars_concat(date_text(date) + seq!['T'] + time_text(time), date_text(date) + seq!['T'], time_text(time));
                is_ascii_chars_concat(tx, date_text(date) + seq!['T'] + time_text(time), offset_text(offset));
            }
            assert(b.skip(11) =~= tb + ob);
            assert(b[10] == 84);
        },
        Datetime::LocalDateTime { date, time } => {
            lemma_time_bytes(time, empty);
            let tb = ascii_bytes(time_text(time));
            let rest = seq![84u8] + tb;
            lemma_date_bytes(date, rest);
            let db = ascii_bytes(date_text(date));
            lemma_ascii_bytes_concat(date_text(date), seq!['T']);
            lemma_ascii_bytes_concat(date_text(date) + seq!['T'], time_text(time));
            assert(ascii_bytes(seq!['T']) =~= seq![84u8]);
            assert(b =~= db + rest);
            assert(is_ascii_chars(tx)) by {
                is_ascii_chars_concat(date_text(date) + seq!['T'], date_text(date), seq!['T']);
                is_ascii_chars_concat(tx, date_text(date) + seq!['T'], time_text(time));
            }
            assert(b.skip(11) =~= tb + empty);
            assert(b[10] == 84);
        },
        Datetime::LocalDate(date) => {
            lemma_date_bytes(date, empty);
            assert(b =~= b + empty);
        },
        Datetime::LocalTime(time) => {
            lemma_time_bytes(time, empty);
            assert(b =~= b + empty);
        },
    }
}

proof fn lemma_digit_char(d: int)
    requires
        0 <= d < 10,
    ensures
        '0' <= digit_char(d) <= '9',
        digit_char(d) as u8 == 48 + d,
{
    assert((48 + d) as char as u32 == 48 + d);
}

/// Every datetime that the parser gives is valid and has the widths of its
/// text, so that its text reads back as it.
pub proof fn law_parsed_datetime_fits(b: Seq<u8>)
    requires
        datetime_spec(b) is Some,
    ensures
        fits_text(datetime_spec(b)->0),
{
    lemma_pow10_steps();
    if b.len() >= 8 && b[2] == 58 && time_spec(b) is Some {
        lemma_time_spec_fits(b);
    } else {
        lemma_digits_bound(b.subrange(0, 4));
        let rem = b.skip(11);
        if b.len() > 10 {
            let te = time_end(rem);
            lemma_time_spec_fits(rem.take(te));
            let after = rem.skip(te);
            if after.len() == 6 {
                lemma_digits_bound(after.subrange(1, 3));
                lemma_digits_bound(after.subrange(4, 6));
            }
        }
    }
}

/// Digits read as a number below ten to the power of their count.
proof fn lemma_digits_bound(b: Seq<u8>)
    ensures
        digits_value(b) matches Some(v) ==> 0 <= v < pow10(b.len()),
    decreases b.len(),
{
    if b.len() > 0 {
        lemma_digits_bound(b.drop_last());
        assert(pow10(b.len()) == 10 * pow10((b.len() - 1) as nat));
    }
}

/// A time that `time_spec` gives has fields in range.
proof fn lemma_time_spec_fits(b: Seq<u8>)
    requires
        time_spec(b) is Some,
    ensures
        time_fits(time_spec(b)->0),
{
    lemma_pow10_steps();
    lemma_digits_bound(b.subrange(0, 2));
    lemma_digits_bound(b.subrange(3, 5));
    lemma_digits_bound(b.subrange(6, 8));
    if b.len() > 8 {
        let f = b.skip(9);
        let n: nat = if f.len() < 6 {
            f.len()
        } else {
            6
        };
        assert forall|k: int| 0 <= k < n implies is_digit(#[trigger] f[k]) by {
            assert(all_digits(f));
        }
        lemma_fraction_bound(f, n);
        lemma_pow10_bound((6 - n) as nat);
    }
}

/// The first `n` digits of a fraction do not depend on what follows them.
proof fn lemma_fraction_prefix(f: Seq<u8>, d: u8, n: nat)
    requires
        n <= f.len(),
    ensures
        fraction_value(f.push(d), n) == fraction_value(f, n),
    decreases n,
{
    if n > 0 {
        lemma_fraction_prefix(f, d, (n - 1) as nat);
        assert(f.push(d)[n - 1] == f[n - 1]);
    }
}

/// A time `p` (`HH:MM:SS`), a dot and the digits `g` read as a local time
/// with the fields of `p` and the microseconds of `g`.
proof fn lemma_time_with_fraction(p: Seq<u8>, g: Seq<u8>)
    requires
        p.len() == 8,
        time_fields_ok(p),
        g.len() >= 1,
        all_digits(g),
    ensures
        0 <= fraction_micros(g) <= 999_999,
        datetime_spec(p + seq![46u8] + g) == Some(
            Datetime::LocalTime(
                Time {
                    hour: digits_value(p.subrange(0, 2))->0 as u8,
                    minute: digits_value(p.subrange(3, 5))->0 as u8,
                    second: digits_value(p.subrange(6, 8))->0 as u8,
                    microsecond: fraction_micros(g) as u32,
                },
            ),
        ),
{
    let b = p + seq![46u8] + g;
    assert(b.subrange(0, 2) =~= p.subrange(0, 2));
    assert(b.subrange(3, 5) =~= p.subrange(3, 5));
    assert(b.subrange(6, 8) =~= p.subrange(6, 8));
    assert(b[2] == p[2] && b[5] == p[5] && b[8] == 46);
    assert(b.skip(9) =~= g);
    let n: nat = if g.len() < 6 {
        g.len()
    } else {
        6
    };
    lemma_fraction_bound(g, n);
    lemma_pow10_bound((6 - n) as nat);
}

/// Each digit of a fraction counts for its place, whatever follows it: the
/// first digit after the dot is worth 100000 microseconds, the next 10000,
/// and so on down to 1 for the sixth; digits after the sixth count for
/// nothing. So one more digit `d` after the fraction `f` of a time `p`
/// (`HH:MM:SS`) adds `d` times the weight of its place to the microseconds.
pub proof fn law_fraction_digits_weigh(p: Seq<u8>, f: Seq<u8>, d: u8)
    requires
        p.len() == 8,
        time_fields_ok(p),
        all_digits(f),
        is_digit(d),
    ensures
        ({
            let r = datetime_spec(p + seq![46u8] + f.push(d));
            let r0 = datetime_spec(p + seq![46u8] + f);
            let w = if f.len() == 1 {
                10000int
            } else if f.len() == 2 {
                1000int
            } else if f.len() == 3 {
                100int
            } else if f.len() == 4 {
                10int
            } else if f.len() == 5 {
                1int
            } else {
                0int
            };
            &&& r is Some && r->0 is LocalTime
            &&& f.len() == 0 ==> r->0->LocalTime_0.microsecond == (d - 48) * 100000
            &&& f.len() > 0 ==> r0 is Some && r0->0 is LocalTime && r->0->LocalTime_0.microsecond
                == r0->0->LocalTime_0.microsecond + (d - 48) * w
        }),
{
    let g = f.push(d);
    assert(all_digits(g)) by {
        assert forall|i: int| 0 <= i < g.len() implies is_digit(#[trigger] g[i]) by {
            if i < f.len() {
                assert(g[i] == f[i]);
            }
        }
    }
    lemma_time_with_fraction(p, g);
    lemma_pow10_steps();
    let k = f.len();
    if k < 6 {
        lemma_fraction_prefix(f, d, k);
        assert(g[k as int] == d);
        assert(fraction_micros(g) == fraction_value(g, k + 1));
        assert(fraction_value(g, k + 1) == fraction_value(f, k) + (d - 48) * pow10((5 - k) as nat));
    } else {
        lemma_fraction_prefix(f, d, 6);
    }
    if k > 0 {
        lemma_time_with_fraction(p, f);
    }
}

} // verus!
