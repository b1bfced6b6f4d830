//! Display helpers shared by the front-ends: byte counts, optional byte
//! counts, modification times and elapsed durations.

use vstd::prelude::*;
use crate::text::{decimal, push_char, push_decimal, push_str};

verus! {

/// What `humansize::format_size(n, humansize::BINARY)` returns for `n`.
pub uninterp spec fn humansize_binary(n: u64) -> Seq<char>;

/// Calls `humansize::format_size` with the `BINARY` (IEC units) options.
/// The contract names the result: the crate's output depends on `n` alone.
#[verifier::external_body]
fn format_size_binary(n: u64) -> (s: String)
    ensures
        s@ == humansize_binary(n),
{
    humansize::format_size(n, humansize::BINARY)
}

/// Format a byte count as a human-readable IEC string (`1 KiB`, `3.2 MiB`).
pub fn bytes(n: u64) -> (s: String)
    ensures
        s@ == humansize_binary(n),
{
    format_size_binary(n)
}

/// Placeholder rendered in cells whose underlying value is unknown.
pub const NA_PLACEHOLDER: &'static str = "N/A";

/// `Some(n)` is rendered as [`bytes`] renders `n`; `None` as
/// [`NA_PLACEHOLDER`].
pub fn bytes_opt(n: Option<u64>) -> (s: String)
    ensures
        n matches Some(b) ==> s@ == humansize_binary(b),
        n is None ==> s@ == NA_PLACEHOLDER@,
{
    match n {
        Some(b) => bytes(b),
        None => String::from_str(NA_PLACEHOLDER),
    }
}

/// A span of time, as seconds plus sub-second nanoseconds.
#[derive(Clone, Copy, Debug, PartialEq, Eq, Structural)]
pub struct ElapsedTime {
    pub secs: u64,
    pub subsec_nanos: u32,
}

impl ElapsedTime {
    pub open spec fn total_nanos(self) -> int {
        self.secs * 1_000_000_000 + self.subsec_nanos
    }

    pub fn from_secs(secs: u64) -> (t: ElapsedTime)
        ensures
            t.secs == secs,
            t.subsec_nanos == 0,
            t.total_nanos() == secs * 1_000_000_000,
    {
        ElapsedTime { secs, subsec_nanos: 0 }
    }

    pub fn from_millis(ms: u64) -> (t: ElapsedTime)
        ensures
            t.secs == ms / 1000,
            t.subsec_nanos == (ms % 1000) * 1_000_000,
            t.total_nanos() == ms * 1_000_000,
    {
        ElapsedTime { secs: ms / 1000, subsec_nanos: ((ms % 1000) * 1_000_000) as u32 }
    }
}

/// `num / den` rounded to the nearest integer, ties to even.
pub open spec fn round_half_even(num: int, den: int) -> int {
    let q = num / den;
    let r = num % den;
    if 2 * r > den {
        q + 1
    } else if 2 * r < den {
        q
    } else if q % 2 == 0 {
        q
    } else {
        q + 1
    }
}

/// A count of tenths written with one decimal place ("12.3").
pub open spec fn tenths_text(t: nat) -> Seq<char> {
    decimal(t / 10) + seq!['.'] + decimal(t % 10)
}

/// `1m 23.4s` from one minute up, `1.2s` from one second up, else `420ms`.
/// Seconds are shown to one decimal place, rounded to nearest with ties to
/// even; milliseconds are truncated.
pub open spec fn elapsed_text(n: nat) -> Seq<char> {
    if n >= 60_000_000_000 {
        let m = n / 60_000_000_000;
        let rem = n % 60_000_000_000;
        decimal(m) + seq!['m', ' '] + tenths_text(round_half_even(rem as int, 100_000_000) as nat) + seq!['s']
    } else if n >= 1_000_000_000 {
        tenths_text(round_half_even(n as int, 100_000_000) as nat) + seq!['s']
    } else {
        decimal(n / 1_000_000) + seq!['m', 's']
    }
}

fn round_half_even_u128(num: u128, den: u128) -> (r: u128)
    requires
        den > 0,
        num < u128::MAX / 4,
        den < u128::MAX / 4,
    ensures
        r == round_half_even(num as int, den as int),
{
    let q = num / den;
    let rem = num % den;
    if 2 * rem > den {
        q + 1
    } else if 2 * rem < den {
        q
    } else if q % 2 == 0 {
        q
    } else {
        q + 1
    }
}

fn push_tenths(s: &mut String, t: u128)
    requires
        t <= u64::MAX,
    ensures
        final(s)@ == old(s)@ + tenths_text(t as nat),
{
    push_decimal(s, (t / 10) as u64);
    push_char(s, '.');
    push_decimal(s, (t % 10) as u64);
    proof {
        assert(final(s)@ == old(s)@ + tenths_text(t as nat));
    }
}

/// Format a duration as `1m 23.4s` / `1.2s` / `420ms`. The tenths are
/// rounded on the exact count of nanoseconds, ties to even: 1.15 s shows
/// as `1.2s` and 1.25 s as `1.2s`. (Rounding a binary floating-point
/// value of the seconds instead would turn some of these ties the other
/// way, 1.15 s into `1.1s`, since 1.15 has no exact binary value.)
pub fn elapsed(d: ElapsedTime) -> (s: String)
    ensures
        s@ == elapsed_text(d.total_nanos() as nat),
{
    let n: u128 = d.secs as u128 * 1_000_000_000 + d.subsec_nanos as u128;
    let mut s = String::new();
    if n >= 60_000_000_000 {
        let m = n / 60_000_000_000;
        let rem = n % 60_000_000_000;
        push_decimal(&mut s, m as u64);
        push_str(&mut s, "m ");
        let t = round_half_even_u128(rem, 100_000_000);
        proof {
            assert(t <= 600);
        }
        push_tenths(&mut s, t);
        push_char(&mut s, 's');
        proof {
            reveal_strlit("m ");
            assert(s@ == elapsed_text(d.total_nanos() as nat));
        }
    } else if n >= 1_000_000_000 {
        let t = round_half_even_u128(n, 100_000_000);
        proof {
            assert(t <= 601);
        }
        push_tenths(&mut s, t);
        push_char(&mut s, 's');
        proof {
            assert(s@ == elapsed_text(d.total_nanos() as nat));
        }
    } else {
        push_decimal(&mut s, (n / 1_000_000) as u64);
        push_str(&mut s, "ms");
        proof {
            reveal_strlit("ms");
            assert(s@ == elapsed_text(d.total_nanos() as nat));
        }
    }
    s
}

/// Whether `s` has the shape `YYYY-MM-DD HH:MM`: sixteen characters, digits
/// everywhere but a `-` after the year and the month, a space after the day
/// and a `:` after the hour.
pub open spec fn minute_stamp_shape(s: Seq<char>) -> bool {
    &&& s.len() == 16
    &&& forall|i: int| 0 <= i < 16 ==> {
        let c = #[trigger] s[i];
        if i == 4 || i == 7 {
            c == '-'
        } else if i == 10 {
            c == ' '
        } else if i == 13 {
            c == ':'
        } else {
            '0' <= c <= '9'
        }
    }
}

/// Gregorian leap years.
pub open spec fn is_leap_year(y: int) -> bool {
    (y % 4 == 0 && y % 100 != 0) || y % 400 == 0
}

/// Number of days of month `m` (1..=12) of year `y`.
pub open spec fn days_in_month(y: int, m: int) -> int {
    if m == 2 {
        if is_leap_year(y) { 29 } else { 28 }
    } else if m == 4 || m == 6 || m == 9 || m == 11 {
        30
    } else {
        31
    }
}

/// Days of the months of year `y` before month `m`.
pub open spec fn days_before_month(y: int, m: int) -> int
    decreases m,
{
    if m <= 1 {
        0
    } else {
        days_before_month(y, m - 1) + days_in_month(y, m - 1)
    }
}

/// Day number of the proleptic Gregorian date `y-m-d`, counted from
/// 1970-01-01 (day 0).
pub open spec fn days_from_epoch(y: int, m: int, d: int) -> int {
    let py = y - 1;
    365 * py + py / 4 - py / 100 + py / 400 + days_before_month(y, m) + d - 1 - 719_162
}

/// The decimal digit character of `n` (0..=9).
pub open spec fn digit_char(n: int) -> char {
    (n + 48) as char
}

/// `n` (0..=99) as two digits.
pub open spec fn two_digits(n: int) -> Seq<char> {
    seq![digit_char(n / 10), digit_char(n % 10)]
}

/// The year as `%Y` writes it: four digits for 0..=9999; otherwise a sign
/// and the digits of its magnitude, zero-padded to four.
pub open spec fn year_text(y: int) -> Seq<char> {
    if 0 <= y <= 9999 {
        two_digits(y / 100) + two_digits(y % 100)
    } else {
        let digits = decimal(if y < 0 { -y } else { y } as nat);
        let padded = if digits.len() < 4 {
            Seq::new((4 - digits.len()) as nat, |_i: int| '0') + digits
        } else {
            digits
        };
        seq![if y < 0 { '-' } else { '+' }] + padded
    }
}

/// `YYYY-MM-DD HH:MM` for the given fields.
pub open spec fn stamp_text(y: int, mo: int, d: int, h: int, mi: int) -> Seq<char> {
    year_text(y) + seq!['-'] + two_digits(mo) + seq!['-'] + two_digits(d) + seq![' '] + two_digits(h) + seq![':']
        + two_digits(mi)
}

/// `s` is the `YYYY-MM-DD HH:MM` stamp of the minute holding `t`, `t`
/// being seconds from 1970-01-01 00:00 on a clock that runs without leap
/// seconds, in the proleptic Gregorian calendar.
pub open spec fn is_minute_stamp_of(t: int, s: Seq<char>) -> bool {
    exists|y: int, mo: int, d: int, h: int, mi: int|
        #![trigger stamp_text(y, mo, d, h, mi)]
        1 <= mo <= 12 && 1 <= d <= days_in_month(y, mo) && 0 <= h < 24 && 0 <= mi < 60
            && s == stamp_text(y, mo, d, h, mi)
            && days_from_epoch(y, mo, d) * 86_400 + h * 3_600 + mi * 60 <= t
            && t < days_from_epoch(y, mo, d) * 86_400 + h * 3_600 + mi * 60 + 60
}

/// `s` is the minute stamp of the instant `secs` (seconds from 1970-01-01
/// 00:00 UTC) moved by some offset of less than one day either way: the
/// stamp of that instant in some time zone.
pub open spec fn local_stamp_of(secs: int, s: Seq<char>) -> bool {
    exists|lt: int| secs - 86_400 < lt < secs + 86_400 && #[trigger] is_minute_stamp_of(lt, s)
}

/// Seconds from 1970-01-01 00:00 UTC of the instants chrono can hold:
/// from -262143-01-01 00:00 UTC up to, not including, 262143-01-01 00:00
/// UTC.
pub open spec fn in_chrono_range(secs: int) -> bool {
    -8_334_601_228_800 <= secs < 8_210_266_876_800
}

/// Seconds from 1970-01-01 00:00 UTC of the instants (0001-01-02 00:00 UTC
/// up to, not including, 9999-12-31 00:00 UTC) whose local stamp has four
/// year digits in every time zone.
pub open spec fn in_stamp_range(secs: int) -> bool {
    -62_135_510_400 <= secs < 253_402_214_400
}

/// Calls `chrono::DateTime::from_timestamp`, converts the instant to the
/// local time zone and formats it as `YYYY-MM-DD HH:MM`; `None` where
/// chrono has no such instant.
///
/// The contract claims, for `nanos` under one second: `from_timestamp`
/// gives `Some` exactly for instants in [`in_chrono_range`] (the range of
/// `NaiveDate`); the local offset chrono applies is a `FixedOffset` of
/// less than one day either way (past either end of the range chrono
/// moves to the day before or after it), and the text is the minute stamp
/// of the instant moved by that offset (`%Y` as [`year_text`], `%m`, `%d`,
/// `%H`, `%M` two zero-padded digits each), of [`minute_stamp_shape`] for
/// instants in [`in_stamp_range`]. Which offset applies is not stated: it
/// depends on the machine's time zone. The call
/// panics, whatever the arguments, when the system's time-zone data gives
/// an offset of a day or more (chrono unwraps the local offset).
#[verifier::external_body]
fn local_minutes(secs: i64, nanos: u32) -> (r: Option<String>)
    ensures
        in_chrono_range(secs as int) && nanos < 1_000_000_000 ==> r is Some,
        !in_chrono_range(secs as int) && nanos < 1_000_000_000 ==> r is None,
        in_chrono_range(secs as int) && nanos < 1_000_000_000 ==> local_stamp_of(secs as int, r.unwrap()@),
        in_stamp_range(secs as int) && nanos < 1_000_000_000 ==> minute_stamp_shape(r.unwrap()@),
{
    match chrono::DateTime::from_timestamp(secs, nanos) {
        Some(dt) => Some(dt.with_timezone(&chrono::Local).format("%Y-%m-%d %H:%M").to_string()),
        None => None,
    }
}

/// Split nanoseconds from the Unix epoch into whole seconds (rounded down)
/// and the nanoseconds past them; `None` when the seconds do not fit an
/// `i64`.
pub fn epoch_parts(n: i128) -> (r: Option<(i64, u32)>)
    ensures
        r is None <==> !(i64::MIN <= n / 1_000_000_000 <= i64::MAX),
        r matches Some((s, ns)) ==> s == n / 1_000_000_000 && ns == n % 1_000_000_000,
        r matches Some((s, ns)) ==> s * 1_000_000_000 + ns == n && ns < 1_000_000_000,
{
    let (secs, nanos): (i128, i128) = if n >= 0 {
        (n / 1_000_000_000, n % 1_000_000_000)
    } else {
        let a: i128 = -(n + 1);
        let q: i128 = a / 1_000_000_000;
        let rem: i128 = a % 1_000_000_000;
        proof {
            assert(n / 1_000_000_000 == -q - 1 && n % 1_000_000_000 == 999_999_999 - rem) by (nonlinear_arith)
                requires
                    a == -(n + 1),
                    a >= 0,
                    q == a / 1_000_000_000,
                    rem == a % 1_000_000_000,
            ;
        }
        (-q - 1, 999_999_999 - rem)
    };
    if secs < i64::MIN as i128 || secs > i64::MAX as i128 {
        None
    } else {
        Some((secs as i64, nanos as u32))
    }
}

/// What [`mtime`] may return for `t`: the empty string for an unknown time
/// or one outside [`in_chrono_range`]; otherwise the minute stamp of that
/// instant moved by the local offset (less than one day either way), of
/// the `YYYY-MM-DD HH:MM` shape for a time in [`in_stamp_range`].
pub open spec fn is_mtime_text(t: Option<i128>, s: Seq<char>) -> bool {
    match t {
        None => s.len() == 0,
        Some(n) => {
            let secs = n / 1_000_000_000;
            &&& !in_chrono_range(secs) ==> s.len() == 0
            &&& in_chrono_range(secs) ==> local_stamp_of(secs, s)
            &&& in_stamp_range(secs) ==> minute_stamp_shape(s)
        },
    }
}

/// Format a modification time (nanoseconds from the Unix epoch) as local
/// `YYYY-MM-DD HH:MM`; an unknown time is the empty string, and so is one
/// chrono cannot represent.
pub fn mtime(t: Option<i128>) -> (s: String)
    ensures
        is_mtime_text(t, s@),
        t is None ==> s@ == Seq::<char>::empty(),
{
    match t {
        None => String::new(),
        Some(n) => match epoch_parts(n) {
            None => String::new(),
            Some((secs, nanos)) => {
                proof {
                    assert(in_stamp_range(n / 1_000_000_000) <==> in_stamp_range(secs as int));
                }
                match local_minutes(secs, nanos) {
                    Some(text) => text,
                    None => String::new(),
                }
            },
        },
    }
}

} // verus!
