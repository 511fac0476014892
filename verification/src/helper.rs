//! Time arithmetic and number formatting shared by the pipeline and the dashboard.
use vstd::prelude::*;
use crate::etl::parser::UtcTime;
use crate::text::push_char;

verus! {

/// Seconds by which India Standard Time is ahead of UTC (five and a half hours).
pub const IST_OFFSET_SECS: i64 = 19800;

/// The ASCII digit for `d` (between 0 and 9).
pub open spec fn digit_char(d: int) -> char {
    (d + 48) as char
}

/// `n` (between 0 and 99) as two decimal digits.
pub open spec fn two_digits(n: int) -> Seq<char> {
    seq![digit_char(n / 10), digit_char(n % 10)]
}

/// The decimal digits of `n`, most significant first, without leading zeros.
pub open spec fn decimal(n: nat) -> Seq<char>
    decreases n,
{
    if n < 10 {
        seq![digit_char(n as int)]
    } else {
        decimal(n / 10).push(digit_char((n % 10) as int))
    }
}

/// Whether `c` is one of the decimal digits `0` to `9`.
pub open spec fn is_decimal_digit(c: char) -> bool {
    48 <= (c as u32) <= 57
}

/// The number that the decimal digits `s` denote, most significant first.
pub open spec fn decimal_value(s: Seq<char>) -> int
    decreases s.len(),
{
    if s.len() == 0 {
        0
    } else {
        decimal_value(s.drop_last()) * 10 + ((s.last() as u32) - 48)
    }
}

/// The decimal text of `n` reads back as `n`: it is not empty, every character is a
/// digit `0` to `9`, it starts with `0` only when `n` is 0 (then it is just `0`), and the
/// digits denote `n`.
pub proof fn decimal_reads_back(n: nat)
    ensures
        decimal(n).len() > 0,
        forall|i: int| 0 <= i < decimal(n).len() ==> is_decimal_digit(#[trigger] decimal(n)[i]),
        n > 0 ==> decimal(n)[0] != '0',
        n == 0 ==> decimal(n) == seq!['0'],
        decimal_value(decimal(n)) == n,
    decreases n,
{
    if n < 10 {
        let s = decimal(n);
        assert(s.drop_last() =~= Seq::<char>::empty());
        assert(s.last() == digit_char(n as int));
        assert((digit_char(n as int) as u32) == n + 48);
        assert(decimal_value(Seq::<char>::empty()) == 0);
        assert(decimal_value(s) == decimal_value(s.drop_last()) * 10 + ((s.last() as u32) - 48));
    } else {
        let q = n / 10;
        let r = n % 10;
        decimal_reads_back(q);
        let s = decimal(n);
        assert(s == decimal(q).push(digit_char(r as int)));
        assert(s.drop_last() == decimal(q));
        assert(s[0] == decimal(q)[0]);
        assert forall|i: int| 0 <= i < s.len() implies is_decimal_digit(#[trigger] s[i]) by {
            if i < decimal(q).len() {
                assert(s[i] == decimal(q)[i]);
            }
        }
        assert((digit_char(r as int) as u32) == r + 48);
        assert(s.last() == digit_char(r as int));
        assert(decimal_value(s) == decimal_value(decimal(q)) * 10 + r);
        assert(n == q * 10 + r);
    }
}

/// The second of the day in India Standard Time at the UTC instant `secs`.
pub open spec fn ist_second_of_day(secs: int) -> int {
    (secs + 19800) % 86400
}

/// The wall-clock time `HH:MM:SS` in India Standard Time of the UTC instant
/// `(secs, nanos)`; inside a leap second the seconds read `60`.
pub open spec fn ist_clock(secs: int, nanos: int) -> Seq<char> {
    let sod = ist_second_of_day(secs);
    let sec_field = if nanos >= 1_000_000_000 { 60 } else { sod % 60 };
    two_digits(sod / 3600) + seq![':'] + two_digits((sod % 3600) / 60) + seq![':'] + two_digits(
        sec_field,
    )
}

/// The start of the minute that holds the instant `secs` (seconds since the epoch).
pub open spec fn minute_start(secs: int) -> int {
    secs - secs % 60
}

/// The character for the digit `d`.
pub fn digit(d: u8) -> (c: char)
    requires
        d < 10,
    ensures
        c == digit_char(d as int),
{
    (d + 48) as char
}

fn push_two_digits(s: &mut String, n: i64)
    requires
        0 <= n < 100,
    ensures
        final(s)@ == old(s)@ + two_digits(n as int),
{
    let tens = (n / 10) as u8;
    let ones = (n % 10) as u8;
    push_char(s, digit(tens));
    push_char(s, digit(ones));
    assert(final(s)@ =~= old(s)@ + two_digits(n as int));
}

/// The minute that holds `t`, as an instant with no seconds and no sub-second part: the
/// bucket that a log line is grouped under.
pub fn minute_bucket(t: UtcTime) -> (b: UtcTime)
    requires
        -0x1000_0000_0000 < t.secs < 0x1000_0000_0000,
    ensures
        b.secs == minute_start(t.secs as int),
        b.nanos == 0,
{
    let r = t.secs % 60;
    let m = if r < 0 { r + 60 } else { r };
    assert(m == (t.secs as int) % 60);
    UtcTime { secs: t.secs - m, nanos: 0 }
}

/// The time of `t` as India Standard Time wall-clock text `HH:MM:SS`.
pub fn get_ist_time(t: UtcTime) -> (s: String)
    requires
        -0x1000_0000_0000 < t.secs < 0x1000_0000_0000,
    ensures
        s@ == ist_clock(t.secs as int, t.nanos as int),
{
    let shifted = t.secs + IST_OFFSET_SECS;
    let r = shifted % 86400;
    let sod = if r < 0 { r + 86400 } else { r };
    assert(sod == ist_second_of_day(t.secs as int));
    let sec_field = if t.nanos >= 1_000_000_000 { 60 } else { sod % 60 };
    let mut s = String::new();
    push_two_digits(&mut s, sod / 3600);
    push_char(&mut s, ':');
    push_two_digits(&mut s, (sod % 3600) / 60);
    push_char(&mut s, ':');
    push_two_digits(&mut s, sec_field);
    assert(s@ =~= ist_clock(t.secs as int, t.nanos as int));
    s
}

/// `n` written in decimal.
pub fn decimal_string(n: u64) -> (s: String)
    ensures
        s@ == decimal(n as nat),
{
    let mut digits: Vec<char> = Vec::new();
    let mut m = n;
    // digits holds the low-order digits of n, least significant first
    while m >= 10
        invariant
            decimal(n as nat) == decimal(m as nat) + digits@.reverse(),
        decreases m,
    {
        let d = digit((m % 10) as u8);
        assert(decimal(m as nat) == decimal((m / 10) as nat).push(d));
        digits.push(d);
        assert(digits@.reverse() =~= seq![d] + digits@.drop_last().reverse());
        m = m / 10;
    }
    let mut s = String::new();
    push_char(&mut s, digit(m as u8));
    let mut i = digits.len();
    while i > 0
        invariant
            i <= digits.len(),
            decimal(n as nat) == decimal(m as nat) + digits@.reverse(),
            m < 10,
            s@ == decimal(m as nat) + digits@.subrange(i as int, digits.len() as int).reverse(),
        decreases i,
    {
        i = i - 1;
        push_char(&mut s, digits[i]);
        assert(digits@.subrange(i as int, digits.len() as int).reverse() =~= digits@.subrange(
            i + 1,
            digits.len() as int,
        ).reverse().push(digits@[i as int]));
    }
    assert(digits@.subrange(0, digits.len() as int) == digits@);
    s
}

/// The bucket of an instant is the start of its minute: a whole minute, at or before
/// the instant, less than a minute before it.
pub proof fn minute_start_is_minute(secs: int)
    ensures
        minute_start(secs) % 60 == 0,
        minute_start(secs) <= secs < minute_start(secs) + 60,
{
}

/// The India Standard Time label has the shape `HH:MM:SS`: eight characters, colons at
/// positions 2 and 5, and an hour below 24.
pub proof fn ist_clock_shape(secs: int, nanos: int)
    ensures
        ist_clock(secs, nanos).len() == 8,
        ist_clock(secs, nanos)[2] == ':',
        ist_clock(secs, nanos)[5] == ':',
        0 <= ist_second_of_day(secs) / 3600 < 24,
{
}

} // verus!
