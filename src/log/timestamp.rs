use chrono::{Datelike, Timelike};
use vstd::prelude::*;

verus! {

/// A UTC instant with microsecond precision, as calendar fields.
#[derive(Debug, Clone, Copy, PartialEq, Eq, Structural)]
pub struct Timestamp {
    pub year: u32,
    pub month: u32,
    pub day: u32,
    pub hour: u32,
    pub minute: u32,
    pub second: u32,
    pub micro: u32,
}

/// Leap years of the proleptic Gregorian calendar.
pub open spec fn is_leap_year(y: int) -> bool {
    y % 4 == 0 && (y % 100 != 0 || y % 400 == 0)
}

/// Number of days of month `m` of year `y`.
pub open spec fn days_in_month(y: int, m: int) -> int {
    if m == 2 {
        if is_leap_year(y) {
            29
        } else {
            28
        }
    } else if m == 4 || m == 6 || m == 9 || m == 11 {
        30
    } else {
        31
    }
}

/// `y-m-d` is a day of the proleptic Gregorian calendar.
pub open spec fn valid_date(y: int, m: int, d: int) -> bool {
    1 <= m <= 12 && 1 <= d <= days_in_month(y, m)
}

impl Timestamp {
    /// The fields name an existing instant whose year has four digits.
    pub open spec fn valid(&self) -> bool {
        self.year <= 9999 && valid_date(self.year as int, self.month as int, self.day as int)
            && self.hour < 24 && self.minute < 60 && self.second < 60 && self.micro < 1_000_000
    }
}

/// `10` to the power `n`.
pub open spec fn pow10(n: nat) -> nat
    decreases n,
{
    if n == 0 {
        1
    } else {
        10 * pow10((n - 1) as nat)
    }
}

/// The last `n` decimal digits of `v` in ASCII, most significant first.
pub open spec fn digits(v: nat, n: nat) -> Seq<u8>
    decreases n,
{
    if n == 0 {
        Seq::empty()
    } else {
        digits(v / 10, (n - 1) as nat).push((48 + v % 10) as u8)
    }
}

pub open spec fn is_digit(b: u8) -> bool {
    48 <= b <= 57
}

pub open spec fn all_digits(s: Seq<u8>) -> bool {
    forall|i: int| 0 <= i < s.len() ==> is_digit(#[trigger] s[i])
}

/// Decimal value of a sequence of ASCII digits.
pub open spec fn value_of(s: Seq<u8>) -> nat
    decreases s.len(),
{
    if s.len() == 0 {
        0
    } else {
        value_of(s.drop_last()) * 10 + (s.last() - 48) as nat
    }
}

/// The text form `YYYY-MM-DD HH:MM:SS.ffffff` of `t`.
pub open spec fn formatted(t: Timestamp) -> Seq<u8> {
    digits(t.year as nat, 4) + seq![45u8] + digits(t.month as nat, 2) + seq![45u8] + digits(
        t.day as nat,
        2,
    ) + seq![32u8] + digits(t.hour as nat, 2) + seq![58u8] + digits(t.minute as nat, 2) + seq![
        58u8,
    ] + digits(t.second as nat, 2) + seq![46u8] + digits(t.micro as nat, 6)
}

/// Value of the `n` digits of `s` from `a` on.
pub open spec fn field(s: Seq<u8>, a: int, n: int) -> nat {
    value_of(s.subrange(a, a + n))
}

/// `s` has the shape `DDDD-DD-DD DD:DD:DD.DDDDDD`.
pub open spec fn has_layout(s: Seq<u8>) -> bool {
    &&& s.len() == 26
    &&& all_digits(s.subrange(0, 4))
    &&& s[4] == 45
    &&& all_digits(s.subrange(5, 7))
    &&& s[7] == 45
    &&& all_digits(s.subrange(8, 10))
    &&& s[10] == 32
    &&& all_digits(s.subrange(11, 13))
    &&& s[13] == 58
    &&& all_digits(s.subrange(14, 16))
    &&& s[16] == 58
    &&& all_digits(s.subrange(17, 19))
    &&& s[19] == 46
    &&& all_digits(s.subrange(20, 26))
}

/// The fields written in a text of the right shape.
pub open spec fn fields_of(s: Seq<u8>) -> Timestamp {
    Timestamp {
        year: field(s, 0, 4) as u32,
        month: field(s, 5, 2) as u32,
        day: field(s, 8, 2) as u32,
        hour: field(s, 11, 2) as u32,
        minute: field(s, 14, 2) as u32,
        second: field(s, 17, 2) as u32,
        micro: field(s, 20, 6) as u32,
    }
}

/// The instant that the text `s` writes, if it has the shape and the
/// fields name a valid instant.
pub open spec fn parsed(s: Seq<u8>) -> Option<Timestamp> {
    if has_layout(s) && fields_of(s).valid() {
        Some(fields_of(s))
    } else {
        None
    }
}

proof fn lemma_digits(v: nat, n: nat)
    requires
        v < pow10(n),
    ensures
        digits(v, n).len() == n,
        all_digits(digits(v, n)),
        value_of(digits(v, n)) == v,
    decreases n,
{
    if n > 0 {
        let m = (n - 1) as nat;
        assert(v / 10 < pow10(m)) by (nonlinear_arith)
            requires
                v < 10 * pow10(m),
        ;
        lemma_digits(v / 10, m);
        let d = digits(v, n);
        assert(d.drop_last() == digits(v / 10, m));
        assert((v / 10) * 10 + v % 10 == v) by (nonlinear_arith);
    } else {
        assert(v == 0);
    }
}

proof fn lemma_value_bound(s: Seq<u8>)
    requires
        all_digits(s),
    ensures
        value_of(s) < pow10(s.len()),
    decreases s.len(),
{
    if s.len() > 0 {
        let p = s.drop_last();
        assert(all_digits(p)) by {
            assert forall|i: int| 0 <= i < p.len() implies is_digit(p[i]) by {
                assert(p[i] == s[i]);
            }
        }
        lemma_value_bound(p);
        assert(is_digit(s[s.len() - 1]));
        let a = value_of(p);
        let b = pow10(p.len());
        let d = (s.last() - 48) as nat;
        assert(a * 10 + d < 10 * b) by (nonlinear_arith)
            requires
                a < b,
                d < 10,
        ;
    }
}

/// Parsing the text form of a valid instant gives that instant back.
pub proof fn lemma_parse_formatted(t: Timestamp)
    requires
        t.valid(),
    ensures
        parsed(formatted(t)) == Some(t),
{
    reveal_with_fuel(pow10, 7);
    lemma_digits(t.year as nat, 4);
    lemma_digits(t.month as nat, 2);
    lemma_digits(t.day as nat, 2);
    lemma_digits(t.hour as nat, 2);
    lemma_digits(t.minute as nat, 2);
    lemma_digits(t.second as nat, 2);
    lemma_digits(t.micro as nat, 6);
    let s = formatted(t);
    assert(s.subrange(0, 4) =~= digits(t.year as nat, 4));
    assert(s.subrange(5, 7) =~= digits(t.month as nat, 2));
    assert(s.subrange(8, 10) =~= digits(t.day as nat, 2));
    assert(s.subrange(11, 13) =~= digits(t.hour as nat, 2));
    assert(s.subrange(14, 16) =~= digits(t.minute as nat, 2));
    assert(s.subrange(17, 19) =~= digits(t.second as nat, 2));
    assert(s.subrange(20, 26) =~= digits(t.micro as nat, 6));
    assert(fields_of(s) == t);
}

/// Relies on chrono::NaiveDate::from_ymd_opt: `Some` exactly where the month
/// and day name an existing day of the proleptic Gregorian calendar and the
/// year is in chrono's range, which holds every year up to 9999.
#[verifier::external_body]
fn date_exists(year: u32, month: u32, day: u32) -> (r: bool)
    requires
        year <= 9999,
    ensures
        r == valid_date(year as int, month as int, day as int),
{
    chrono::NaiveDate::from_ymd_opt(year as i32, month, day).is_some()
}

/// Relies on std::time::SystemTime::now and SystemTime::duration_since with
/// UNIX_EPOCH: the time now as whole seconds and the nanoseconds past them
/// since the epoch, `None` where the clock reads before the epoch. The
/// nanoseconds of a `Duration` are below one billion.
#[verifier::external_body]
fn unix_now() -> (r: Option<(u64, u32)>)
    ensures
        r matches Some((_secs, nanos)) ==> nanos < 1_000_000_000,
{
    let since = std::time::SystemTime::now().duration_since(std::time::UNIX_EPOCH).ok()?;
    Some((since.as_secs(), since.subsec_nanos()))
}

/// Relies on chrono::DateTime::from_timestamp: the UTC calendar fields
/// (year, month, day, hour, minute, second, nanosecond) of the instant
/// `secs` seconds and `nanos` nanoseconds after the epoch, `None` where chrono
/// cannot represent it. Nothing is promised of the values.
#[verifier::external_body]
fn utc_fields(secs: i64, nanos: u32) -> (r: Option<(i32, u32, u32, u32, u32, u32, u32)>) {
    let t = chrono::DateTime::from_timestamp(secs, nanos)?.naive_utc();
    Some((t.year(), t.month(), t.day(), t.hour(), t.minute(), t.second(), t.nanosecond()))
}

/// Appends the last `n` decimal digits of `v`, most significant first.
fn push_digits(out: &mut Vec<u8>, v: u32, n: usize)
    ensures
        final(out)@ == old(out)@ + digits(v as nat, n as nat),
    decreases n,
{
    if n > 0 {
        push_digits(out, v / 10, n - 1);
        out.push(48 + (v % 10) as u8);
        assert(final(out)@ =~= old(out)@ + digits(v as nat, n as nat));
    } else {
        assert(old(out)@ + digits(v as nat, 0) =~= old(out)@);
    }
}

/// Value of the `n` ASCII digits of `s` from `start` on, or `None` where one
/// of them is not a digit.
fn read_number(s: &[u8], start: usize, n: usize) -> (r: Option<u32>)
    requires
        start + n <= s@.len(),
        n <= 6,
    ensures
        r is Some <==> all_digits(s@.subrange(start as int, start + n)),
        r is Some ==> r->0 as nat == value_of(s@.subrange(start as int, start + n)),
{
    reveal_with_fuel(pow10, 7);
    let mut acc: u32 = 0;
    let mut i: usize = start;
    let len: usize = s.len();
    assert(start + n <= len);
    let end: usize = start + n;
    while i < end
        invariant
            start <= i <= start + n,
            end == start + n,
            start + n <= s@.len(),
            n <= 6,
            all_digits(s@.subrange(start as int, i as int)),
            acc as nat == value_of(s@.subrange(start as int, i as int)),
            acc < pow10((i - start) as nat),
            pow10(n as nat) <= 1_000_000,
        decreases end - i,
    {
        let b = s[i];
        let ghost next = s@.subrange(start as int, i + 1);
        if b < 48 || b > 57 {
            assert(next[i - start] == b);
            assert(!all_digits(s@.subrange(start as int, start + n))) by {
                assert(s@.subrange(start as int, start + n)[i - start] == b);
            }
            return None;
        }
        proof {
            assert(next.drop_last() =~= s@.subrange(start as int, i as int));
            assert(all_digits(next)) by {
                assert forall|j: int| 0 <= j < next.len() implies is_digit(next[j]) by {
                    if j < next.len() - 1 {
                        assert(next[j] == s@.subrange(start as int, i as int)[j]);
                    }
                }
            }
            let k = (i - start) as nat;
            assert(pow10(k + 1) == 10 * pow10(k));
            assert(pow10(k + 1) <= pow10(n as nat)) by {
                lemma_pow10_mono(k + 1, n as nat);
            }
            let d = (b - 48) as nat;
            assert(acc * 10 + d < 10 * pow10(k)) by (nonlinear_arith)
                requires
                    acc < pow10(k),
                    d < 10,
            ;
        }
        acc = acc * 10 + (b - 48) as u32;
        i = i + 1;
    }
    Some(acc)
}

proof fn lemma_pow10_mono(a: nat, b: nat)
    requires
        a <= b,
    ensures
        pow10(a) <= pow10(b),
    decreases b,
{
    if a < b {
        lemma_pow10_mono(a, (b - 1) as nat);
    }
}

impl Timestamp {
    /// The instant with these fields, or `None` where they name no valid
    /// instant.
    pub fn new(year: u32, month: u32, day: u32, hour: u32, minute: u32, second: u32, micro: u32) -> (r: Option<Timestamp>)
        ensures
            ({
                let t = Timestamp { year, month, day, hour, minute, second, micro };
                r == if t.valid() {
                    Some(t)
                } else {
                    None::<Timestamp>
                }
            }),
    {
        if year > 9999 || hour >= 24 || minute >= 60 || second >= 60 || micro >= 1_000_000 {
            return None;
        }
        if !date_exists(year, month, day) {
            return None;
        }
        Some(Timestamp { year, month, day, hour, minute, second, micro })
    }

    /// The instant that a clock reads as these calendar fields, to the
    /// microsecond; `None` where the year is not between 1 and 9999 or the
    /// fields name no valid instant. Nanoseconds of a leap second (a billion
    /// or more) count as the second before it.
    pub fn from_clock(year: i32, month: u32, day: u32, hour: u32, minute: u32, second: u32, nano: u32) -> (r: Option<Timestamp>)
        ensures
            ({
                let t = Timestamp {
                    year: year as u32,
                    month,
                    day,
                    hour,
                    minute,
                    second,
                    micro: (nano % 1_000_000_000) / 1000,
                };
                r == if 1 <= year <= 9999 && t.valid() {
                    Some(t)
                } else {
                    None::<Timestamp>
                }
            }),
    {
        if year < 1 || year > 9999 {
            return None;
        }
        Timestamp::new(year as u32, month, day, hour, minute, second, (nano % 1_000_000_000) / 1000)
    }

    /// The current UTC time to the microsecond, as `from_clock` reads the
    /// clock's fields; `None` where the clock reads before 1970 or its year is
    /// not between 1 and 9999.
    pub fn now() -> (r: Option<Timestamp>)
        ensures
            r is Some ==> r->0.valid() && r->0.year >= 1,
    {
        let (secs, nanos) = match unix_now() {
            Some(v) => v,
            None => return None,
        };
        if secs > 9_223_372_036_854_775_807u64 {
            return None;
        }
        match utc_fields(secs as i64, nanos) {
            Some((year, month, day, hour, minute, second, nano)) => Timestamp::from_clock(
                year,
                month,
                day,
                hour,
                minute,
                second,
                nano,
            ),
            None => None,
        }
    }

    /// Appends the text form `YYYY-MM-DD HH:MM:SS.ffffff` of `self`.
    pub fn write_to(&self, out: &mut Vec<u8>)
        ensures
            final(out)@ == old(out)@ + formatted(*self),
    {
        push_digits(out, self.year, 4);
        out.push(45);
        push_digits(out, self.month, 2);
        out.push(45);
        push_digits(out, self.day, 2);
        out.push(32);
        push_digits(out, self.hour, 2);
        out.push(58);
        push_digits(out, self.minute, 2);
        out.push(58);
        push_digits(out, self.second, 2);
        out.push(46);
        push_digits(out, self.micro, 6);
        assert(final(out)@ =~= old(out)@ + formatted(*self));
    }

    /// Reads the text form `YYYY-MM-DD HH:MM:SS.ffffff`; `None` where `s` has
    /// another shape or its fields name no valid instant.
    pub fn parse(s: &[u8]) -> (r: Option<Timestamp>)
        ensures
            r == parsed(s@),
    {
        if s.len() != 26 || s[4] != 45 || s[7] != 45 || s[10] != 32 || s[13] != 58 || s[16] != 58
            || s[19] != 46 {
            return None;
        }
        let year = match read_number(s, 0, 4) {
            Some(v) => v,
            None => return None,
        };
        let month = match read_number(s, 5, 2) {
            Some(v) => v,
            None => return None,
        };
        let day = match read_number(s, 8, 2) {
            Some(v) => v,
            None => return None,
        };
        let hour = match read_number(s, 11, 2) {
            Some(v) => v,
            None => return None,
        };
        let minute = match read_number(s, 14, 2) {
            Some(v) => v,
            None => return None,
        };
        let second = match read_number(s, 17, 2) {
            Some(v) => v,
            None => return None,
        };
        let micro = match read_number(s, 20, 6) {
            Some(v) => v,
            None => return None,
        };
        assert(fields_of(s@) == Timestamp { year, month, day, hour, minute, second, micro });
        Timestamp::new(year, month, day, hour, minute, second, micro)
    }
}

} // verus!
