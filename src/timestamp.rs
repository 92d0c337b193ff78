//! Creation times of posts, and their text form in the store.
//!
//! A timestamp is written `YYYY-MM-DDTHH:MM:SS.fffffffffZ` (nine fractional
//! digits, UTC). Stores written earlier hold `YYYY-MM-DDTHH:MM:SS.fffZ`
//! (three digits); both forms are read back.
use vstd::prelude::*;
use vstd::string::*;

verus! {

pub open spec fn pow10(n: nat) -> nat
    decreases n,
{
    if n == 0 {
        1
    } else {
        10 * pow10((n - 1) as nat)
    }
}

pub open spec fn is_digit(c: char) -> bool {
    '0' <= c && c <= '9'
}

pub open spec fn digit_value(c: char) -> nat {
    (c as int - 48) as nat
}

pub open spec fn digit_char(d: nat) -> char {
    ((d + 48) as u8) as char
}

/// `n` written with exactly `w` decimal digits, zero-padded on the left.
pub open spec fn digits(n: nat, w: nat) -> Seq<char>
    decreases w,
{
    if w == 0 {
        Seq::empty()
    } else {
        digits(n / 10, (w - 1) as nat).push(digit_char(n % 10))
    }
}

pub open spec fn all_digits(cs: Seq<char>) -> bool {
    forall|i: int| 0 <= i < cs.len() ==> is_digit(#[trigger] cs[i])
}

/// The number that a run of decimal digits spells.
pub open spec fn value_of(cs: Seq<char>) -> nat
    decreases cs.len(),
{
    if cs.len() == 0 {
        0
    } else {
        value_of(cs.drop_last()) * 10 + digit_value(cs.last())
    }
}

pub open spec fn is_leap_year(y: int) -> bool {
    (y % 4 == 0 && y % 100 != 0) || y % 400 == 0
}

pub open spec fn days_in_month(y: int, m: int) -> int {
    if m == 2 {
        if is_leap_year(y) {
            29
        } else {
            28
        }
    } else if m == 4 || m == 6 || m == 9 || m == 11 {
        30
    } else {
        31
    }
}

/// Day `d` of month `m` exists in year `y` of the Gregorian calendar.
pub open spec fn is_calendar_date(y: int, m: int, d: int) -> bool {
    1 <= m <= 12 && 1 <= d <= days_in_month(y, m)
}

/// A UTC point in time with nanosecond precision, years 0 to 9999.
#[derive(Clone, Copy, Debug, PartialEq, Eq, Structural)]
pub struct Timestamp {
    pub year: u16,
    pub month: u8,
    pub day: u8,
    pub hour: u8,
    pub minute: u8,
    pub second: u8,
    pub nanosecond: u32,
}

impl Timestamp {
    pub open spec fn wf(self) -> bool {
        &&& self.year <= 9999
        &&& is_calendar_date(self.year as int, self.month as int, self.day as int)
        &&& self.hour < 24
        &&& self.minute < 60
        &&& self.second < 60
        &&& self.nanosecond < 1_000_000_000
    }

    /// The position of the timestamp on the time line: for well-formed
    /// timestamps, `a.key() < b.key()` exactly when `a` is earlier than `b`.
    pub open spec fn key(self) -> int {
        ((((((self.year as int) * 12 + self.month as int) * 31 + self.day as int) * 24
            + self.hour as int) * 60 + self.minute as int) * 60 + self.second as int)
            * 1_000_000_000 + self.nanosecond as int
    }

    /// The text form with `w` fractional digits (`w` is 9 or 3).
    pub open spec fn text(self, w: nat) -> Seq<char> {
        digits(self.year as nat, 4) + seq!['-'] + digits(self.month as nat, 2) + seq!['-']
            + digits(self.day as nat, 2) + seq!['T'] + digits(self.hour as nat, 2) + seq![':']
            + digits(self.minute as nat, 2) + seq![':'] + digits(self.second as nat, 2)
            + seq!['.'] + digits(self.nanosecond as nat / pow10((9 - w) as nat), w)
            + seq!['Z']
    }

    /// `s` is the text of `self` in the current form, or in the millisecond
    /// form when `self` falls on a whole millisecond.
    pub open spec fn is_read_from(self, s: Seq<char>) -> bool {
        &&& self.wf()
        &&& (s == self.text(9) || (self.nanosecond % 1_000_000 == 0 && s == self.text(3)))
    }
}

pub open spec fn is_timestamp_text(s: Seq<char>) -> bool {
    exists|t: Timestamp| t.is_read_from(s)
}

pub proof fn lemma_pow10_values()
    ensures
        pow10(0) == 1,
        pow10(1) == 10,
        pow10(2) == 100,
        pow10(3) == 1000,
        pow10(4) == 10000,
        pow10(6) == 1_000_000,
        pow10(9) == 1_000_000_000,
{
    reveal_with_fuel(pow10, 10);
}

proof fn lemma_digits_len(n: nat, w: nat)
    ensures
        digits(n, w).len() == w,
    decreases w,
{
    if w > 0 {
        lemma_digits_len(n / 10, (w - 1) as nat);
    }
}

/// A run of digits is the padded text of the number it spells.
proof fn lemma_digits_of_value(cs: Seq<char>)
    requires
        all_digits(cs),
    ensures
        digits(value_of(cs), cs.len()) == cs,
        value_of(cs) < pow10(cs.len()),
    decreases cs.len(),
{
    if cs.len() > 0 {
        let p = cs.drop_last();
        assert(all_digits(p)) by {
            assert forall|i: int| 0 <= i < p.len() implies is_digit(#[trigger] p[i]) by {
                assert(p[i] == cs[i]);
            }
        }
        lemma_digits_of_value(p);
        assert(is_digit(cs[cs.len() - 1]));
        let v = value_of(cs);
        let pv = value_of(p);
        let d = digit_value(cs.last());
        let pp = pow10(p.len());
        assert(d < 10);
        assert(v / 10 == pv && v % 10 == d) by (nonlinear_arith)
            requires
                v == pv * 10 + d,
                d < 10,
        ;
        assert(digit_char(d) == cs.last());
        assert(digits(v, cs.len()) =~= cs);
        assert(v < 10 * pp) by (nonlinear_arith)
            requires
                pv < pp,
                v == pv * 10 + d,
                d < 10,
        ;
    }
}

/// The padded text of a number that fits is a run of digits spelling it.
proof fn lemma_value_of_digits(n: nat, w: nat)
    requires
        n < pow10(w),
    ensures
        all_digits(digits(n, w)),
        value_of(digits(n, w)) == n,
        digits(n, w).len() == w,
    decreases w,
{
    lemma_digits_len(n, w);
    if w > 0 {
        let w1 = (w - 1) as nat;
        let p = pow10(w1);
        assert(n / 10 < p) by (nonlinear_arith)
            requires
                n < 10 * p,
        ;
        lemma_value_of_digits(n / 10, w1);
        let cs = digits(n, w);
        assert(cs.drop_last() =~= digits(n / 10, w1));
        assert(n == (n / 10) * 10 + n % 10) by (nonlinear_arith);
        assert(all_digits(cs)) by {
            assert forall|i: int| 0 <= i < cs.len() implies is_digit(#[trigger] cs[i]) by {
                if i < cs.len() - 1 {
                    assert(cs[i] == digits(n / 10, w1)[i]);
                }
            }
        }
    } else {
        assert(n == 0);
    }
}

/// Where `s` stands, in the text form with `w` fractional digits.
proof fn lemma_text_layout(t: Timestamp, w: nat, s: Seq<char>)
    requires
        s.len() == 21 + w,
    ensures
        s == t.text(w) <==> {
            &&& s.subrange(0, 4) == digits(t.year as nat, 4)
            &&& s[4] == '-'
            &&& s.subrange(5, 7) == digits(t.month as nat, 2)
            &&& s[7] == '-'
            &&& s.subrange(8, 10) == digits(t.day as nat, 2)
            &&& s[10] == 'T'
            &&& s.subrange(11, 13) == digits(t.hour as nat, 2)
            &&& s[13] == ':'
            &&& s.subrange(14, 16) == digits(t.minute as nat, 2)
            &&& s[16] == ':'
            &&& s.subrange(17, 19) == digits(t.second as nat, 2)
            &&& s[19] == '.'
            &&& s.subrange(20, 20 + w as int) == digits(
                t.nanosecond as nat / pow10((9 - w) as nat),
                w,
            )
            &&& s[20 + w as int] == 'Z'
        },
{
    let f = t.nanosecond as nat / pow10((9 - w) as nat);
    lemma_digits_len(t.year as nat, 4);
    lemma_digits_len(t.month as nat, 2);
    lemma_digits_len(t.day as nat, 2);
    lemma_digits_len(t.hour as nat, 2);
    lemma_digits_len(t.minute as nat, 2);
    lemma_digits_len(t.second as nat, 2);
    lemma_digits_len(f, w);
    let x = t.text(w);
    assert(x.len() == 21 + w);
    assert(x.subrange(0, 4) =~= digits(t.year as nat, 4));
    assert(x.subrange(5, 7) =~= digits(t.month as nat, 2));
    assert(x.subrange(8, 10) =~= digits(t.day as nat, 2));
    assert(x.subrange(11, 13) =~= digits(t.hour as nat, 2));
    assert(x.subrange(14, 16) =~= digits(t.minute as nat, 2));
    assert(x.subrange(17, 19) =~= digits(t.second as nat, 2));
    assert(x.subrange(20, 20 + w as int) =~= digits(f, w));
    assert(x[4] == '-' && x[7] == '-' && x[10] == 'T' && x[13] == ':' && x[16] == ':' && x[19]
        == '.' && x[20 + w as int] == 'Z');
    if s.subrange(0, 4) == x.subrange(0, 4) && s[4] == x[4] && s.subrange(5, 7) == x.subrange(5, 7)
        && s[7] == x[7] && s.subrange(8, 10) == x.subrange(8, 10) && s[10] == x[10] && s.subrange(
        11,
        13,
    ) == x.subrange(11, 13) && s[13] == x[13] && s.subrange(14, 16) == x.subrange(14, 16) && s[16]
        == x[16] && s.subrange(17, 19) == x.subrange(17, 19) && s[19] == x[19] && s.subrange(
        20,
        20 + w as int,
    ) == x.subrange(20, 20 + w as int) && s[20 + w as int] == x[20 + w as int] {
        assert forall|i: int| 0 <= i < s.len() implies s[i] == x[i] by {
            if i < 4 {
                assert(s[i] == s.subrange(0, 4)[i] && x[i] == x.subrange(0, 4)[i]);
            } else if 5 <= i < 7 {
                assert(s[i] == s.subrange(5, 7)[i - 5] && x[i] == x.subrange(5, 7)[i - 5]);
            } else if 8 <= i < 10 {
                assert(s[i] == s.subrange(8, 10)[i - 8] && x[i] == x.subrange(8, 10)[i - 8]);
            } else if 11 <= i < 13 {
                assert(s[i] == s.subrange(11, 13)[i - 11] && x[i] == x.subrange(11, 13)[i - 11]);
            } else if 14 <= i < 16 {
                assert(s[i] == s.subrange(14, 16)[i - 14] && x[i] == x.subrange(14, 16)[i - 14]);
            } else if 17 <= i < 19 {
                assert(s[i] == s.subrange(17, 19)[i - 17] && x[i] == x.subrange(17, 19)[i - 17]);
            } else if 20 <= i < 20 + w {
                assert(s[i] == s.subrange(20, 20 + w as int)[i - 20] && x[i] == x.subrange(
                    20,
                    20 + w as int,
                )[i - 20]);
            }
        }
        assert(s =~= x);
    }
}


proof fn lemma_pow10_grows(i: nat, j: nat)
    requires
        i <= j,
    ensures
        pow10(i) <= pow10(j),
    decreases j,
{
    if i < j {
        lemma_pow10_grows(i, (j - 1) as nat);
    }
}

/// The fields of a timestamp, read off its text form.
proof fn lemma_text_fields(t: Timestamp, w: nat, s: Seq<char>)
    requires
        t.wf(),
        w == 9 || w == 3,
        s == t.text(w),
    ensures
        s.len() == 21 + w,
        s[4] == '-' && s[7] == '-' && s[10] == 'T' && s[13] == ':' && s[16] == ':' && s[19] == '.'
            && s[20 + w as int] == 'Z',
        all_digits(s.subrange(0, 4)) && value_of(s.subrange(0, 4)) == t.year,
        all_digits(s.subrange(5, 7)) && value_of(s.subrange(5, 7)) == t.month,
        all_digits(s.subrange(8, 10)) && value_of(s.subrange(8, 10)) == t.day,
        all_digits(s.subrange(11, 13)) && value_of(s.subrange(11, 13)) == t.hour,
        all_digits(s.subrange(14, 16)) && value_of(s.subrange(14, 16)) == t.minute,
        all_digits(s.subrange(17, 19)) && value_of(s.subrange(17, 19)) == t.second,
        all_digits(s.subrange(20, 20 + w as int)) && value_of(s.subrange(20, 20 + w as int))
            == t.nanosecond as nat / pow10((9 - w) as nat),
{
    lemma_pow10_values();
    let f = t.nanosecond as nat / pow10((9 - w) as nat);
    if w == 9 {
        assert((9 - w) as nat == 0);
        assert(t.nanosecond as nat / 1 == t.nanosecond);
    } else {
        assert(f < 1000) by (nonlinear_arith)
            requires
                f == t.nanosecond as nat / 1_000_000,
                t.nanosecond < 1_000_000_000,
        ;
    }
    lemma_value_of_digits(t.year as nat, 4);
    lemma_value_of_digits(t.month as nat, 2);
    lemma_value_of_digits(t.day as nat, 2);
    lemma_value_of_digits(t.hour as nat, 2);
    lemma_value_of_digits(t.minute as nat, 2);
    lemma_value_of_digits(t.second as nat, 2);
    lemma_value_of_digits(f, w);
    assert(s.len() == 21 + w);
    lemma_text_layout(t, w, s);
}

fn digit_text(d: u32) -> (r: &'static str)
    requires
        d < 10,
    ensures
        r@ == seq![digit_char(d as nat)],
{
    proof {
        reveal_strlit("0");
        reveal_strlit("1");
        reveal_strlit("2");
        reveal_strlit("3");
        reveal_strlit("4");
        reveal_strlit("5");
        reveal_strlit("6");
        reveal_strlit("7");
        reveal_strlit("8");
        reveal_strlit("9");
    }
    let r = match d {
        0 => "0",
        1 => "1",
        2 => "2",
        3 => "3",
        4 => "4",
        5 => "5",
        6 => "6",
        7 => "7",
        8 => "8",
        _ => "9",
    };
    assert(r@ =~= seq![digit_char(d as nat)]);
    r
}

/// Appends the last `w` decimal digits of `n`.
fn append_digits(out: &mut String, n: u32, w: usize)
    ensures
        final(out)@ == old(out)@ + digits(n as nat, w as nat),
    decreases w,
{
    if w > 0 {
        append_digits(out, n / 10, w - 1);
        out.append(digit_text(n % 10));
        assert(out@ =~= old(out)@ + digits(n as nat, w as nat));
    } else {
        assert(out@ =~= old(out)@ + digits(n as nat, w as nat));
    }
}

/// Reads the number spelled by the `w` characters of `s` from `start` on,
/// if they are all decimal digits.
fn read_number(s: &str, start: usize, w: usize) -> (r: Option<u32>)
    requires
        start + w <= s@.len(),
        start + w <= 30,
        w <= 9,
    ensures
        match r {
            Some(v) => {
                &&& all_digits(s@.subrange(start as int, start + w))
                &&& v == value_of(s@.subrange(start as int, start + w))
                &&& v < pow10(w as nat)
            },
            None => !all_digits(s@.subrange(start as int, start + w)),
        },
{
    let mut v: u32 = 0;
    let mut i: usize = 0;
    proof {
        assert(s@.subrange(start as int, start as int) =~= Seq::<char>::empty());
        lemma_pow10_values();
    }
    while i < w
        invariant
            i <= w,
            w <= 9,
            start + w <= s@.len(),
            start + w <= 30,
            all_digits(s@.subrange(start as int, start + i)),
            v == value_of(s@.subrange(start as int, start + i)),
            v < pow10(i as nat),
        decreases w - i,
    {
        let c = s.get_char(start + i);
        if !('0' <= c && c <= '9') {
            assert(s@.subrange(start as int, start + w)[i as int] == c);
            return None;
        }
        let ghost prev = s@.subrange(start as int, start + i);
        let d: u32 = (c as u32) - 48;
        proof {
            lemma_pow10_grows((i + 1) as nat, 9);
            lemma_pow10_values();
        }
        v = v * 10 + d;
        i = i + 1;
        proof {
            let cur = s@.subrange(start as int, start + i);
            assert(cur.drop_last() =~= prev);
            assert(cur.last() == c);
            assert forall|k: int| 0 <= k < cur.len() implies is_digit(#[trigger] cur[k]) by {
                if k < cur.len() - 1 {
                    assert(cur[k] == prev[k]);
                }
            }
        }
    }
    Some(v)
}

/// Relies on chrono's `NaiveDate::from_ymd_opt`, which gives a date exactly
/// when day `day` of month `month` exists in year `year`.
#[verifier::external_body]
fn calendar_date_exists(year: u16, month: u8, day: u8) -> (r: bool)
    requires
        year <= 9999,
    ensures
        r == is_calendar_date(year as int, month as int, day as int),
{
    chrono::NaiveDate::from_ymd_opt(year as i32, month as u32, day as u32).is_some()
}

/// Relies on std's `SystemTime::now` and `SystemTime::duration_since`: the
/// time elapsed since the Unix epoch as whole seconds and the nanoseconds
/// past them (`Duration::subsec_nanos` is below one billion), or `None` when
/// the system clock reads before the epoch.
#[verifier::external_body]
fn unix_time_now() -> (r: Option<(u64, u32)>)
    ensures
        r matches Some(x) ==> x.1 < 1_000_000_000,
{
    std::time::SystemTime::now().duration_since(std::time::UNIX_EPOCH).ok().map(
        |d| (d.as_secs(), d.subsec_nanos()),
    )
}

/// Relies on chrono's `DateTime::from_timestamp`, which gives the UTC date
/// and time `secs` seconds and `nanos` nanoseconds after the Unix epoch, or
/// `None` out of its range; the fields are read by chrono's `Datelike` and
/// `Timelike` accessors. With `nanos` below one billion there is no leap
/// second, so the second is below 60 and the nanosecond is `nanos`.
#[verifier::external_body]
fn utc_fields_of_unix_time(secs: i64, nanos: u32) -> (r: Option<(i32, u32, u32, u32, u32, u32, u32)>)
    requires
        nanos < 1_000_000_000,
    ensures
        r matches Some(f) ==> {
            &&& is_calendar_date(f.0 as int, f.1 as int, f.2 as int)
            &&& f.3 < 24
            &&& f.4 < 60
            &&& f.5 < 60
            &&& f.6 == nanos
        },
{
    chrono::DateTime::from_timestamp(secs, nanos).map(
        |d| {
            (
                chrono::Datelike::year(&d),
                chrono::Datelike::month(&d),
                chrono::Datelike::day(&d),
                chrono::Timelike::hour(&d),
                chrono::Timelike::minute(&d),
                chrono::Timelike::second(&d),
                chrono::Timelike::nanosecond(&d),
            )
        },
    )
}

impl Timestamp {
    /// The timestamp of a clock reading, given as calendar fields; `None`
    /// when its year lies outside 0 to 9999.
    pub fn from_clock_fields(y: i32, mo: u32, d: u32, h: u32, mi: u32, se: u32, ns: u32) -> (r:
        Option<Timestamp>)
        requires
            is_calendar_date(y as int, mo as int, d as int),
            h < 24,
            mi < 60,
            se < 60,
            ns < 1_000_000_000,
        ensures
            r is Some <==> 0 <= y <= 9999,
            r matches Some(t) ==> t.wf() && t.year == y && t.month == mo && t.day == d && t.hour
                == h && t.minute == mi && t.second == se && t.nanosecond == ns,
    {
        if 0 <= y && y <= 9999 {
            Some(
                Timestamp {
                    year: y as u16,
                    month: mo as u8,
                    day: d as u8,
                    hour: h as u8,
                    minute: mi as u8,
                    second: se as u8,
                    nanosecond: ns,
                },
            )
        } else {
            None
        }
    }

    /// The current UTC time; `None` when the system clock reads before 1970,
    /// beyond what chrono represents, or in a year past 9999.
    pub fn now() -> (r: Option<Timestamp>)
        ensures
            r matches Some(t) ==> t.wf(),
    {
        match unix_time_now() {
            None => None,
            Some((secs, nanos)) => {
                if secs > i64::MAX as u64 {
                    None
                } else {
                    match utc_fields_of_unix_time(secs as i64, nanos) {
                        None => None,
                        Some((y, mo, d, h, mi, se, ns)) => Timestamp::from_clock_fields(
                            y,
                            mo,
                            d,
                            h,
                            mi,
                            se,
                            ns,
                        ),
                    }
                }
            },
        }
    }

    /// The text stored for this timestamp: nine fractional digits.
    pub fn encode(&self) -> (r: String)
        requires
            self.wf(),
        ensures
            r@ == self.text(9),
    {
        proof {
            reveal_strlit("-");
            reveal_strlit("T");
            reveal_strlit(":");
            reveal_strlit(".");
            reveal_strlit("Z");
            lemma_pow10_values();
        }
        let mut out = String::new();
        append_digits(&mut out, self.year as u32, 4);
        out.append("-");
        append_digits(&mut out, self.month as u32, 2);
        out.append("-");
        append_digits(&mut out, self.day as u32, 2);
        out.append("T");
        append_digits(&mut out, self.hour as u32, 2);
        out.append(":");
        append_digits(&mut out, self.minute as u32, 2);
        out.append(":");
        append_digits(&mut out, self.second as u32, 2);
        out.append(".");
        append_digits(&mut out, self.nanosecond, 9);
        out.append("Z");
        assert(self.nanosecond as nat / pow10(0) == self.nanosecond);
        assert(out@ =~= self.text(9));
        out
    }

    /// `self.key()`, computed.
    pub fn sort_key(&self) -> (r: u128)
        requires
            self.wf(),
        ensures
            r == self.key(),
    {
        let a = self.year as u128 * 12 + self.month as u128;
        let b = a * 31 + self.day as u128;
        let c = b * 24 + self.hour as u128;
        let e = c * 60 + self.minute as u128;
        let g = e * 60 + self.second as u128;
        g * 1_000_000_000 + self.nanosecond as u128
    }
}


/// `t` is read from `s` in the form with `w` fractional digits.
pub open spec fn read_with_width(s: Seq<char>, w: nat, t: Timestamp) -> bool {
    &&& t.wf()
    &&& t.nanosecond as nat % pow10((9 - w) as nat) == 0
    &&& s == t.text(w)
}

/// Reads `s` in the form with `w` fractional digits.
fn decode_with_width(s: &str, w: usize) -> (r: Option<Timestamp>)
    requires
        w == 9 || w == 3,
    ensures
        match r {
            Some(t) => read_with_width(s@, w as nat, t),
            None => forall|t: Timestamp| !read_with_width(s@, w as nat, t),
        },
{
    proof {
        lemma_pow10_values();
    }
    let n = s.unicode_len();
    if n != 21 + w {
        proof {
            assert forall|t: Timestamp| !read_with_width(s@, w as nat, t) by {
                if read_with_width(s@, w as nat, t) {
                    lemma_text_fields(t, w as nat, s@);
                }
            }
        }
        return None;
    }
    let year = read_number(s, 0, 4);
    let month = read_number(s, 5, 2);
    let day = read_number(s, 8, 2);
    let hour = read_number(s, 11, 2);
    let minute = read_number(s, 14, 2);
    let second = read_number(s, 17, 2);
    let fraction = read_number(s, 20, w);
    let separators = s.get_char(4) == '-' && s.get_char(7) == '-' && s.get_char(10) == 'T'
        && s.get_char(13) == ':' && s.get_char(16) == ':' && s.get_char(19) == '.' && s.get_char(
        20 + w,
    ) == 'Z';
    let r = match (year, month, day, hour, minute, second, fraction) {
        (Some(y), Some(mo), Some(d), Some(h), Some(mi), Some(se), Some(f)) => {
            if separators && h < 24 && mi < 60 && se < 60 && calendar_date_exists(
                y as u16,
                mo as u8,
                d as u8,
            ) {
                let nanosecond = if w == 9 {
                    f
                } else {
                    f * 1_000_000
                };
                let t = Timestamp {
                    year: y as u16,
                    month: mo as u8,
                    day: d as u8,
                    hour: h as u8,
                    minute: mi as u8,
                    second: se as u8,
                    nanosecond,
                };
                proof {
                    lemma_digits_of_value(s@.subrange(0, 4));
                    lemma_digits_of_value(s@.subrange(5, 7));
                    lemma_digits_of_value(s@.subrange(8, 10));
                    lemma_digits_of_value(s@.subrange(11, 13));
                    lemma_digits_of_value(s@.subrange(14, 16));
                    lemma_digits_of_value(s@.subrange(17, 19));
                    lemma_digits_of_value(s@.subrange(20, 20 + w as int));
                    if w == 9 {
                        assert((9 - w) as nat == 0);
                        assert(nanosecond as nat / 1 == f);
                        assert(nanosecond as nat % 1 == 0);
                    } else {
                        assert((9 - w) as nat == 6);
                        assert(nanosecond as nat / 1_000_000 == f && nanosecond as nat % 1_000_000
                            == 0 && nanosecond < 1_000_000_000) by (nonlinear_arith)
                            requires
                                nanosecond == f * 1_000_000,
                                f < 1000,
                        ;
                    }
                    lemma_text_layout(t, w as nat, s@);
                }
                Some(t)
            } else {
                None
            }
        },
        _ => None,
    };
    proof {
        if r is None {
            assert forall|t: Timestamp| !read_with_width(s@, w as nat, t) by {
                if read_with_width(s@, w as nat, t) {
                    lemma_text_fields(t, w as nat, s@);
                }
            }
        }
    }
    r
}

/// Fractional-second widths of the accepted text forms, tried in this order.
pub const FRACTION_WIDTHS: [usize; 2] = [9, 3];

/// Reads a stored timestamp: the current form (nine fractional digits) is
/// tried first, then the older millisecond form.
pub fn decode(s: &str) -> (r: Option<Timestamp>)
    ensures
        match r {
            Some(t) => t.is_read_from(s@),
            None => !is_timestamp_text(s@),
        },
{
    proof {
        lemma_pow10_values();
    }
    let mut k: usize = 0;
    while k < 2
        invariant
            k <= 2,
            FRACTION_WIDTHS@ == seq![9usize, 3usize],
            forall|j: int, t: Timestamp|
                0 <= j < k ==> !read_with_width(s@, FRACTION_WIDTHS@[j] as nat, t),
        decreases 2 - k,
    {
        let w = FRACTION_WIDTHS[k];
        match decode_with_width(s, w) {
            Some(t) => {
                proof {
                    if w == 3 {
                        lemma_pow10_values();
                        assert(pow10((9 - (w as nat)) as nat) == pow10(6));
                    } else {
                    }
                }
                return Some(t);
            },
            None => {},
        }
        k = k + 1;
    }
    proof {
        assert forall|t: Timestamp| !t.is_read_from(s@) by {
            assert(!read_with_width(s@, 9, t));
            assert(!read_with_width(s@, 3, t));
            assert(t.nanosecond as nat % 1 == 0);
        }
    }
    None
}


/// Both text forms read back: every timestamp is read from its current text,
/// and one on a whole millisecond also from its older, millisecond text.
pub proof fn lemma_both_forms_read(t: Timestamp)
    requires
        t.wf(),
    ensures
        t.is_read_from(t.text(9)),
        t.nanosecond % 1_000_000 == 0 ==> t.is_read_from(t.text(3)),
{
}

/// A text is read as one timestamp at most: reading is exact.
pub proof fn lemma_read_is_unique(s: Seq<char>, a: Timestamp, b: Timestamp)
    requires
        a.is_read_from(s),
        b.is_read_from(s),
    ensures
        a == b,
{
    lemma_pow10_values();
    let wa: nat = if s == a.text(9) { 9 } else { 3 };
    let wb: nat = if s == b.text(9) { 9 } else { 3 };
    lemma_text_fields(a, wa, s);
    lemma_text_fields(b, wb, s);
    assert(wa == wb);
    if wa == 9 {
        assert((9 - wa) as nat == 0);
        assert(a.nanosecond as nat / 1 == a.nanosecond);
        assert(b.nanosecond as nat / 1 == b.nanosecond);
    } else {
        assert((9 - wa) as nat == 6);
        let fa = a.nanosecond as nat / 1_000_000;
        let fb = b.nanosecond as nat / 1_000_000;
        assert(a.nanosecond as nat == fa * 1_000_000) by (nonlinear_arith)
            requires
                a.nanosecond as nat % 1_000_000 == 0,
                fa == a.nanosecond as nat / 1_000_000,
        ;
        assert(b.nanosecond as nat == fb * 1_000_000) by (nonlinear_arith)
            requires
                b.nanosecond as nat % 1_000_000 == 0,
                fb == b.nanosecond as nat / 1_000_000,
        ;
    }
}

} // verus!
