//! Second-precision timestamps with a fixed UTC offset.
//!
//! A timestamp is stored as wall-clock seconds since 0001-01-01 00:00:00 in
//! its own offset, plus the offset itself in seconds east of UTC.  Two
//! timestamps are compared by the instant they denote, `secs - offset`.

use vstd::prelude::*;
use vstd::string::*;

use crate::calendar::{
    day_has_ymd, days_from_ymd, spec_days_ce, spec_ymd_of_days, valid_ymd, ymd_from_days,
    MAX_DAY_CE,
};
use crate::duration::{digits_value, is_digit_char};

verus! {

/// Wall-clock seconds of 9999-12-31 23:59:59.
pub const MAX_TS_SECS: u64 = 315537897599;

/// Offsets stay below one day in magnitude (`hh:mm` with `hh <= 23`).
pub const MAX_OFFSET_SECS: i32 = 86340;

#[derive(Clone, Copy, Debug, PartialEq, Eq, Structural)]
pub struct Timestamp {
    /// Wall-clock seconds since 0001-01-01 00:00:00 in the own offset.
    pub secs: u64,
    /// Seconds east of UTC.
    pub offset: i32,
}

/// Wall-clock seconds of the date-time fields.
pub open spec fn spec_secs_of(y: int, mo: int, d: int, h: int, mi: int, s: int) -> int {
    spec_days_ce(y, mo, d) * 86400 + h * 3600 + mi * 60 + s
}

/// All seven fields of a timestamp lie in their calendar ranges.
pub open spec fn valid_fields(y: int, mo: int, d: int, h: int, mi: int, s: int, off: int) -> bool {
    &&& valid_ymd(y, mo, d)
    &&& 0 <= h <= 23
    &&& 0 <= mi <= 59
    &&& 0 <= s <= 59
    &&& -MAX_OFFSET_SECS <= off <= MAX_OFFSET_SECS
    &&& off % 60 == 0
}

impl Timestamp {
    pub open spec fn wf(&self) -> bool {
        &&& self.secs <= MAX_TS_SECS
        &&& -MAX_OFFSET_SECS <= self.offset <= MAX_OFFSET_SECS
        &&& self.offset % 60 == 0
    }

    /// The instant denoted: seconds since 0001-01-01 00:00:00 UTC.
    pub open spec fn spec_instant(&self) -> int {
        self.secs - self.offset
    }

    /// Day number of the wall-clock date.
    pub open spec fn spec_day(&self) -> int {
        self.secs as int / 86400
    }

    /// Wall-clock seconds since midnight.
    pub open spec fn spec_sod(&self) -> int {
        self.secs as int % 86400
    }

    pub open spec fn spec_hour(&self) -> int {
        self.spec_sod() / 3600
    }

    pub open spec fn spec_minute(&self) -> int {
        (self.spec_sod() % 3600) / 60
    }

    pub open spec fn spec_second(&self) -> int {
        self.spec_sod() % 60
    }

    /// The wall-clock calendar date.
    pub open spec fn spec_ymd(&self) -> (int, int, int) {
        spec_ymd_of_days(self.spec_day())
    }

    pub fn instant(&self) -> (r: i64)
        requires
            self.wf(),
        ensures
            r == self.spec_instant(),
    {
        self.secs as i64 - self.offset as i64
    }

    /// Builds a timestamp from calendar fields; `None` exactly when some
    /// field is out of range.
    pub fn new(y: u64, mo: u64, d: u64, h: u64, mi: u64, s: u64, off: i32) -> (r: Option<
        Timestamp,
    >)
        ensures
            valid_fields(y as int, mo as int, d as int, h as int, mi as int, s as int, off as int)
                ==> (r matches Some(ts) && ts.wf() && ts.offset == off && ts.secs
                == spec_secs_of(y as int, mo as int, d as int, h as int, mi as int, s as int)),
            !valid_fields(y as int, mo as int, d as int, h as int, mi as int, s as int, off as int)
                ==> r is None,
    {
        if !(1 <= y && y <= 9999 && 1 <= mo && mo <= 12) {
            return None;
        }
        let dim = crate::calendar::days_in_month(y, mo);
        if !(1 <= d && d <= dim && h <= 23 && mi <= 59 && s <= 59 && -MAX_OFFSET_SECS <= off
            && off <= MAX_OFFSET_SECS) {
            return None;
        }
        let off_mag: u32 = if off >= 0 {
            off as u32
        } else {
            (-off) as u32
        };
        if off_mag % 60 != 0 {
            proof {
                lemma_neg_mod_60(off as int);
            }
            return None;
        }
        proof {
            lemma_neg_mod_60(off as int);
        }
        let days = days_from_ymd(y, mo, d);
        let secs = days * 86400 + h * 3600 + mi * 60 + s;
        Some(Timestamp { secs, offset: off })
    }

    /// The wall-clock calendar fields `(y, mo, d, h, mi, s)`.
    pub fn fields(&self) -> (r: (u64, u64, u64, u64, u64, u64))
        requires
            self.wf(),
        ensures
            (r.0 as int, r.1 as int, r.2 as int) == self.spec_ymd(),
            r.3 == self.spec_hour(),
            r.4 == self.spec_minute(),
            r.5 == self.spec_second(),
            day_has_ymd(self.spec_day(), r.0 as int, r.1 as int, r.2 as int),
            r.3 <= 23 && r.4 <= 59 && r.5 <= 59,
    {
        let days = self.secs / 86400;
        let sod = self.secs % 86400;
        proof {
            vstd::arithmetic::div_mod::lemma_div_is_ordered(self.secs as int, MAX_TS_SECS as int, 86400);
            assert(MAX_TS_SECS as int / 86400 == MAX_DAY_CE as int);
        }
        let (y, mo, d) = ymd_from_days(days);
        (y, mo, d, sod / 3600, (sod % 3600) / 60, sod % 60)
    }
}

/// A number and its negation are divisible by 60 together.
proof fn lemma_neg_mod_60(x: int)
    ensures
        (x % 60 == 0) <==> ((-x) % 60 == 0),
{
    vstd::arithmetic::div_mod::lemma_fundamental_div_mod(x, 60);
    vstd::arithmetic::div_mod::lemma_fundamental_div_mod(-x, 60);
    if x % 60 == 0 {
        assert(-x == (-(x / 60)) * 60 + 0) by (nonlinear_arith)
            requires
                x == 60 * (x / 60),
        ;
        vstd::arithmetic::div_mod::lemma_fundamental_div_mod_converse(-x, 60, -(x / 60), 0);
    }
    if (-x) % 60 == 0 {
        assert(x == (-((-x) / 60)) * 60 + 0) by (nonlinear_arith)
            requires
                -x == 60 * ((-x) / 60),
        ;
        vstd::arithmetic::div_mod::lemma_fundamental_div_mod_converse(x, 60, -((-x) / 60), 0);
    }
}

/// Decimal value of the fixed-width digit run `s[i..i+2]`.
pub open spec fn two_digits(s: Seq<char>, i: int) -> int {
    digits_value(s, i, i + 2) as int
}

pub open spec fn four_digits(s: Seq<char>, i: int) -> int {
    digits_value(s, i, i + 4) as int
}

pub open spec fn all_digits(s: Seq<char>, i: int, j: int) -> bool {
    forall|k: int| i <= k < j ==> is_digit_char(#[trigger] s[k])
}

/// Shape of the date-time part `YYYY-MM-DDThh:mm:ss` at the start of `s`.
pub open spec fn rfc3339_shape(s: Seq<char>) -> bool {
    &&& s.len() >= 19
    &&& all_digits(s, 0, 4)
    &&& s[4] == '-'
    &&& all_digits(s, 5, 7)
    &&& s[7] == '-'
    &&& all_digits(s, 8, 10)
    &&& s[10] == 'T'
    &&& all_digits(s, 11, 13)
    &&& s[13] == ':'
    &&& all_digits(s, 14, 16)
    &&& s[16] == ':'
    &&& all_digits(s, 17, 19)
}

/// The offset suffix beginning at index 19: `Z`, or `+hh:mm` / `-hh:mm`.
/// Returns the offset in seconds east of UTC.
pub open spec fn spec_parse_offset(s: Seq<char>) -> Option<int> {
    if s.len() == 20 && s[19] == 'Z' {
        Some(0)
    } else if s.len() == 25 && (s[19] == '+' || s[19] == '-') && all_digits(s, 20, 22) && s[22]
        == ':' && all_digits(s, 23, 25) && two_digits(s, 20) <= 23 && two_digits(s, 23) <= 59 {
        let magnitude = two_digits(s, 20) * 3600 + two_digits(s, 23) * 60;
        if s[19] == '+' {
            Some(magnitude)
        } else {
            Some(-magnitude)
        }
    } else {
        None
    }
}

/// Parses a full RFC 3339 date-time string with offset into its fields
/// `(y, mo, d, h, mi, s, off)`; `None` when the shape or some field range
/// is violated.
pub open spec fn spec_parse_rfc3339(s: Seq<char>) -> Option<(int, int, int, int, int, int, int)> {
    if rfc3339_shape(s) {
        let y = four_digits(s, 0);
        let mo = two_digits(s, 5);
        let d = two_digits(s, 8);
        let h = two_digits(s, 11);
        let mi = two_digits(s, 14);
        let sec = two_digits(s, 17);
        match spec_parse_offset(s) {
            Some(off) => {
                if valid_fields(y, mo, d, h, mi, sec, off) {
                    Some((y, mo, d, h, mi, sec, off))
                } else {
                    None
                }
            },
            None => None,
        }
    } else {
        None
    }
}

/// The timestamp a parseable RFC 3339 string denotes.
pub open spec fn spec_timestamp_of(s: Seq<char>) -> Option<Timestamp> {
    match spec_parse_rfc3339(s) {
        Some(f) => Some(
            Timestamp {
                secs: spec_secs_of(f.0, f.1, f.2, f.3, f.4, f.5) as u64,
                offset: f.6 as i32,
            },
        ),
        None => None,
    }
}

/// The decimal digit character of `v`.
pub open spec fn digit_char(v: int) -> char {
    ((48 + v) as u8) as char
}

pub open spec fn spec_two_digit_chars(v: int) -> Seq<char> {
    seq![digit_char(v / 10), digit_char(v % 10)]
}

pub open spec fn spec_four_digit_chars(v: int) -> Seq<char> {
    seq![
        digit_char(v / 1000),
        digit_char((v / 100) % 10),
        digit_char((v / 10) % 10),
        digit_char(v % 10),
    ]
}

/// The RFC 3339 rendering of a timestamp, second precision, always with an
/// explicit `+hh:mm` / `-hh:mm` offset.
pub open spec fn spec_format_rfc3339(ts: Timestamp) -> Seq<char> {
    let y = ts.spec_ymd().0;
    let mo = ts.spec_ymd().1;
    let d = ts.spec_ymd().2;
    let off = if ts.offset >= 0 {
        ts.offset as int
    } else {
        -(ts.offset as int)
    };
    spec_four_digit_chars(y) + seq!['-'] + spec_two_digit_chars(mo) + seq!['-']
        + spec_two_digit_chars(d) + seq!['T'] + spec_two_digit_chars(ts.spec_hour()) + seq![':']
        + spec_two_digit_chars(ts.spec_minute()) + seq![':'] + spec_two_digit_chars(
        ts.spec_second(),
    ) + (if ts.offset >= 0 {
        seq!['+']
    } else {
        seq!['-']
    }) + spec_two_digit_chars(off / 3600) + seq![':'] + spec_two_digit_chars((off % 3600) / 60)
}

fn digit_str(d: u64) -> (r: &'static str)
    requires
        d <= 9,
    ensures
        r@ =~= seq![digit_char(d as int)],
{
    proof {
        reveal_strlit("0");
        reveal_strlit("1");
        reveal_strlit("2");
        reveal_strlit("3");
        reveal_strlit("4");
        reveal_strlit("5");
        reveal_strlit("6");
        reveal_strlit("7");
        reveal_strlit("8");
        reveal_strlit("9");
    }
    match d {
        0 => "0",
        1 => "1",
        2 => "2",
        3 => "3",
        4 => "4",
        5 => "5",
        6 => "6",
        7 => "7",
        8 => "8",
        _ => "9",
    }
}

fn append_two_digits(out: &mut String, v: u64)
    requires
        v <= 99,
    ensures
        final(out)@ == old(out)@ + spec_two_digit_chars(v as int),
{
    out.append(digit_str(v / 10));
    out.append(digit_str(v % 10));
    proof {
        assert(out@ =~= old(out)@ + spec_two_digit_chars(v as int));
    }
}

fn append_four_digits(out: &mut String, v: u64)
    requires
        v <= 9999,
    ensures
        final(out)@ == old(out)@ + spec_four_digit_chars(v as int),
{
    out.append(digit_str(v / 1000));
    out.append(digit_str((v / 100) % 10));
    out.append(digit_str((v / 10) % 10));
    out.append(digit_str(v % 10));
    proof {
        assert(out@ =~= old(out)@ + spec_four_digit_chars(v as int));
    }
}

/// Renders the timestamp in RFC 3339 form, `YYYY-MM-DDThh:mm:ss+hh:mm`.
pub fn format_rfc3339(ts: &Timestamp) -> (r: String)
    requires
        ts.wf(),
    ensures
        r@ == spec_format_rfc3339(*ts),
{
    proof {
        reveal_strlit("-");
        reveal_strlit("T");
        reveal_strlit(":");
        reveal_strlit("+");
    }
    let (y, mo, d, h, mi, s) = ts.fields();
    let mut out = String::new();
    append_four_digits(&mut out, y);
    out.append("-");
    append_two_digits(&mut out, mo);
    out.append("-");
    append_two_digits(&mut out, d);
    out.append("T");
    append_two_digits(&mut out, h);
    out.append(":");
    append_two_digits(&mut out, mi);
    out.append(":");
    append_two_digits(&mut out, s);
    let mag: u64 = if ts.offset >= 0 {
        out.append("+");
        ts.offset as u64
    } else {
        out.append("-");
        (-(ts.offset as i64)) as u64
    };
    append_two_digits(&mut out, mag / 3600);
    out.append(":");
    append_two_digits(&mut out, (mag % 3600) / 60);
    proof {
        assert(out@ =~= spec_format_rfc3339(*ts));
    }
    out
}

/// Relies on chrono's `Local::now` with the `Datelike` and `Timelike`
/// accessors and `FixedOffset::local_minus_utc`: the month is 1 to 12, the
/// day of month 1 to 31, hour, minute and second in clock range, and a
/// fixed offset is less than one day in magnitude.  Nothing is assumed of
/// the year: the clock decides it.
#[verifier::external_body]
fn now_fields() -> (r: (i64, u64, u64, u64, u64, u64, i64))
    ensures
        1 <= r.1 <= 12,
        1 <= r.2 <= 31,
        r.3 <= 23,
        r.4 <= 59,
        r.5 <= 59,
        -86399 <= r.6 <= 86399,
{
    let n = chrono::Local::now();
    let off = chrono::offset::FixedOffset::local_minus_utc(n.offset());
    (
        chrono::Datelike::year(&n) as i64,
        chrono::Datelike::month(&n) as u64,
        chrono::Datelike::day(&n) as u64,
        chrono::Timelike::hour(&n) as u64,
        chrono::Timelike::minute(&n) as u64,
        chrono::Timelike::second(&n) as u64,
        off as i64,
    )
}

/// The current local wall-clock time.  `None` when the clock reports a
/// moment the calendar model cannot carry (a year outside 1 to 9999, an
/// out-of-range field, or an offset not in whole minutes).
pub fn now_local() -> (r: Option<Timestamp>)
    ensures
        r matches Some(ts) ==> ts.wf(),
{
    let (y, mo, d, h, mi, s, off) = now_fields();
    if y < 1 || y > 9999 {
        return None;
    }
    if off < -(MAX_OFFSET_SECS as i64) || off > MAX_OFFSET_SECS as i64 {
        return None;
    }
    Timestamp::new(y as u64, mo, d, h, mi, s, off as i32)
}

/// Every digit character reads back as its digit.
proof fn lemma_digit_char_val(x: int)
    requires
        0 <= x <= 9,
    ensures
        is_digit_char(digit_char(x)),
        crate::duration::digit_val(digit_char(x)) == x,
{
}

proof fn lemma_two_digit_read(s: Seq<char>, i: int, v: int)
    requires
        0 <= v <= 99,
        0 <= i,
        i + 2 <= s.len(),
        s[i] == digit_char(v / 10),
        s[i + 1] == digit_char(v % 10),
    ensures
        two_digits(s, i) == v,
        all_digits(s, i, i + 2),
{
    lemma_digit_char_val(v / 10);
    lemma_digit_char_val(v % 10);
    assert(digits_value(s, i, i + 2) == digits_value(s, i, i + 1) * 10
        + crate::duration::digit_val(s[i + 1]));
    assert(digits_value(s, i, i + 1) == digits_value(s, i, i) * 10 + crate::duration::digit_val(
        s[i],
    ));
    vstd::arithmetic::div_mod::lemma_fundamental_div_mod(v, 10);
}

proof fn lemma_four_digit_read(s: Seq<char>, i: int, v: int)
    requires
        0 <= v <= 9999,
        0 <= i,
        i + 4 <= s.len(),
        s[i] == digit_char(v / 1000),
        s[i + 1] == digit_char((v / 100) % 10),
        s[i + 2] == digit_char((v / 10) % 10),
        s[i + 3] == digit_char(v % 10),
    ensures
        four_digits(s, i) == v,
        all_digits(s, i, i + 4),
{
    lemma_digit_char_val(v / 1000);
    lemma_digit_char_val((v / 100) % 10);
    lemma_digit_char_val((v / 10) % 10);
    lemma_digit_char_val(v % 10);
    assert(digits_value(s, i, i + 4) == digits_value(s, i, i + 3) * 10
        + crate::duration::digit_val(s[i + 3]));
    assert(digits_value(s, i, i + 3) == digits_value(s, i, i + 2) * 10
        + crate::duration::digit_val(s[i + 2]));
    assert(digits_value(s, i, i + 2) == digits_value(s, i, i + 1) * 10
        + crate::duration::digit_val(s[i + 1]));
    assert(digits_value(s, i, i + 1) == digits_value(s, i, i) * 10 + crate::duration::digit_val(
        s[i],
    ));
    vstd::arithmetic::div_mod::lemma_fundamental_div_mod(v, 10);
    vstd::arithmetic::div_mod::lemma_fundamental_div_mod(v / 10, 10);
    vstd::arithmetic::div_mod::lemma_fundamental_div_mod(v / 100, 10);
    vstd::arithmetic::div_mod::lemma_div_denominator(v, 10, 10);
    vstd::arithmetic::div_mod::lemma_div_denominator(v, 100, 10);
}

/// Rendering a well-formed timestamp and reading the rendering back gives
/// the same timestamp: snapshot names made by this library always embed a
/// parseable timestamp denoting the creation instant.
#[verifier::rlimit(60)]
pub proof fn lemma_format_parse_round_trip(ts: Timestamp)
    requires
        ts.wf(),
    ensures
        spec_timestamp_of(spec_format_rfc3339(ts)) == Some(ts),
{
    vstd::arithmetic::div_mod::lemma_div_is_ordered(ts.secs as int, MAX_TS_SECS as int, 86400);
    assert(MAX_TS_SECS as int / 86400 == MAX_DAY_CE as int);
    crate::calendar::lemma_date_exists(ts.spec_day());
    let y = ts.spec_ymd().0;
    let mo = ts.spec_ymd().1;
    let d = ts.spec_ymd().2;
    let h = ts.spec_hour();
    let mi = ts.spec_minute();
    let sec = ts.spec_second();
    let off = ts.offset as int;
    let mag = if off >= 0 {
        off
    } else {
        -off
    };
    let s = spec_format_rfc3339(ts);
    let explicit = seq![
        digit_char(y / 1000),
        digit_char((y / 100) % 10),
        digit_char((y / 10) % 10),
        digit_char(y % 10),
        '-',
        digit_char(mo / 10),
        digit_char(mo % 10),
        '-',
        digit_char(d / 10),
        digit_char(d % 10),
        'T',
        digit_char(h / 10),
        digit_char(h % 10),
        ':',
        digit_char(mi / 10),
        digit_char(mi % 10),
        ':',
        digit_char(sec / 10),
        digit_char(sec % 10),
        (if off >= 0 {
            '+'
        } else {
            '-'
        }),
        digit_char((mag / 3600) / 10),
        digit_char((mag / 3600) % 10),
        ':',
        digit_char(((mag % 3600) / 60) / 10),
        digit_char(((mag % 3600) / 60) % 10),
    ];
    assert(s =~= explicit);
    vstd::arithmetic::div_mod::lemma_div_is_ordered(ts.spec_sod(), 86399, 3600);
    vstd::arithmetic::div_mod::lemma_div_is_ordered(ts.spec_sod() % 3600, 3599, 60);
    vstd::arithmetic::div_mod::lemma_div_is_ordered(mag, MAX_OFFSET_SECS as int, 3600);
    vstd::arithmetic::div_mod::lemma_div_is_ordered(mag % 3600, 3599, 60);
    lemma_four_digit_read(s, 0, y);
    lemma_two_digit_read(s, 5, mo);
    lemma_two_digit_read(s, 8, d);
    lemma_two_digit_read(s, 11, h);
    lemma_two_digit_read(s, 14, mi);
    lemma_two_digit_read(s, 17, sec);
    lemma_two_digit_read(s, 20, mag / 3600);
    lemma_two_digit_read(s, 23, (mag % 3600) / 60);
    assert(rfc3339_shape(s));
    // the offset digits recompose exactly, offsets being whole minutes
    lemma_neg_mod_60(off);
    vstd::arithmetic::div_mod::lemma_fundamental_div_mod(mag, 3600);
    vstd::arithmetic::div_mod::lemma_fundamental_div_mod(mag % 3600, 60);
    vstd::arithmetic::div_mod::lemma_mod_mod(mag, 60, 60);
    assert((mag % 3600) % 60 == 0);
    assert((mag / 3600) * 3600 + ((mag % 3600) / 60) * 60 == mag);
    assert(spec_parse_offset(s) == Some(off));
    // the clock digits recompose the seconds of the day
    vstd::arithmetic::div_mod::lemma_fundamental_div_mod(ts.spec_sod(), 3600);
    vstd::arithmetic::div_mod::lemma_fundamental_div_mod(ts.spec_sod() % 3600, 60);
    vstd::arithmetic::div_mod::lemma_mod_mod(ts.spec_sod(), 60, 60);
    vstd::arithmetic::div_mod::lemma_fundamental_div_mod(ts.secs as int, 86400);
    assert(h * 3600 + mi * 60 + sec == ts.spec_sod());
    assert(spec_secs_of(y, mo, d, h, mi, sec) == ts.secs);
    assert(spec_parse_rfc3339(s) == Some((y, mo, d, h, mi, sec, off)));
}

/// Reads the fixed-width digit run `s[i..i+w]`, `w <= 4`.
fn read_fixed_digits(s: &str, i: usize, w: usize) -> (r: Option<u64>)
    requires
        1 <= w <= 4,
        i + w <= s@.len(),
        i + w <= usize::MAX,
    ensures
        match r {
            Some(v) => all_digits(s@, i as int, i + w) && v == digits_value(s@, i as int, i + w),
            None => !all_digits(s@, i as int, i + w),
        },
{
    let mut acc: u64 = 0;
    let mut k: usize = i;
    while k < i + w
        invariant
            i <= k <= i + w,
            1 <= w <= 4,
            i + w <= s@.len(),
            i + w <= usize::MAX,
            acc == digits_value(s@, i as int, k as int),
            k - i == 0 ==> acc == 0,
            k - i == 1 ==> acc <= 9,
            k - i == 2 ==> acc <= 99,
            k - i == 3 ==> acc <= 999,
            k - i == 4 ==> acc <= 9999,
            all_digits(s@, i as int, k as int),
        decreases i + w - k,
    {
        let c = s.get_char(k);
        if !('0' <= c && c <= '9') {
            return None;
        }
        proof {
            assert(digits_value(s@, i as int, k + 1) == digits_value(s@, i as int, k as int) * 10
                + crate::duration::digit_val(s@[k as int]));
        }
        acc = acc * 10 + ((c as u32 - '0' as u32) as u64);
        k = k + 1;
    }
    Some(acc)
}

fn char_at_is(s: &str, i: usize, c: char) -> (r: bool)
    requires
        i < s@.len(),
    ensures
        r == (s@[i as int] == c),
{
    s.get_char(i) == c
}

/// Parses an RFC 3339 date-time string into a timestamp; mirrors
/// `spec_parse_rfc3339` exactly.
pub fn parse_rfc3339(s: &str) -> (r: Option<Timestamp>)
    ensures
        r == spec_timestamp_of(s@),
{
    let n = s.unicode_len();
    if n != 20 && n != 25 {
        proof {
            assert(spec_parse_rfc3339(s@) is None);
        }
        return None;
    }
    if !(char_at_is(s, 4, '-') && char_at_is(s, 7, '-') && char_at_is(s, 10, 'T') && char_at_is(
        s,
        13,
        ':',
    ) && char_at_is(s, 16, ':')) {
        return None;
    }
    let y = read_fixed_digits(s, 0, 4);
    let mo = read_fixed_digits(s, 5, 2);
    let d = read_fixed_digits(s, 8, 2);
    let h = read_fixed_digits(s, 11, 2);
    let mi = read_fixed_digits(s, 14, 2);
    let sec = read_fixed_digits(s, 17, 2);
    match (y, mo, d, h, mi, sec) {
        (Some(y), Some(mo), Some(d), Some(h), Some(mi), Some(sec)) => {
            let off: Option<i32> = if n == 20 {
                if char_at_is(s, 19, 'Z') {
                    Some(0)
                } else {
                    None
                }
            } else {
                let sign_plus = char_at_is(s, 19, '+');
                let sign_minus = char_at_is(s, 19, '-');
                if (sign_plus || sign_minus) && char_at_is(s, 22, ':') {
                    let oh = read_fixed_digits(s, 20, 2);
                    let om = read_fixed_digits(s, 23, 2);
                    match (oh, om) {
                        (Some(oh), Some(om)) => {
                            if oh <= 23 && om <= 59 {
                                let magnitude = (oh * 3600 + om * 60) as i32;
                                if sign_plus {
                                    Some(magnitude)
                                } else {
                                    Some(-magnitude)
                                }
                            } else {
                                None
                            }
                        },
                        _ => None,
                    }
                } else {
                    None
                }
            };
            match off {
                Some(off) => {
                    proof {
                        assert(spec_parse_offset(s@) == Some(off as int));
                    }
                    match Timestamp::new(y, mo, d, h, mi, sec, off) {
                        Some(ts) => {
                            proof {
                                assert(spec_parse_rfc3339(s@) == Some(
                                    (
                                        y as int,
                                        mo as int,
                                        d as int,
                                        h as int,
                                        mi as int,
                                        sec as int,
                                        off as int,
                                    ),
                                ));
                            }
                            Some(ts)
                        },
                        None => {
                            proof {
                                assert(spec_parse_rfc3339(s@) is None);
                            }
                            None
                        },
                    }
                },
                None => {
                    proof {
                        assert(spec_parse_offset(s@) is None);
                    }
                    None
                },
            }
        },
        _ => {
            proof {
                assert(!rfc3339_shape(s@));
            }
            None
        },
    }
}

} // verus!
