//! The compact duration / retention grammar.
//!
//! A value is five optional components, each a run of digits followed by a
//! unit letter, in the fixed order `h d w m y`, with optional whitespace
//! between components.  The empty string is valid and means all-zero.  For
//! elapsed-time arithmetic a month counts as exactly 4 weeks and a year as
//! exactly 365 days.

use vstd::arithmetic::div_mod::lemma_div_is_ordered;
use vstd::arithmetic::mul::lemma_mul_nonnegative;
use vstd::prelude::*;
use vstd::string::*;

use crate::calendar::spec_days_ce;
use crate::error::DurationParseError;
use crate::timestamp::{Timestamp, MAX_TS_SECS};

verus! {

pub const SECS_PER_HOUR: u64 = 3600;
pub const SECS_PER_DAY: u64 = 86400;
pub const SECS_PER_WEEK: u64 = 604800;
pub const SECS_PER_MONTH_UNIT: u64 = 2419200;
pub const SECS_PER_YEAR_UNIT: u64 = 31536000;

/// Whitespace accepted between grammar components: the Unicode
/// White_Space set.
pub open spec fn is_ws_char(c: char) -> bool {
    ||| c == ' ' || c == '\t' || c == '\n' || c == '\r' || c == '\u{b}' || c == '\u{c}'
    ||| c == '\u{85}' || c == '\u{a0}' || c == '\u{1680}'
    ||| ('\u{2000}' <= c && c <= '\u{200a}')
    ||| c == '\u{2028}' || c == '\u{2029}' || c == '\u{202f}' || c == '\u{205f}' || c == '\u{3000}'
}

pub open spec fn is_digit_char(c: char) -> bool {
    '0' <= c && c <= '9'
}

pub open spec fn digit_val(c: char) -> nat {
    (c as u32 - '0' as u32) as nat
}

/// First index at or after `i` holding a non-whitespace character.
pub open spec fn skip_ws(s: Seq<char>, i: int) -> int
    decreases s.len() - i,
{
    if i < 0 || i >= s.len() {
        i
    } else if is_ws_char(s[i]) {
        skip_ws(s, i + 1)
    } else {
        i
    }
}

/// First index at or after `i` holding a non-digit character.
pub open spec fn digits_end(s: Seq<char>, i: int) -> int
    decreases s.len() - i,
{
    if i < 0 || i >= s.len() {
        i
    } else if is_digit_char(s[i]) {
        digits_end(s, i + 1)
    } else {
        i
    }
}

/// Numeric value of the digit run `s[i..j]`.
pub open spec fn digits_value(s: Seq<char>, i: int, j: int) -> nat
    decreases j - i,
{
    if i >= j {
        0
    } else {
        digits_value(s, i, j - 1) * 10 + digit_val(s[j - 1])
    }
}

/// Unit letter of each component slot, in grammar order.
pub open spec fn unit_char(slot: int) -> char {
    if slot == 0 {
        'h'
    } else if slot == 1 {
        'd'
    } else if slot == 2 {
        'w'
    } else if slot == 3 {
        'm'
    } else {
        'y'
    }
}

/// Parses component slots `slot..5` of the grammar starting at index `i`.
/// Whitespace may precede every slot but the first; an absent component
/// counts zero.  The whole input must be consumed.
pub open spec fn parse_slots(s: Seq<char>, i: int, slot: int) -> Option<Seq<nat>>
    decreases 5 - slot,
{
    if slot >= 5 {
        if i == s.len() {
            Some(Seq::empty())
        } else {
            None
        }
    } else {
        let start = if slot == 0 {
            i
        } else {
            skip_ws(s, i)
        };
        let j = digits_end(s, start);
        if j > start && j < s.len() && s[j] == unit_char(slot) {
            match parse_slots(s, j + 1, slot + 1) {
                Some(rest) => Some(seq![digits_value(s, start, j)] + rest),
                None => None,
            }
        } else {
            match parse_slots(s, start, slot + 1) {
                Some(rest) => Some(seq![0nat] + rest),
                None => None,
            }
        }
    }
}

/// The grammar: `Some` of the five counts `h d w m y`, or `None` when the
/// string is not a valid duration / retention value.
pub open spec fn spec_parse_counts(s: Seq<char>) -> Option<Seq<nat>> {
    parse_slots(s, 0, 0)
}

/// Total number of elapsed seconds described by the five counts.
pub open spec fn spec_total_seconds(v: Seq<nat>) -> int {
    v[0] * SECS_PER_HOUR + v[1] * SECS_PER_DAY + v[2] * SECS_PER_WEEK + v[3] * SECS_PER_MONTH_UNIT
        + v[4] * SECS_PER_YEAR_UNIT
}

fn is_ws(c: char) -> (b: bool)
    ensures
        b == is_ws_char(c),
{
    c == ' ' || c == '\t' || c == '\n' || c == '\r' || c == '\u{b}' || c == '\u{c}' || c == '\u{85}'
        || c == '\u{a0}' || c == '\u{1680}' || ('\u{2000}' <= c && c <= '\u{200a}') || c == '\u{2028}'
        || c == '\u{2029}' || c == '\u{202f}' || c == '\u{205f}' || c == '\u{3000}'
}

fn is_digit(c: char) -> (b: bool)
    ensures
        b == is_digit_char(c),
{
    '0' <= c && c <= '9'
}

fn unit_char_at(slot: usize) -> (c: char)
    requires
        slot < 5,
    ensures
        c == unit_char(slot as int),
{
    if slot == 0 {
        'h'
    } else if slot == 1 {
        'd'
    } else if slot == 2 {
        'w'
    } else if slot == 3 {
        'm'
    } else {
        'y'
    }
}

/// A longer digit run never has a smaller value.
proof fn lemma_digits_value_mono(s: Seq<char>, i: int, j1: int, j2: int)
    requires
        j1 <= j2,
    ensures
        digits_value(s, i, j1) <= digits_value(s, i, j2),
    decreases j2 - j1,
{
    if j1 < j2 {
        lemma_digits_value_mono(s, i, j1, j2 - 1);
        if i < j2 {
            assert(digits_value(s, i, j2) == digits_value(s, i, j2 - 1) * 10 + digit_val(
                s[j2 - 1],
            ));
            assert(digits_value(s, i, j2 - 1) * 10 >= digits_value(s, i, j2 - 1));
        }
    }
}

/// Appending component values one slot at a time.
spec fn combine(done: Seq<nat>, rest: Option<Seq<nat>>) -> Option<Seq<nat>> {
    match rest {
        Some(r) => Some(done + r),
        None => None,
    }
}

/// Reads the digit run `s[from..to]` as a `u64`, or reports that its value
/// exceeds `u64::MAX`.
fn read_digit_run(s: &str, from: usize, to: usize) -> (r: Option<u64>)
    requires
        from <= to <= s@.len(),
        forall|k: int| from <= k < to ==> is_digit_char(s@[k]),
    ensures
        match r {
            Some(v) => v == digits_value(s@, from as int, to as int),
            None => digits_value(s@, from as int, to as int) > u64::MAX,
        },
{
    let mut acc: u64 = 0;
    let mut k: usize = from;
    while k < to
        invariant
            from <= k <= to <= s@.len(),
            forall|t: int| from <= t < to ==> is_digit_char(s@[t]),
            acc == digits_value(s@, from as int, k as int),
        decreases to - k,
    {
        let c = s.get_char(k);
        let d: u64 = (c as u32 - '0' as u32) as u64;
        let stepped = match acc.checked_mul(10) {
            Some(m) => m.checked_add(d),
            None => None,
        };
        match stepped {
            Some(v) => {
                acc = v;
            },
            None => {
                proof {
                    assert(digits_value(s@, from as int, k + 1) == acc * 10 + digit_val(s@[k as int]));
                    lemma_digits_value_mono(s@, from as int, k + 1, to as int);
                }
                return None;
            },
        }
        k = k + 1;
    }
    Some(acc)
}

/// Skipping one whitespace character does not change where whitespace ends.
proof fn lemma_skip_ws_step(s: Seq<char>, i: int)
    requires
        0 <= i < s.len(),
        is_ws_char(s[i]),
    ensures
        skip_ws(s, i) == skip_ws(s, i + 1),
{
}

proof fn lemma_digits_end_step(s: Seq<char>, i: int)
    requires
        0 <= i < s.len(),
        is_digit_char(s[i]),
    ensures
        digits_end(s, i) == digits_end(s, i + 1),
{
}

/// Parses the five grammar counts of `s`, or reports failure: either the
/// string does not follow the grammar, or some count exceeds `u64::MAX`.
pub fn parse_counts(s: &str) -> (r: Option<(u64, u64, u64, u64, u64)>)
    ensures
        ({
            let p = spec_parse_counts(s@);
            match r {
                Some(t) => p == Some(
                    seq![t.0 as nat, t.1 as nat, t.2 as nat, t.3 as nat, t.4 as nat],
                ),
                None => p is None || (exists|k: int|
                    0 <= k < 5 && #[trigger] p->Some_0[k] > u64::MAX),
            }
        }),
{
    let n = s.unicode_len();
    let mut pos: usize = 0;
    let mut vals: Vec<u64> = Vec::new();
    let mut slot: usize = 0;
    while slot < 5
        invariant
            slot <= 5,
            pos <= n,
            n == s@.len(),
            vals.len() == slot,
            spec_parse_counts(s@) == combine(
                vals@.map_values(|v: u64| v as nat),
                parse_slots(s@, pos as int, slot as int),
            ),
        decreases 5 - slot,
    {
        let ghost entry_pos = pos as int;
        // whitespace may come before every slot but the first
        if slot > 0 {
            while pos < n && is_ws(s.get_char(pos))
                invariant
                    pos <= n,
                    n == s@.len(),
                    skip_ws(s@, entry_pos) == skip_ws(s@, pos as int),
                decreases n - pos,
            {
                proof {
                    lemma_skip_ws_step(s@, pos as int);
                }
                pos = pos + 1;
            }
            proof {
                assert(skip_ws(s@, pos as int) == pos as int);
            }
        }
        let ghost start = pos as int;
        proof {
            assert(start == if slot == 0 {
                entry_pos
            } else {
                skip_ws(s@, entry_pos)
            });
        }
        // the digit run beginning at `pos`
        let dstart = pos;
        while pos < n && is_digit(s.get_char(pos))
            invariant
                dstart <= pos <= n,
                n == s@.len(),
                digits_end(s@, dstart as int) == digits_end(s@, pos as int),
                forall|t: int| dstart <= t < pos ==> is_digit_char(s@[t]),
            decreases n - pos,
        {
            proof {
                lemma_digits_end_step(s@, pos as int);
            }
            pos = pos + 1;
        }
        proof {
            assert(digits_end(s@, pos as int) == pos as int);
        }
        let dend = pos;
        let present = dend > dstart && dend < n && s.get_char(dend) == unit_char_at(slot);
        let ghost done = vals@.map_values(|v: u64| v as nat);
        let ghost rest = parse_slots(s@, entry_pos, slot as int);
        proof {
            // one unfolding of the grammar at the current slot
            if present {
                assert(rest == combine(
                    seq![digits_value(s@, start, dend as int)],
                    parse_slots(s@, dend + 1, slot + 1),
                ));
            } else {
                assert(rest == combine(seq![0nat], parse_slots(s@, start, slot + 1)));
            }
        }
        if present {
            match read_digit_run(s, dstart, dend) {
                Some(v) => {
                    vals.push(v);
                    pos = dend + 1;
                    proof {
                        lemma_combine_shift(
                            done,
                            v as nat,
                            parse_slots(s@, pos as int, slot + 1),
                        );
                        assert(vals@.map_values(|v: u64| v as nat) =~= done + seq![v as nat]);
                    }
                },
                None => {
                    proof {
                        // the component value itself exceeds u64::MAX, so if the
                        // whole string parses, its slot entry does too
                        let p = spec_parse_counts(s@);
                        if p is Some {
                            assert(rest is Some);
                            let val = digits_value(s@, start, dend as int);
                            assert(rest->Some_0[0] == val);
                            assert(p->Some_0 == done + rest->Some_0);
                            assert(p->Some_0[done.len() as int] == val);
                            assert(0 <= done.len() < 5);
                        }
                    }
                    return None;
                },
            }
        } else {
            vals.push(0);
            pos = dstart;
            proof {
                lemma_combine_shift(done, 0nat, parse_slots(s@, start, slot + 1));
                assert(vals@.map_values(|v: u64| v as nat) =~= done + seq![0nat]);
            }
        }
        slot = slot + 1;
    }
    if pos == n {
        let r = (vals[0], vals[1], vals[2], vals[3], vals[4]);
        proof {
            assert(parse_slots(s@, pos as int, 5) == Some(Seq::<nat>::empty()));
            assert(vals@.map_values(|v: u64| v as nat) + Seq::<nat>::empty() =~= seq![
                r.0 as nat,
                r.1 as nat,
                r.2 as nat,
                r.3 as nat,
                r.4 as nat,
            ]);
        }
        Some(r)
    } else {
        proof {
            assert(parse_slots(s@, pos as int, 5) is None);
        }
        None
    }
}

/// Quotient and remainder of `x / d` pinned by an enclosing multiple range.
proof fn lemma_div_range(x: int, q: int, d: int)
    requires
        d > 0,
        d * q <= x,
        x < d * (q + 1),
    ensures
        x / d == q,
        x % d == x - d * q,
{
    let r = x - d * q;
    assert(0 <= r < d && x == q * d + r) by (nonlinear_arith)
        requires
            d * q <= x,
            x < d * (q + 1),
            r == x - d * q,
    ;
    vstd::arithmetic::div_mod::lemma_fundamental_div_mod_converse(x, d, q, r);
}

/// Start of the hour of `ts`: same date and hour, minute and second zeroed.
pub fn duration_trunc_hour(ts: &Timestamp) -> (r: Timestamp)
    requires
        ts.wf(),
    ensures
        r.wf(),
        r.offset == ts.offset,
        r.secs == ts.spec_day() * 86400 + ts.spec_hour() * 3600,
        r.secs <= ts.secs,
        r.spec_day() == ts.spec_day(),
        r.spec_ymd() == ts.spec_ymd(),
        r.spec_hour() == ts.spec_hour(),
        r.spec_minute() == 0,
        r.spec_second() == 0,
{
    let day = ts.secs / 86400;
    let sod = ts.secs % 86400;
    let hour = sod / 3600;
    proof {
        lemma_div_is_ordered(ts.secs as int, MAX_TS_SECS as int, 86400);
        lemma_div_is_ordered(sod as int, 86399, 3600);
        vstd::arithmetic::div_mod::lemma_fundamental_div_mod(ts.secs as int, 86400);
        vstd::arithmetic::div_mod::lemma_fundamental_div_mod(sod as int, 3600);
    }
    let secs = day * 86400 + hour * 3600;
    proof {
        lemma_div_range(secs as int, day as int, 86400);
        lemma_div_range(hour as int * 3600, hour as int, 3600);
    }
    Timestamp { secs, offset: ts.offset }
}

/// Start of the day of `ts`: same date, midnight.
pub fn duration_trunc_day(ts: &Timestamp) -> (r: Timestamp)
    requires
        ts.wf(),
    ensures
        r.wf(),
        r.offset == ts.offset,
        r.secs == ts.spec_day() * 86400,
        r.secs <= ts.secs,
        r.spec_day() == ts.spec_day(),
        r.spec_ymd() == ts.spec_ymd(),
        r.spec_sod() == 0,
{
    let day = ts.secs / 86400;
    proof {
        lemma_div_is_ordered(ts.secs as int, MAX_TS_SECS as int, 86400);
        vstd::arithmetic::div_mod::lemma_fundamental_div_mod(ts.secs as int, 86400);
    }
    let secs = day * 86400;
    proof {
        lemma_div_range(secs as int, day as int, 86400);
    }
    Timestamp { secs, offset: ts.offset }
}

/// Start (Monday, midnight) of the ISO-8601 week containing `ts`.  Day 0 of
/// the calendar, 0001-01-01, is a Monday, so the Mondays are exactly the day
/// numbers divisible by seven.
pub fn duration_trunc_week(ts: &Timestamp) -> (r: Timestamp)
    requires
        ts.wf(),
    ensures
        r.wf(),
        r.offset == ts.offset,
        r.secs == (ts.spec_day() - ts.spec_day() % 7) * 86400,
        r.secs <= ts.secs,
        r.spec_sod() == 0,
        r.spec_day() % 7 == 0,
        r.spec_day() <= ts.spec_day() < r.spec_day() + 7,
{
    let day = ts.secs / 86400;
    let wstart = day - day % 7;
    proof {
        lemma_div_is_ordered(ts.secs as int, MAX_TS_SECS as int, 86400);
        vstd::arithmetic::div_mod::lemma_fundamental_div_mod(ts.secs as int, 86400);
    }
    let secs = wstart * 86400;
    proof {
        lemma_div_range(secs as int, wstart as int, 86400);
        assert(wstart as int % 7 == 0) by {
            vstd::arithmetic::div_mod::lemma_fundamental_div_mod(day as int, 7);
            lemma_div_range(wstart as int, day as int / 7, 7);
        };
    }
    Timestamp { secs, offset: ts.offset }
}

/// Start of the month of `ts`: same year and month, day 1, midnight.
pub fn duration_trunc_month(ts: &Timestamp) -> (r: Timestamp)
    requires
        ts.wf(),
    ensures
        r.wf(),
        r.offset == ts.offset,
        r.spec_sod() == 0,
        r.spec_ymd() == (ts.spec_ymd().0, ts.spec_ymd().1, 1int),
        r.secs == spec_days_ce(ts.spec_ymd().0, ts.spec_ymd().1, 1) * 86400,
        r.secs <= ts.secs,
{
    let (y, mo, _d, _h, _mi, _s) = ts.fields();
    let start = crate::calendar::days_from_ymd(y, mo, 1);
    let secs = start * 86400;
    proof {
        lemma_div_range(secs as int, start as int, 86400);
        crate::calendar::lemma_ymd_of_days(start as int, y as int, mo as int, 1);
        assert(spec_days_ce(y as int, mo as int, 1) <= ts.spec_day());
        assert(ts.spec_day() * 86400 <= ts.secs) by {
            vstd::arithmetic::div_mod::lemma_fundamental_div_mod(ts.secs as int, 86400);
        };
    }
    Timestamp { secs, offset: ts.offset }
}

/// Start of the year of `ts`: January 1st, midnight.
pub fn duration_trunc_year(ts: &Timestamp) -> (r: Timestamp)
    requires
        ts.wf(),
    ensures
        r.wf(),
        r.offset == ts.offset,
        r.spec_sod() == 0,
        r.spec_ymd() == (ts.spec_ymd().0, 1int, 1int),
        r.secs == spec_days_ce(ts.spec_ymd().0, 1, 1) * 86400,
        r.secs <= ts.secs,
{
    let (y, mo, _d, _h, _mi, _s) = ts.fields();
    let start = crate::calendar::days_from_ymd(y, 1, 1);
    let secs = start * 86400;
    proof {
        lemma_div_range(secs as int, start as int, 86400);
        crate::calendar::lemma_ymd_of_days(start as int, y as int, 1, 1);
        if mo > 1 {
            crate::calendar::lemma_month_start_lt(y as int, 1, y as int, mo as int);
        }
        assert(spec_days_ce(y as int, 1, 1) <= ts.spec_day());
        assert(ts.spec_day() * 86400 <= ts.secs) by {
            vstd::arithmetic::div_mod::lemma_fundamental_div_mod(ts.secs as int, 86400);
        };
    }
    Timestamp { secs, offset: ts.offset }
}

/// Instant of the hour truncation of `ts`.
pub open spec fn spec_trunc_hour_instant(ts: Timestamp) -> int {
    ts.spec_day() * 86400 + ts.spec_hour() * 3600 - ts.offset
}

/// Instant of the day truncation of `ts`.
pub open spec fn spec_trunc_day_instant(ts: Timestamp) -> int {
    ts.spec_day() * 86400 - ts.offset
}

/// Instant of the week truncation of `ts`.
pub open spec fn spec_trunc_week_instant(ts: Timestamp) -> int {
    (ts.spec_day() - ts.spec_day() % 7) * 86400 - ts.offset
}

/// Instant of the month truncation of `ts`.
pub open spec fn spec_trunc_month_instant(ts: Timestamp) -> int {
    spec_days_ce(ts.spec_ymd().0, ts.spec_ymd().1, 1) * 86400 - ts.offset
}

/// Instant of the year truncation of `ts`.
pub open spec fn spec_trunc_year_instant(ts: Timestamp) -> int {
    spec_days_ce(ts.spec_ymd().0, 1, 1) * 86400 - ts.offset
}

/// `combine(done, combine(seq![x], rest)) == combine(done + seq![x], rest)`.
proof fn lemma_combine_shift(done: Seq<nat>, x: nat, rest: Option<Seq<nat>>)
    ensures
        combine(done, combine(seq![x], rest)) == combine(done + seq![x], rest),
{
    match rest {
        Some(r) => {
            assert(done + (seq![x] + r) =~= (done + seq![x]) + r);
        },
        None => {},
    }
}

/// Parses a duration string into a number of elapsed seconds.  A month is
/// 4 weeks and a year 365 days.  Fails when the string does not follow the
/// grammar or the total does not fit an `i64`.
pub fn duration_from_str(s: &str) -> (r: Result<i64, DurationParseError>)
    ensures
        ({
            let p = spec_parse_counts(s@);
            match r {
                Ok(secs) => p matches Some(v) && secs == spec_total_seconds(v),
                Err(_) => p is None || (p matches Some(v) && spec_total_seconds(v) > i64::MAX),
            }
        }),
{
    match parse_counts(s) {
        None => Err(DurationParseError),
        Some((h, d, w, m, y)) => {
            let ghost v = spec_parse_counts(s@)->Some_0;
            let total = add_scaled(Some(0), h, SECS_PER_HOUR);
            let total = add_scaled(total, d, SECS_PER_DAY);
            let total = add_scaled(total, w, SECS_PER_WEEK);
            let total = add_scaled(total, m, SECS_PER_MONTH_UNIT);
            let total = add_scaled(total, y, SECS_PER_YEAR_UNIT);
            match total {
                Some(secs) => Ok(secs),
                None => Err(DurationParseError),
            }
        },
    }
}

/// `acc + count * unit` in `i64`, `None` once the exact total has overflowed.
fn add_scaled(acc: Option<i64>, count: u64, unit: u64) -> (r: Option<i64>)
    requires
        0 < unit <= SECS_PER_YEAR_UNIT,
        acc matches Some(a) ==> a >= 0,
    ensures
        match acc {
            None => r is None,
            Some(a) => match r {
                Some(t) => t == a + count * unit && t >= a,
                None => a + count * unit > i64::MAX,
            },
        },
{
    match acc {
        None => None,
        Some(a) => {
            if count > (i64::MAX as u64) {
                proof {
                    assert(count * unit >= count) by (nonlinear_arith)
                        requires
                            unit >= 1,
                            count >= 0,
                    ;
                }
                None
            } else {
                let scaled = (count as i64).checked_mul(unit as i64);
                match scaled {
                    Some(sv) => {
                        proof {
                            lemma_mul_nonnegative(count as int, unit as int);
                        }
                        a.checked_add(sv)
                    },
                    None => {
                        proof {
                            lemma_mul_nonnegative(count as int, unit as int);
                        }
                        None
                    },
                }
            }
        },
    }
}

} // verus!
