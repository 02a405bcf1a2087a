//! The grandfather-father-son bucket store.
//!
//! For each bucket class (hour, day, week, month, year) the store holds the
//! live bucket boundaries, as instants, and one slot per boundary.  A
//! candidate is assigned to the first class, in the order hour to year,
//! whose boundary set contains the candidate's truncated timestamp; within a
//! bucket the first candidate stored wins.

use vstd::prelude::*;

use crate::duration::{
    duration_trunc_day, duration_trunc_hour, duration_trunc_month, duration_trunc_week,
    duration_trunc_year, spec_trunc_day_instant, spec_trunc_hour_instant,
    spec_trunc_month_instant, spec_trunc_week_instant, spec_trunc_year_instant, SECS_PER_DAY,
    SECS_PER_HOUR, SECS_PER_MONTH_UNIT, SECS_PER_WEEK, SECS_PER_YEAR_UNIT,
};
use crate::intent::{Intent, IntentType};
use crate::retention::Retention;
use crate::timestamp::Timestamp;

verus! {

/// Bucket boundaries and at most one stored intent index per bucket, for
/// the five classes.
#[derive(Debug)]
pub struct TimeBins {
    pub rh: Vec<i64>,
    pub h: Vec<Option<usize>>,
    pub rd: Vec<i64>,
    pub d: Vec<Option<usize>>,
    pub rw: Vec<i64>,
    pub w: Vec<Option<usize>>,
    pub rm: Vec<i64>,
    pub m: Vec<Option<usize>>,
    pub ry: Vec<i64>,
    pub y: Vec<Option<usize>>,
}

/// `v` holds `key` somewhere.
pub open spec fn seq_has(s: Seq<i64>, key: int) -> bool {
    exists|j: int| 0 <= j < s.len() && s[j] == key
}

/// First index at or after `i` holding `key`; the length when absent.
pub open spec fn first_idx_from(s: Seq<i64>, key: int, i: int) -> int
    decreases s.len() - i,
{
    if i < 0 || i >= s.len() {
        i
    } else if s[i] == key {
        i
    } else {
        first_idx_from(s, key, i + 1)
    }
}

pub open spec fn first_idx(s: Seq<i64>, key: int) -> int {
    first_idx_from(s, key, 0)
}

/// One slot sequence after storing `idx` under `key`: the first bucket with
/// that boundary takes the index if it is still free; an occupied bucket
/// keeps what it has.
pub open spec fn spec_place(bounds: Seq<i64>, slots: Seq<Option<usize>>, key: int, idx: usize) -> Seq<
    Option<usize>,
> {
    let j = first_idx(bounds, key);
    if slots[j] is None {
        slots.update(j, Some(idx))
    } else {
        slots
    }
}

/// The boundary of bucket `i` of a class: the class start stepped back `i`
/// units, saturating at the representable minimum.
pub open spec fn spec_bin_bound(start: int, step: int, i: int) -> int {
    if start - i * step >= i64::MIN {
        start - i * step
    } else {
        i64::MIN as int
    }
}

/// Spec-level shape of the bucket store.
#[verifier::ext_equal]
pub struct BinsModel {
    pub rh: Seq<i64>,
    pub h: Seq<Option<usize>>,
    pub rd: Seq<i64>,
    pub d: Seq<Option<usize>>,
    pub rw: Seq<i64>,
    pub w: Seq<Option<usize>>,
    pub rm: Seq<i64>,
    pub m: Seq<Option<usize>>,
    pub ry: Seq<i64>,
    pub y: Seq<Option<usize>>,
}

impl View for TimeBins {
    type V = BinsModel;

    open spec fn view(&self) -> BinsModel {
        BinsModel {
            rh: self.rh@,
            h: self.h@,
            rd: self.rd@,
            d: self.d@,
            rw: self.rw@,
            w: self.w@,
            rm: self.rm@,
            m: self.m@,
            ry: self.ry@,
            y: self.y@,
        }
    }
}

impl BinsModel {
    /// Some bucket of some class holds `idx`.
    pub open spec fn holds_index(&self, idx: usize) -> bool {
        ||| self.h.contains(Some(idx))
        ||| self.d.contains(Some(idx))
        ||| self.w.contains(Some(idx))
        ||| self.m.contains(Some(idx))
        ||| self.y.contains(Some(idx))
    }

    /// The store after assigning `idx` with timestamp `ts`: the first
    /// class, hour to year, whose boundaries contain the truncated
    /// timestamp takes it; a candidate in no live bucket is not stored.
    pub open spec fn spec_store(self, ts: Timestamp, idx: usize) -> BinsModel {
        let kh = spec_trunc_hour_instant(ts);
        let kd = spec_trunc_day_instant(ts);
        let kw = spec_trunc_week_instant(ts);
        let km = spec_trunc_month_instant(ts);
        let ky = spec_trunc_year_instant(ts);
        if seq_has(self.rh, kh) {
            BinsModel { h: spec_place(self.rh, self.h, kh, idx), ..self }
        } else if seq_has(self.rd, kd) {
            BinsModel { d: spec_place(self.rd, self.d, kd, idx), ..self }
        } else if seq_has(self.rw, kw) {
            BinsModel { w: spec_place(self.rw, self.w, kw, idx), ..self }
        } else if seq_has(self.rm, km) {
            BinsModel { m: spec_place(self.rm, self.m, km, idx), ..self }
        } else if seq_has(self.ry, ky) {
            BinsModel { y: spec_place(self.ry, self.y, ky, idx), ..self }
        } else {
            self
        }
    }
}

/// The bucket store as `TimeBins::new` lays it out: per class the
/// `count + 1` boundaries stepped back from the truncation of `now`, every
/// bucket empty.
pub open spec fn spec_new_bins(counts: Seq<nat>, now: Timestamp) -> BinsModel {
    BinsModel {
        rh: Seq::new(
            counts[0] + 1,
            |i: int| spec_bin_bound(spec_trunc_hour_instant(now), SECS_PER_HOUR as int, i) as i64,
        ),
        h: Seq::new(counts[0] + 1, |i: int| None),
        rd: Seq::new(
            counts[1] + 1,
            |i: int| spec_bin_bound(spec_trunc_day_instant(now), SECS_PER_DAY as int, i) as i64,
        ),
        d: Seq::new(counts[1] + 1, |i: int| None),
        rw: Seq::new(
            counts[2] + 1,
            |i: int| spec_bin_bound(spec_trunc_week_instant(now), SECS_PER_WEEK as int, i) as i64,
        ),
        w: Seq::new(counts[2] + 1, |i: int| None),
        rm: Seq::new(
            counts[3] + 1,
            |i: int| spec_bin_bound(
                spec_trunc_month_instant(now),
                SECS_PER_MONTH_UNIT as int,
                i,
            ) as i64,
        ),
        m: Seq::new(counts[3] + 1, |i: int| None),
        ry: Seq::new(
            counts[4] + 1,
            |i: int| spec_bin_bound(
                spec_trunc_year_instant(now),
                SECS_PER_YEAR_UNIT as int,
                i,
            ) as i64,
        ),
        y: Seq::new(counts[4] + 1, |i: int| None),
    }
}

/// The exec store transition is exactly the modeled one.
pub proof fn lemma_store_model(pre: TimeBins, post: TimeBins, ts: Timestamp, idx: usize)
    requires
        pre.wf(),
        post.rh@ == pre.rh@,
        post.rd@ == pre.rd@,
        post.rw@ == pre.rw@,
        post.rm@ == pre.rm@,
        post.ry@ == pre.ry@,
        post.slot_views() == pre.spec_store_slots(ts, idx),
    ensures
        post@ == pre@.spec_store(ts, idx),
{
    assert(post@ =~= pre@.spec_store(ts, idx));
}

/// One step back, saturating at the smallest representable instant.
fn step_down(cur: i64, step: u64) -> (r: i64)
    requires
        step <= SECS_PER_YEAR_UNIT,
    ensures
        r == if cur - step >= i64::MIN {
            cur - step
        } else {
            i64::MIN as int
        },
{
    if cur >= i64::MIN + step as i64 {
        cur - step as i64
    } else {
        i64::MIN
    }
}

/// The `count + 1` boundaries of one class, stepping back from `start`.
fn build_bounds(start: i64, step: u64, count: usize) -> (v: Vec<i64>)
    requires
        1 <= step <= SECS_PER_YEAR_UNIT,
    ensures
        v@.len() == count + 1,
        forall|i: int| 0 <= i < v@.len() ==> v@[i] == spec_bin_bound(start as int, step as int, i),
{
    let mut v: Vec<i64> = Vec::new();
    let mut cur = start;
    v.push(cur);
    let mut i: usize = 0;
    while i < count
        invariant
            i <= count,
            step <= SECS_PER_YEAR_UNIT,
            v@.len() == i + 1,
            cur == spec_bin_bound(start as int, step as int, i as int),
            forall|k: int| 0 <= k < v@.len() ==> v@[k] == spec_bin_bound(start as int, step as int, k),
        decreases count - i,
    {
        proof {
            assert((i + 1) * step == i * step + step) by (nonlinear_arith);
        }
        cur = step_down(cur, step);
        v.push(cur);
        i = i + 1;
    }
    v
}

/// `count + 1` empty slots.
fn build_slots(count: usize) -> (v: Vec<Option<usize>>)
    ensures
        v@.len() == count + 1,
        forall|k: int| 0 <= k < v@.len() ==> v@[k] is None,
{
    let mut v: Vec<Option<usize>> = Vec::new();
    v.push(None);
    let mut i: usize = 0;
    while i < count
        invariant
            i <= count,
            v@.len() == i + 1,
            forall|k: int| 0 <= k < v@.len() ==> v@[k] is None,
        decreases count - i,
    {
        v.push(None);
        i = i + 1;
    }
    v
}

impl TimeBins {
    pub open spec fn wf(&self) -> bool {
        &&& self.h@.len() == self.rh@.len()
        &&& self.d@.len() == self.rd@.len()
        &&& self.w@.len() == self.rw@.len()
        &&& self.m@.len() == self.rm@.len()
        &&& self.y@.len() == self.ry@.len()
    }

    /// Some bucket of some class holds `idx`.
    pub open spec fn holds_index(&self, idx: usize) -> bool {
        ||| self.h@.contains(Some(idx))
        ||| self.d@.contains(Some(idx))
        ||| self.w@.contains(Some(idx))
        ||| self.m@.contains(Some(idx))
        ||| self.y@.contains(Some(idx))
    }

    /// Every stored index is below `n`.
    pub open spec fn all_indices_lt(&self, n: int) -> bool {
        forall|idx: usize| self.holds_index(idx) ==> idx < n
    }

    /// The slot views of the five classes, hour to year.
    pub open spec fn slot_views(&self) -> (
        Seq<Option<usize>>,
        Seq<Option<usize>>,
        Seq<Option<usize>>,
        Seq<Option<usize>>,
        Seq<Option<usize>>,
    ) {
        (self.h@, self.d@, self.w@, self.m@, self.y@)
    }

    /// The slot views after assigning `idx` with timestamp `ts`: the first
    /// class, hour to year, whose boundaries contain the truncated timestamp
    /// takes it; a candidate in no live bucket is not stored.
    pub open spec fn spec_store_slots(self, ts: Timestamp, idx: usize) -> (
        Seq<Option<usize>>,
        Seq<Option<usize>>,
        Seq<Option<usize>>,
        Seq<Option<usize>>,
        Seq<Option<usize>>,
    ) {
        let kh = spec_trunc_hour_instant(ts);
        let kd = spec_trunc_day_instant(ts);
        let kw = spec_trunc_week_instant(ts);
        let km = spec_trunc_month_instant(ts);
        let ky = spec_trunc_year_instant(ts);
        if seq_has(self.rh@, kh) {
            (spec_place(self.rh@, self.h@, kh, idx), self.d@, self.w@, self.m@, self.y@)
        } else if seq_has(self.rd@, kd) {
            (self.h@, spec_place(self.rd@, self.d@, kd, idx), self.w@, self.m@, self.y@)
        } else if seq_has(self.rw@, kw) {
            (self.h@, self.d@, spec_place(self.rw@, self.w@, kw, idx), self.m@, self.y@)
        } else if seq_has(self.rm@, km) {
            (self.h@, self.d@, self.w@, spec_place(self.rm@, self.m@, km, idx), self.y@)
        } else if seq_has(self.ry@, ky) {
            (self.h@, self.d@, self.w@, self.m@, spec_place(self.ry@, self.y@, ky, idx))
        } else {
            (self.h@, self.d@, self.w@, self.m@, self.y@)
        }
    }

    /// Builds the live buckets: for each class, `count + 1` boundaries are
    /// laid out by truncating `now` to the class and stepping backward one
    /// class unit at a time (an hour, a day, a week, 4 weeks, 365 days);
    /// every bucket starts empty.
    pub fn new(retention: &Retention, now: &Timestamp) -> (r: TimeBins)
        requires
            now.wf(),
        ensures
            r.wf(),
            r.rh@.len() == retention.h + 1,
            r.rd@.len() == retention.d + 1,
            r.rw@.len() == retention.w + 1,
            r.rm@.len() == retention.m + 1,
            r.ry@.len() == retention.y + 1,
            forall|i: int|
                0 <= i < r.rh@.len() ==> r.rh@[i] == spec_bin_bound(
                    spec_trunc_hour_instant(*now),
                    SECS_PER_HOUR as int,
                    i,
                ),
            forall|i: int|
                0 <= i < r.rd@.len() ==> r.rd@[i] == spec_bin_bound(
                    spec_trunc_day_instant(*now),
                    SECS_PER_DAY as int,
                    i,
                ),
            forall|i: int|
                0 <= i < r.rw@.len() ==> r.rw@[i] == spec_bin_bound(
                    spec_trunc_week_instant(*now),
                    SECS_PER_WEEK as int,
                    i,
                ),
            forall|i: int|
                0 <= i < r.rm@.len() ==> r.rm@[i] == spec_bin_bound(
                    spec_trunc_month_instant(*now),
                    SECS_PER_MONTH_UNIT as int,
                    i,
                ),
            forall|i: int|
                0 <= i < r.ry@.len() ==> r.ry@[i] == spec_bin_bound(
                    spec_trunc_year_instant(*now),
                    SECS_PER_YEAR_UNIT as int,
                    i,
                ),
            forall|k: int| 0 <= k < r.h@.len() ==> r.h@[k] is None,
            forall|k: int| 0 <= k < r.d@.len() ==> r.d@[k] is None,
            forall|k: int| 0 <= k < r.w@.len() ==> r.w@[k] is None,
            forall|k: int| 0 <= k < r.m@.len() ==> r.m@[k] is None,
            forall|k: int| 0 <= k < r.y@.len() ==> r.y@[k] is None,
            r.all_indices_lt(0),
            r@ == spec_new_bins(retention.counts(), *now),
    {
        let rh = build_bounds(duration_trunc_hour(now).instant(), SECS_PER_HOUR, retention.h);
        let rd = build_bounds(duration_trunc_day(now).instant(), SECS_PER_DAY, retention.d);
        let rw = build_bounds(duration_trunc_week(now).instant(), SECS_PER_WEEK, retention.w);
        let rm = build_bounds(duration_trunc_month(now).instant(), SECS_PER_MONTH_UNIT, retention.m);
        let ry = build_bounds(duration_trunc_year(now).instant(), SECS_PER_YEAR_UNIT, retention.y);
        let r = TimeBins {
            h: build_slots(retention.h),
            rh,
            d: build_slots(retention.d),
            rd,
            w: build_slots(retention.w),
            rw,
            m: build_slots(retention.m),
            rm,
            y: build_slots(retention.y),
            ry,
        };
        proof {
            assert forall|idx: usize| r.holds_index(idx) implies idx < 0 by {
                if r.h@.contains(Some(idx)) {
                    let k = choose|k: int| 0 <= k < r.h@.len() && r.h@[k] == Some(idx);
                } else if r.d@.contains(Some(idx)) {
                    let k = choose|k: int| 0 <= k < r.d@.len() && r.d@[k] == Some(idx);
                } else if r.w@.contains(Some(idx)) {
                    let k = choose|k: int| 0 <= k < r.w@.len() && r.w@[k] == Some(idx);
                } else if r.m@.contains(Some(idx)) {
                    let k = choose|k: int| 0 <= k < r.m@.len() && r.m@[k] == Some(idx);
                } else {
                    let k = choose|k: int| 0 <= k < r.y@.len() && r.y@[k] == Some(idx);
                }
            }
        }
        proof {
            assert(r@ =~= spec_new_bins(retention.counts(), *now));
        }
        r
    }

    /// Promotes every stored intent to Keep; intents in no bucket are left
    /// unchanged.
    pub fn set_keep(&self, intents: &mut Vec<Intent>)
        requires
            self.wf(),
            self.all_indices_lt(old(intents)@.len() as int),
        ensures
            final(intents)@.len() == old(intents)@.len(),
            forall|i: int|
                0 <= i < old(intents)@.len() ==> final(intents)@[i]@ == (
                if self.holds_index(i as usize) {
                    crate::intent::spec_keep(old(intents)@[i]@)
                } else {
                    old(intents)@[i]@
                }),
    {
        proof {
            assert forall|idx: usize| self.h@.contains(Some(idx)) implies idx
                < old(intents)@.len() by {
                assert(self.holds_index(idx));
            }
            assert forall|idx: usize| self.d@.contains(Some(idx)) implies idx
                < old(intents)@.len() by {
                assert(self.holds_index(idx));
            }
            assert forall|idx: usize| self.w@.contains(Some(idx)) implies idx
                < old(intents)@.len() by {
                assert(self.holds_index(idx));
            }
            assert forall|idx: usize| self.m@.contains(Some(idx)) implies idx
                < old(intents)@.len() by {
                assert(self.holds_index(idx));
            }
            assert forall|idx: usize| self.y@.contains(Some(idx)) implies idx
                < old(intents)@.len() by {
                assert(self.holds_index(idx));
            }
        }
        keep_slots(&self.h, intents);
        keep_slots(&self.d, intents);
        keep_slots(&self.w, intents);
        keep_slots(&self.m, intents);
        keep_slots(&self.y, intents);
    }

    /// Stores the candidate `idx`, whose name denotes `ts`, in the first
    /// live bucket that its truncations hit, if any; a bucket already taken
    /// keeps its earlier candidate.
    pub fn store(&mut self, intent_timestamp: &Timestamp, idx: usize)
        requires
            old(self).wf(),
            intent_timestamp.wf(),
        ensures
            final(self).wf(),
            final(self).rh@ == old(self).rh@,
            final(self).rd@ == old(self).rd@,
            final(self).rw@ == old(self).rw@,
            final(self).rm@ == old(self).rm@,
            final(self).ry@ == old(self).ry@,
            final(self).slot_views() == old(self).spec_store_slots(*intent_timestamp, idx),
    {
        let kh = duration_trunc_hour(intent_timestamp).instant();
        let kd = duration_trunc_day(intent_timestamp).instant();
        let kw = duration_trunc_week(intent_timestamp).instant();
        let km = duration_trunc_month(intent_timestamp).instant();
        let ky = duration_trunc_year(intent_timestamp).instant();
        if place(&self.rh, &mut self.h, kh, idx) {
        } else if place(&self.rd, &mut self.d, kd, idx) {
        } else if place(&self.rw, &mut self.w, kw, idx) {
        } else if place(&self.rm, &mut self.m, km, idx) {
        } else if place(&self.ry, &mut self.y, ky, idx) {
        }
    }

    /// Every index stored after `store` was stored before or is the new one.
    pub proof fn lemma_store_new_index(pre: TimeBins, post: TimeBins, ts: Timestamp, idx: usize)
        requires
            pre.wf(),
            post.rh@ == pre.rh@,
            post.rd@ == pre.rd@,
            post.rw@ == pre.rw@,
            post.rm@ == pre.rm@,
            post.ry@ == pre.ry@,
            post.slot_views() == pre.spec_store_slots(ts, idx),
        ensures
            forall|i: usize| #[trigger] post.holds_index(i) ==> pre.holds_index(i) || i == idx,
    {
        let kh = spec_trunc_hour_instant(ts);
        let kd = spec_trunc_day_instant(ts);
        let kw = spec_trunc_week_instant(ts);
        let km = spec_trunc_month_instant(ts);
        let ky = spec_trunc_year_instant(ts);
        assert forall|i: usize| #[trigger] post.holds_index(i) implies pre.holds_index(i) || i
            == idx by {
            if !pre.holds_index(i) {
                if seq_has(pre.rh@, kh) {
                    lemma_place_contains(pre.rh@, pre.h@, kh, idx, i);
                } else if seq_has(pre.rd@, kd) {
                    lemma_place_contains(pre.rd@, pre.d@, kd, idx, i);
                } else if seq_has(pre.rw@, kw) {
                    lemma_place_contains(pre.rw@, pre.w@, kw, idx, i);
                } else if seq_has(pre.rm@, km) {
                    lemma_place_contains(pre.rm@, pre.m@, km, idx, i);
                } else if seq_has(pre.ry@, ky) {
                    lemma_place_contains(pre.ry@, pre.y@, ky, idx, i);
                }
            }
        }
    }

    /// Every index stored after `store` stays below `n` when the new one is.
    pub proof fn lemma_store_indices(pre: TimeBins, post: TimeBins, ts: Timestamp, idx: usize, n: int)
        requires
            pre.wf(),
            post.rh@ == pre.rh@,
            post.rd@ == pre.rd@,
            post.rw@ == pre.rw@,
            post.rm@ == pre.rm@,
            post.ry@ == pre.ry@,
            post.slot_views() == pre.spec_store_slots(ts, idx),
            pre.all_indices_lt(n),
            idx < n,
        ensures
            post.all_indices_lt(n),
    {
        let kh = spec_trunc_hour_instant(ts);
        let kd = spec_trunc_day_instant(ts);
        let kw = spec_trunc_week_instant(ts);
        let km = spec_trunc_month_instant(ts);
        let ky = spec_trunc_year_instant(ts);
        assert forall|i: usize| post.holds_index(i) implies i < n by {
            if !pre.holds_index(i) {
                if seq_has(pre.rh@, kh) {
                    lemma_place_contains(pre.rh@, pre.h@, kh, idx, i);
                } else if seq_has(pre.rd@, kd) {
                    lemma_place_contains(pre.rd@, pre.d@, kd, idx, i);
                } else if seq_has(pre.rw@, kw) {
                    lemma_place_contains(pre.rw@, pre.w@, kw, idx, i);
                } else if seq_has(pre.rm@, km) {
                    lemma_place_contains(pre.rm@, pre.m@, km, idx, i);
                } else if seq_has(pre.ry@, ky) {
                    lemma_place_contains(pre.ry@, pre.y@, ky, idx, i);
                }
            }
        }
    }
}

/// With a matching boundary present, the first match is a real index.
proof fn lemma_first_idx_found(s: Seq<i64>, key: int, i: int)
    requires
        0 <= i <= s.len(),
        exists|j: int| i <= j < s.len() && s[j] == key,
    ensures
        i <= first_idx_from(s, key, i) < s.len(),
        s[first_idx_from(s, key, i)] == key,
    decreases s.len() - i,
{
    if s[i] == key {
    } else {
        let j = choose|j: int| i <= j < s.len() && s[j] == key;
        assert(i + 1 <= j);
        lemma_first_idx_found(s, key, i + 1);
    }
}

/// Placement adds no index other than `idx`.
proof fn lemma_place_contains(
    bounds: Seq<i64>,
    slots: Seq<Option<usize>>,
    key: int,
    idx: usize,
    other: usize,
)
    requires
        bounds.len() == slots.len(),
        seq_has(bounds, key),
        spec_place(bounds, slots, key, idx).contains(Some(other)),
        !slots.contains(Some(other)),
    ensures
        other == idx,
{
    lemma_first_idx_found(bounds, key, 0);
    let placed = spec_place(bounds, slots, key, idx);
    let k = choose|k: int| 0 <= k < placed.len() && placed[k] == Some(other);
    let j = first_idx(bounds, key);
    if slots[j] is None {
        if k != j {
            assert(slots[k] == Some(other));
            assert(slots.contains(Some(other)));
        }
    } else {
        assert(slots[k] == Some(other));
        assert(slots.contains(Some(other)));
    }
}

/// Promotes the intent of every filled slot to Keep.
fn keep_slots(slots: &Vec<Option<usize>>, intents: &mut Vec<Intent>)
    requires
        forall|idx: usize| slots@.contains(Some(idx)) ==> idx < old(intents)@.len(),
    ensures
        final(intents)@.len() == old(intents)@.len(),
        forall|i: int|
            0 <= i < old(intents)@.len() ==> final(intents)@[i]@ == (
            if slots@.contains(Some(i as usize)) {
                crate::intent::spec_keep(old(intents)@[i]@)
            } else {
                old(intents)@[i]@
            }),
{
    let n = intents.len();
    let mut k: usize = 0;
    while k < slots.len()
        invariant
            k <= slots@.len(),
            n == old(intents)@.len(),
            intents@.len() == old(intents)@.len(),
            forall|idx: usize| slots@.contains(Some(idx)) ==> idx < old(intents)@.len(),
            forall|i: int|
                0 <= i < intents@.len() ==> intents@[i]@ == (
                if exists|j: int| #![trigger slots@[j]] 0 <= j < k && slots@[j] == Some(i as usize) {
                    crate::intent::spec_keep(old(intents)@[i]@)
                } else {
                    old(intents)@[i]@
                }),
        decreases slots@.len() - k,
    {
        match slots[k] {
            Some(idx) => {
                proof {
                    assert(slots@.contains(Some(idx)));
                }
                intents[idx].intent = IntentType::Keep;
                proof {
                    assert forall|i: int| 0 <= i < intents@.len() implies intents@[i]@ == (
                        if exists|j: int| #![trigger slots@[j]] 0 <= j < k + 1 && slots@[j] == Some(i as usize) {
                            crate::intent::spec_keep(old(intents)@[i]@)
                        } else {
                            old(intents)@[i]@
                        }) by {
                        if i == idx {
                            assert(slots@[k as int] == Some(i as usize));
                            assert(exists|j: int| #![trigger slots@[j]] 0 <= j < k + 1 && slots@[j] == Some(i as usize));
                        } else {
                            if exists|j: int| #![trigger slots@[j]]
                                0 <= j < k + 1 && slots@[j] == Some(i as usize) {
                                let j = choose|j: int| #![trigger slots@[j]]
                                    0 <= j < k + 1 && slots@[j] == Some(i as usize);
                                assert(i < n);
                                assert(j < k);
                            }
                        }
                    }
                }
            },
            None => {},
        }
        k = k + 1;
    }
}

/// Finds the first bucket with boundary `key`; a free one takes `idx`, an
/// occupied one is left alone.  Reports whether some bucket matched.
fn place(bounds: &Vec<i64>, slots: &mut Vec<Option<usize>>, key: i64, idx: usize) -> (matched:
    bool)
    requires
        old(slots)@.len() == bounds@.len(),
    ensures
        final(slots)@.len() == bounds@.len(),
        matched == seq_has(bounds@, key as int),
        matched ==> final(slots)@ == spec_place(bounds@, old(slots)@, key as int, idx),
        !matched ==> final(slots)@ == old(slots)@,
{
    let n = bounds.len();
    let mut j: usize = 0;
    while j < n
        invariant
            j <= n,
            n == bounds@.len() == slots@.len(),
            slots@ == old(slots)@,
            first_idx(bounds@, key as int) == first_idx_from(bounds@, key as int, j as int),
            forall|t: int| 0 <= t < j ==> bounds@[t] != key,
        decreases n - j,
    {
        if bounds[j] == key {
            proof {
                assert(first_idx(bounds@, key as int) == j as int);
                assert(seq_has(bounds@, key as int));
            }
            let occupied = slots[j].is_some();
            if !occupied {
                slots[j] = Some(idx);
            }
            return true;
        }
        j = j + 1;
    }
    proof {
        assert(!seq_has(bounds@, key as int));
    }
    false
}

} // verus!
