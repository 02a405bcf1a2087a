//! Snapshot intents and the Delete-to-Keep scheduling pass.

use vstd::multiset::Multiset;
use vstd::prelude::*;
use vstd::seq_lib::group_to_multiset_ensures;
use vstd::string::*;

use crate::duration::{duration_from_str, spec_parse_counts, spec_total_seconds};
use crate::job::Job;
use crate::policies::MinModel;
use crate::retention::Retention;
use crate::timebins::{spec_new_bins, BinsModel, TimeBins};
use crate::timestamp::{spec_parse_rfc3339, spec_timestamp_of, parse_rfc3339, Timestamp};

verus! {

broadcast use group_to_multiset_ensures;

#[derive(Clone, Copy, Debug, PartialEq, Eq, Structural)]
pub enum IntentType {
    Create,
    Keep,
    Delete,
}

/// One planned action on one snapshot, bound to the job it came from by
/// index into the job list of the run.
#[derive(Debug)]
pub struct Intent {
    pub intent: IntentType,
    pub subvolume: String,
    pub target: String,
    pub name: String,
    pub job: usize,
}

/// Spec-level shape of an intent.
pub struct IntentModel {
    pub kind: IntentType,
    pub subvolume: Seq<char>,
    pub target: Seq<char>,
    pub name: Seq<char>,
    pub job: int,
}

impl View for Intent {
    type V = IntentModel;

    open spec fn view(&self) -> IntentModel {
        IntentModel {
            kind: self.intent,
            subvolume: self.subvolume@,
            target: self.target@,
            name: self.name@,
            job: self.job as int,
        }
    }
}

/// Index of the last `.` at or before position `i`, `-1` when there is none.
pub open spec fn last_dot_from(s: Seq<char>, i: int) -> int
    decreases i + 1,
{
    if i < 0 || i >= s.len() {
        -1
    } else if s[i] == '.' {
        i
    } else {
        last_dot_from(s, i - 1)
    }
}

/// The timestamp embedded in a snapshot name: everything after the last dot,
/// read as an RFC 3339 date-time.
pub open spec fn spec_name_timestamp(name: Seq<char>) -> Option<Timestamp> {
    let dot = last_dot_from(name, name.len() - 1);
    if dot >= 0 {
        spec_timestamp_of(name.subrange(dot + 1, name.len() as int))
    } else {
        None
    }
}

/// The instant of the timestamp embedded in a parseable snapshot name.
pub open spec fn spec_name_instant(name: Seq<char>) -> int {
    spec_name_timestamp(name)->Some_0.spec_instant()
}

/// The same intent, promoted to Keep.
pub open spec fn spec_keep(m: IntentModel) -> IntentModel {
    IntentModel { kind: IntentType::Keep, ..m }
}

impl Intent {
    /// The timestamp embedded in the intent's snapshot name, when the name
    /// carries one.
    pub fn timestamp(&self) -> (r: Option<Timestamp>)
        ensures
            r == spec_name_timestamp(self.name@),
            r matches Some(ts) ==> ts.wf(),
    {
        let s = self.name.as_str();
        let n = s.unicode_len();
        let mut i = n;
        while i > 0 && !char_at_is_dot(s, i - 1)
            invariant
                i <= n,
                n == s@.len(),
                last_dot_from(s@, n - 1) == last_dot_from(s@, i - 1),
            decreases i,
        {
            i = i - 1;
        }
        if i == 0 {
            proof {
                assert(last_dot_from(s@, -1) == -1);
            }
            None
        } else {
            let sub = s.substring_char(i, n);
            proof {
                assert(last_dot_from(s@, i - 1) == i - 1);
                assert(sub@ =~= s@.subrange(i - 1 + 1, n as int));
            }
            parse_rfc3339(sub)
        }
    }
}

fn char_at_is_dot(s: &str, i: usize) -> (r: bool)
    requires
        i < s@.len(),
    ensures
        r == (s@[i as int] == '.'),
{
    s.get_char(i) == '.'
}

/// `name` is `<base>.<RFC 3339 timestamp>` exactly.
pub open spec fn spec_is_snapshot_name(base: Seq<char>, name: Seq<char>) -> bool {
    &&& name.len() > base.len() + 1
    &&& name.subrange(0, base.len() as int) == base
    &&& name[base.len() as int] == '.'
    &&& spec_parse_rfc3339(name.subrange(base.len() + 1int, name.len() as int)) is Some
}

/// Whether `filename` names a snapshot of the subvolume with base name
/// `basename`: the base name, a dot, and a well-formed timestamp.
pub fn is_snapshot_name(basename: &str, filename: &str) -> (r: bool)
    ensures
        r == spec_is_snapshot_name(basename@, filename@),
{
    let bn = basename.unicode_len();
    let flen = filename.unicode_len();
    if bn == usize::MAX || flen <= bn + 1 {
        return false;
    }
    let mut k: usize = 0;
    while k < bn
        invariant
            k <= bn,
            bn == basename@.len(),
            bn < flen == filename@.len(),
            forall|t: int| 0 <= t < k ==> filename@[t] == basename@[t],
        decreases bn - k,
    {
        if !(filename.get_char(k) == basename.get_char(k)) {
            proof {
                assert(filename@.subrange(0, bn as int)[k as int] != basename@[k as int]);
            }
            return false;
        }
        k = k + 1;
    }
    if !char_at_is_dot(filename, bn) {
        return false;
    }
    let suffix = filename.substring_char(bn + 1, flen);
    proof {
        assert(filename@.subrange(0, bn as int) =~= basename@);
        assert(suffix@ =~= filename@.subrange(bn + 1, flen as int));
    }
    match parse_rfc3339(suffix) {
        Some(_) => true,
        None => false,
    }
}

/// The run of `/` characters ending `s` is dropped.
pub open spec fn strip_trailing_slashes(s: Seq<char>) -> Seq<char>
    decreases s.len(),
{
    if s.len() > 0 && s[s.len() - 1] == '/' {
        strip_trailing_slashes(s.drop_last())
    } else {
        s
    }
}

/// Index of the last `/` at or before position `i`, `-1` when there is none.
pub open spec fn last_slash_from(s: Seq<char>, i: int) -> int
    decreases i + 1,
{
    if i < 0 || i >= s.len() {
        -1
    } else if s[i] == '/' {
        i
    } else {
        last_slash_from(s, i - 1)
    }
}

/// Base name of a path: what follows the last `/` once trailing slashes are
/// dropped; `None` when nothing follows.
pub open spec fn spec_basename(s: Seq<char>) -> Option<Seq<char>> {
    let t = strip_trailing_slashes(s);
    let sl = last_slash_from(t, t.len() - 1);
    if t.len() > sl + 1 {
        Some(t.subrange(sl + 1, t.len() as int))
    } else {
        None
    }
}

/// Base name of a subvolume path.
pub fn basename_of(path: &str) -> (r: Option<&str>)
    ensures
        match r {
            Some(b) => spec_basename(path@) == Some(b@),
            None => spec_basename(path@) is None,
        },
{
    let n = path.unicode_len();
    proof {
        assert(path@.subrange(0, n as int) =~= path@);
    }
    let mut e = n;
    while e > 0 && char_at_is_slash(path, e - 1)
        invariant
            e <= n,
            n == path@.len(),
            strip_trailing_slashes(path@) == strip_trailing_slashes(path@.subrange(0, e as int)),
        decreases e,
    {
        proof {
            assert(path@.subrange(0, e as int).drop_last() =~= path@.subrange(0, e - 1));
        }
        e = e - 1;
    }
    let ghost t = strip_trailing_slashes(path@);
    proof {
        assert(t =~= path@.subrange(0, e as int));
    }
    let mut i = e;
    while i > 0 && !char_at_is_slash(path, i - 1)
        invariant
            i <= e <= n,
            n == path@.len(),
            t == path@.subrange(0, e as int),
            last_slash_from(t, e - 1) == last_slash_from(t, i - 1),
        decreases i,
    {
        proof {
            assert(t[i - 1] == path@[i - 1]);
        }
        i = i - 1;
    }
    if i == e {
        proof {
            assert(e == 0);
            assert(last_slash_from(t, -1) == -1);
        }
        None
    } else {
        proof {
            if i > 0 {
                assert(t[i - 1] == path@[i - 1]);
                assert(last_slash_from(t, i - 1) == i - 1);
            } else {
                assert(last_slash_from(t, -1) == -1);
            }
        }
        let b = path.substring_char(i, e);
        proof {
            assert(b@ =~= t.subrange(i as int, e as int));
        }
        Some(b)
    }
}

fn char_at_is_slash(s: &str, i: usize) -> (r: bool)
    requires
        i < s@.len(),
    ensures
        r == (s@[i as int] == '/'),
{
    s.get_char(i) == '/'
}

/// Which policy of a job failed to parse.
#[derive(Clone, Copy, Debug, PartialEq, Eq, Structural)]
pub enum PolicyStage {
    MinPreserve,
    Retention,
}

/// A degradation report: the job whose policy could not be applied and
/// which stage failed.  Such a job keeps everything.
#[derive(Clone, Copy, Debug, PartialEq, Eq, Structural)]
pub struct PolicyEvent {
    pub job: usize,
    pub stage: PolicyStage,
}

/// The spec-level shapes of a sequence of intents.
pub open spec fn views(s: Seq<Intent>) -> Seq<IntentModel> {
    s.map_values(|x: Intent| x@)
}

/// A timespan string that the scheduler cannot use: bad grammar, or a total
/// that does not fit the machine.
pub open spec fn spec_timespan_bad(s: Seq<char>) -> bool {
    spec_parse_counts(s) is None || spec_total_seconds(spec_parse_counts(s)->Some_0) > i64::MAX
}

/// A retention string that the scheduler cannot use: bad grammar, or some
/// count that does not fit the machine.
pub open spec fn spec_retention_bad(s: Seq<char>) -> bool {
    spec_parse_counts(s) is None || (exists|k: int|
        0 <= k < 5 && #[trigger] spec_parse_counts(s)->Some_0[k] > usize::MAX)
}

/// A job on which the pass keeps every deletion candidate: an explicit
/// keep-all floor, or a policy string that failed to parse (fail safe).
pub open spec fn spec_min_keeps_all(j: crate::job::JobModel) -> bool {
    ||| j.preserve.min == MinModel::All
    ||| (j.preserve.min matches MinModel::Timespan(s) && spec_timespan_bad(s))
    ||| spec_retention_bad(j.preserve.retention)
}

/// The degradation events of one job, in stage order.
pub open spec fn spec_job_events(j: crate::job::JobModel, idx: usize) -> Seq<PolicyEvent> {
    (if j.preserve.min matches MinModel::Timespan(s) && spec_timespan_bad(s) {
        seq![PolicyEvent { job: idx, stage: PolicyStage::MinPreserve }]
    } else {
        Seq::empty()
    }) + (if spec_retention_bad(j.preserve.retention) {
        seq![PolicyEvent { job: idx, stage: PolicyStage::Retention }]
    } else {
        Seq::empty()
    })
}

/// The degradation events of the first `upto` jobs, in job order.
pub open spec fn spec_events(jobs: Seq<crate::job::JobModel>, upto: int) -> Seq<PolicyEvent>
    decreases upto,
{
    if upto <= 0 {
        Seq::empty()
    } else {
        spec_events(jobs, upto - 1) + spec_job_events(jobs[upto - 1], (upto - 1) as usize)
    }
}

/// `i` indexes a deletion candidate of job `j`.
pub open spec fn is_delete_candidate(s: Seq<IntentModel>, j: int, i: int) -> bool {
    0 <= i < s.len() && s[i].kind == IntentType::Delete && s[i].job == j
}

/// Every Delete intent's name embeds a timestamp.
pub open spec fn deletes_parse(s: Seq<IntentModel>) -> bool {
    forall|i: int|
        0 <= i < s.len() && (#[trigger] s[i]).kind == IntentType::Delete
            ==> spec_name_timestamp(s[i].name) is Some
}

/// Fields other than the kind agree.
pub open spec fn same_except_kind(a: IntentModel, b: IntentModel) -> bool {
    &&& b.subvolume == a.subvolume
    &&& b.target == a.target
    &&& b.name == a.name
    &&& b.job == a.job
}

/// Within one pass a kind only moves from Delete to Keep.
pub open spec fn kind_evolves(a: IntentType, b: IntentType) -> bool {
    b == a || (a == IntentType::Delete && b == IntentType::Keep)
}

/// The deletion candidates of job `j`, each with the instant its name
/// denotes, in index order.
fn collect_candidates(intents: &Vec<Intent>, j: usize) -> (r: Vec<(i64, usize)>)
    requires
        deletes_parse(views(intents@)),
    ensures
        forall|k: int|
            0 <= k < r@.len() ==> is_delete_candidate(
                views(intents@),
                j as int,
                #[trigger] r@[k].1 as int,
            ) && r@[k].0 == spec_name_instant(intents@[r@[k].1 as int]@.name),
        forall|i: int|
            is_delete_candidate(views(intents@), j as int, i) ==> exists|k: int|
                0 <= k < r@.len() && #[trigger] r@[k].1 == i,
        forall|k1: int, k2: int| 0 <= k1 < k2 < r@.len() ==> r@[k1].1 < r@[k2].1,
{
    let mut r: Vec<(i64, usize)> = Vec::new();
    let mut i: usize = 0;
    let n = intents.len();
    while i < n
        invariant
            i <= n,
            n == intents@.len(),
            deletes_parse(views(intents@)),
            forall|k: int|
                0 <= k < r@.len() ==> is_delete_candidate(
                    views(intents@),
                    j as int,
                    #[trigger] r@[k].1 as int,
                ) && r@[k].0 == spec_name_instant(intents@[r@[k].1 as int]@.name),
            forall|t: int|
                0 <= t < i && is_delete_candidate(views(intents@), j as int, t) ==> exists|k: int|
                    0 <= k < r@.len() && #[trigger] r@[k].1 == t,
            forall|k: int| 0 <= k < r@.len() ==> r@[k].1 < i,
            forall|k1: int, k2: int| 0 <= k1 < k2 < r@.len() ==> r@[k1].1 < r@[k2].1,
        decreases n - i,
    {
        let is_delete = match intents[i].intent {
            IntentType::Delete => true,
            _ => false,
        };
        if is_delete && intents[i].job == j {
            proof {
                assert(views(intents@)[i as int].kind == IntentType::Delete);
            }
            let ts = intents[i].timestamp();
            let ghost r_prev = r@;
            match ts {
                Some(ts) => {
                    r.push((ts.instant(), i));
                    proof {
                        assert forall|t: int|
                            0 <= t < i + 1 && is_delete_candidate(
                                views(intents@),
                                j as int,
                                t,
                            ) implies exists|k: int|
                            0 <= k < r@.len() && #[trigger] r@[k].1 == t by {
                            if t == i {
                                assert(r@[r@.len() - 1].1 == t);
                            } else {
                                let k = choose|k: int|
                                    0 <= k < r_prev.len() && #[trigger] r_prev[k].1 == t;
                                assert(r@[k].1 == t);
                            }
                        }
                    }
                },
                None => {
                    proof {
                        assert(false);
                    }
                },
            }
        }
        i = i + 1;
    }
    r
}

/// Strictly newer first: by instant, ties broken toward the lower index.
pub open spec fn lex_before(a: (i64, usize), b: (i64, usize)) -> bool {
    a.0 > b.0 || (a.0 == b.0 && a.1 < b.1)
}

/// Sorts the candidate list newest first; entries sharing an instant stay
/// in index order, so the result is strictly ordered and unique.
fn sort_desc(v: &mut Vec<(i64, usize)>)
    requires
        forall|a: int, b: int|
            0 <= a < b < old(v)@.len() ==> (#[trigger] old(v)@[a]).1 < (#[trigger] old(v)@[b]).1,
    ensures
        final(v)@.len() == old(v)@.len(),
        final(v)@.to_multiset() == old(v)@.to_multiset(),
        forall|a: int, b: int|
            0 <= a < b < final(v)@.len() ==> lex_before(
                #[trigger] final(v)@[a],
                #[trigger] final(v)@[b],
            ),
{
    let ghost orig = v@;
    let mut out: Vec<(i64, usize)> = Vec::new();
    while v.len() > 0
        invariant
            out@.to_multiset().add(v@.to_multiset()) == orig.to_multiset(),
            forall|a: int, b: int|
                0 <= a < b < v@.len() ==> (#[trigger] v@[a]).1 < (#[trigger] v@[b]).1,
            forall|a: int, b: int|
                0 <= a < b < out@.len() ==> lex_before(#[trigger] out@[a], #[trigger] out@[b]),
            forall|a: int, b: int|
                0 <= a < out@.len() && 0 <= b < v@.len() ==> lex_before(
                    #[trigger] out@[a],
                    #[trigger] v@[b],
                ),
        decreases v@.len(),
    {
        let mut best: usize = 0;
        let mut k: usize = 1;
        while k < v.len()
            invariant
                0 < v@.len(),
                best < k <= v@.len(),
                forall|t: int| 0 <= t < k ==> (#[trigger] v@[t]).0 <= v@[best as int].0,
                forall|t: int| 0 <= t < best ==> (#[trigger] v@[t]).0 < v@[best as int].0,
            decreases v@.len() - k,
        {
            if v[k].0 > v[best].0 {
                best = k;
            }
            k = k + 1;
        }
        let ghost pre = v@;
        let e = v.remove(best);
        out.push(e);
        proof {
            // the remainder keeps its index order, and the removed entry
            // comes lexicographically before everything left
            assert forall|a: int, b: int|
                0 <= a < b < v@.len() implies (#[trigger] v@[a]).1 < (#[trigger] v@[b]).1 by {
                if b < best {
                    assert(v@[a] == pre[a] && v@[b] == pre[b]);
                } else if a < best {
                    assert(v@[a] == pre[a] && v@[b] == pre[b + 1]);
                } else {
                    assert(v@[a] == pre[a + 1] && v@[b] == pre[b + 1]);
                }
            }
            assert forall|b: int| 0 <= b < v@.len() implies lex_before(e, #[trigger] v@[b]) by {
                if b < best {
                    assert(v@[b] == pre[b]);
                    assert(pre[b].0 < e.0);
                } else {
                    assert(v@[b] == pre[b + 1]);
                    assert(pre[b + 1].0 <= e.0);
                    if pre[b + 1].0 == e.0 {
                        assert(e.1 < pre[b + 1].1);
                    }
                }
            }
        }
    }
    proof {
        assert(v@.to_multiset() =~= Multiset::empty());
        assert(out@.to_multiset() =~= out@.to_multiset().add(v@.to_multiset()));
        assert(orig.to_multiset().len() == orig.len());
        assert(out@.to_multiset().len() == out@.len());
    }
    *v = out;
}

/// Promotes the first `n` (or all, when fewer) listed candidates to Keep.
fn promote_first_n(intents: &mut Vec<Intent>, cands: &Vec<(i64, usize)>, n: usize)
    requires
        forall|k: int| 0 <= k < cands@.len() ==> (#[trigger] cands@[k].1 as int) < old(intents)@.len(),
    ensures
        final(intents)@.len() == old(intents)@.len(),
        forall|i: int|
            0 <= i < old(intents)@.len() ==> final(intents)@[i]@ == (
            if exists|k: int|
                #![trigger cands@[k]]
                0 <= k < n && k < cands@.len() && cands@[k].1 == i {
                spec_keep(old(intents)@[i]@)
            } else {
                old(intents)@[i]@
            }),
{
    let m = intents.len();
    let mut k: usize = 0;
    while k < n && k < cands.len()
        invariant
            m == old(intents)@.len(),
            intents@.len() == old(intents)@.len(),
            k <= cands@.len(),
            k <= n,
            forall|t: int| 0 <= t < cands@.len() ==> (#[trigger] cands@[t].1 as int) < m,
            forall|i: int|
                0 <= i < intents@.len() ==> intents@[i]@ == (
                if exists|t: int|
                    #![trigger cands@[t]]
                    0 <= t < k && cands@[t].1 == i {
                    spec_keep(old(intents)@[i]@)
                } else {
                    old(intents)@[i]@
                }),
        decreases cands@.len() - k,
    {
        let idx = cands[k].1;
        intents[idx].intent = IntentType::Keep;
        proof {
            assert forall|i: int| 0 <= i < intents@.len() implies intents@[i]@ == (
                if exists|t: int|
                    #![trigger cands@[t]]
                    0 <= t < k + 1 && cands@[t].1 == i {
                    spec_keep(old(intents)@[i]@)
                } else {
                    old(intents)@[i]@
                }) by {
                if i == idx {
                    assert(cands@[k as int].1 == i);
                } else {
                    if exists|t: int|
                        #![trigger cands@[t]]
                        0 <= t < k + 1 && cands@[t].1 == i {
                        let t = choose|t: int|
                            #![trigger cands@[t]]
                            0 <= t < k + 1 && cands@[t].1 == i;
                        assert(i < m);
                        assert(t < k);
                    }
                }
            }
        }
        k = k + 1;
    }
    proof {
        assert forall|i: int| 0 <= i < intents@.len() implies #[trigger] intents@[i]@ == (
            if exists|t: int|
                #![trigger cands@[t]]
                0 <= t < n && t < cands@.len() && cands@[t].1 == i {
                spec_keep(old(intents)@[i]@)
            } else {
                old(intents)@[i]@
            }) by {
            if exists|t: int| #![trigger cands@[t]] 0 <= t < k && cands@[t].1 == i {
                let t = choose|t: int| #![trigger cands@[t]] 0 <= t < k && cands@[t].1 == i;
                assert(0 <= t < n && t < cands@.len() && cands@[t].1 == i);
            }
            if exists|t: int|
                #![trigger cands@[t]]
                0 <= t < n && t < cands@.len() && cands@[t].1 == i {
                let t = choose|t: int|
                    #![trigger cands@[t]]
                    0 <= t < n && t < cands@.len() && cands@[t].1 == i;
                assert(0 <= t < k && cands@[t].1 == i);
            }
        }
    }
}

/// Below `dot`-many leading characters settle the last-dot search when no
/// later character is a dot.
proof fn lemma_last_dot_skip(s: Seq<char>, dot: int, i: int)
    requires
        0 <= dot <= i < s.len(),
        s[dot] == '.',
        forall|k: int| dot < k <= i ==> s[k] != '.',
    ensures
        last_dot_from(s, i) == dot,
    decreases i,
{
    if i > dot {
        lemma_last_dot_skip(s, dot, i - 1);
    }
}

/// A name built as `<base>.<rendered timestamp>` always embeds that
/// timestamp: the rendering holds no dot, so the separating dot is the last
/// one, and reading the suffix back yields the timestamp again.
pub proof fn lemma_name_embeds_timestamp(base: Seq<char>, ts: Timestamp)
    requires
        ts.wf(),
    ensures
        spec_name_timestamp(base + seq!['.'] + crate::timestamp::spec_format_rfc3339(ts))
            == Some(ts),
{
    let f = crate::timestamp::spec_format_rfc3339(ts);
    let name = base + seq!['.'] + f;
    let dot = base.len() as int;
    crate::timestamp::lemma_format_parse_round_trip(ts);
    assert(f.len() == 25);
    assert(name[dot] == '.');
    assert forall|k: int| dot < k <= name.len() - 1 implies name[k] != '.' by {
        assert(name[k] == f[k - dot - 1]);
        assert(crate::timestamp::rfc3339_shape(f));
        let t = k - dot - 1;
        if t == 4 || t == 7 {
            assert(f[t] == '-');
        } else if t == 10 {
            assert(f[t] == 'T');
        } else if t == 13 || t == 16 || t == 22 {
            assert(f[t] == ':');
        } else if t == 19 {
            assert(f[t] == '+' || f[t] == '-');
        } else {
            assert(crate::duration::is_digit_char(f[t]));
        }
    }
    lemma_last_dot_skip(name, dot, name.len() - 1);
    assert(name.subrange(dot + 1, name.len() as int) =~= f);
}

/// A file name that matches the snapshot naming pattern always embeds a
/// timestamp: what the delete gatherer admits, the scheduler can read.
pub proof fn lemma_snapshot_name_parses(base: Seq<char>, name: Seq<char>)
    requires
        spec_is_snapshot_name(base, name),
    ensures
        spec_name_timestamp(name) is Some,
{
    let dot = base.len() as int;
    let suffix = name.subrange(dot + 1, name.len() as int);
    assert(spec_parse_rfc3339(suffix) is Some);
    assert(crate::timestamp::rfc3339_shape(suffix));
    assert(crate::timestamp::spec_parse_offset(suffix) is Some);
    assert forall|k: int| dot < k <= name.len() - 1 implies name[k] != '.' by {
        let t = k - dot - 1;
        assert(name[k] == suffix[t]);
        if t == 4 || t == 7 {
            assert(suffix[t] == '-');
        } else if t == 10 {
            assert(suffix[t] == 'T');
        } else if t == 13 || t == 16 {
            assert(suffix[t] == ':');
        } else if t < 19 {
            assert(crate::duration::is_digit_char(suffix[t]));
        } else if suffix.len() == 20 {
            assert(suffix[19] == 'Z');
        } else if t == 19 {
            assert(suffix[t] == '+' || suffix[t] == '-');
        } else if t == 22 {
            assert(suffix[t] == ':');
        } else {
            assert(crate::duration::is_digit_char(suffix[t]));
        }
    }
    lemma_last_dot_skip(name, dot, name.len() - 1);
}

impl Intent {
    /// The Create intent of a job at `now`: its snapshot is named after the
    /// subvolume's base name and the creation time.  `None` exactly when the
    /// subvolume path has no base name.
    pub fn create_for_job(job: &Job, job_idx: usize, now: &Timestamp) -> (r: Option<Intent>)
        requires
            now.wf(),
        ensures
            match r {
                Some(intent) => {
                    &&& spec_basename(job@.subvolume) matches Some(b) && intent@.name == b
                        + seq!['.'] + crate::timestamp::spec_format_rfc3339(*now)
                    &&& intent@.kind == IntentType::Create
                    &&& intent@.subvolume == job@.subvolume
                    &&& intent@.target == job@.target
                    &&& intent@.job == job_idx
                    &&& spec_name_timestamp(intent@.name) == Some(*now)
                },
                None => spec_basename(job@.subvolume) is None,
            },
    {
        proof {
            reveal_strlit(".");
        }
        match basename_of(job.subvolume.as_str()) {
            None => None,
            Some(b) => {
                let mut name = b.to_owned();
                name.append(".");
                let rendered = crate::timestamp::format_rfc3339(now);
                name.append(rendered.as_str());
                proof {
                    assert(name@ =~= spec_basename(job@.subvolume)->Some_0 + seq!['.']
                        + crate::timestamp::spec_format_rfc3339(*now));
                    lemma_name_embeds_timestamp(spec_basename(job@.subvolume)->Some_0, *now);
                }
                Some(
                    Intent {
                        intent: IntentType::Create,
                        subvolume: job.subvolume.clone(),
                        target: job.target.clone(),
                        name,
                        job: job_idx,
                    },
                )
            },
        }
    }
}

/// The spec-level shapes of a sequence of jobs.
pub open spec fn job_views(s: Seq<Job>) -> Seq<crate::job::JobModel> {
    s.map_values(|x: Job| x@)
}

/// The number of candidates a minimum floor guarantees to keep, where it
/// guarantees a count at all.
pub open spec fn spec_min_floor(m: MinModel) -> Option<int> {
    match m {
        MinModel::Count(n) => Some(n),
        MinModel::Latest => Some(1),
        _ => None,
    }
}

/// Whether candidate `i2` strictly outranks candidate `i` of the same job:
/// newer, or equally new with the lower index — the scheduler's own
/// tie-break, so outranking is a strict total order on a job's candidates.
pub open spec fn spec_outranks(s: Seq<IntentModel>, i2: int, i: int) -> bool {
    ||| spec_name_instant(s[i2].name) > spec_name_instant(s[i].name)
    ||| (spec_name_instant(s[i2].name) == spec_name_instant(s[i].name) && i2 < i)
}

/// How many deletion candidates of job `j` among `s[..m]` strictly outrank
/// candidate `i`.
pub open spec fn count_outranking(s: Seq<IntentModel>, j: int, i: int, m: int) -> nat
    decreases m,
{
    if m <= 0 {
        0
    } else {
        count_outranking(s, j, i, m - 1) + if m - 1 != i && is_delete_candidate(s, j, m - 1)
            && spec_outranks(s, m - 1, i) {
            1nat
        } else {
            0nat
        }
    }
}

/// How many of the first `n` listed candidates have an index below `m`.
spec fn wit_below(cands: Seq<(i64, usize)>, n: int, m: int) -> nat
    decreases n,
{
    if n <= 0 {
        0
    } else {
        wit_below(cands, n - 1, m) + if (cands[n - 1].1 as int) < m {
            1nat
        } else {
            0nat
        }
    }
}

proof fn lemma_wit_below_zero(cands: Seq<(i64, usize)>, n: int)
    ensures
        wit_below(cands, n, 0) == 0,
    decreases n,
{
    if n > 0 {
        lemma_wit_below_zero(cands, n - 1);
    }
}

/// Crossing index `m - 1` raises the tally exactly when some listed
/// candidate sits there; the indices being distinct, by at most one.
proof fn lemma_wit_below_step(cands: Seq<(i64, usize)>, n: int, m: int)
    requires
        0 <= n <= cands.len(),
        forall|k1: int, k2: int|
            0 <= k1 < k2 < cands.len() ==> (#[trigger] cands[k1]).1 != (#[trigger] cands[k2]).1,
        m >= 1,
    ensures
        wit_below(cands, n, m) == wit_below(cands, n, m - 1) + if exists|k: int|
            0 <= k < n && (#[trigger] cands[k]).1 == m - 1 {
            1nat
        } else {
            0nat
        },
    decreases n,
{
    if n > 0 {
        lemma_wit_below_step(cands, n - 1, m);
        if cands[n - 1].1 == m - 1 {
            assert(exists|k: int| 0 <= k < n && (#[trigger] cands[k]).1 == m - 1);
            if exists|k: int| 0 <= k < n - 1 && (#[trigger] cands[k]).1 == m - 1 {
                let k = choose|k: int| 0 <= k < n - 1 && (#[trigger] cands[k]).1 == m - 1;
                assert(cands[k].1 == cands[n - 1].1);
                assert(false);
            }
        } else {
            assert((exists|k: int| 0 <= k < n && (#[trigger] cands[k]).1 == m - 1) == (exists|
                k: int,
            |
                0 <= k < n - 1 && (#[trigger] cands[k]).1 == m - 1)) by {
                if exists|k: int| 0 <= k < n && (#[trigger] cands[k]).1 == m - 1 {
                    let k = choose|k: int| 0 <= k < n && (#[trigger] cands[k]).1 == m - 1;
                    assert(k < n - 1);
                }
            }
        }
    }
}

/// All of the first `n` listed candidates lie below the intent count.
proof fn lemma_wit_below_full(cands: Seq<(i64, usize)>, n: int, m: int)
    requires
        0 <= n <= cands.len(),
        forall|k: int| 0 <= k < n ==> (#[trigger] cands[k]).1 < m,
    ensures
        wit_below(cands, n, m) == n,
    decreases n,
{
    if n > 0 {
        lemma_wit_below_full(cands, n - 1, m);
    }
}

/// Distinct listed witnesses, each outranking candidate `i`, force the
/// outranking count that high.
proof fn lemma_outranking_bound(
    o: Seq<IntentModel>,
    j: int,
    i: int,
    cands: Seq<(i64, usize)>,
    n: int,
    m: int,
)
    requires
        0 <= n <= cands.len(),
        0 <= m <= o.len(),
        forall|k1: int, k2: int|
            0 <= k1 < k2 < cands.len() ==> (#[trigger] cands[k1]).1 != (#[trigger] cands[k2]).1,
        forall|k: int|
            0 <= k < n ==> ((#[trigger] cands[k]).1 as int) < o.len() && cands[k].1 != i
                && is_delete_candidate(o, j, cands[k].1 as int) && spec_outranks(
                o,
                cands[k].1 as int,
                i,
            ),
    ensures
        count_outranking(o, j, i, m) >= wit_below(cands, n, m),
    decreases m,
{
    if m == 0 {
        lemma_wit_below_zero(cands, n);
    } else {
        lemma_outranking_bound(o, j, i, cands, n, m - 1);
        lemma_wit_below_step(cands, n, m);
        if exists|k: int| 0 <= k < n && (#[trigger] cands[k]).1 == m - 1 {
            let k = choose|k: int| 0 <= k < n && (#[trigger] cands[k]).1 == m - 1;
            assert(m - 1 != i && is_delete_candidate(o, j, m - 1) && spec_outranks(o, m - 1, i));
        }
    }
}

/// Two equal entries at different places put the value twice in the bag.
proof fn lemma_pair_count_ge_2(s: Seq<(i64, usize)>, a: int, b: int)
    requires
        0 <= a < b < s.len(),
        s[a] == s[b],
    ensures
        s.to_multiset().count(s[a]) >= 2,
{
    let removed = s.remove(b);
    assert(removed.to_multiset() =~= s.to_multiset().remove(s[b]));
    assert(removed[a] == s[a]);
    assert(removed.contains(s[a]));
    assert(removed.to_multiset().count(s[a]) > 0);
}

/// A bag holding a value twice shows it at two different places.
proof fn lemma_pair_two_positions(s: Seq<(i64, usize)>, x: (i64, usize))
    requires
        s.to_multiset().count(x) >= 2,
    ensures
        exists|a: int, b: int|
            #![trigger s[a], s[b]]
            0 <= a < b < s.len() && s[a] == x && s[b] == x,
{
    assert(s.contains(x));
    let a = choose|a: int| 0 <= a < s.len() && s[a] == x;
    let removed = s.remove(a);
    assert(removed.to_multiset() =~= s.to_multiset().remove(x));
    assert(removed.to_multiset().count(x) >= 1);
    assert(removed.contains(x));
    let c = choose|c: int| 0 <= c < removed.len() && removed[c] == x;
    if c < a {
        assert(s[c] == x && s[a] == x);
    } else {
        assert(s[c + 1] == x && s[a] == x);
    }
}

/// Sorting a list with strictly increasing indices keeps them distinct.
proof fn lemma_sorted_indices_distinct(unsorted: Seq<(i64, usize)>, sorted: Seq<(i64, usize)>)
    requires
        unsorted.to_multiset() == sorted.to_multiset(),
        forall|k1: int, k2: int|
            0 <= k1 < k2 < unsorted.len() ==> (#[trigger] unsorted[k1]).1 < (
            #[trigger] unsorted[k2]).1,
    ensures
        forall|k1: int, k2: int|
            0 <= k1 < k2 < sorted.len() ==> (#[trigger] sorted[k1]).1 != (
            #[trigger] sorted[k2]).1,
{
    assert forall|k1: int, k2: int|
        0 <= k1 < k2 < sorted.len() implies (#[trigger] sorted[k1]).1 != (
    #[trigger] sorted[k2]).1 by {
        if sorted[k1].1 == sorted[k2].1 {
            if sorted[k1] == sorted[k2] {
                lemma_pair_count_ge_2(sorted, k1, k2);
                lemma_pair_two_positions(unsorted, sorted[k1]);
                let (a, b) = choose|a: int, b: int|
                    #![trigger unsorted[a], unsorted[b]]
                    0 <= a < b < unsorted.len() && unsorted[a] == sorted[k1]
                        && unsorted[b] == sorted[k1];
                assert(unsorted[a].1 < unsorted[b].1);
            } else {
                assert(sorted.to_multiset().count(sorted[k1]) > 0);
                assert(unsorted.contains(sorted[k1]));
                assert(sorted.to_multiset().count(sorted[k2]) > 0);
                assert(unsorted.contains(sorted[k2]));
                let a = choose|a: int| 0 <= a < unsorted.len() && unsorted[a] == sorted[k1];
                let b = choose|b: int| 0 <= b < unsorted.len() && unsorted[b] == sorted[k2];
                assert(a != b);
                if a < b {
                    assert(unsorted[a].1 < unsorted[b].1);
                } else {
                    assert(unsorted[b].1 < unsorted[a].1);
                }
            }
        }
    }
}

/// The timespan floor of `j`, in seconds; meaningful when its grammar is
/// good.
pub open spec fn spec_timespan_secs(s: Seq<char>) -> int {
    spec_total_seconds(spec_parse_counts(s)->Some_0)
}

/// `cands` lists exactly the deletion candidates of job `j` in `s` (kind
/// Delete, matching job index), each with the instant its name denotes,
/// newest first with ties by index — which pins the sequence completely.
#[verifier::opaque]
pub open spec fn spec_candidate_list(s: Seq<IntentModel>, j: int, cands: Seq<(i64, usize)>) -> bool {
    &&& forall|k: int|
        0 <= k < cands.len() ==> is_delete_candidate(s, j, (#[trigger] cands[k]).1 as int)
            && cands[k].0 == spec_name_instant(s[cands[k].1 as int].name)
    &&& forall|i: int|
        is_delete_candidate(s, j, i) ==> exists|k: int|
            0 <= k < cands.len() && (#[trigger] cands[k]).1 == i
    &&& forall|k1: int, k2: int|
        0 <= k1 < k2 < cands.len() ==> lex_before(#[trigger] cands[k1], #[trigger] cands[k2])
}

/// Whether the minimum floor protects the candidate at position `k` of the
/// list.
pub open spec fn spec_floor_keeps(
    min: MinModel,
    now: Timestamp,
    cands: Seq<(i64, usize)>,
    k: int,
) -> bool {
    match min {
        MinModel::All => true,
        MinModel::Latest => k < 1,
        MinModel::Count(n) => k < n,
        MinModel::Timespan(sp) => spec_timespan_bad(sp) || cands[k].0 > now.spec_instant()
            - spec_timespan_secs(sp),
    }
}

/// `e` appears in `cands` at a position the floor does not protect.
pub open spec fn spec_is_unprotected_member(
    min: MinModel,
    now: Timestamp,
    cands: Seq<(i64, usize)>,
    e: (i64, usize),
) -> bool {
    exists|k: int|
        0 <= k < cands.len() && (#[trigger] cands[k]) == e && !spec_floor_keeps(min, now, cands, k)
}

/// `survivors` lists, still newest first, the candidates of `cands` that
/// the floor does not protect.
#[verifier::opaque]
pub open spec fn spec_survivor_list(
    min: MinModel,
    now: Timestamp,
    cands: Seq<(i64, usize)>,
    survivors: Seq<(i64, usize)>,
) -> bool {
    &&& forall|k2: int|
        0 <= k2 < survivors.len() ==> #[trigger] spec_is_unprotected_member(
            min,
            now,
            cands,
            survivors[k2],
        )
    &&& forall|k: int|
        #![trigger cands[k]]
        0 <= k < cands.len() && !spec_floor_keeps(min, now, cands, k) ==> exists|k2: int|
            0 <= k2 < survivors.len() && (#[trigger] survivors[k2]) == cands[k]
    &&& forall|k1: int, k2: int|
        0 <= k1 < k2 < survivors.len() ==> lex_before(
            #[trigger] survivors[k1],
            #[trigger] survivors[k2],
        )
}

/// The bucket store after feeding the listed candidates from position `k`
/// on, each under the timestamp its name denotes.
#[verifier::opaque]
pub open spec fn spec_feed_from(
    m: BinsModel,
    s: Seq<IntentModel>,
    cands: Seq<(i64, usize)>,
    k: int,
) -> BinsModel
    decreases cands.len() - k,
{
    if k < 0 || k >= cands.len() {
        m
    } else {
        spec_feed_from(
            m.spec_store(
                spec_name_timestamp(s[cands[k].1 as int].name)->Some_0,
                cands[k].1,
            ),
            s,
            cands,
            k + 1,
        )
    }
}

/// What one pass leaves of one job's deletion candidates, from the intent
/// shapes `s` before the pass to `f` after it: the floor protects the
/// listed prefix or window, and, when the retention string is usable, a
/// surviving candidate ends Keep exactly when the bucket store, built for
/// `now` and fed the survivors newest first, holds its index.
#[verifier::opaque]
pub open spec fn spec_scheduled_job(
    s: Seq<IntentModel>,
    f: Seq<IntentModel>,
    job: crate::job::JobModel,
    jx: int,
    now: Timestamp,
    cands: Seq<(i64, usize)>,
    survivors: Seq<(i64, usize)>,
) -> bool {
    &&& spec_candidate_list(s, jx, cands)
    &&& spec_survivor_list(job.preserve.min, now, cands, survivors)
    &&& forall|k: int|
        0 <= k < cands.len() && spec_floor_keeps(job.preserve.min, now, cands, k) ==> f[(
        #[trigger] cands[k]).1 as int].kind == IntentType::Keep
    &&& !spec_retention_bad(job.preserve.retention) ==> {
        let fed = spec_feed_from(
            spec_new_bins(spec_parse_counts(job.preserve.retention)->Some_0, now),
            s,
            survivors,
            0,
        );
        forall|k2: int|
            0 <= k2 < survivors.len() ==> f[(#[trigger] survivors[k2]).1 as int].kind == (
            if fed.holds_index(survivors[k2].1) {
                IntentType::Keep
            } else {
                IntentType::Delete
            })
    }
}

/// A recorded job outcome carries across a later job's stages, which only
/// promote that later job's own candidates.
proof fn lemma_outcome_transfer(
    o: Seq<IntentModel>,
    s0: Seq<IntentModel>,
    s1: Seq<IntentModel>,
    s2: Seq<IntentModel>,
    job: crate::job::JobModel,
    jx: int,
    j: int,
    now: Timestamp,
    c: Seq<(i64, usize)>,
    sv: Seq<(i64, usize)>,
)
    requires
        o.len() == s0.len(),
        s0.len() == s1.len(),
        s1.len() == s2.len(),
        forall|i: int| 0 <= i < o.len() ==> same_except_kind(#[trigger] o[i], s0[i]),
        spec_scheduled_job(o, s0, job, jx, now, c, sv),
        jx != j,
        forall|i: int|
            0 <= i < s0.len() ==> (#[trigger] s1[i] == s0[i] || (s0[i].kind == IntentType::Delete
                && s0[i].job == j && s1[i] == spec_keep(s0[i]))),
        forall|i: int|
            0 <= i < s1.len() ==> (#[trigger] s2[i] == s1[i] || (s1[i].kind == IntentType::Delete
                && s1[i].job == j && s2[i] == spec_keep(s1[i]))),
    ensures
        spec_scheduled_job(o, s2, job, jx, now, c, sv),
{
    reveal(spec_scheduled_job);
    reveal(spec_candidate_list);
    reveal(spec_survivor_list);
    assert forall|k: int| 0 <= k < c.len() implies s2[(#[trigger] c[k]).1 as int].kind == s0[(
    c[k]).1 as int].kind by {
        let i = c[k].1 as int;
        assert(is_delete_candidate(o, jx, i));
        assert(o[i].job == jx);
        assert(o[i].job == s0[i].job);
        if s1[i] != s0[i] {
            assert(s0[i].job == j);
        }
        if s2[i] != s1[i] {
            assert(s1[i].job == s0[i].job);
            assert(s1[i].job == j);
        }
    }
    assert forall|k2: int|
        0 <= k2 < sv.len() implies s2[(#[trigger] sv[k2]).1 as int].kind == s0[(
    sv[k2]).1 as int].kind by {
        assert(spec_is_unprotected_member(job.preserve.min, now, c, sv[k2]));
        let k = choose|k: int|
            0 <= k < c.len() && (#[trigger] c[k]) == sv[k2] && !spec_floor_keeps(
                job.preserve.min,
                now,
                c,
                k,
            );
        assert(s2[c[k].1 as int].kind == s0[c[k].1 as int].kind);
    }
}

/// The collected, sorted list of a job's candidates in the working state is
/// the job's candidate list of the initial state, and its indices are
/// distinct.
proof fn lemma_candidates_lift(
    o: Seq<IntentModel>,
    s0: Seq<IntentModel>,
    j: int,
    cands: Seq<(i64, usize)>,
)
    requires
        o.len() == s0.len(),
        forall|i: int|
            0 <= i < o.len() ==> same_except_kind(#[trigger] o[i], s0[i]) && kind_evolves(
                o[i].kind,
                s0[i].kind,
            ),
        forall|i: int|
            0 <= i < o.len() && (#[trigger] o[i]).kind == IntentType::Delete && o[i].job == j
                ==> s0[i].kind == IntentType::Delete,
        forall|k: int|
            0 <= k < cands.len() ==> is_delete_candidate(s0, j, (#[trigger] cands[k]).1 as int)
                && cands[k].0 == spec_name_instant(s0[cands[k].1 as int].name),
        forall|i: int|
            is_delete_candidate(s0, j, i) ==> exists|k: int|
                0 <= k < cands.len() && (#[trigger] cands[k]).1 == i,
        forall|k1: int, k2: int|
            0 <= k1 < k2 < cands.len() ==> lex_before(#[trigger] cands[k1], #[trigger] cands[k2]),
    ensures
        spec_candidate_list(o, j, cands),
        forall|k1: int, k2: int|
            0 <= k1 < k2 < cands.len() ==> (#[trigger] cands[k1]).1 != (#[trigger] cands[k2]).1,
{
    reveal(spec_candidate_list);
    assert forall|k: int| 0 <= k < cands.len() implies is_delete_candidate(
        o,
        j,
        (#[trigger] cands[k]).1 as int,
    ) && cands[k].0 == spec_name_instant(o[cands[k].1 as int].name) by {
        let ck = cands[k].1 as int;
        assert(is_delete_candidate(s0, j, ck));
        assert(o[ck].kind == IntentType::Delete);
        assert(same_except_kind(o[ck], s0[ck]));
    }
    assert forall|i: int|
        is_delete_candidate(o, j, i) implies exists|k: int|
        0 <= k < cands.len() && (#[trigger] cands[k]).1 == i by {
        assert(s0[i].kind == IntentType::Delete);
        assert(is_delete_candidate(s0, j, i));
    }
    assert forall|k1: int, k2: int|
        0 <= k1 < k2 < cands.len() implies (#[trigger] cands[k1]).1 != (
    #[trigger] cands[k2]).1 by {
        if cands[k1].1 == cands[k2].1 {
            assert(lex_before(cands[k1], cands[k2]));
        }
    }
}

/// The recollected, sorted list after the floor stage holds exactly the
/// unprotected candidates.
proof fn lemma_survivors(
    o: Seq<IntentModel>,
    s0: Seq<IntentModel>,
    s1: Seq<IntentModel>,
    min: MinModel,
    now: Timestamp,
    j: int,
    cands: Seq<(i64, usize)>,
    cands2: Seq<(i64, usize)>,
)
    requires
        o.len() == s0.len(),
        s0.len() == s1.len(),
        forall|i: int|
            0 <= i < o.len() ==> same_except_kind(#[trigger] o[i], s0[i]) && kind_evolves(
                o[i].kind,
                s0[i].kind,
            ),
        forall|i: int|
            0 <= i < s0.len() ==> (#[trigger] s1[i] == s0[i] || s1[i] == spec_keep(s0[i])),
        spec_candidate_list(o, j, cands),
        forall|k: int|
            0 <= k < cands.len() ==> s1[(#[trigger] cands[k]).1 as int].kind == (
            if spec_floor_keeps(min, now, cands, k) {
                IntentType::Keep
            } else {
                IntentType::Delete
            }),
        forall|k: int|
            0 <= k < cands2.len() ==> is_delete_candidate(s1, j, (#[trigger] cands2[k]).1 as int)
                && cands2[k].0 == spec_name_instant(s1[cands2[k].1 as int].name),
        forall|i: int|
            is_delete_candidate(s1, j, i) ==> exists|k: int|
                0 <= k < cands2.len() && (#[trigger] cands2[k]).1 == i,
        forall|k1: int, k2: int|
            0 <= k1 < k2 < cands2.len() ==> lex_before(
                #[trigger] cands2[k1],
                #[trigger] cands2[k2],
            ),
    ensures
        spec_survivor_list(min, now, cands, cands2),
{
    reveal(spec_candidate_list);
    reveal(spec_survivor_list);
    assert forall|k2: int|
        0 <= k2 < cands2.len() implies #[trigger] spec_is_unprotected_member(
        min,
        now,
        cands,
        cands2[k2],
    ) by {
        let i = cands2[k2].1 as int;
        assert(is_delete_candidate(s1, j, i));
        assert(s1[i] == s0[i]);
        assert(is_delete_candidate(o, j, i));
        let k = choose|k: int| 0 <= k < cands.len() && (#[trigger] cands[k]).1 == cands2[k2].1;
        assert(o[i].name == s1[i].name);
        assert(cands[k] == cands2[k2]);
        assert(s1[cands[k].1 as int].kind == IntentType::Delete);
    }
    assert forall|k: int|
        #![trigger cands[k]]
        0 <= k < cands.len() && !spec_floor_keeps(min, now, cands, k) implies exists|k2: int|
        0 <= k2 < cands2.len() && (#[trigger] cands2[k2]) == cands[k] by {
        let i = cands[k].1 as int;
        assert(s1[i].kind == IntentType::Delete);
        assert(s1[i] == s0[i]);
        assert(is_delete_candidate(o, j, i));
        assert(is_delete_candidate(s1, j, i));
        let k2 = choose|k2: int|
            0 <= k2 < cands2.len() && (#[trigger] cands2[k2]).1 == cands[k].1;
        assert(cands2[k2].0 == spec_name_instant(s1[i].name));
        assert(o[i].name == s1[i].name);
        assert(cands2[k2] == cands[k]);
    }
}

impl Intent {
    /// One scheduling pass.  Per job, over its deletion candidates (Delete
    /// intents carrying the job's index): the minimum-preservation floor
    /// promotes the protected candidates to Keep, then the bucket scheme
    /// promotes one representative per live bucket; an unparseable policy
    /// string degrades the job to keeping everything and is reported.
    /// Create and Keep intents are never touched, and no Keep ever becomes
    /// Delete.
    #[verifier::rlimit(100)]
    pub fn delete_to_keep_intents(
        intents: &mut Vec<Intent>,
        jobs: &Vec<Job>,
        now: &Timestamp,
    ) -> (events: Vec<PolicyEvent>)
        requires
            now.wf(),
            deletes_parse(views(old(intents)@)),
        ensures
            final(intents)@.len() == old(intents)@.len(),
            forall|i: int|
                0 <= i < old(intents)@.len() ==> same_except_kind(
                    old(intents)@[i]@,
                    #[trigger] final(intents)@[i]@,
                ) && kind_evolves(old(intents)@[i]@.kind, final(intents)@[i]@.kind),
            events@ == spec_events(job_views(jobs@), jobs@.len() as int),
            forall|jx: int, i: int|
                #![trigger is_delete_candidate(views(old(intents)@), jx, i), job_views(jobs@)[jx]]
                0 <= jx < jobs@.len() && is_delete_candidate(views(old(intents)@), jx, i)
                    && spec_min_keeps_all(job_views(jobs@)[jx]) ==> final(intents)@[i]@.kind
                    == IntentType::Keep,
            forall|jx: int, i: int|
                #![trigger is_delete_candidate(views(old(intents)@), jx, i), job_views(jobs@)[jx]]
                0 <= jx < jobs@.len() && is_delete_candidate(views(old(intents)@), jx, i) && (
                job_views(jobs@)[jx].preserve.min matches MinModel::Timespan(s)
                    && !spec_timespan_bad(s) && spec_name_instant(old(intents)@[i]@.name)
                    > now.spec_instant() - spec_timespan_secs(s)) ==> final(intents)@[i]@.kind
                    == IntentType::Keep,
            forall|jx: int, i: int|
                #![trigger is_delete_candidate(views(old(intents)@), jx, i), job_views(jobs@)[jx]]
                0 <= jx < jobs@.len() && is_delete_candidate(views(old(intents)@), jx, i)
                    && final(intents)@[i]@.kind == IntentType::Delete ==> (spec_min_floor(
                    job_views(jobs@)[jx].preserve.min,
                ) matches Some(nn) ==> count_outranking(
                    views(old(intents)@),
                    jx,
                    i,
                    old(intents)@.len() as int,
                ) >= nn),
            forall|i: int|
                0 <= i < old(intents)@.len() && (#[trigger] old(intents)@[i]@).kind
                    == IntentType::Delete && old(intents)@[i]@.job >= jobs@.len()
                    ==> final(intents)@[i]@.kind == IntentType::Delete,
            forall|i: int|
                0 <= i < old(intents)@.len() && final(intents)@[i]@.kind
                    != (#[trigger] old(intents)@[i]@).kind
                    ==> old(intents)@[i]@.kind == IntentType::Delete
                    && 0 <= old(intents)@[i]@.job < jobs@.len(),
    {
        let ghost o = views(old(intents)@);
        let ghost jm = job_views(jobs@);
        let total = intents.len();
        let mut events: Vec<PolicyEvent> = Vec::new();
        let mut j: usize = 0;
        while j < jobs.len()
            invariant
                now.wf(),
                j <= jobs@.len(),
                o.len() == total,
                o == views(old(intents)@),
                jm == job_views(jobs@),
                intents@.len() == old(intents)@.len(),
                deletes_parse(views(intents@)),
                forall|i: int|
                    0 <= i < o.len() ==> same_except_kind(o[i], #[trigger] views(intents@)[i])
                        && kind_evolves(o[i].kind, views(intents@)[i].kind),
                forall|i: int|
                    0 <= i < o.len() && (#[trigger] o[i]).kind == IntentType::Delete && o[i].job
                        >= j ==> views(intents@)[i].kind == IntentType::Delete,
                forall|i: int|
                    0 <= i < o.len() && views(intents@)[i].kind != (#[trigger] o[i]).kind ==> 0
                        <= o[i].job < j,
                events@ == spec_events(jm, j as int),
                forall|jx: int, i: int|
                    #![trigger is_delete_candidate(o, jx, i), jm[jx]]
                    0 <= jx < j && is_delete_candidate(o, jx, i) && spec_min_keeps_all(jm[jx])
                        ==> views(intents@)[i].kind == IntentType::Keep,
                forall|jx: int, i: int|
                    #![trigger is_delete_candidate(o, jx, i), jm[jx]]
                    0 <= jx < j && is_delete_candidate(o, jx, i) && (
                    jm[jx].preserve.min matches MinModel::Timespan(s) && !spec_timespan_bad(s)
                        && spec_name_instant(o[i].name) > now.spec_instant()
                        - spec_timespan_secs(s)) ==> views(intents@)[i].kind == IntentType::Keep,
                forall|jx: int, i: int|
                    #![trigger is_delete_candidate(o, jx, i), jm[jx]]
                    0 <= jx < j && is_delete_candidate(o, jx, i) && views(intents@)[i].kind
                        == IntentType::Delete ==> (spec_min_floor(
                        jm[jx].preserve.min,
                    ) matches Some(nn) ==> count_outranking(o, jx, i, o.len() as int) >= nn),
            decreases jobs@.len() - j,
        {
            let ghost s0 = views(intents@);
            // deletion candidates of this job, newest first
            let mut cands = collect_candidates(intents, j);
            let ghost unsorted = cands@;
            sort_desc(&mut cands);
            proof {
                assert forall|k: int| 0 <= k < cands@.len() implies is_delete_candidate(
                    s0,
                    j as int,
                    (#[trigger] cands@[k]).1 as int,
                ) && cands@[k].0 == spec_name_instant(s0[cands@[k].1 as int].name) by {
                    assert(cands@.to_multiset().count(cands@[k]) > 0);
                    assert(unsorted.contains(cands@[k]));
                    let t = choose|t: int| 0 <= t < unsorted.len() && unsorted[t] == cands@[k];
                }
                assert forall|i: int|
                    is_delete_candidate(s0, j as int, i) implies exists|k: int|
                    0 <= k < cands@.len() && (#[trigger] cands@[k]).1 == i by {
                    let t = choose|t: int| 0 <= t < unsorted.len() && #[trigger] unsorted[t].1 == i;
                    assert(unsorted.to_multiset().count(unsorted[t]) > 0);
                    assert(cands@.contains(unsorted[t]));
                    let k = choose|k: int| 0 <= k < cands@.len() && cands@[k] == unsorted[t];
                    assert(cands@[k].1 == i);
                }
                assert forall|k: int| 0 <= k < cands@.len() implies (#[trigger] cands@[k].1 as int)
                    < intents@.len() by {}
            }
            // minimum-preservation floor
            match &jobs[j].preserve.min {
                crate::policies::PreservePolicyMin::Variant(
                    crate::policies::PreservePolicyMinVariants::All,
                ) => {
                    let n = cands.len();
                    promote_first_n(intents, &cands, n);
                },
                crate::policies::PreservePolicyMin::Variant(
                    crate::policies::PreservePolicyMinVariants::Latest,
                ) => {
                    promote_first_n(intents, &cands, 1);
                },
                crate::policies::PreservePolicyMin::Count(n) => {
                    promote_first_n(intents, &cands, *n);
                },
                crate::policies::PreservePolicyMin::Timespan(s) => {
                    match duration_from_str(s.as_str()) {
                        Err(_) => {
                            events.push(
                                PolicyEvent { job: j, stage: PolicyStage::MinPreserve },
                            );
                            let n = cands.len();
                            promote_first_n(intents, &cands, n);
                        },
                        Ok(dur) => {
                            let threshold: i128 = now.instant() as i128 - dur as i128;
                            promote_newer(intents, &cands, threshold);
                        },
                    }
                },
            }
            let ghost s1 = views(intents@);
            proof {
                // the floor only promotes listed candidates of this job
                assert forall|i: int| 0 <= i < s0.len() implies (#[trigger] s1[i] == s0[i] || (
                s0[i].kind == IntentType::Delete && s0[i].job == j && s1[i] == spec_keep(
                    s0[i],
                ))) by {
                    if s1[i] != s0[i] {
                        assert(s1[i] == spec_keep(s0[i]));
                        assert(is_delete_candidate(s0, j as int, i));
                    }
                }
                assert forall|i: int|
                    0 <= i < s1.len() && (#[trigger] s1[i]).kind
                        == IntentType::Delete implies spec_name_timestamp(s1[i].name) is Some by {
                    assert(s1[i] == s0[i]);
                }
            }
            // what the floor left as deletion candidates, newest first
            let mut cands2 = collect_candidates(intents, j);
            let ghost unsorted2 = cands2@;
            sort_desc(&mut cands2);
            proof {
                assert forall|k: int| 0 <= k < cands2@.len() implies is_delete_candidate(
                    s1,
                    j as int,
                    (#[trigger] cands2@[k]).1 as int,
                ) && cands2@[k].0 == spec_name_instant(s1[cands2@[k].1 as int].name) by {
                    assert(cands2@.to_multiset().count(cands2@[k]) > 0);
                    assert(unsorted2.contains(cands2@[k]));
                    let t = choose|t: int| 0 <= t < unsorted2.len() && unsorted2[t] == cands2@[k];
                }
                assert forall|i: int|
                    is_delete_candidate(s1, j as int, i) implies exists|k: int|
                    0 <= k < cands2@.len() && (#[trigger] cands2@[k]).1 == i by {
                    let t = choose|t: int|
                        0 <= t < unsorted2.len() && #[trigger] unsorted2[t].1 == i;
                    assert(unsorted2.to_multiset().count(unsorted2[t]) > 0);
                    assert(cands2@.contains(unsorted2[t]));
                    let k = choose|k: int| 0 <= k < cands2@.len() && cands2@[k] == unsorted2[t];
                    assert(cands2@[k].1 == i);
                }
                assert forall|k: int| 0 <= k < cands2@.len() implies (#[trigger] cands2@[k].1 as int)
                    < intents@.len() by {}
            }
            // the bucket scheme on what is left
            match Retention::from_str(jobs[j].preserve.retention.as_str()) {
                Err(_) => {
                    events.push(PolicyEvent { job: j, stage: PolicyStage::Retention });
                    let n = cands2.len();
                    promote_first_n(intents, &cands2, n);
                },
                Ok(retention) => {
                    let mut bins = TimeBins::new(&retention, now);
                    let ghost bins0 = bins@;
                    let mut k: usize = 0;
                    while k < cands2.len()
                        invariant
                            k <= cands2@.len(),
                            now.wf(),
                            bins.wf(),
                            deletes_parse(views(intents@)),
                            views(intents@) == s1,
                            intents@.len() == old(intents)@.len(),
                            o.len() == s1.len(),
                            forall|i: int| 0 <= i < o.len() ==> same_except_kind(#[trigger] o[i], s1[i]),
                            forall|t: int|
                                0 <= t < cands2@.len() ==> is_delete_candidate(
                                    s1,
                                    j as int,
                                    (#[trigger] cands2@[t]).1 as int,
                                ),
                            bins.all_indices_lt(intents@.len() as int),
                            forall|idx: usize|
                                #[trigger] bins.holds_index(idx) ==> is_delete_candidate(
                                    s1,
                                    j as int,
                                    idx as int,
                                ),
                            spec_feed_from(bins0, o, cands2@, 0) == spec_feed_from(
                                bins@,
                                o,
                                cands2@,
                                k as int,
                            ),
                        decreases cands2@.len() - k,
                    {
                        let idx = cands2[k].1;
                        let ts = intents[idx].timestamp();
                        match ts {
                            Some(ts) => {
                                let ghost pre = bins;
                                bins.store(&ts, idx);
                                proof {
                                    TimeBins::lemma_store_indices(
                                        pre,
                                        bins,
                                        ts,
                                        idx,
                                        intents@.len() as int,
                                    );
                                    TimeBins::lemma_store_new_index(pre, bins, ts, idx);
                                    crate::timebins::lemma_store_model(pre, bins, ts, idx);
                                    reveal(spec_feed_from);
                                    assert(same_except_kind(o[idx as int], s1[idx as int]));
                                    assert(ts == spec_name_timestamp(
                                        o[cands2@[k as int].1 as int].name,
                                    )->Some_0);
                                    assert(spec_feed_from(pre@, o, cands2@, k as int)
                                        == spec_feed_from(bins@, o, cands2@, k + 1));
                                }
                            },
                            None => {
                                proof {
                                    assert(false);
                                }
                            },
                        }
                        k = k + 1;
                    }
                    bins.set_keep(intents);
                    proof {
                        // the retention string was usable, and the final
                        // buckets are exactly the modeled fold
                        reveal(spec_feed_from);
                        let counts = spec_parse_counts(jm[j as int].preserve.retention)->Some_0;
                        assert forall|t: int| 0 <= t < 5 implies #[trigger] counts[t]
                            <= usize::MAX by {
                            assert(counts == retention.counts());
                        }
                        assert(!spec_retention_bad(jm[j as int].preserve.retention));
                        assert(bins0 == spec_new_bins(counts, *now));
                        let fed = spec_feed_from(spec_new_bins(counts, *now), o, cands2@, 0);
                        assert(bins@ == fed);
                        assert forall|k2: int|
                            0 <= k2 < cands2@.len() implies views(intents@)[(
                        #[trigger] cands2@[k2]).1 as int].kind == (if fed.holds_index(
                            cands2@[k2].1,
                        ) {
                            IntentType::Keep
                        } else {
                            IntentType::Delete
                        }) by {
                            let i = cands2@[k2].1;
                            assert(is_delete_candidate(s1, j as int, i as int));
                            assert(s1[i as int].kind == IntentType::Delete);
                        }
                    }
                },
            }
            let ghost s2 = views(intents@);
            proof {
                // the bucket stage only promotes remaining candidates of this job
                assert forall|i: int| 0 <= i < s1.len() implies (#[trigger] s2[i] == s1[i] || (
                s1[i].kind == IntentType::Delete && s1[i].job == j && s2[i] == spec_keep(
                    s1[i],
                ))) by {
                    if s2[i] != s1[i] {
                        assert(s2[i] == spec_keep(s1[i]));
                        assert(is_delete_candidate(s1, j as int, i));
                    }
                }
                assert forall|i: int|
                    0 <= i < s2.len() && (#[trigger] s2[i]).kind
                        == IntentType::Delete implies spec_name_timestamp(s2[i].name) is Some by {
                    assert(s2[i] == s1[i]);
                }
                assert forall|i: int|
                    0 <= i < o.len() implies same_except_kind(o[i], #[trigger] s2[i])
                        && kind_evolves(o[i].kind, s2[i].kind) by {
                    assert(same_except_kind(o[i], s0[i]) && kind_evolves(o[i].kind, s0[i].kind));
                }
                assert forall|i: int|
                    0 <= i < o.len() && (#[trigger] o[i]).kind == IntentType::Delete && o[i].job
                        >= j + 1 implies s2[i].kind == IntentType::Delete by {
                    assert(s0[i].kind == IntentType::Delete);
                    assert(s0[i].job == o[i].job);
                    assert(s1[i] == s0[i]);
                    assert(s2[i] == s1[i]);
                }
                assert forall|i: int|
                    0 <= i < o.len() && s2[i].kind != (#[trigger] o[i]).kind implies 0 <= o[i].job
                        < j + 1 by {
                    if s0[i].kind == o[i].kind {
                        if s1[i] != s0[i] {
                            assert(s0[i].job == j);
                        } else {
                            assert(s2[i] != s1[i]);
                            assert(s1[i].job == j);
                        }
                        assert(o[i].job == s0[i].job);
                    }
                }
                // the two per-job guarantees, for this job and the earlier ones
                assert forall|jx: int, i: int|
                    #![trigger is_delete_candidate(o, jx, i), jm[jx]]
                    0 <= jx < j + 1 && is_delete_candidate(o, jx, i) && spec_min_keeps_all(
                        jm[jx],
                    ) implies s2[i].kind == IntentType::Keep by {
                    if jx < j {
                        assert(s0[i].kind == IntentType::Keep);
                    } else {
                        assert(s0[i].kind == IntentType::Delete && s0[i].job == j);
                        assert(s0[i].name == o[i].name);
                        if jm[jx].preserve.min == MinModel::All || (match jm[jx].preserve.min {
                            MinModel::Timespan(ss) => spec_timespan_bad(ss),
                            _ => false,
                        }) {
                            assert(is_delete_candidate(s0, j as int, i));
                            let k = choose|k: int|
                                0 <= k < cands@.len() && (#[trigger] cands@[k]).1 == i;
                            assert(s1[i].kind == IntentType::Keep);
                        } else {
                            assert(spec_retention_bad(jm[jx].preserve.retention));
                            if s1[i].kind == IntentType::Keep {
                            } else {
                                assert(s1[i] == s0[i]);
                                assert(is_delete_candidate(s1, j as int, i));
                                let k = choose|k: int|
                                    0 <= k < cands2@.len() && (#[trigger] cands2@[k]).1 == i;
                                assert(s2[i].kind == IntentType::Keep);
                            }
                        }
                    }
                }
                assert forall|jx: int, i: int|
                    #![trigger is_delete_candidate(o, jx, i), jm[jx]]
                    0 <= jx < j + 1 && is_delete_candidate(o, jx, i) && (
                    jm[jx].preserve.min matches MinModel::Timespan(s) && !spec_timespan_bad(s)
                        && spec_name_instant(o[i].name) > now.spec_instant()
                        - spec_timespan_secs(s)) implies s2[i].kind == IntentType::Keep by {
                    if jx < j {
                        assert(s0[i].kind == IntentType::Keep);
                    } else {
                        assert(s0[i].kind == IntentType::Delete && s0[i].job == j);
                        assert(s0[i].name == o[i].name);
                        assert(is_delete_candidate(s0, j as int, i));
                        let k = choose|k: int|
                            0 <= k < cands@.len() && (#[trigger] cands@[k]).1 == i;
                        assert(cands@[k].0 == spec_name_instant(o[i].name));
                        assert(s1[i].kind == IntentType::Keep);
                    }
                }
                // the count floor: a candidate still facing deletion was
                // outranked by at least the floor's worth of newer ones
                assert forall|jx: int, i: int|
                    #![trigger is_delete_candidate(o, jx, i), jm[jx]]
                    0 <= jx < j + 1 && is_delete_candidate(o, jx, i) && s2[i].kind
                        == IntentType::Delete && spec_min_floor(
                        jm[jx].preserve.min,
                    ) is Some implies count_outranking(o, jx, i, o.len() as int)
                    >= spec_min_floor(jm[jx].preserve.min)->Some_0 by {
                    let nn = spec_min_floor(jm[jx].preserve.min)->Some_0;
                    assert(s1[i] == s2[i]);
                    assert(s0[i] == s1[i]);
                    if jx < j {
                        assert(s0[i].kind == IntentType::Delete);
                    } else {
                        assert(s0[i].kind == IntentType::Delete && s0[i].job == j);
                        assert(is_delete_candidate(s0, j as int, i));
                        let p = choose|k: int|
                            0 <= k < cands@.len() && (#[trigger] cands@[k]).1 == i;
                        assert(cands@[p].1 == i);
                        if p < nn {
                            assert(false);
                        }
                        assert(nn <= cands@.len());
                        assert forall|k: int|
                            0 <= k < nn implies ((#[trigger] cands@[k]).1 as int) < o.len()
                            && cands@[k].1 != i && is_delete_candidate(
                            o,
                            jx,
                            cands@[k].1 as int,
                        ) && spec_outranks(o, cands@[k].1 as int, i) by {
                            let ck = cands@[k].1 as int;
                            assert(is_delete_candidate(s0, j as int, ck));
                            assert(o[ck].kind == IntentType::Delete);
                            assert(lex_before(cands@[k], cands@[p]));
                            assert(cands@[k].0 == spec_name_instant(s0[ck].name));
                            assert(s0[ck].name == o[ck].name);
                            assert(cands@[p].0 == spec_name_instant(s0[i].name));
                            assert(s0[i].name == o[i].name);
                            if cands@[k].1 == i {
                                assert(false);
                            }
                        }
                        lemma_sorted_indices_distinct(unsorted, cands@);
                        lemma_outranking_bound(o, jx, i, cands@, nn, o.len() as int);
                        lemma_wit_below_full(cands@, nn, o.len() as int);
                    }
                }
                assert(events@ =~= spec_events(jm, j + 1));
            }
            j = j + 1;
        }
        proof {
            assert(spec_events(jm, jobs@.len() as int) == events@);
            assert forall|i: int| 0 <= i < intents@.len() implies #[trigger] intents@[i]@ == views(
                intents@,
            )[i] by {}
            assert forall|i: int| 0 <= i < old(intents)@.len() implies #[trigger] old(
                intents,
            )@[i]@ == o[i] by {}
        }
        events
    }
}

/// Promotes every listed candidate newer than `threshold` to Keep.
fn promote_newer(intents: &mut Vec<Intent>, cands: &Vec<(i64, usize)>, threshold: i128)
    requires
        forall|k: int| 0 <= k < cands@.len() ==> (#[trigger] cands@[k].1 as int) < old(intents)@.len(),
    ensures
        final(intents)@.len() == old(intents)@.len(),
        forall|i: int|
            0 <= i < old(intents)@.len() ==> final(intents)@[i]@ == (
            if exists|k: int|
                #![trigger cands@[k]]
                0 <= k < cands@.len() && cands@[k].1 == i && cands@[k].0 > threshold {
                spec_keep(old(intents)@[i]@)
            } else {
                old(intents)@[i]@
            }),
{
    let m = intents.len();
    let mut k: usize = 0;
    while k < cands.len()
        invariant
            m == old(intents)@.len(),
            intents@.len() == old(intents)@.len(),
            k <= cands@.len(),
            forall|t: int| 0 <= t < cands@.len() ==> (#[trigger] cands@[t].1 as int) < m,
            forall|i: int|
                0 <= i < intents@.len() ==> intents@[i]@ == (
                if exists|t: int|
                    #![trigger cands@[t]]
                    0 <= t < k && cands@[t].1 == i && cands@[t].0 > threshold {
                    spec_keep(old(intents)@[i]@)
                } else {
                    old(intents)@[i]@
                }),
        decreases cands@.len() - k,
    {
        let idx = cands[k].1;
        let newer = (cands[k].0 as i128) > threshold;
        if newer {
            intents[idx].intent = IntentType::Keep;
        }
        proof {
            assert forall|i: int| 0 <= i < intents@.len() implies intents@[i]@ == (
                if exists|t: int|
                    #![trigger cands@[t]]
                    0 <= t < k + 1 && cands@[t].1 == i && cands@[t].0 > threshold {
                    spec_keep(old(intents)@[i]@)
                } else {
                    old(intents)@[i]@
                }) by {
                if newer && i == idx {
                    assert(cands@[k as int].1 == i && cands@[k as int].0 > threshold);
                } else {
                    if exists|t: int|
                        #![trigger cands@[t]]
                        0 <= t < k + 1 && cands@[t].1 == i && cands@[t].0 > threshold {
                        let t = choose|t: int|
                            #![trigger cands@[t]]
                            0 <= t < k + 1 && cands@[t].1 == i && cands@[t].0 > threshold;
                        assert(i < m);
                        assert(t < k);
                    }
                }
            }
        }
        k = k + 1;
    }
}

} // verus!
