//! Configured snapshot jobs and group filtering.

use vstd::prelude::*;
use vstd::string::*;

use crate::policies::{PreserveModel, PreservePolicy};

verus! {

/// One configured snapshot job: what to snapshot, where to, and what to keep.
#[derive(Debug, PartialEq, Eq)]
pub struct Job {
    pub subvolume: String,
    pub target: String,
    pub groups: Option<Vec<String>>,
    pub preserve: PreservePolicy,
}

/// Spec-level shape of a job.
pub struct JobModel {
    pub subvolume: Seq<char>,
    pub target: Seq<char>,
    pub groups: Option<Seq<Seq<char>>>,
    pub preserve: PreserveModel,
}

impl View for Job {
    type V = JobModel;

    open spec fn view(&self) -> JobModel {
        JobModel {
            subvolume: self.subvolume@,
            target: self.target@,
            groups: self.groups.deep_view(),
            preserve: self.preserve@,
        }
    }
}

/// A job passes the filter when no group is requested, or when one of its
/// groups is among the requested ones.
pub open spec fn spec_job_selected(j: JobModel, active: Seq<Seq<char>>) -> bool {
    active.len() == 0 || (j.groups matches Some(gs) && exists|a: int, b: int|
        0 <= a < gs.len() && 0 <= b < active.len() && gs[a] == active[b])
}

/// The jobs of `s` passing the filter, in order.
pub open spec fn spec_filter_jobs(s: Seq<JobModel>, active: Seq<Seq<char>>) -> Seq<JobModel>
    decreases s.len(),
{
    if s.len() == 0 {
        Seq::empty()
    } else {
        spec_filter_jobs(s.drop_last(), active) + if spec_job_selected(s.last(), active) {
            seq![s.last()]
        } else {
            Seq::empty()
        }
    }
}

fn string_in(groups: &Vec<String>, s: &String) -> (r: bool)
    ensures
        r == exists|b: int| 0 <= b < groups@.len() && groups@[b]@ == s@,
{
    let mut b: usize = 0;
    while b < groups.len()
        invariant
            b <= groups@.len(),
            forall|t: int| 0 <= t < b ==> groups@[t]@ != s@,
        decreases groups@.len() - b,
    {
        if groups[b].eq(s) {
            return true;
        }
        b = b + 1;
    }
    false
}

impl Job {
    /// A deep copy; the copy has the same spec-level shape.
    pub fn duplicate(&self) -> (r: Job)
        ensures
            r@ == self@,
    {
        let groups: Option<Vec<String>> = match &self.groups {
            None => None,
            Some(gs) => {
                let mut out: Vec<String> = Vec::new();
                let mut k: usize = 0;
                while k < gs.len()
                    invariant
                        k <= gs@.len(),
                        out@.len() == k,
                        forall|t: int| 0 <= t < k ==> out@[t]@ == gs@[t]@,
                    decreases gs@.len() - k,
                {
                    out.push(gs[k].clone());
                    k = k + 1;
                }
                proof {
                    assert(out.deep_view() =~= gs.deep_view());
                }
                Some(out)
            },
        };
        let min = match &self.preserve.min {
            crate::policies::PreservePolicyMin::Variant(v) => crate::policies::PreservePolicyMin::Variant(*v),
            crate::policies::PreservePolicyMin::Timespan(s) => crate::policies::PreservePolicyMin::Timespan(s.clone()),
            crate::policies::PreservePolicyMin::Count(n) => crate::policies::PreservePolicyMin::Count(*n),
        };
        let r = Job {
            subvolume: self.subvolume.clone(),
            target: self.target.clone(),
            groups,
            preserve: PreservePolicy { retention: self.preserve.retention.clone(), min },
        };
        proof {
            assert(r.groups.deep_view() =~= self.groups.deep_view());
        }
        r
    }

    /// Keeps the jobs selected by the active groups; with no active group
    /// every job is kept.
    pub fn filter_active_groups(jobs: &Vec<Job>, groups: &Vec<String>) -> (r: Vec<Job>)
        ensures
            r@.map_values(|j: Job| j@) == spec_filter_jobs(
                jobs@.map_values(|j: Job| j@),
                groups.deep_view(),
            ),
    {
        let mut r: Vec<Job> = Vec::new();
        let mut i: usize = 0;
        while i < jobs.len()
            invariant
                i <= jobs@.len(),
                r@.map_values(|j: Job| j@) == spec_filter_jobs(
                    jobs@.map_values(|j: Job| j@).subrange(0, i as int),
                    groups.deep_view(),
                ),
            decreases jobs@.len() - i,
        {
            let ghost prefix = jobs@.map_values(|j: Job| j@).subrange(0, i as int);
            let ghost prefix2 = jobs@.map_values(|j: Job| j@).subrange(0, i + 1);
            proof {
                assert(prefix2.drop_last() =~= prefix);
                assert(prefix2.last() == jobs@[i as int]@);
            }
            let selected = if groups.len() == 0 {
                true
            } else {
                match &jobs[i].groups {
                    None => false,
    Some(gs) => {
                        let mut a: usize = 0;
                        let mut found = false;
                        while a < gs.len()
                            invariant
                                a <= gs@.len(),
                                found ==> exists|x: int, b: int|
                                    #![trigger gs.deep_view()[x], groups.deep_view()[b]]
                                    0 <= x < gs.deep_view().len() && 0 <= b
                                        < groups.deep_view().len() && gs.deep_view()[x]
                                        == groups.deep_view()[b],
                                !found ==> forall|x: int, b: int|
                                    0 <= x < a && 0 <= b < groups.deep_view().len()
                                        ==> #[trigger] gs.deep_view()[x]
                                        != #[trigger] groups.deep_view()[b],
                            decreases gs@.len() - a,
                        {
                            if string_in(groups, &gs[a]) {
                                proof {
                                    let b = choose|b: int|
                                        0 <= b < groups@.len() && groups@[b]@ == gs@[a as int]@;
                                    assert(gs.deep_view()[a as int] == gs@[a as int]@);
                                    assert(groups.deep_view()[b] == groups@[b]@);
                                }
                                found = true;
                            }
                            a = a + 1;
                        }
                        found
                    },
                }
            };
            proof {
                assert(selected == spec_job_selected(jobs@[i as int]@, groups.deep_view()));
            }
            if selected {
                r.push(jobs[i].duplicate());
                proof {
                    assert(r@.map_values(|j: Job| j@) =~= spec_filter_jobs(
                        prefix2,
                        groups.deep_view(),
                    ));
                }
            } else {
                proof {
                    assert(r@.map_values(|j: Job| j@) =~= spec_filter_jobs(
                        prefix2,
                        groups.deep_view(),
                    ));
                }
            }
            i = i + 1;
        }
        proof {
            assert(jobs@.map_values(|j: Job| j@).subrange(0, jobs@.len() as int) =~= jobs@.map_values(
                |j: Job| j@,
            ));
        }
        r
    }
}

} // verus!
