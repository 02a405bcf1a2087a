//! Per-job preservation policies.

use vstd::prelude::*;
use vstd::string::*;

verus! {

/// The minimum-preservation floor of a job, decided before the bucket scheme.
#[derive(Clone, Debug, PartialEq, Eq)]
pub enum PreservePolicyMin {
    Variant(PreservePolicyMinVariants),
    Timespan(String),
    Count(usize),
}

#[derive(Clone, Copy, Debug, PartialEq, Eq, Structural)]
pub enum PreservePolicyMinVariants {
    All,
    Latest,
}

/// Spec-level shape of a minimum-preservation policy.
pub enum MinModel {
    All,
    Latest,
    Timespan(Seq<char>),
    Count(int),
}

impl View for PreservePolicyMin {
    type V = MinModel;

    open spec fn view(&self) -> MinModel {
        match self {
            PreservePolicyMin::Variant(PreservePolicyMinVariants::All) => MinModel::All,
            PreservePolicyMin::Variant(PreservePolicyMinVariants::Latest) => MinModel::Latest,
            PreservePolicyMin::Timespan(s) => MinModel::Timespan(s@),
            PreservePolicyMin::Count(n) => MinModel::Count(*n as int),
        }
    }
}

/// Retention and minimum floor of one job.
#[derive(Clone, Debug, PartialEq, Eq)]
pub struct PreservePolicy {
    pub retention: String,
    pub min: PreservePolicyMin,
}

/// Spec-level shape of a preservation policy.
pub struct PreserveModel {
    pub retention: Seq<char>,
    pub min: MinModel,
}

impl View for PreservePolicy {
    type V = PreserveModel;

    open spec fn view(&self) -> PreserveModel {
        PreserveModel { retention: self.retention@, min: self.min@ }
    }
}

#[derive(Debug)]
pub enum RetentionPolicy {
    No,
    Policy(String),
}

/// A raw configuration scalar for the minimum-preservation field, as read
/// from a configuration file: either text or an unsigned number.
#[derive(Clone, Debug, PartialEq, Eq)]
pub enum ConfigScalar {
    Text(String),
    Unsigned(usize),
}

fn string_eq_str(s: &String, t: &str) -> (r: bool)
    ensures
        r == (s@ == t@),
{
    let ts = String::from_str(t);
    s.eq(&ts)
}

impl PreservePolicyMin {
    /// Resolves the ambiguous configuration shape deterministically: the
    /// fixed keywords first, then an unsigned count, and any other text as a
    /// timespan.
    pub fn decode(v: ConfigScalar) -> (r: PreservePolicyMin)
        ensures
            ({
                match v {
                    ConfigScalar::Unsigned(n) => r@ == MinModel::Count(n as int),
                    ConfigScalar::Text(s) => {
                        if s@ == "All"@ || s@ == "all"@ {
                            r@ == MinModel::All
                        } else if s@ == "Latest"@ || s@ == "latest"@ {
                            r@ == MinModel::Latest
                        } else {
                            r@ == MinModel::Timespan(s@)
                        }
                    },
                }
            }),
    {
        match v {
            ConfigScalar::Unsigned(n) => PreservePolicyMin::Count(n),
            ConfigScalar::Text(s) => {
                if string_eq_str(&s, "All") || string_eq_str(&s, "all") {
                    PreservePolicyMin::Variant(PreservePolicyMinVariants::All)
                } else if string_eq_str(&s, "Latest") || string_eq_str(&s, "latest") {
                    PreservePolicyMin::Variant(PreservePolicyMinVariants::Latest)
                } else {
                    PreservePolicyMin::Timespan(s)
                }
            },
        }
    }
}

} // verus!
