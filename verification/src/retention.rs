//! Per-class retention counts parsed from the shared duration grammar.

use vstd::prelude::*;

use crate::duration::spec_parse_counts;
use crate::error::DurationParseError;

verus! {

/// How many hourly / daily / weekly / monthly / yearly buckets to keep.
#[derive(Clone, Copy, Debug)]
pub struct Retention {
    pub h: usize,
    pub d: usize,
    pub w: usize,
    pub m: usize,
    pub y: usize,
}

impl Retention {
    /// The five counts in grammar order.
    pub open spec fn counts(&self) -> Seq<nat> {
        seq![self.h as nat, self.d as nat, self.w as nat, self.m as nat, self.y as nat]
    }

    pub fn zero() -> (r: Self)
        ensures
            r.counts() == seq![0nat, 0nat, 0nat, 0nat, 0nat],
    {
        let r = Retention { h: 0, d: 0, w: 0, m: 0, y: 0 };
        proof {
            assert(r.counts() =~= seq![0nat, 0nat, 0nat, 0nat, 0nat]);
        }
        r
    }

    /// Parses a retention string; `None` counts as all-zero.
    pub fn from_str_option(o: &Option<String>) -> (r: Result<Self, DurationParseError>)
        ensures
            match o {
                None => r matches Ok(ret) && ret.counts() == seq![0nat, 0nat, 0nat, 0nat, 0nat],
                Some(s) => ({
                    let p = spec_parse_counts(s@);
                    match r {
                        Ok(ret) => p == Some(ret.counts()),
                        Err(_) => p is None || (exists|k: int|
                            0 <= k < 5 && #[trigger] p->Some_0[k] > usize::MAX),
                    }
                }),
            },
    {
        match o {
            None => Ok(Self::zero()),
            Some(s) => Self::from_str(s.as_str()),
        }
    }

    /// Parses a retention string.  Fails exactly when the string does not
    /// follow the grammar or some count does not fit a `usize`.
    pub fn from_str(s: &str) -> (r: Result<Self, DurationParseError>)
        ensures
            ({
                let p = spec_parse_counts(s@);
                match r {
                    Ok(ret) => p == Some(ret.counts()),
                    Err(_) => p is None || (exists|k: int|
                        0 <= k < 5 && #[trigger] p->Some_0[k] > usize::MAX),
                }
            }),
    {
        match crate::duration::parse_counts(s) {
            None => {
                proof {
                    let p = spec_parse_counts(s@);
                    if p is Some {
                        let k = choose|k: int| 0 <= k < 5 && #[trigger] p->Some_0[k] > u64::MAX;
                        assert(p->Some_0[k] > usize::MAX);
                    }
                }
                Err(DurationParseError)
            },
            Some((h, d, w, m, y)) => {
                match (
                    to_usize(h),
                    to_usize(d),
                    to_usize(w),
                    to_usize(m),
                    to_usize(y),
                ) {
                    (Some(h), Some(d), Some(w), Some(m), Some(y)) => {
                        let ret = Retention { h, d, w, m, y };
                        proof {
                            assert(spec_parse_counts(s@)->Some_0 =~= ret.counts());
                        }
                        Ok(ret)
                    },
                    _ => {
                        proof {
                            let p = spec_parse_counts(s@);
                            if h > usize::MAX {
                                assert(p->Some_0[0] > usize::MAX);
                            } else if d > usize::MAX {
                                assert(p->Some_0[1] > usize::MAX);
                            } else if w > usize::MAX {
                                assert(p->Some_0[2] > usize::MAX);
                            } else if m > usize::MAX {
                                assert(p->Some_0[3] > usize::MAX);
                            } else {
                                assert(y > usize::MAX);
                                assert(p->Some_0[4] > usize::MAX);
                            }
                        }
                        Err(DurationParseError)
                    },
                }
            },
        }
    }
}

/// `u64` to `usize`, `None` when the value does not fit.
fn to_usize(v: u64) -> (r: Option<usize>)
    ensures
        match r {
            Some(u) => u == v,
            None => v > usize::MAX,
        },
{
    if v <= usize::MAX as u64 {
        Some(v as usize)
    } else {
        None
    }
}

} // verus!
