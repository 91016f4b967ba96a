//! A running tally of candidates considered, against a precomputed total.
//!
//! The tally is the core's only obligation; turning milestones into
//! human-readable output is the caller's business. Percentages are
//! integer approximations and deliberately best-effort: they never feed
//! back into counting or generation.

use vstd::prelude::*;

verus! {

/// The integer percentage of `current` against `total` (zero when no
/// total is known), truncated.
pub open spec fn percent_of(current: nat, total: nat) -> nat {
    if total == 0 {
        0
    } else {
        current * 100 / total
    }
}

/// Whether moving to `current` units crosses a new reporting milestone:
/// at least five points above the last reported percentage.
pub open spec fn crosses_milestone(current: nat, total: nat, last: nat) -> bool {
    total != 0 && percent_of(current, total) >= last + 5
}

/// One "candidate considered" tick per unit; `current` grows strictly in
/// candidate order.
pub struct Progress {
    pub current: u64,
    pub total: u64,
    pub last_percentage: u64,
}

impl Progress {
    /// A fresh tally against a known total, with nothing considered yet.
    pub fn new(total: u64) -> (r: Progress)
        ensures
            r.current == 0,
            r.total == total,
            r.last_percentage == 0,
    {
        Progress { current: 0, total, last_percentage: 0 }
    }

    /// Records one more candidate. Returns the new percentage exactly
    /// when a new milestone is crossed (capped at `u64::MAX`), in which
    /// case it also becomes the last reported percentage.
    pub fn increment(&mut self) -> (r: Option<u64>)
        requires
            old(self).current < u64::MAX,
        ensures
            final(self).current == old(self).current + 1,
            final(self).total == old(self).total,
            crosses_milestone(
                (old(self).current + 1) as nat,
                final(self).total as nat,
                old(self).last_percentage as nat,
            ) ==> {
                &&& final(self).last_percentage as nat == vstd::math::min(
                    percent_of((old(self).current + 1) as nat, final(self).total as nat) as int,
                    u64::MAX as int,
                )
                &&& r == Some(final(self).last_percentage)
            },
            !crosses_milestone(
                (old(self).current + 1) as nat,
                final(self).total as nat,
                old(self).last_percentage as nat,
            ) ==> {
                &&& final(self).last_percentage == old(self).last_percentage
                &&& r is None
            },
            old(self).last_percentage <= final(self).last_percentage,
    {
        self.current = self.current + 1;
        if self.total == 0 {
            return None;
        }
        let pct: u128 = (self.current as u128) * 100 / (self.total as u128);
        if pct >= (self.last_percentage as u128) + 5 {
            let capped: u64 = if pct > u64::MAX as u128 {
                u64::MAX
            } else {
                pct as u64
            };
            self.last_percentage = capped;
            Some(capped)
        } else {
            None
        }
    }
}

} // verus!
