//! How long a search may take.
//!
//! A search asks its budget now and then whether it is used up, and stops at the first yes.
//! What a clock answers is not known beforehand, so a search states its result for every
//! number of questions that were answered with no.

use vstd::prelude::*;
use std::time::Instant;

verus! {

/// `std::time::Instant`, a reading of the monotonic clock.
#[verifier::external_type_specification]
#[verifier::external_body]
pub struct ExInstant(std::time::Instant);

/// `std::time::Instant::now`, the present reading of the monotonic clock. Nothing is
/// claimed of it.
#[verifier::external_body]
fn clock_now() -> (r: Instant) {
    Instant::now()
}

/// `std::time::Instant::elapsed`, the nanoseconds that have passed since a reading of the
/// monotonic clock. Nothing is claimed of their number.
#[verifier::external_body]
fn nanos_since(start: &Instant) -> (r: u128) {
    start.elapsed().as_nanos()
}

/// What ends a search.
#[derive(Clone, Copy)]
pub enum Limit {
    /// Nothing.
    Never,
    /// The question after `allowed` others, of which `used` have been asked.
    Questions { allowed: u64, used: u64 },
    /// A question asked more than `nanos` nanoseconds after the start.
    Clock { start: Instant, nanos: u128 },
}

/// The budget of one search.
pub struct Budget {
    limit: Limit,
    asked: Ghost<nat>,
    used_up: Ghost<bool>,
    elapsed: Ghost<u128>,
}

/// Whether the time that has passed is beyond a limit.
pub fn is_over(elapsed: u128, nanos: u128) -> (r: bool)
    ensures
        r == (elapsed > nanos),
{
    elapsed > nanos
}

impl Budget {
    #[verifier::type_invariant]
    spec fn is_valid(self) -> bool {
        match self.limit {
            Limit::Never => !self.used_up@,
            Limit::Questions { allowed, used } => {
                &&& used <= allowed
                &&& self.used_up@ ==> self.asked@ == allowed + 1
                &&& !self.used_up@ ==> self.asked@ == used
            },
            Limit::Clock { .. } => true,
        }
    }

    /// How often the budget has been asked.
    pub closed spec fn asked(self) -> nat {
        self.asked@
    }

    /// Whether the last answer was yes.
    pub closed spec fn used_up(self) -> bool {
        self.used_up@
    }

    /// Whether the budget never ends.
    pub closed spec fn is_unlimited(self) -> bool {
        self.limit is Never
    }

    /// The number of questions after which the answer is yes, where it is fixed beforehand.
    pub closed spec fn allowance(self) -> Option<nat> {
        match self.limit {
            Limit::Questions { allowed, .. } => Some(allowed as nat),
            _ => None,
        }
    }

    /// The nanoseconds after which the answer is yes, where a clock decides.
    pub closed spec fn time_limit(self) -> Option<u128> {
        match self.limit {
            Limit::Clock { nanos, .. } => Some(nanos),
            _ => None,
        }
    }

    /// The nanoseconds that had passed at the last question, as the clock showed them.
    pub closed spec fn elapsed(self) -> u128 {
        self.elapsed@
    }

    /// Whether the answers so far are those that are fixed beforehand.
    pub open spec fn is_consistent(self) -> bool {
        &&& self.is_unlimited() ==> !self.used_up()
        &&& self.allowance() matches Some(allowed) ==> self.used_up() == (self.asked() > allowed)
        &&& self.time_limit() matches Some(nanos) ==> self.used_up() == (self.asked() > 0
            && self.elapsed() > nanos)
    }

    /// Whether the budget can be asked.
    pub open spec fn is_open(self) -> bool {
        self.is_consistent() && !self.used_up()
    }

    /// Whether nothing has been asked yet.
    pub open spec fn is_fresh(self) -> bool {
        self.is_open() && self.asked() == 0
    }

    /// The same budget, at another time.
    pub open spec fn continues(self, earlier: Budget) -> bool {
        &&& self.is_consistent()
        &&& self.is_unlimited() == earlier.is_unlimited()
        &&& self.allowance() == earlier.allowance()
        &&& self.time_limit() == earlier.time_limit()
        &&& self.asked() >= earlier.asked()
    }

    /// A budget that never ends.
    pub fn unlimited() -> (r: Budget)
        ensures
            r.is_fresh(),
            r.is_unlimited(),
            r.allowance() is None,
            r.time_limit() is None,
    {
        Budget {
            limit: Limit::Never,
            asked: Ghost(0),
            used_up: Ghost(false),
            elapsed: Ghost(0),
        }
    }

    /// A budget that ends at the question after `allowed` others.
    pub fn questions(allowed: u64) -> (r: Budget)
        ensures
            r.is_fresh(),
            !r.is_unlimited(),
            r.allowance() == Some(allowed as nat),
            r.time_limit() is None,
    {
        Budget {
            limit: Limit::Questions { allowed, used: 0 },
            asked: Ghost(0),
            used_up: Ghost(false),
            elapsed: Ghost(0),
        }
    }

    /// A budget that begins now and ends after `nanos` nanoseconds, if there is a limit.
    pub fn within(nanos: Option<u128>) -> (r: Budget)
        ensures
            r.is_fresh(),
            r.is_unlimited() == nanos is None,
            r.allowance() is None,
            r.time_limit() == nanos,
    {
        match nanos {
            Some(nanos) => {
                let start = clock_now();
                Budget {
                    limit: Limit::Clock { start, nanos },
                    asked: Ghost(0),
                    used_up: Ghost(false),
                    elapsed: Ghost(0),
                }
            },
            None => Budget::unlimited(),
        }
    }

    /// Asks whether the budget is used up.
    pub fn ask(&mut self) -> (r: bool)
        requires
            old(self).is_open(),
        ensures
            final(self).continues(*old(self)),
            final(self).asked() == old(self).asked() + 1,
            final(self).used_up() == r,
            old(self).is_unlimited() ==> !r,
            old(self).allowance() matches Some(allowed) ==> r == (old(self).asked() >= allowed),
            old(self).time_limit() matches Some(nanos) ==> r == (final(self).elapsed() > nanos),
    {
        proof {
            use_type_invariant(&*self);
        }
        let r: bool;
        let ghost mut elapsed = self.elapsed@;
        match self.limit {
            Limit::Never => {
                r = false;
            },
            Limit::Questions { allowed, used } => {
                r = used >= allowed;
                if !r {
                    let next = Budget {
                        limit: Limit::Questions { allowed, used: used + 1 },
                        asked: Ghost(self.asked@ + 1),
                        used_up: Ghost(false),
                        elapsed: self.elapsed,
                    };
                    *self = next;
                    return false;
                }
            },
            Limit::Clock { start, nanos } => {
                let passed: u128 = nanos_since(&start);
                r = is_over(passed, nanos);
                proof {
                    elapsed = passed;
                }
            },
        }
        let ghost asked = self.asked@ + 1;
        let next = Budget {
            limit: self.limit,
            asked: Ghost(asked),
            used_up: Ghost(r),
            elapsed: Ghost(elapsed),
        };
        *self = next;
        r
    }
}

/// A budget is used up by nothing but what limits it: never without a limit, by the question
/// after those that are allowed, or by one that was asked when more nanoseconds had passed than
/// there are, be it only one. What limits it stays as it is.
pub proof fn law_budget_ends_at_its_limit(b: Budget, earlier: Budget)
    requires
        b.continues(earlier),
    ensures
        earlier.is_unlimited() ==> !b.used_up(),
        earlier.allowance() matches Some(allowed) ==> (b.used_up() <==> b.asked() >= allowed + 1),
        earlier.time_limit() matches Some(nanos) ==> (b.used_up() <==> b.asked() >= 1
            && b.elapsed() >= nanos + 1),
        b.asked() >= earlier.asked(),
{
}

} // verus!
