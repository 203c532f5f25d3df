use std::time::{Duration, Instant};
use vstd::prelude::*;

verus! {

/// `std::time::Instant`, a moment on the monotonic clock. Verus sees
/// nothing inside it.
#[verifier::external_type_specification]
#[verifier::external_body]
pub struct ExInstant(Instant);

/// `std::time::Instant::now`: the present moment. Nothing is claimed of
/// the moment that comes back.
#[verifier::external_body]
fn present() -> Instant {
    Instant::now()
}

/// `std::time::Instant::elapsed`: the time that has passed since `start`.
/// Nothing is claimed of the duration that comes back.
#[verifier::external_body]
fn elapsed_since(start: &Instant) -> Duration {
    start.elapsed()
}

/// `std::time::Duration::as_nanos`: the length of `span` in nanoseconds.
/// Nothing is claimed of the number that comes back.
#[verifier::external_body]
fn nanos_of(span: &Duration) -> u128 {
    span.as_nanos()
}

/// The deadline of one search: a starting moment and a budget, fixed when
/// the search begins.
///
/// The clock remembers that it has found the deadline passed: from then on
/// it says so without looking at the time again. A clock without a budget
/// never expires.
pub struct Clock {
    start: Option<Instant>,
    budget: u128,
    late: bool,
}

impl Clock {
    #[verifier::type_invariant]
    spec fn wf(&self) -> bool {
        self.start is None ==> !self.late
    }

    /// Whether the clock has found its deadline passed.
    pub closed spec fn expired(&self) -> bool {
        self.late && self.start is Some
    }

    /// Whether the clock has no deadline.
    pub closed spec fn unlimited(&self) -> bool {
        self.start is None
    }

    /// The budget of the clock in nanoseconds.
    pub closed spec fn budget(&self) -> nat {
        self.budget as nat
    }

    /// Whether the clock finds its deadline passed when `elapsed` nanoseconds
    /// have gone by: it found so before, or it has a deadline and more time
    /// than the budget has gone by.
    pub open spec fn finds_passed(&self, elapsed: u128) -> bool {
        self.expired() || (!self.unlimited() && elapsed > self.budget())
    }

    /// Whether the clock finds its deadline reached when `elapsed`
    /// nanoseconds have gone by: it found so before, or it has a deadline
    /// and at least as much time as the budget has gone by.
    pub open spec fn finds_reached(&self, elapsed: u128) -> bool {
        self.expired() || (!self.unlimited() && elapsed >= self.budget())
    }

    /// A clock without a deadline has not expired.
    pub proof fn unlimited_never_expires(&self)
        ensures
            self.unlimited() ==> !self.expired(),
    {
    }

    /// A clock whose deadline lies `budget_millis` milliseconds after the
    /// present moment.
    pub fn start(budget_millis: u64) -> (clock: Clock)
        ensures
            !clock.expired(),
            !clock.unlimited(),
            clock.budget() == budget_millis * 1_000_000,
    {
        let budget: u128 = budget_millis as u128 * 1_000_000;
        Clock { start: Some(present()), budget, late: false }
    }

    /// A clock that never expires.
    pub fn unbounded() -> (clock: Clock)
        ensures
            !clock.expired(),
            clock.unlimited(),
    {
        Clock { start: None, budget: 0, late: false }
    }

    /// Judges whether the deadline has been passed, given the time that has
    /// gone by since the start: it has if the clock found so before, or if
    /// the clock has a deadline and more time than the budget has gone by.
    /// The clock remembers the answer.
    pub fn judge_passed(&mut self, elapsed_nanos: u128) -> (late: bool)
        ensures
            late == old(self).finds_passed(elapsed_nanos),
            final(self).expired() == late,
            final(self).unlimited() == old(self).unlimited(),
            final(self).budget() == old(self).budget(),
    {
        proof {
            use_type_invariant(&*self);
        }
        let late: bool = self.late || (self.start.is_some() && elapsed_nanos > self.budget);
        self.late = late;
        late
    }

    /// Judges whether the deadline has been reached, given the time that
    /// has gone by since the start: it has if the clock found so before, or
    /// if the clock has a deadline and at least as much time as the budget
    /// has gone by. The clock remembers the answer.
    pub fn judge_reached(&mut self, elapsed_nanos: u128) -> (late: bool)
        ensures
            late == old(self).finds_reached(elapsed_nanos),
            final(self).expired() == late,
            final(self).unlimited() == old(self).unlimited(),
            final(self).budget() == old(self).budget(),
    {
        proof {
            use_type_invariant(&*self);
        }
        let late: bool = self.late || (self.start.is_some() && elapsed_nanos >= self.budget);
        self.late = late;
        late
    }

    /// The time that has gone by since the clock was started, in
    /// nanoseconds; zero for a clock without a deadline.
    fn elapsed(&self) -> u128 {
        match &self.start {
            Some(start) => nanos_of(&elapsed_since(start)),
            None => 0,
        }
    }

    /// Whether the deadline has been passed: more time than the budget has
    /// gone by, now or when the clock was last asked. The clock reads the
    /// time and judges it with [`Clock::judge_passed`].
    pub fn passed(&mut self) -> (late: bool)
        ensures
            exists|elapsed: u128| late == #[trigger] old(self).finds_passed(elapsed),
            final(self).expired() == late,
            old(self).expired() ==> late,
            old(self).unlimited() ==> !late,
            final(self).unlimited() == old(self).unlimited(),
            final(self).budget() == old(self).budget(),
    {
        proof {
            self.unlimited_never_expires();
        }
        let elapsed: u128 = self.elapsed();
        self.judge_passed(elapsed)
    }

    /// Whether the deadline has been reached: at least as much time as the
    /// budget has gone by, now or when the clock was last asked. A clock
    /// with a budget of zero has reached its deadline from the start. The
    /// clock reads the time and judges it with [`Clock::judge_reached`].
    pub fn reached(&mut self) -> (late: bool)
        ensures
            exists|elapsed: u128| late == #[trigger] old(self).finds_reached(elapsed),
            final(self).expired() == late,
            old(self).expired() ==> late,
            old(self).unlimited() ==> !late,
            !old(self).unlimited() && old(self).budget() == 0 ==> late,
            final(self).unlimited() == old(self).unlimited(),
            final(self).budget() == old(self).budget(),
    {
        proof {
            self.unlimited_never_expires();
        }
        let elapsed: u128 = self.elapsed();
        self.judge_reached(elapsed)
    }
}

} // verus!
