//! Durations of the steps of a run.
use std::time::{Duration, Instant};
use vstd::prelude::*;

verus! {

#[verifier::external_type_specification]
#[verifier::external_body]
pub struct ExInstant(Instant);

/// `Instant::now` reads the clock: nothing is claimed of what it shows.
pub assume_specification[ Instant::now ]() -> Instant
;

/// `Instant::elapsed` reads the clock: nothing is claimed of how much time has gone by.
pub assume_specification[ Instant::elapsed ](instant: &Instant) -> Duration
;

/// Measures the steps of a run, one after the other. A timer that is not enabled measures nothing.
pub struct StepTimer {
    enabled: bool,
    started_at: Option<(String, Instant)>,
    entries: Vec<(String, Duration)>,
}

impl StepTimer {
    /// Whether the timer measures anything.
    pub closed spec fn is_enabled(self) -> bool {
        self.enabled
    }

    /// The step that is being measured, and when it began.
    pub closed spec fn running(self) -> Option<(Seq<char>, Instant)> {
        match self.started_at {
            Some((label, at)) => Some((label@, at)),
            None => None,
        }
    }

    /// The steps that have been measured, in order.
    pub closed spec fn measured(self) -> Seq<(Seq<char>, Duration)> {
        Seq::new(self.entries@.len(), |i: int| (self.entries@[i].0@, self.entries@[i].1))
    }

    /// A timer that has measured nothing yet.
    pub fn new(enabled: bool) -> (r: Self)
        ensures
            r.is_enabled() == enabled,
            r.running() is None,
            r.measured() == Seq::<(Seq<char>, Duration)>::empty(),
    {
        let r = StepTimer { enabled, started_at: None, entries: Vec::new() };
        assert(r.measured() =~= Seq::empty());
        r
    }

    /// Begins a step at the time `now`. A step that was running is forgotten.
    pub fn start_at(&mut self, label: &str, now: Instant)
        ensures
            final(self).is_enabled() == old(self).is_enabled(),
            final(self).measured() == old(self).measured(),
            final(self).running() == if old(self).is_enabled() {
                Some((label@, now))
            } else {
                old(self).running()
            },
    {
        if self.enabled {
            self.started_at = Some((label.to_owned(), now));
        }
    }

    /// Begins a step now. A step that was running is forgotten.
    pub fn start(&mut self, label: &str)
        ensures
            final(self).is_enabled() == old(self).is_enabled(),
            final(self).measured() == old(self).measured(),
            if old(self).is_enabled() {
                exists|now: Instant| final(self).running() == Some((label@, now))
            } else {
                final(self).running() == old(self).running()
            },
    {
        let now = Instant::now();
        self.start_at(label, now);
    }

    /// Ends the running step, which took `elapsed`. Without one nothing happens.
    pub fn end_after(&mut self, elapsed: Duration)
        ensures
            final(self).is_enabled() == old(self).is_enabled(),
            final(self).running() is None,
            final(self).measured() == match old(self).running() {
                Some((label, _)) => old(self).measured().push((label, elapsed)),
                None => old(self).measured(),
            },
    {
        match self.started_at.take() {
            Some((label, _)) => {
                self.entries.push((label, elapsed));
                assert(self.measured() =~= old(self).measured().push((label@, elapsed)));
            },
            None => {},
        }
    }

    /// Ends the running step. Without one nothing happens.
    pub fn end(&mut self)
        ensures
            final(self).is_enabled() == old(self).is_enabled(),
            final(self).running() is None,
            match old(self).running() {
                Some((label, _)) => exists|elapsed: Duration|
                    final(self).measured() == old(self).measured().push((label, elapsed)),
                None => final(self).measured() == old(self).measured(),
            },
    {
        let elapsed: Option<Duration> = match &self.started_at {
            Some((_, at)) => Some(at.elapsed()),
            None => None,
        };
        match elapsed {
            Some(elapsed) => self.end_after(elapsed),
            None => {},
        }
    }

    /// Whether there is anything to report: the timer is enabled and has measured a step.
    pub fn has_summary(&self) -> (r: bool)
        ensures
            r == (self.is_enabled() && self.measured().len() > 0),
    {
        self.enabled && self.entries.len() > 0
    }

    /// The steps that have been measured, in order.
    pub fn entries(&self) -> (r: &Vec<(String, Duration)>)
        ensures
            r@.len() == self.measured().len(),
            forall|i: int|
                0 <= i < r@.len() ==> (#[trigger] r@[i]).0@ == self.measured()[i].0 && r@[i].1
                    == self.measured()[i].1,
    {
        &self.entries
    }
}

/// The sum of the numbers.
pub open spec fn sum(numbers: Seq<u128>) -> int
    decreases numbers.len(),
{
    if numbers.len() == 0 {
        0
    } else {
        sum(numbers.drop_last()) + numbers.last()
    }
}

proof fn lemma_sum_grows(numbers: Seq<u128>, n: int)
    requires
        0 <= n <= numbers.len(),
    ensures
        0 <= sum(numbers.take(n)) <= sum(numbers),
    decreases numbers.len(),
{
    if n < numbers.len() {
        lemma_sum_grows(numbers.drop_last(), n);
        assert(numbers.drop_last().take(n) =~= numbers.take(n));
    } else {
        assert(numbers.take(n) =~= numbers);
        if n > 0 {
            lemma_sum_grows(numbers.drop_last(), n - 1);
            assert(numbers.drop_last().take(n - 1) =~= numbers.drop_last());
        }
    }
}

/// The time that all steps took together, in the unit of the parts; `None` where the sum does
/// not fit.
pub fn total(parts: &[u128]) -> (r: Option<u128>)
    ensures
        match r {
            Some(total) => total == sum(parts@),
            None => sum(parts@) > u128::MAX,
        },
{
    let mut total: u128 = 0;
    let mut i: usize = 0;
    while i < parts.len()
        invariant
            i <= parts.len(),
            total == sum(parts@.take(i as int)),
        decreases parts.len() - i,
    {
        proof {
            assert(parts@.take(i + 1).drop_last() =~= parts@.take(i as int));
            lemma_sum_grows(parts@, i + 1);
        }
        match total.checked_add(parts[i]) {
            Some(sum) => {
                total = sum;
            },
            None => {
                return None;
            },
        }
        i += 1;
    }
    assert(parts@.take(i as int) =~= parts@);
    Some(total)
}

} // verus!
