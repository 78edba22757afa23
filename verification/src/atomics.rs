//! Atomic primitives: counters, flags, compare-and-swap cells and a running
//! maximum, each keeping the signals that its operations leave behind.
//!
//! Every operation here is a single indivisible step on the cell it owns:
//! the model states the value that each step reads and writes and the
//! statistics it records.

use vstd::prelude::*;

use crate::lock_free::{counter_step, tick};

verus! {

/// Signals observed on the atomic primitives: how many loads, stores,
/// read-modify-write operations and compare-and-swap attempts ran.
#[derive(Debug, Clone, Copy, PartialEq, Eq, Structural)]
pub struct AtomicObservation {
    /// Atomic loads.
    pub loads: usize,
    /// Atomic stores.
    pub stores: usize,
    /// `fetch_add` operations.
    pub fetch_adds: usize,
    /// `compare_exchange` attempts.
    pub compare_exchange_attempts: usize,
    /// `compare_exchange` attempts that changed the value.
    pub compare_exchange_successes: usize,
}

impl AtomicObservation {
    fn from_parts(
        loads: usize,
        stores: usize,
        fetch_adds: usize,
        compare_exchange_attempts: usize,
        compare_exchange_successes: usize,
    ) -> (o: Self)
        ensures
            o == (AtomicObservation {
                loads,
                stores,
                fetch_adds,
                compare_exchange_attempts,
                compare_exchange_successes,
            }),
    {
        AtomicObservation {
            loads,
            stores,
            fetch_adds,
            compare_exchange_attempts,
            compare_exchange_successes,
        }
    }
}

/// The observation in which nothing has happened yet.
pub open spec fn no_signals() -> AtomicObservation {
    AtomicObservation {
        loads: 0,
        stores: 0,
        fetch_adds: 0,
        compare_exchange_attempts: 0,
        compare_exchange_successes: 0,
    }
}

/// `a + b`, or `usize::MAX` where the sum does not fit.
pub open spec fn saturating_sum(a: usize, b: usize) -> usize {
    if a + b > usize::MAX {
        usize::MAX
    } else {
        (a + b) as usize
    }
}

/// The larger of the current maximum and a recorded candidate.
pub open spec fn max_after(current: usize, candidate: usize) -> usize {
    if candidate > current {
        candidate
    } else {
        current
    }
}

/// Recording candidates in any order gives the same maximum: the outcome
/// does not depend on which of two recordings happens first.
pub proof fn lemma_record_order_independent(start: usize, a: usize, b: usize)
    ensures
        max_after(max_after(start, a), b) == max_after(max_after(start, b), a),
        max_after(max_after(start, a), b) >= start,
        max_after(max_after(start, a), b) >= a,
        max_after(max_after(start, a), b) >= b,
{
}

/// Two successive additions leave the same value as one addition of their
/// sum: no update is lost, and the result saturates at `usize::MAX`.
pub proof fn lemma_additions_accumulate(start: usize, a: usize, b: usize)
    ensures
        saturating_sum(saturating_sum(start, a), b) == (if start + a + b > usize::MAX {
            usize::MAX
        } else {
            (start + a + b) as usize
        }),
{
}

/// Counter whose additions saturate at `usize::MAX`.
pub struct AtomicCounter {
    value: usize,
    loads: usize,
    stores: usize,
    fetch_adds: usize,
}

impl AtomicCounter {
    /// Current value of the counter.
    pub closed spec fn current(&self) -> usize {
        self.value
    }

    /// Accumulated signals.
    pub closed spec fn spec_observations(&self) -> AtomicObservation {
        AtomicObservation {
            loads: self.loads,
            stores: self.stores,
            fetch_adds: self.fetch_adds,
            compare_exchange_attempts: 0,
            compare_exchange_successes: 0,
        }
    }

    /// Creates a counter holding `value`, with no signals recorded.
    pub fn new(value: usize) -> (c: Self)
        ensures
            c.current() == value,
            c.spec_observations() == no_signals(),
    {
        AtomicCounter { value, loads: 0, stores: 0, fetch_adds: 0 }
    }

    /// Reads the current value.
    pub fn load(&mut self) -> (r: usize)
        ensures
            r == old(self).current(),
            final(self).current() == old(self).current(),
            final(self).spec_observations() == (AtomicObservation {
                loads: counter_step(old(self).spec_observations().loads),
                ..old(self).spec_observations()
            }),
    {
        self.loads = tick(self.loads);
        self.value
    }

    /// Overwrites the current value.
    pub fn store(&mut self, value: usize)
        ensures
            final(self).current() == value,
            final(self).spec_observations() == (AtomicObservation {
                stores: counter_step(old(self).spec_observations().stores),
                ..old(self).spec_observations()
            }),
    {
        self.stores = tick(self.stores);
        self.value = value;
    }

    /// Adds `delta`, saturating at `usize::MAX`, and returns the previous
    /// value.
    pub fn fetch_add(&mut self, delta: usize) -> (previous: usize)
        ensures
            previous == old(self).current(),
            final(self).current() == saturating_sum(old(self).current(), delta),
            final(self).spec_observations() == (AtomicObservation {
                fetch_adds: counter_step(old(self).spec_observations().fetch_adds),
                ..old(self).spec_observations()
            }),
    {
        self.fetch_adds = tick(self.fetch_adds);
        let previous = self.value;
        self.value = previous.saturating_add(delta);
        previous
    }

    /// Returns the accumulated signals.
    pub fn observations(&self) -> (o: AtomicObservation)
        ensures
            o == self.spec_observations(),
    {
        AtomicObservation::from_parts(self.loads, self.stores, self.fetch_adds, 0, 0)
    }
}

/// Boolean flag that publishes a simple state.
pub struct AtomicFlag {
    value: bool,
    loads: usize,
    stores: usize,
}

impl AtomicFlag {
    /// Current value of the flag.
    pub closed spec fn current(&self) -> bool {
        self.value
    }

    /// Accumulated signals.
    pub closed spec fn spec_observations(&self) -> AtomicObservation {
        AtomicObservation {
            loads: self.loads,
            stores: self.stores,
            fetch_adds: 0,
            compare_exchange_attempts: 0,
            compare_exchange_successes: 0,
        }
    }

    /// Creates a flag holding `value`, with no signals recorded.
    pub fn new(value: bool) -> (f: Self)
        ensures
            f.current() == value,
            f.spec_observations() == no_signals(),
    {
        AtomicFlag { value, loads: 0, stores: 0 }
    }

    /// Reads the flag.
    pub fn is_set(&mut self) -> (r: bool)
        ensures
            r == old(self).current(),
            final(self).current() == old(self).current(),
            final(self).spec_observations() == (AtomicObservation {
                loads: counter_step(old(self).spec_observations().loads),
                ..old(self).spec_observations()
            }),
    {
        self.loads = tick(self.loads);
        self.value
    }

    /// Publishes a new value for the flag.
    pub fn set(&mut self, value: bool)
        ensures
            final(self).current() == value,
            final(self).spec_observations() == (AtomicObservation {
                stores: counter_step(old(self).spec_observations().stores),
                ..old(self).spec_observations()
            }),
    {
        self.stores = tick(self.stores);
        self.value = value;
    }

    /// Returns the accumulated signals.
    pub fn observations(&self) -> (o: AtomicObservation)
        ensures
            o == self.spec_observations(),
    {
        AtomicObservation::from_parts(self.loads, self.stores, 0, 0, 0)
    }
}

/// Cell for studying `compare_exchange`.
pub struct CompareExchange {
    value: usize,
    loads: usize,
    stores: usize,
    compare_exchange_attempts: usize,
    compare_exchange_successes: usize,
}

impl CompareExchange {
    /// Current value of the cell.
    pub closed spec fn current(&self) -> usize {
        self.value
    }

    /// Accumulated signals.
    pub closed spec fn spec_observations(&self) -> AtomicObservation {
        AtomicObservation {
            loads: self.loads,
            stores: self.stores,
            fetch_adds: 0,
            compare_exchange_attempts: self.compare_exchange_attempts,
            compare_exchange_successes: self.compare_exchange_successes,
        }
    }

    /// Creates a cell holding `value`, with no signals recorded.
    pub fn new(value: usize) -> (c: Self)
        ensures
            c.current() == value,
            c.spec_observations() == no_signals(),
    {
        CompareExchange {
            value,
            loads: 0,
            stores: 0,
            compare_exchange_attempts: 0,
            compare_exchange_successes: 0,
        }
    }

    /// Reads the current value.
    pub fn load(&mut self) -> (r: usize)
        ensures
            r == old(self).current(),
            final(self).current() == old(self).current(),
            final(self).spec_observations() == (AtomicObservation {
                loads: counter_step(old(self).spec_observations().loads),
                ..old(self).spec_observations()
            }),
    {
        self.loads = tick(self.loads);
        self.value
    }

    /// Overwrites the current value.
    pub fn store(&mut self, value: usize)
        ensures
            final(self).current() == value,
            final(self).spec_observations() == (AtomicObservation {
                stores: counter_step(old(self).spec_observations().stores),
                ..old(self).spec_observations()
            }),
    {
        self.stores = tick(self.stores);
        self.value = value;
    }

    /// Replaces the value by `new` if it still equals `current`.
    ///
    /// Returns `Ok(previous)` when the exchange happens and
    /// `Err(observed)` otherwise.
    pub fn compare_exchange(&mut self, current: usize, new: usize) -> (r: Result<usize, usize>)
        ensures
            old(self).current() == current ==> {
                &&& r == Ok::<usize, usize>(current)
                &&& final(self).current() == new
                &&& final(self).spec_observations() == (AtomicObservation {
                    compare_exchange_attempts: counter_step(
                        old(self).spec_observations().compare_exchange_attempts,
                    ),
                    compare_exchange_successes: counter_step(
                        old(self).spec_observations().compare_exchange_successes,
                    ),
                    ..old(self).spec_observations()
                })
            },
            old(self).current() != current ==> {
                &&& r == Err::<usize, usize>(old(self).current())
                &&& final(self).current() == old(self).current()
                &&& final(self).spec_observations() == (AtomicObservation {
                    compare_exchange_attempts: counter_step(
                        old(self).spec_observations().compare_exchange_attempts,
                    ),
                    ..old(self).spec_observations()
                })
            },
    {
        self.compare_exchange_attempts = tick(self.compare_exchange_attempts);
        if self.value == current {
            let previous = self.value;
            self.value = new;
            self.compare_exchange_successes = tick(self.compare_exchange_successes);
            Ok(previous)
        } else {
            Err(self.value)
        }
    }

    /// Returns the accumulated signals.
    pub fn observations(&self) -> (o: AtomicObservation)
        ensures
            o == self.spec_observations(),
    {
        AtomicObservation::from_parts(
            self.loads,
            self.stores,
            0,
            self.compare_exchange_attempts,
            self.compare_exchange_successes,
        )
    }
}

/// Running maximum of the recorded values.
pub struct AtomicMax {
    value: usize,
    loads: usize,
    compare_exchange_attempts: usize,
    compare_exchange_successes: usize,
}

impl AtomicMax {
    /// Largest value recorded so far.
    pub closed spec fn current(&self) -> usize {
        self.value
    }

    /// Accumulated signals.
    pub closed spec fn spec_observations(&self) -> AtomicObservation {
        AtomicObservation {
            loads: self.loads,
            stores: 0,
            fetch_adds: 0,
            compare_exchange_attempts: self.compare_exchange_attempts,
            compare_exchange_successes: self.compare_exchange_successes,
        }
    }

    /// Creates a maximum starting at `value`, with no signals recorded.
    pub fn new(value: usize) -> (m: Self)
        ensures
            m.current() == value,
            m.spec_observations() == no_signals(),
    {
        AtomicMax { value, loads: 0, compare_exchange_attempts: 0, compare_exchange_successes: 0 }
    }

    /// Reads the maximum.
    pub fn load(&mut self) -> (r: usize)
        ensures
            r == old(self).current(),
            final(self).current() == old(self).current(),
            final(self).spec_observations() == (AtomicObservation {
                loads: counter_step(old(self).spec_observations().loads),
                ..old(self).spec_observations()
            }),
    {
        self.loads = tick(self.loads);
        self.value
    }

    /// Records `candidate`: the maximum becomes the larger of the two.
    ///
    /// A candidate that is not larger leaves the cell untouched, without a
    /// compare-and-swap attempt.
    pub fn record(&mut self, candidate: usize)
        ensures
            final(self).current() == max_after(old(self).current(), candidate),
            final(self).current() >= old(self).current(),
            final(self).current() >= candidate,
            candidate > old(self).current() ==> final(self).spec_observations() == (
            AtomicObservation {
                compare_exchange_attempts: counter_step(
                    old(self).spec_observations().compare_exchange_attempts,
                ),
                compare_exchange_successes: counter_step(
                    old(self).spec_observations().compare_exchange_successes,
                ),
                ..old(self).spec_observations()
            }),
            candidate <= old(self).current() ==> final(self).spec_observations() == old(
                self,
            ).spec_observations(),
    {
        let current = self.value;
        if candidate > current {
            self.compare_exchange_attempts = tick(self.compare_exchange_attempts);
            self.value = candidate;
            self.compare_exchange_successes = tick(self.compare_exchange_successes);
        }
    }

    /// Returns the accumulated signals.
    pub fn observations(&self) -> (o: AtomicObservation)
        ensures
            o == self.spec_observations(),
    {
        AtomicObservation::from_parts(
            self.loads,
            0,
            0,
            self.compare_exchange_attempts,
            self.compare_exchange_successes,
        )
    }
}

} // verus!
