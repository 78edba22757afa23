//! Memory orderings: what each ordering guarantees, publication through a
//! release/acquire flag, relaxed counting and compare-and-swap with explicit
//! success and failure orderings.

use vstd::prelude::*;

use core::sync::atomic::Ordering;

use crate::lock_free::{counter_step, tick};

verus! {

/// The five memory orderings, as a value the library can store and compare.
#[derive(Debug, Clone, Copy, PartialEq, Eq, Structural)]
pub enum MemoryOrder {
    /// Atomicity of one cell, no synchronization.
    Relaxed,
    /// Publishes the writes that precede a store.
    Release,
    /// Observes the writes published before a matching release.
    Acquire,
    /// Both acquire and release.
    AcqRel,
    /// Acquire/release plus one global order of all such operations.
    SeqCst,
}

/// The library's name for a standard memory ordering.
pub open spec fn order_of(ordering: Ordering) -> MemoryOrder {
    match ordering {
        Ordering::Relaxed => MemoryOrder::Relaxed,
        Ordering::Release => MemoryOrder::Release,
        Ordering::Acquire => MemoryOrder::Acquire,
        Ordering::AcqRel => MemoryOrder::AcqRel,
        _ => MemoryOrder::SeqCst,
    }
}

impl MemoryOrder {
    /// Converts a standard memory ordering.
    pub fn from_ordering(ordering: Ordering) -> (m: MemoryOrder)
        ensures
            m == order_of(ordering),
    {
        match ordering {
            Ordering::Relaxed => MemoryOrder::Relaxed,
            Ordering::Release => MemoryOrder::Release,
            Ordering::Acquire => MemoryOrder::Acquire,
            Ordering::AcqRel => MemoryOrder::AcqRel,
            _ => MemoryOrder::SeqCst,
        }
    }

    /// The standard memory ordering of the same name.
    pub fn to_ordering(self) -> (ordering: Ordering)
        ensures
            order_of(ordering) == self,
    {
        match self {
            MemoryOrder::Relaxed => Ordering::Relaxed,
            MemoryOrder::Release => Ordering::Release,
            MemoryOrder::Acquire => Ordering::Acquire,
            MemoryOrder::AcqRel => Ordering::AcqRel,
            MemoryOrder::SeqCst => Ordering::SeqCst,
        }
    }
}

/// The guarantees of one memory ordering, as three questions.
#[derive(Debug, Clone, Copy, PartialEq, Eq, Structural)]
pub struct OrderingGuarantee {
    /// The ordering described.
    pub ordering: MemoryOrder,
    /// Whether it can synchronize threads with a complementary operation.
    pub synchronizes_with_other_threads: bool,
    /// Whether it keeps the atomicity of the single cell.
    pub preserves_single_variable_atomicity: bool,
    /// Whether it takes part in the single global order of sequentially
    /// consistent operations.
    pub participates_in_global_order: bool,
}

/// The guarantee of an ordering: every ordering but relaxed synchronizes,
/// all keep single-cell atomicity, only sequential consistency is globally
/// ordered.
pub open spec fn guarantee_of(ordering: Ordering) -> OrderingGuarantee {
    OrderingGuarantee {
        ordering: order_of(ordering),
        synchronizes_with_other_threads: order_of(ordering) != MemoryOrder::Relaxed,
        preserves_single_variable_atomicity: true,
        participates_in_global_order: order_of(ordering) == MemoryOrder::SeqCst,
    }
}

/// Describes an ordering with three questions.
pub fn describe_ordering(ordering: Ordering) -> (g: OrderingGuarantee)
    ensures
        g == guarantee_of(ordering),
{
    let order = MemoryOrder::from_ordering(ordering);
    let synchronizes = match order {
        MemoryOrder::Relaxed => false,
        _ => true,
    };
    let global = match order {
        MemoryOrder::SeqCst => true,
        _ => false,
    };
    OrderingGuarantee {
        ordering: order,
        synchronizes_with_other_threads: synchronizes,
        preserves_single_variable_atomicity: true,
        participates_in_global_order: global,
    }
}

/// Value published behind a ready flag, following the release/acquire
/// protocol: the payload is written before the flag is set, and read only
/// once the flag is seen set. The caller owns the cell, so each operation is
/// one step on it.
pub struct PublishedValue {
    payload: usize,
    ready: bool,
    observed_reads: usize,
}

impl PublishedValue {
    /// The stored payload.
    pub closed spec fn payload(&self) -> usize {
        self.payload
    }

    /// Whether the payload has been published.
    pub closed spec fn is_published(&self) -> bool {
        self.ready
    }

    /// Read attempts so far.
    pub closed spec fn reads(&self) -> usize {
        self.observed_reads
    }

    /// Creates an unpublished value.
    pub fn new(initial: usize) -> (p: Self)
        ensures
            p.payload() == initial,
            !p.is_published(),
            p.reads() == 0,
    {
        PublishedValue { payload: initial, ready: false, observed_reads: 0 }
    }

    /// Stores `value`, then raises the ready flag.
    pub fn publish(&mut self, value: usize)
        ensures
            final(self).payload() == value,
            final(self).is_published(),
            final(self).reads() == old(self).reads(),
    {
        self.payload = value;
        self.ready = true;
    }

    /// Reads the payload if the ready flag is raised.
    pub fn try_read(&mut self) -> (r: Option<usize>)
        ensures
            r == (if old(self).is_published() {
                Some(old(self).payload())
            } else {
                None
            }),
            final(self).payload() == old(self).payload(),
            final(self).is_published() == old(self).is_published(),
            final(self).reads() == counter_step(old(self).reads()),
    {
        self.observed_reads = tick(self.observed_reads);
        if self.ready {
            Some(self.payload)
        } else {
            None
        }
    }

    /// Number of read attempts observed.
    pub fn observed_reads(&self) -> (n: usize)
        ensures
            n == self.reads(),
    {
        self.observed_reads
    }
}

/// Counter that only relies on the atomicity of its own cell.
pub struct RelaxedCounter {
    value: usize,
}

impl RelaxedCounter {
    /// Current value.
    pub closed spec fn current(&self) -> usize {
        self.value
    }

    /// Creates a counter holding `initial`.
    pub fn new(initial: usize) -> (c: Self)
        ensures
            c.current() == initial,
    {
        RelaxedCounter { value: initial }
    }

    /// Adds one, wrapping on overflow, and returns the previous value.
    pub fn increment(&mut self) -> (previous: usize)
        ensures
            previous == old(self).current(),
            final(self).current() == counter_step(old(self).current()),
    {
        let previous = self.value;
        self.value = tick(self.value);
        previous
    }

    /// Reads the counter.
    pub fn load(&self) -> (r: usize)
        ensures
            r == self.current(),
    {
        self.value
    }

    /// The ordering every operation of the counter uses.
    pub fn ordering(&self) -> (o: Ordering)
        ensures
            order_of(o) == MemoryOrder::Relaxed,
    {
        Ordering::Relaxed
    }
}

/// Code under which an ordering is recorded; 5 stands for an ordering the
/// cell does not name.
pub open spec fn ordering_code(ordering: Ordering) -> usize {
    match ordering {
        Ordering::Relaxed => 0,
        Ordering::Release => 1,
        Ordering::Acquire => 2,
        Ordering::AcqRel => 3,
        Ordering::SeqCst => 4,
        _ => 5,
    }
}

/// The ordering recorded under `code`, if any.
pub open spec fn ordering_of_code(code: usize) -> Option<MemoryOrder> {
    if code == 0 {
        Some(MemoryOrder::Relaxed)
    } else if code == 1 {
        Some(MemoryOrder::Release)
    } else if code == 2 {
        Some(MemoryOrder::Acquire)
    } else if code == 3 {
        Some(MemoryOrder::AcqRel)
    } else if code == 4 {
        Some(MemoryOrder::SeqCst)
    } else {
        None
    }
}

fn encode_ordering(ordering: Ordering) -> (code: usize)
    ensures
        code == ordering_code(ordering),
{
    match ordering {
        Ordering::Relaxed => 0,
        Ordering::Release => 1,
        Ordering::Acquire => 2,
        Ordering::AcqRel => 3,
        Ordering::SeqCst => 4,
        _ => 5,
    }
}

fn decode_ordering(code: usize) -> (o: Option<MemoryOrder>)
    ensures
        o == ordering_of_code(code),
{
    if code == 0 {
        Some(MemoryOrder::Relaxed)
    } else if code == 1 {
        Some(MemoryOrder::Release)
    } else if code == 2 {
        Some(MemoryOrder::Acquire)
    } else if code == 3 {
        Some(MemoryOrder::AcqRel)
    } else if code == 4 {
        Some(MemoryOrder::SeqCst)
    } else {
        None
    }
}

/// Snapshot of an [`OrderingCasCell`].
#[derive(Debug, Clone, Copy, PartialEq, Eq, Structural)]
pub struct OrderingCasObservation {
    /// Current value.
    pub value: usize,
    /// Compare-and-swap attempts.
    pub attempts: usize,
    /// Successful attempts.
    pub successes: usize,
    /// Success ordering of the last attempt.
    pub last_success_ordering: Option<MemoryOrder>,
    /// Failure ordering of the last attempt.
    pub last_failure_ordering: Option<MemoryOrder>,
}

/// Compare-and-swap cell that records the orderings of its last attempt.
pub struct OrderingCasCell {
    value: usize,
    attempts: usize,
    successes: usize,
    last_success_ordering: usize,
    last_failure_ordering: usize,
}

impl OrderingCasCell {
    /// What an observation of the cell reports.
    pub closed spec fn spec_observation(&self) -> OrderingCasObservation {
        OrderingCasObservation {
            value: self.value,
            attempts: self.attempts,
            successes: self.successes,
            last_success_ordering: ordering_of_code(self.last_success_ordering),
            last_failure_ordering: ordering_of_code(self.last_failure_ordering),
        }
    }

    /// Creates a cell holding `initial`, with no attempt recorded.
    pub fn new(initial: usize) -> (c: Self)
        ensures
            c.spec_observation() == (OrderingCasObservation {
                value: initial,
                attempts: 0,
                successes: 0,
                last_success_ordering: None,
                last_failure_ordering: None,
            }),
    {
        OrderingCasCell {
            value: initial,
            attempts: 0,
            successes: 0,
            last_success_ordering: usize::MAX,
            last_failure_ordering: usize::MAX,
        }
    }

    /// Runs `compare_exchange` with the given success and failure orderings.
    ///
    /// A failure ordering may not be `Release` or `AcqRel`.
    pub fn compare_exchange(
        &mut self,
        current: usize,
        new: usize,
        success: Ordering,
        failure: Ordering,
    ) -> (r: Result<usize, usize>)
        requires
            order_of(failure) != MemoryOrder::Release,
            order_of(failure) != MemoryOrder::AcqRel,
        ensures
            ({
                let before = old(self).spec_observation();
                let after = final(self).spec_observation();
                &&& after.attempts == counter_step(before.attempts)
                &&& after.last_success_ordering == Some(order_of(success))
                &&& after.last_failure_ordering == Some(order_of(failure))
                &&& before.value == current ==> {
                    &&& r == Ok::<usize, usize>(current)
                    &&& after.value == new
                    &&& after.successes == counter_step(before.successes)
                }
                &&& before.value != current ==> {
                    &&& r == Err::<usize, usize>(before.value)
                    &&& after.value == before.value
                    &&& after.successes == before.successes
                }
            }),
    {
        self.attempts = tick(self.attempts);
        self.last_success_ordering = encode_ordering(success);
        self.last_failure_ordering = encode_ordering(failure);
        if self.value == current {
            let previous = self.value;
            self.value = new;
            self.successes = tick(self.successes);
            Ok(previous)
        } else {
            Err(self.value)
        }
    }

    /// Returns a snapshot of the cell.
    pub fn observation(&self) -> (o: OrderingCasObservation)
        ensures
            o == self.spec_observation(),
    {
        OrderingCasObservation {
            value: self.value,
            attempts: self.attempts,
            successes: self.successes,
            last_success_ordering: decode_ordering(self.last_success_ordering),
            last_failure_ordering: decode_ordering(self.last_failure_ordering),
        }
    }
}

} // verus!
