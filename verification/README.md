# rust_concurrency

A library of concurrency primitives written in Verus: each module states in
its contracts what the primitive does and Verus proves the code against them.

- `atomics`, `memory_ordering`: counters, flags, compare-and-swap cells, a
  running maximum, release/acquire publication and the guarantees of each
  memory ordering, modelled as single indivisible steps on the cells they own.
- `lock_free`: a bounded stack built from preallocated nodes linked by index;
  the proof keeps the stack chain and the free chain disjoint and covering
  every node, and shows last-in-first-out behaviour.
- `deadlocks`: a lock-order tracker whose held ranks never go down, a
  wait-for graph whose depth-first search (names in ascending order) is
  specified step by step and reports a simple cycle exactly when one exists,
  and ordered transfers that keep the total balance.
- `epoch_gc`, `hazard_pointers`: reclamation domains, with pins and
  announcements kept in a `BTreeMap` by participant, and proofs that a
  guarded object is never reclaimed and that no retired object is lost.
- `arc`, `channels`, `mutex`, `rwlock`: thin layers over `std::sync`; the
  standard calls sit behind small trusted wrappers whose contracts state only
  what holds whatever other threads do. Operations that wait on other
  threads (a blocking lock, a blocking send or receive) may wait forever, so
  the wait is made by the caller and the library finishes the operation
  from its outcome.

Layout: `src/` is the verified library, `tests/` its tests, `app/` holds the
blocking operations, the reclamation domains shared between threads behind a
mutex, and the thread-based worker pool, which are outside what Verus checks.
