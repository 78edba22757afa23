//! Lock-free structures: progress guarantees, a bounded index-linked stack
//! and the ABA hazard.

use vstd::prelude::*;
use vstd::string::*;

use crate::text::{decimal, push_decimal};

verus! {

/// Progress guarantee of a concurrent structure.
#[derive(Debug, Clone, Copy, PartialEq, Eq, Structural)]
pub enum ProgressGuarantee {
    /// Some thread may be blocked by another one.
    Blocking,
    /// The system as a whole progresses even if one thread retries.
    LockFree,
    /// Every operation finishes in a bounded number of steps.
    WaitFree,
}

impl ProgressGuarantee {
    /// Strength of a guarantee: blocking < lock-free < wait-free.
    pub open spec fn strength(self) -> nat {
        match self {
            ProgressGuarantee::Blocking => 0,
            ProgressGuarantee::LockFree => 1,
            ProgressGuarantee::WaitFree => 2,
        }
    }

    /// Whether `self` is a strictly stronger guarantee than `other`.
    pub fn stronger_than(self, other: Self) -> (res: bool)
        ensures
            res == (self.strength() > other.strength()),
    {
        self.rank() > other.rank()
    }

    fn rank(self) -> (r: usize)
        ensures
            r == self.strength(),
    {
        match self {
            ProgressGuarantee::Blocking => 0,
            ProgressGuarantee::LockFree => 1,
            ProgressGuarantee::WaitFree => 2,
        }
    }
}


/// Index that marks the end of a chain of nodes.
const NONE: usize = usize::MAX;

/// Counter step with the wrap-around of an atomic `fetch_add(1)`.
pub open spec fn counter_step(x: usize) -> usize {
    if x == usize::MAX {
        0
    } else {
        (x + 1) as usize
    }
}

/// Advances a statistics counter by one, wrapping on overflow.
pub(crate) fn tick(x: usize) -> (r: usize)
    ensures
        r == counter_step(x),
{
    if x == usize::MAX {
        0
    } else {
        x + 1
    }
}

/// Observations of a model driven by compare-and-swap loops.
#[derive(Debug, Clone, Copy, Default, PartialEq, Eq, Structural)]
pub struct CasObservation {
    /// Compare-and-swap attempts.
    pub cas_attempts: usize,
    /// Successful compare-and-swap attempts.
    pub cas_successes: usize,
    /// Retries caused by contention or interference.
    pub retries: usize,
}

/// Error of an insertion into a bounded stack.
#[derive(Debug, Clone, Copy, PartialEq, Eq, Structural)]
pub enum StackError {
    /// No free node is left; the value is handed back.
    Full(usize),
}

/// A preallocated node: its value and the index of the next node in the
/// chain it belongs to.
struct Node {
    value: usize,
    next: usize,
}

/// `chain` lists the node indices reached from `start` by following `next`
/// until the end marker.
spec fn is_chain(nodes: Seq<Node>, start: usize, chain: Seq<usize>) -> bool {
    &&& (chain.len() == 0 <==> start == NONE)
    &&& chain.len() > 0 ==> start == chain[0]
    &&& forall|i: int| 0 <= i < chain.len() ==> (#[trigger] chain[i]) < nodes.len()
    &&& forall|i: int|
        0 <= i < chain.len() - 1 ==> nodes[#[trigger] chain[i] as int].next == chain[i + 1]
    &&& chain.len() > 0 ==> nodes[chain.last() as int].next == NONE
}

spec fn all_distinct(s: Seq<usize>) -> bool {
    forall|i: int, j: int| 0 <= i < s.len() && 0 <= j < s.len() && i != j ==> s[i] != s[j]
}

/// Bounded stack of `usize` built from preallocated nodes linked by index.
///
/// Two chains share the nodes: the stack chain, starting at `head`, and the
/// free chain, starting at `free`. Every node belongs to exactly one of them.
pub struct BoundedLockFreeStack {
    nodes: Vec<Node>,
    head: usize,
    free: usize,
    cas_attempts: usize,
    cas_successes: usize,
    retries: usize,
    used: Ghost<Seq<usize>>,
    spare: Ghost<Seq<usize>>,
}

impl View for BoundedLockFreeStack {
    /// The stacked values, bottom first: the top of the stack is the last
    /// element.
    type V = Seq<usize>;

    closed spec fn view(&self) -> Seq<usize> {
        let used = self.used@;
        Seq::new(used.len(), |k: int| self.nodes@[used[used.len() - 1 - k] as int].value)
    }
}

impl BoundedLockFreeStack {
    /// Both chains are well linked, disjoint and together hold every node.
    pub closed spec fn wf(&self) -> bool {
        &&& 0 < self.nodes@.len() < NONE
        &&& is_chain(self.nodes@, self.head, self.used@)
        &&& is_chain(self.nodes@, self.free, self.spare@)
        &&& self.used@.len() + self.spare@.len() == self.nodes@.len()
        &&& all_distinct(self.used@ + self.spare@)
    }

    /// Fixed number of preallocated nodes.
    pub closed spec fn spec_capacity(&self) -> nat {
        self.nodes@.len()
    }

    /// Accumulated compare-and-swap observations.
    pub closed spec fn spec_observations(&self) -> CasObservation {
        CasObservation {
            cas_attempts: self.cas_attempts,
            cas_successes: self.cas_successes,
            retries: self.retries,
        }
    }

    proof fn lemma_len_bound(&self)
        requires
            self.wf(),
        ensures
            self@.len() <= self.spec_capacity(),
            self.free == NONE <==> self@.len() == self.spec_capacity(),
            self.head == NONE <==> self@.len() == 0,
    {
    }

    /// Creates a stack with `capacity` preallocated nodes, all free.
    pub fn new(capacity: usize) -> (s: Self)
        requires
            0 < capacity < usize::MAX,
        ensures
            s.wf(),
            s@ == Seq::<usize>::empty(),
            s.spec_capacity() == capacity,
            s.spec_observations() == (CasObservation { cas_attempts: 0, cas_successes: 0, retries: 0 }),
    {
        let mut nodes: Vec<Node> = Vec::new();
        let mut index: usize = 0;
        while index < capacity
            invariant
                0 < capacity < usize::MAX,
                index <= capacity,
                nodes@.len() == index,
                forall|k: int|
                    0 <= k < index ==> (#[trigger] nodes@[k]).next == (if k + 1 == capacity {
                        NONE
                    } else {
                        (k + 1) as usize
                    }),
            decreases capacity - index,
        {
            let next = if index + 1 == capacity {
                NONE
            } else {
                index + 1
            };
            nodes.push(Node { value: 0, next });
            index = index + 1;
        }
        let ghost spare = Seq::new(capacity as nat, |k: int| k as usize);
        let s = BoundedLockFreeStack {
            nodes,
            head: NONE,
            free: 0,
            cas_attempts: 0,
            cas_successes: 0,
            retries: 0,
            used: Ghost(Seq::empty()),
            spare: Ghost(spare),
        };
        assert(s.used@ + s.spare@ =~= spare);
        assert(s@ =~= Seq::<usize>::empty());
        s
    }

    /// Returns the fixed capacity of the stack.
    pub fn capacity(&self) -> (c: usize)
        ensures
            c == self.spec_capacity(),
    {
        self.nodes.len()
    }

    /// Progress guarantee that the stack's algorithm is designed for. In this
    /// model the caller owns the stack (`&mut self`) and each operation is
    /// one step on it.
    pub fn progress_guarantee(&self) -> (p: ProgressGuarantee)
        ensures
            p == ProgressGuarantee::LockFree,
    {
        ProgressGuarantee::LockFree
    }

    /// Pushes `value` if a free node is left.
    pub fn push(&mut self, value: usize) -> (r: Result<(), StackError>)
        requires
            old(self).wf(),
        ensures
            final(self).wf(),
            final(self).spec_capacity() == old(self).spec_capacity(),
            old(self)@.len() < old(self).spec_capacity() ==> {
                &&& r is Ok
                &&& final(self)@ == old(self)@.push(value)
                &&& final(self).spec_observations() == (CasObservation {
                    cas_attempts: counter_step(counter_step(old(self).spec_observations().cas_attempts)),
                    cas_successes: counter_step(counter_step(old(self).spec_observations().cas_successes)),
                    retries: old(self).spec_observations().retries,
                })
            },
            old(self)@.len() == old(self).spec_capacity() ==> {
                &&& r == Err::<(), StackError>(StackError::Full(value))
                &&& final(self)@ == old(self)@
                &&& final(self).spec_observations() == old(self).spec_observations()
            },
    {
        proof {
            self.lemma_len_bound();
        }
        let node = match self.pop_free_node() {
            Some(node) => node,
            None => {
                return Err(StackError::Full(value));
            },
        };
        proof {
            let used = self.used@;
            let rest = self.spare@;
            let before = used + seq![node] + rest;
            let after = used + rest + seq![node];
            assert(old(self).used@ + old(self).spare@ =~= before);
            assert forall|i: int, j: int|
                0 <= i < after.len() && 0 <= j < after.len() && i != j implies after[i] != after[j] by {
                let pi = if i < used.len() { i } else if i == after.len() - 1 { used.len() as int } else { i + 1 };
                let pj = if j < used.len() { j } else if j == after.len() - 1 { used.len() as int } else { j + 1 };
                assert(after[i] == before[pi]);
                assert(after[j] == before[pj]);
            }
        }
        self.push_head_node(node, value);
        Ok(())
    }

    /// Pops the top value, if any.
    pub fn pop(&mut self) -> (r: Option<usize>)
        requires
            old(self).wf(),
        ensures
            final(self).wf(),
            final(self).spec_capacity() == old(self).spec_capacity(),
            old(self)@.len() > 0 ==> {
                &&& r == Some(old(self)@.last())
                &&& final(self)@ == old(self)@.drop_last()
                &&& final(self).spec_observations() == (CasObservation {
                    cas_attempts: counter_step(counter_step(old(self).spec_observations().cas_attempts)),
                    cas_successes: counter_step(counter_step(old(self).spec_observations().cas_successes)),
                    retries: old(self).spec_observations().retries,
                })
            },
            old(self)@.len() == 0 ==> {
                &&& r is None
                &&& final(self)@ == old(self)@
                &&& final(self).spec_observations() == old(self).spec_observations()
            },
    {
        proof {
            self.lemma_len_bound();
        }
        let node = match self.pop_head_node() {
            Some(node) => node,
            None => {
                return None;
            },
        };
        let ghost mid_nodes = self.nodes@;
        let ghost rest = self.used@;
        proof {
            let spare = self.spare@;
            assert(old(self).used@ + old(self).spare@ =~= seq![node] + rest + spare);
        }
        let value = self.push_free_node(node);
        proof {
            let used = old(self).used@;
            assert(used =~= seq![node] + rest);
            assert(value == old(self)@.last());
            assert forall|k: int| 0 <= k < rest.len() implies self@[k] == old(self)@[k] by {
                assert(rest[rest.len() - 1 - k] == used[used.len() - 1 - k]);
                assert(rest[rest.len() - 1 - k] != node) by {
                    assert(all_distinct(used + old(self).spare@));
                    assert((used + old(self).spare@)[0] == node);
                    assert((used + old(self).spare@)[rest.len() - k] == rest[rest.len() - 1 - k]);
                }
            }
            assert(self@ =~= old(self)@.drop_last());
        }
        Some(value)
    }

    /// Returns the accumulated compare-and-swap observations.
    pub fn observations(&self) -> (o: CasObservation)
        ensures
            o == self.spec_observations(),
    {
        CasObservation {
            cas_attempts: self.cas_attempts,
            cas_successes: self.cas_successes,
            retries: self.retries,
        }
    }

    /// Records one successful compare-and-swap.
    fn cas_succeeded(&mut self)
        ensures
            final(self).cas_attempts == counter_step(old(self).cas_attempts),
            final(self).cas_successes == counter_step(old(self).cas_successes),
            final(self).retries == old(self).retries,
            final(self).nodes == old(self).nodes,
            final(self).head == old(self).head,
            final(self).free == old(self).free,
            final(self).used == old(self).used,
            final(self).spare == old(self).spare,
    {
        self.cas_attempts = tick(self.cas_attempts);
        self.cas_successes = tick(self.cas_successes);
    }

    /// Detaches the first free node, if any. The stack chain is untouched.
    fn pop_free_node(&mut self) -> (r: Option<usize>)
        requires
            old(self).wf(),
        ensures
            old(self).spare@.len() == 0 ==> r is None && *final(self) == *old(self),
            old(self).spare@.len() > 0 ==> {
                &&& r == Some(old(self).spare@[0])
                &&& final(self).nodes == old(self).nodes
                &&& final(self).head == old(self).head
                &&& final(self).used == old(self).used
                &&& final(self).spare@ == old(self).spare@.drop_first()
                &&& is_chain(final(self).nodes@, final(self).free, final(self).spare@)
                &&& final(self).cas_attempts == counter_step(old(self).cas_attempts)
                &&& final(self).cas_successes == counter_step(old(self).cas_successes)
                &&& final(self).retries == old(self).retries
            },
    {
        let current = self.free;
        if current == NONE {
            return None;
        }
        let next = self.nodes[current].next;
        self.free = next;
        self.spare = Ghost(self.spare@.drop_first());
        self.cas_succeeded();
        Some(current)
    }

    /// Links a detached node holding `value` on top of the stack chain.
    fn push_head_node(&mut self, node: usize, value: usize)
        requires
            0 < old(self).nodes@.len() < NONE,
            is_chain(old(self).nodes@, old(self).head, old(self).used@),
            is_chain(old(self).nodes@, old(self).free, old(self).spare@),
            old(self).used@.len() + old(self).spare@.len() + 1 == old(self).nodes@.len(),
            all_distinct(old(self).used@ + old(self).spare@ + seq![node]),
            node < old(self).nodes@.len(),
        ensures
            final(self).wf(),
            final(self).used@ == seq![node] + old(self).used@,
            final(self).spare@ == old(self).spare@,
            final(self).nodes@.len() == old(self).nodes@.len(),
            final(self)@ == old(self)@.push(value),
            final(self).cas_attempts == counter_step(old(self).cas_attempts),
            final(self).cas_successes == counter_step(old(self).cas_successes),
            final(self).retries == old(self).retries,
    {
        let ghost old_nodes = self.nodes@;
        let ghost used = self.used@;
        let ghost spare = self.spare@;
        let current = self.head;
        self.nodes.set(node, Node { value, next: current });
        self.head = node;
        self.used = Ghost(seq![node] + used);
        self.cas_succeeded();
        proof {
            let all = used + spare + seq![node];
            assert forall|i: int| 0 <= i < used.len() implies used[i] != node by {
                assert(all[i] == used[i]);
                assert(all[all.len() - 1] == node);
            }
            assert forall|i: int| 0 <= i < spare.len() implies spare[i] != node by {
                assert(all[used.len() + i] == spare[i]);
                assert(all[all.len() - 1] == node);
            }
            let nu = self.used@;
            assert forall|i: int| 0 <= i < nu.len() - 1 implies self.nodes@[#[trigger] nu[i] as int].next
                == nu[i + 1] by {
                if i > 0 {
                    assert(nu[i] == used[i - 1]);
                }
            }
            assert forall|i: int| 0 <= i < spare.len() - 1 implies self.nodes@[#[trigger] spare[i] as int].next
                == spare[i + 1] by {
                assert(old_nodes[spare[i] as int].next == spare[i + 1]);
            }
            if spare.len() > 0 {
                assert(spare.last() == spare[spare.len() - 1]);
            }
            if used.len() > 0 {
                assert(nu.last() == used.last());
            }
            assert(is_chain(self.nodes@, self.head, nu));
            assert(is_chain(self.nodes@, self.free, spare));
            let na = nu + spare;
            assert forall|i: int, j: int|
                0 <= i < na.len() && 0 <= j < na.len() && i != j implies na[i] != na[j] by {
                let pi = if i == 0 { all.len() - 1 } else { i - 1 };
                let pj = if j == 0 { all.len() - 1 } else { j - 1 };
                assert(na[i] == all[pi]);
                assert(na[j] == all[pj]);
            }
            assert(self@ =~= old(self)@.push(value)) by {
                assert forall|k: int| 0 <= k < used.len() implies self@[k] == old(self)@[k] by {
                    assert(nu[nu.len() - 1 - k] == used[used.len() - 1 - k]);
                }
            }
        }
    }

    /// Detaches the top node of the stack chain, if any.
    fn pop_head_node(&mut self) -> (r: Option<usize>)
        requires
            old(self).wf(),
        ensures
            old(self).used@.len() == 0 ==> r is None && *final(self) == *old(self),
            old(self).used@.len() > 0 ==> {
                &&& r == Some(old(self).used@[0])
                &&& final(self).nodes == old(self).nodes
                &&& final(self).free == old(self).free
                &&& final(self).spare == old(self).spare
                &&& final(self).used@ == old(self).used@.drop_first()
                &&& is_chain(final(self).nodes@, final(self).head, final(self).used@)
                &&& final(self).cas_attempts == counter_step(old(self).cas_attempts)
                &&& final(self).cas_successes == counter_step(old(self).cas_successes)
                &&& final(self).retries == old(self).retries
            },
    {
        let current = self.head;
        if current == NONE {
            return None;
        }
        let next = self.nodes[current].next;
        self.head = next;
        self.used = Ghost(self.used@.drop_first());
        self.cas_succeeded();
        Some(current)
    }

    /// Returns the value of a detached node and links it on top of the free
    /// chain.
    fn push_free_node(&mut self, node: usize) -> (value: usize)
        requires
            0 < old(self).nodes@.len() < NONE,
            is_chain(old(self).nodes@, old(self).head, old(self).used@),
            is_chain(old(self).nodes@, old(self).free, old(self).spare@),
            old(self).used@.len() + old(self).spare@.len() + 1 == old(self).nodes@.len(),
            all_distinct(seq![node] + old(self).used@ + old(self).spare@),
            node < old(self).nodes@.len(),
        ensures
            final(self).wf(),
            value == old(self).nodes@[node as int].value,
            final(self).used@ == old(self).used@,
            final(self).spare@ == seq![node] + old(self).spare@,
            final(self).nodes@.len() == old(self).nodes@.len(),
            forall|i: int| 0 <= i < old(self).nodes@.len() && i != node ==>
                final(self).nodes@[i].value == old(self).nodes@[i].value,
            final(self).cas_attempts == counter_step(old(self).cas_attempts),
            final(self).cas_successes == counter_step(old(self).cas_successes),
            final(self).retries == old(self).retries,
    {
        let ghost old_nodes = self.nodes@;
        let ghost used = self.used@;
        let ghost spare = self.spare@;
        let value = self.nodes[node].value;
        let current = self.free;
        self.nodes.set(node, Node { value, next: current });
        self.free = node;
        self.spare = Ghost(seq![node] + spare);
        self.cas_succeeded();
        proof {
            let all = seq![node] + used + spare;
            assert forall|i: int| 0 <= i < used.len() implies used[i] != node by {
                assert(all[1 + i] == used[i]);
                assert(all[0] == node);
            }
            assert forall|i: int| 0 <= i < spare.len() implies spare[i] != node by {
                assert(all[1 + used.len() + i] == spare[i]);
                assert(all[0] == node);
            }
            let ns = self.spare@;
            assert forall|i: int| 0 <= i < ns.len() - 1 implies self.nodes@[#[trigger] ns[i] as int].next
                == ns[i + 1] by {
                if i > 0 {
                    assert(ns[i] == spare[i - 1]);
                }
            }
            assert forall|i: int| 0 <= i < used.len() - 1 implies self.nodes@[#[trigger] used[i] as int].next
                == used[i + 1] by {
                assert(old_nodes[used[i] as int].next == used[i + 1]);
            }
            if used.len() > 0 {
                assert(used.last() == used[used.len() - 1]);
            }
            if spare.len() > 0 {
                assert(ns.last() == spare.last());
            }
            assert(is_chain(self.nodes@, self.head, used));
            assert(is_chain(self.nodes@, self.free, ns));
            let na = used + ns;
            assert forall|i: int, j: int|
                0 <= i < na.len() && 0 <= j < na.len() && i != j implies na[i] != na[j] by {
                let pi = if i < used.len() { i + 1 } else if i == used.len() { 0 } else { i };
                let pj = if j < used.len() { j + 1 } else if j == used.len() { 0 } else { j };
                assert(na[i] == all[pi]);
                assert(na[j] == all[pj]);
            }
        }
        value
    }
}

/// A three-step observation of a shared index: before, in between and after.
#[derive(Debug, Clone, Copy, PartialEq, Eq, Structural)]
pub struct AbaScenario {
    observed_before: usize,
    changed_to: usize,
    observed_after: usize,
}

impl AbaScenario {
    /// First observation.
    pub closed spec fn before(self) -> usize {
        self.observed_before
    }

    /// Intermediate value.
    pub closed spec fn between(self) -> usize {
        self.changed_to
    }

    /// Last observation.
    pub closed spec fn after(self) -> usize {
        self.observed_after
    }

    /// Creates a scenario from the first observation, the intermediate value
    /// and the last observation.
    pub fn new(observed_before: usize, changed_to: usize, observed_after: usize) -> (s: Self)
        ensures
            s.before() == observed_before,
            s.between() == changed_to,
            s.after() == observed_after,
    {
        AbaScenario { observed_before, changed_to, observed_after }
    }

    /// Whether the shape A -> B -> A appears.
    pub fn is_aba_risk(&self) -> (r: bool)
        ensures
            r == (self.before() == self.after() && self.before() != self.between()),
    {
        self.observed_before == self.observed_after && self.observed_before != self.changed_to
    }

    /// Human-readable account of the risk.
    pub fn description(&self) -> (text: String)
        ensures
            text@ == "head cambió de "@ + decimal(self.before() as nat) + " a "@ + decimal(
                self.between() as nat,
            ) + " y regresó a "@ + decimal(self.after() as nat)
                + "; el índice observado parece igual, pero la historia cambió"@,
    {
        let mut text = String::from_str("head cambió de ");
        push_decimal(&mut text, self.observed_before);
        text.append(" a ");
        push_decimal(&mut text, self.changed_to);
        text.append(" y regresó a ");
        push_decimal(&mut text, self.observed_after);
        text.append("; el índice observado parece igual, pero la historia cambió");
        text
    }
}

/// Last in, first out: on a stack with room left, a push followed by a pop
/// hands back the pushed value and restores the stack; the stack never
/// holds more values than its capacity.
pub proof fn lemma_stack_lifo(stack: Seq<usize>, capacity: nat, value: usize)
    requires
        stack.len() < capacity,
    ensures
        stack.push(value).len() <= capacity,
        stack.push(value).len() > 0,
        stack.push(value).last() == value,
        stack.push(value).drop_last() == stack,
{
    assert(stack.push(value).drop_last() =~= stack);
}

/// The view of a well-formed stack never exceeds its capacity.
pub proof fn lemma_stack_within_capacity(stack: &BoundedLockFreeStack)
    requires
        stack.wf(),
    ensures
        stack@.len() <= stack.spec_capacity(),
{
    stack.lemma_len_bound();
}

} // verus!
