//! Deadlocks: ranked lock acquisition, wait-for graphs and transfers that
//! take their locks in one global order.

use vstd::prelude::*;
use vstd::string::*;

use crate::text::{lemma_text_transitive, lemma_text_trichotomy, text_before, text_equal, text_less};

verus! {

/// Acquisition rank of a lock within a total order, with a name.
///
/// Ranks are ordered by number first and by name second.
#[derive(Debug, Clone, Copy, PartialEq, Eq, PartialOrd, Ord)]
pub struct LockRank {
    rank: usize,
    name: &'static str,
}

/// `a` comes strictly before `b`: a smaller number, or the same number and
/// a smaller name.
pub open spec fn rank_less(a: LockRank, b: LockRank) -> bool {
    ||| a.number() < b.number()
    ||| (a.number() == b.number() && text_less(a.label(), b.label()))
}

/// `a` and `b` have the same number and the same name.
pub open spec fn same_rank(a: LockRank, b: LockRank) -> bool {
    a.number() == b.number() && a.label() == b.label()
}

impl LockRank {
    /// Numeric rank.
    pub closed spec fn number(self) -> usize {
        self.rank
    }

    /// Name of the lock.
    pub closed spec fn label(self) -> Seq<char> {
        self.name@
    }

    /// Creates a named rank.
    pub fn new(rank: usize, name: &'static str) -> (r: Self)
        ensures
            r.number() == rank,
            r.label() == name@,
    {
        LockRank { rank, name }
    }

    /// Returns the numeric rank.
    pub fn rank(&self) -> (r: usize)
        ensures
            r == self.number(),
    {
        self.rank
    }

    /// Returns the name of the lock.
    pub fn name(&self) -> (n: &'static str)
        ensures
            n@ == self.label(),
    {
        self.name
    }
}

/// Whether `a` comes strictly before `b`.
fn rank_before(a: LockRank, b: LockRank) -> (r: bool)
    ensures
        r == rank_less(a, b),
{
    if a.rank < b.rank {
        true
    } else if a.rank == b.rank {
        text_before(a.name, b.name)
    } else {
        false
    }
}

/// Whether `a` and `b` have the same number and name.
fn rank_equal(a: LockRank, b: LockRank) -> (r: bool)
    ensures
        r == same_rank(a, b),
{
    a.rank == b.rank && text_equal(a.name, b.name)
}

/// No rank comes before itself, and of two ranks that come before one
/// another in either direction, only one does.
pub proof fn lemma_rank_asymmetric(a: LockRank, b: LockRank)
    ensures
        !rank_less(a, a),
        rank_less(a, b) ==> !rank_less(b, a),
        !rank_less(a, b) && !rank_less(b, a) ==> same_rank(a, b),
{
    lemma_text_trichotomy(a.label(), a.label());
    lemma_text_trichotomy(a.label(), b.label());
}

/// "Not before" is transitive.
pub proof fn lemma_rank_not_less_transitive(a: LockRank, b: LockRank, c: LockRank)
    requires
        !rank_less(a, b),
        !rank_less(b, c),
    ensures
        !rank_less(a, c),
{
    lemma_text_trichotomy(a.label(), b.label());
    lemma_text_trichotomy(b.label(), c.label());
    lemma_text_trichotomy(a.label(), c.label());
    if a.number() == b.number() && b.number() == c.number() {
        if text_less(c.label(), b.label()) && text_less(b.label(), a.label()) {
            lemma_text_transitive(c.label(), b.label(), a.label());
        }
    }
}

/// The rank that `Iterator::max` picks from a nonempty sequence: the
/// greatest one, and the last of several equally great ones.
pub open spec fn highest(s: Seq<LockRank>) -> LockRank
    decreases s.len(),
{
    if s.len() <= 1 {
        s[0]
    } else {
        let m = highest(s.drop_last());
        if rank_less(s.last(), m) {
            m
        } else {
            s.last()
        }
    }
}

/// The highest rank is one of the ranks and no rank comes after it.
pub proof fn lemma_highest_is_greatest(s: Seq<LockRank>)
    requires
        s.len() > 0,
    ensures
        s.contains(highest(s)),
        forall|i: int| 0 <= i < s.len() ==> !rank_less(highest(s), #[trigger] s[i]),
    decreases s.len(),
{
    if s.len() == 1 {
        lemma_rank_asymmetric(s[0], s[0]);
        assert(s[0] == s[0]);
    } else {
        let init = s.drop_last();
        lemma_highest_is_greatest(init);
        let m = highest(init);
        lemma_rank_asymmetric(s.last(), m);
        lemma_rank_asymmetric(s.last(), s.last());
        assert forall|i: int| 0 <= i < s.len() implies !rank_less(highest(s), #[trigger] s[i]) by {
            if i < s.len() - 1 {
                assert(init[i] == s[i]);
                if !rank_less(s.last(), m) {
                    lemma_rank_not_less_transitive(s.last(), m, s[i]);
                }
            }
        }
        if rank_less(s.last(), m) {
            let k = choose|k: int| 0 <= k < init.len() && init[k] == m;
            assert(s[k] == m);
        } else {
            assert(s[s.len() - 1] == s.last());
        }
    }
}

/// Ranks held in acquisition order never go down.
pub open spec fn ranks_ordered(s: Seq<LockRank>) -> bool {
    forall|i: int, j: int| 0 <= i < j < s.len() ==> !rank_less(#[trigger] s[j], #[trigger] s[i])
}

/// Error of an attempt to take a lock out of order.
#[derive(Debug, Clone, Copy, PartialEq, Eq)]
pub struct LockOrderViolation {
    /// A held lock of higher rank.
    pub held: LockRank,
    /// The requested lock of lower rank.
    pub requested: LockRank,
}

/// Tracker of the lock-ordering protocol: while locks are held, only a lock
/// of equal or higher rank than the highest held one may be requested.
#[derive(Debug, Clone)]
pub struct LockOrderTracker {
    held: Vec<LockRank>,
}

/// Index of the last rank in `s` equal to `r`, or -1.
pub open spec fn last_position(s: Seq<LockRank>, r: LockRank) -> int
    decreases s.len(),
{
    if s.len() == 0 {
        -1
    } else if same_rank(s.last(), r) {
        s.len() - 1
    } else {
        last_position(s.drop_last(), r)
    }
}

proof fn lemma_last_position(s: Seq<LockRank>, r: LockRank)
    ensures
        -1 <= last_position(s, r) < s.len(),
        last_position(s, r) >= 0 ==> same_rank(s[last_position(s, r)], r),
        forall|k: int| last_position(s, r) < k < s.len() ==> !same_rank(#[trigger] s[k], r),
    decreases s.len(),
{
    if s.len() > 0 && !same_rank(s.last(), r) {
        lemma_last_position(s.drop_last(), r);
        assert forall|k: int| last_position(s, r) < k < s.len() implies !same_rank(#[trigger] s[k], r) by {
            if k < s.len() - 1 {
                assert(s.drop_last()[k] == s[k]);
            }
        }
    }
}

impl LockOrderTracker {
    /// Locks held, in acquisition order.
    pub closed spec fn held(self) -> Seq<LockRank> {
        self.held@
    }

    /// Creates a tracker that holds nothing.
    pub fn new() -> (t: Self)
        ensures
            t.held() == Seq::<LockRank>::empty(),
    {
        LockOrderTracker { held: Vec::new() }
    }

    /// Records entering a lock if that respects the order: refused when it
    /// comes strictly before the highest held lock.
    pub fn enter(&mut self, requested: LockRank) -> (r: Result<(), LockOrderViolation>)
        ensures
            old(self).held().len() > 0 && rank_less(requested, highest(old(self).held())) ==> {
                &&& r == Err::<(), LockOrderViolation>(
                    LockOrderViolation { held: highest(old(self).held()), requested },
                )
                &&& final(self).held() == old(self).held()
            },
            !(old(self).held().len() > 0 && rank_less(requested, highest(old(self).held())))
                ==> {
                &&& r is Ok
                &&& final(self).held() == old(self).held().push(requested)
            },
            ranks_ordered(old(self).held()) ==> ranks_ordered(final(self).held()),
    {
        let len = self.held.len();
        if len > 0 {
            let mut best = self.held[0];
            let mut i: usize = 1;
            while i < len
                invariant
                    len == self.held@.len(),
                    1 <= i <= len,
                    best == highest(self.held@.subrange(0, i as int)),
                decreases len - i,
            {
                let next = self.held[i];
                proof {
                    let s = self.held@.subrange(0, i + 1);
                    assert(s.drop_last() =~= self.held@.subrange(0, i as int));
                }
                if !rank_before(next, best) {
                    best = next;
                }
                i = i + 1;
            }
            proof {
                assert(self.held@.subrange(0, len as int) =~= self.held@);
            }
            if rank_before(requested, best) {
                return Err(LockOrderViolation { held: best, requested });
            }
        }
        proof {
            if ranks_ordered(self.held@) {
                lemma_enter_keeps_order(self.held@, requested);
            }
        }
        self.held.push(requested);
        Ok(())
    }

    /// Releases the last occurrence of `rank` and returns it.
    pub fn exit(&mut self, rank: LockRank) -> (r: Option<LockRank>)
        ensures
            last_position(old(self).held(), rank) < 0 ==> {
                &&& r is None
                &&& final(self).held() == old(self).held()
            },
            last_position(old(self).held(), rank) >= 0 ==> {
                &&& r == Some(old(self).held()[last_position(old(self).held(), rank)])
                &&& final(self).held() == old(self).held().remove(
                    last_position(old(self).held(), rank),
                )
            },
            ranks_ordered(old(self).held()) ==> ranks_ordered(final(self).held()),
    {
        proof {
            lemma_last_position(self.held@, rank);
        }
        let mut i = self.held.len();
        while i > 0
            invariant
                i <= self.held@.len(),
                self.held@ == old(self).held@,
                forall|k: int| i <= k < self.held@.len() ==> !same_rank(#[trigger] self.held@[k], rank),
                last_position(self.held@, rank) < i,
                -1 <= last_position(self.held@, rank) < self.held@.len(),
                last_position(self.held@, rank) >= 0 ==> same_rank(self.held@[last_position(self.held@, rank)], rank),
                forall|k: int| last_position(self.held@, rank) < k < self.held@.len() ==> !same_rank(#[trigger] self.held@[k], rank),
            decreases i,
        {
            i = i - 1;
            if rank_equal(self.held[i], rank) {
                proof {
                    if ranks_ordered(self.held@) {
                        lemma_exit_keeps_order(self.held@, i as int);
                    }
                }
                let removed = self.held.remove(i);
                return Some(removed);
            }
        }
        None
    }

    /// Returns the locks held, in acquisition order.
    pub fn held_ranks(&self) -> (v: Vec<LockRank>)
        ensures
            v@ == self.held(),
    {
        let mut v: Vec<LockRank> = Vec::new();
        let mut i: usize = 0;
        while i < self.held.len()
            invariant
                i <= self.held@.len(),
                v@ == self.held@.subrange(0, i as int),
            decreases self.held@.len() - i,
        {
            v.push(self.held[i]);
            i = i + 1;
            proof {
                assert(v@ =~= self.held@.subrange(0, i as int));
            }
        }
        proof {
            assert(self.held@.subrange(0, i as int) =~= self.held@);
        }
        v
    }
}

impl Default for LockOrderTracker {
    fn default() -> (t: Self)
        ensures
            t.held() == Seq::<LockRank>::empty(),
    {
        LockOrderTracker::new()
    }
}

/// A successful `enter` keeps the held ranks in non-decreasing order.
pub proof fn lemma_enter_keeps_order(held: Seq<LockRank>, requested: LockRank)
    requires
        ranks_ordered(held),
        !(held.len() > 0 && rank_less(requested, highest(held))),
    ensures
        ranks_ordered(held.push(requested)),
{
    let s = held.push(requested);
    if held.len() > 0 {
        lemma_highest_is_greatest(held);
    }
    assert forall|i: int, j: int| 0 <= i < j < s.len() implies !rank_less(#[trigger] s[j], #[trigger] s[i]) by {
        if j == s.len() - 1 {
            assert(s[i] == held[i]);
            lemma_rank_not_less_transitive(requested, highest(held), held[i]);
        } else {
            assert(s[i] == held[i] && s[j] == held[j]);
        }
    }
}

/// Releasing any held rank keeps the rest in non-decreasing order.
pub proof fn lemma_exit_keeps_order(held: Seq<LockRank>, index: int)
    requires
        ranks_ordered(held),
        0 <= index < held.len(),
    ensures
        ranks_ordered(held.remove(index)),
{
    let s = held.remove(index);
    assert forall|i: int, j: int| 0 <= i < j < s.len() implies !rank_less(#[trigger] s[j], #[trigger] s[i]) by {
        let pi = if i < index { i } else { i + 1 };
        let pj = if j < index { j } else { j + 1 };
        assert(s[i] == held[pi] && s[j] == held[pj]);
    }
}

/// Error of a transfer between accounts.
#[derive(Debug, Clone, Copy, PartialEq, Eq, Structural)]
pub enum TransferError {
    /// The account does not exist.
    UnknownAccount,
    /// The balance does not cover the amount.
    InsufficientFunds,
    /// Source and destination are the same account.
    SameAccount,
}

/// Sum of all balances.
pub open spec fn total(balances: Seq<i64>) -> int
    decreases balances.len(),
{
    if balances.len() == 0 {
        0
    } else {
        total(balances.drop_last()) + balances.last()
    }
}

/// Changing one balance changes the total by the same amount.
pub proof fn lemma_total_update(balances: Seq<i64>, index: int, value: i64)
    requires
        0 <= index < balances.len(),
    ensures
        total(balances.update(index, value)) == total(balances) - balances[index] + value,
    decreases balances.len(),
{
    let updated = balances.update(index, value);
    if index < balances.len() - 1 {
        lemma_total_update(balances.drop_last(), index, value);
        assert(updated.drop_last() =~= balances.drop_last().update(index, value));
    } else {
        assert(updated.drop_last() =~= balances.drop_last());
    }
}

/// Outcome of a transfer of `amount` from `from` to `to` over `balances`.
pub open spec fn transfer_outcome(balances: Seq<i64>, from: usize, to: usize, amount: i64) -> Result<
    (),
    TransferError,
> {
    if from == to {
        Err(TransferError::SameAccount)
    } else if from >= balances.len() || to >= balances.len() {
        Err(TransferError::UnknownAccount)
    } else if balances[from as int] < amount {
        Err(TransferError::InsufficientFunds)
    } else {
        Ok(())
    }
}

/// Accounts whose transfers follow one global order of acquisition: the two
/// accounts of a transfer are taken in ascending index order, so that no two
/// transfers could wait on each other in a cycle. The caller owns the
/// accounts (`&mut self`); each transfer records the order in which it
/// takes its two accounts.
pub struct BankAccounts {
    balances: Vec<i64>,
    last_lock_order: Vec<usize>,
}

impl BankAccounts {
    /// Current balances, by account index.
    pub closed spec fn balances(&self) -> Seq<i64> {
        self.balances@
    }

    /// Indices of the accounts taken by the last transfer that reached the
    /// acquisition step, in the order they were taken.
    pub closed spec fn lock_order(&self) -> Seq<usize> {
        self.last_lock_order@
    }

    /// Creates accounts with the given starting balances.
    pub fn new<const N: usize>(balances: [i64; N]) -> (a: Self)
        ensures
            a.balances() == balances@,
            a.lock_order() == Seq::<usize>::empty(),
    {
        let mut v: Vec<i64> = Vec::new();
        let mut i: usize = 0;
        while i < N
            invariant
                i <= N,
                balances@.len() == N,
                v@ == balances@.subrange(0, i as int),
            decreases N - i,
        {
            v.push(balances[i]);
            i = i + 1;
            proof {
                assert(v@ =~= balances@.subrange(0, i as int));
            }
        }
        proof {
            assert(balances@.subrange(0, N as int) =~= balances@);
        }
        BankAccounts { balances: v, last_lock_order: Vec::new() }
    }

    /// Moves `amount` from account `from` to account `to`, taking the lower
    /// index first.
    ///
    /// The acquisition order is recorded as soon as both indices are valid
    /// and distinct, also when the funds then fall short.
    pub fn transfer_ordered(&mut self, from: usize, to: usize, amount: i64) -> (r: Result<
        (),
        TransferError,
    >)
        requires
            transfer_outcome(old(self).balances(), from, to, amount) is Ok ==> {
                &&& i64::MIN <= old(self).balances()[from as int] - amount <= i64::MAX
                &&& i64::MIN <= old(self).balances()[to as int] + amount <= i64::MAX
            },
        ensures
            r == transfer_outcome(old(self).balances(), from, to, amount),
            r is Ok ==> final(self).balances() == old(self).balances().update(
                from as int,
                (old(self).balances()[from as int] - amount) as i64,
            ).update(to as int, (old(self).balances()[to as int] + amount) as i64),
            r is Err ==> final(self).balances() == old(self).balances(),
            from != to && from < old(self).balances().len() && to < old(self).balances().len()
                ==> final(self).lock_order() == (if from < to {
                seq![from, to]
            } else {
                seq![to, from]
            }),
            !(from != to && from < old(self).balances().len() && to < old(self).balances().len())
                ==> final(self).lock_order() == old(self).lock_order(),
            total(final(self).balances()) == total(old(self).balances()),
    {
        if from == to {
            return Err(TransferError::SameAccount);
        }
        if from >= self.balances.len() || to >= self.balances.len() {
            return Err(TransferError::UnknownAccount);
        }
        let first = if from < to {
            from
        } else {
            to
        };
        let second = if from < to {
            to
        } else {
            from
        };
        let mut order: Vec<usize> = Vec::new();
        order.push(first);
        order.push(second);
        self.last_lock_order = order;
        proof {
            assert(self.last_lock_order@ =~= seq![first, second]);
        }
        if self.balances[from] < amount {
            return Err(TransferError::InsufficientFunds);
        }
        let ghost before = self.balances@;
        let source = self.balances[from] - amount;
        self.balances.set(from, source);
        let ghost middle = self.balances@;
        let target = self.balances[to] + amount;
        self.balances.set(to, target);
        proof {
            lemma_total_update(before, from as int, source);
            lemma_total_update(middle, to as int, target);
        }
        Ok(())
    }

    /// Reads the balance of `account`.
    pub fn balance(&self, account: usize) -> (b: i64)
        requires
            account < self.balances().len(),
        ensures
            b == self.balances()[account as int],
    {
        self.balances[account]
    }

    /// Returns the acquisition order of the last transfer that reached the
    /// acquisition step.
    pub fn last_lock_order(&self) -> (v: Vec<usize>)
        ensures
            v@ == self.lock_order(),
    {
        self.last_lock_order.clone()
    }
}

/// Graph of waits: an edge `a -> b` means that `a` waits for `b`.
#[derive(Debug, Clone)]
pub struct WaitForGraph {
    edges: Vec<(String, String)>,
}

/// `path` is a cycle of waits: it has at least one edge, ends where it
/// starts, and each element waits for the next.
pub open spec fn is_wait_cycle(graph: WaitForGraph, path: Seq<Seq<char>>) -> bool {
    &&& path.len() >= 2
    &&& path[0] == path.last()
    &&& forall|i: int| 0 <= i < path.len() - 1 ==> graph.waits(#[trigger] path[i], path[i + 1])
}

/// The graph contains a cycle of waits.
pub open spec fn has_wait_cycle(graph: WaitForGraph) -> bool {
    exists|path: Seq<Seq<char>>| is_wait_cycle(graph, path)
}

/// The texts of a sequence of strings.
pub open spec fn texts(v: Seq<String>) -> Seq<Seq<char>> {
    Seq::new(v.len(), |i: int| v[i]@)
}

/// Successor lists over node indices `0..adj.len()`.
spec fn well_indexed(adj: Seq<Vec<usize>>) -> bool {
    forall|u: int, k: int|
        0 <= u < adj.len() && 0 <= k < adj[u]@.len() ==> (#[trigger] adj[u]@[k]) < adj.len()
}

/// `c` is a cycle of the index graph `adj`.
spec fn is_index_cycle(adj: Seq<Vec<usize>>, c: Seq<usize>) -> bool {
    &&& c.len() >= 2
    &&& c[0] == c.last()
    &&& forall|i: int| 0 <= i < c.len() ==> (#[trigger] c[i]) < adj.len()
    &&& forall|i: int| 0 <= i < c.len() - 1 ==> adj[#[trigger] c[i] as int]@.contains(c[i + 1])
}

/// Number of `false` entries.
pub open spec fn unvisited(s: Seq<bool>) -> nat
    decreases s.len(),
{
    if s.len() == 0 {
        0
    } else {
        unvisited(s.drop_last()) + (if s.last() {
            0nat
        } else {
            1nat
        })
    }
}

/// Turning no `true` entry to `false` does not raise the number of `false`
/// entries.
pub proof fn lemma_unvisited_monotone(a: Seq<bool>, b: Seq<bool>)
    requires
        a.len() == b.len(),
        forall|k: int| 0 <= k < a.len() && a[k] ==> b[k],
    ensures
        unvisited(b) <= unvisited(a),
    decreases a.len(),
{
    if a.len() > 0 {
        lemma_unvisited_monotone(a.drop_last(), b.drop_last());
    }
}

/// Turning a `false` entry to `true`, and no `true` to `false`, lowers the
/// number of `false` entries.
pub proof fn lemma_unvisited_strict(a: Seq<bool>, b: Seq<bool>, k: int)
    requires
        a.len() == b.len(),
        forall|i: int| 0 <= i < a.len() && a[i] ==> b[i],
        0 <= k < a.len(),
        !a[k],
        b[k],
    ensures
        unvisited(b) < unvisited(a),
    decreases a.len(),
{
    if k < a.len() - 1 {
        lemma_unvisited_strict(a.drop_last(), b.drop_last(), k);
    } else {
        lemma_unvisited_monotone(a.drop_last(), b.drop_last());
    }
}

/// `s` holds distinct texts in strictly ascending order.
pub open spec fn strictly_ascending(s: Seq<Seq<char>>) -> bool {
    forall|i: int, j: int| 0 <= i < j < s.len() ==> text_less(#[trigger] s[i], #[trigger] s[j])
}

/// Index of the first occurrence of `x` in `s`.
pub open spec fn first_index(s: Seq<usize>, x: usize) -> int {
    choose|i: int| 0 <= i < s.len() && s[i] == x && forall|k: int| 0 <= k < i ==> s[k] != x
}

/// The cycle closed by a wait from the top of the search path `stack` to
/// `target`, a node on it: the path from `target` on, then `target` again.
pub open spec fn closed_cycle(stack: Seq<usize>, target: usize) -> Seq<usize> {
    stack.subrange(first_index(stack, target), stack.len() as int).push(target)
}

/// Depth-first search of the index graph `adj` from `node`, which is not
/// visited yet, with the search path `stack` above it: `node` is marked
/// visited, pushed, and its successors are scanned in order. Returns the
/// visited marks afterwards and the first cycle met, if any.
pub open spec fn search_visit(adj: Seq<Seq<usize>>, visited: Seq<bool>, stack: Seq<usize>, node: int) -> (Seq<bool>, Option<Seq<usize>>)
    decreases unvisited(visited), 0int, 0int
    when 0 <= node < visited.len() && !visited[node]
{
    proof {
        lemma_unvisited_strict(visited, visited.update(node, true), node);
    }
    search_scan(adj, visited.update(node, true), stack.push(node as usize), node, 0)
}

/// The scan of the successors of `node` from position `j` on, with `stack`
/// the search path ending at `node`: an unvisited successor is searched in
/// turn, a successor on the path closes a cycle, a finished one is skipped.
pub open spec fn search_scan(adj: Seq<Seq<usize>>, visited: Seq<bool>, stack: Seq<usize>, node: int, j: int) -> (Seq<bool>, Option<Seq<usize>>)
    decreases unvisited(visited), 1int, adj[node].len() - j
{
    if j < 0 || j >= adj[node].len() {
        (visited, None)
    } else {
        let next = adj[node][j];
        if next < visited.len() && !visited[next as int] {
            let (after, found) = search_visit(adj, visited, stack, next as int);
            if found is Some {
                (after, found)
            } else if unvisited(after) <= unvisited(visited) {
                search_scan(adj, after, stack, node, j + 1)
            } else {
                (after, None)
            }
        } else if stack.contains(next) {
            (visited, Some(closed_cycle(stack, next)))
        } else {
            search_scan(adj, visited, stack, node, j + 1)
        }
    }
}

/// The search started in turn from every node not visited yet, from
/// `start` on; the first cycle met, if any.
pub open spec fn search_from(adj: Seq<Seq<usize>>, visited: Seq<bool>, start: int) -> Option<Seq<usize>>
    decreases adj.len() - start
{
    if start < 0 || start >= adj.len() {
        None
    } else if start < visited.len() && !visited[start] {
        let (after, found) = search_visit(adj, visited, Seq::empty(), start);
        if found is Some {
            found
        } else {
            search_from(adj, after, start + 1)
        }
    } else {
        search_from(adj, visited, start + 1)
    }
}

/// The first cycle met by the depth-first search of `adj` that starts from
/// the nodes in ascending order of index.
pub open spec fn first_index_cycle(adj: Seq<Seq<usize>>) -> Option<Seq<usize>> {
    search_from(adj, Seq::new(adj.len(), |k: int| false), 0)
}

/// Two strictly ascending lists of texts with the same elements are equal.
proof fn lemma_ascending_texts_unique(a: Seq<Seq<char>>, b: Seq<Seq<char>>)
    requires
        strictly_ascending(a),
        strictly_ascending(b),
        forall|x: Seq<char>| a.contains(x) <==> b.contains(x),
    ensures
        a == b,
    decreases a.len(),
{
    if a.len() == 0 {
        if b.len() > 0 {
            assert(b.contains(b[0]));
        }
        assert(b =~= a);
    } else if b.len() == 0 {
        assert(a.contains(a[0]));
    } else {
        assert(a.contains(a[0]));
        assert(b.contains(b[0]));
        let j = choose|j: int| 0 <= j < b.len() && b[j] == a[0];
        let i = choose|i: int| 0 <= i < a.len() && a[i] == b[0];
        assert(j == 0) by {
            if j > 0 {
                assert(text_less(b[0], b[j]));
                lemma_text_trichotomy(a[0], b[0]);
                if i > 0 {
                    assert(text_less(a[0], a[i]));
                }
            }
        }
        let a1 = a.drop_first();
        let b1 = b.drop_first();
        assert forall|x: Seq<char>| a1.contains(x) <==> b1.contains(x) by {
            if a1.contains(x) {
                let k = choose|k: int| 0 <= k < a1.len() && a1[k] == x;
                assert(a[k + 1] == x);
                assert(a.contains(x));
                let m = choose|m: int| 0 <= m < b.len() && b[m] == x;
                assert(text_less(a[0], a[k + 1]));
                lemma_text_trichotomy(x, x);
                assert(m != 0);
                assert(b1[m - 1] == x);
            }
            if b1.contains(x) {
                let k = choose|k: int| 0 <= k < b1.len() && b1[k] == x;
                assert(b[k + 1] == x);
                assert(b.contains(x));
                let m = choose|m: int| 0 <= m < a.len() && a[m] == x;
                assert(text_less(b[0], b[k + 1]));
                lemma_text_trichotomy(x, x);
                assert(m != 0);
                assert(a1[m - 1] == x);
            }
        }
        assert(strictly_ascending(a1)) by {
            assert forall|p: int, q: int| 0 <= p < q < a1.len() implies text_less(#[trigger] a1[p], #[trigger] a1[q]) by {
                assert(a1[p] == a[p + 1] && a1[q] == a[q + 1]);
            }
        }
        assert(strictly_ascending(b1)) by {
            assert forall|p: int, q: int| 0 <= p < q < b1.len() implies text_less(#[trigger] b1[p], #[trigger] b1[q]) by {
                assert(b1[p] == b[p + 1] && b1[q] == b[q + 1]);
            }
        }
        lemma_ascending_texts_unique(a1, b1);
        assert forall|k: int| 0 <= k < a.len() implies a[k] == b[k] by {
            if k > 0 {
                assert(a[k] == a1[k - 1]);
                assert(b[k] == b1[k - 1]);
            }
        }
        assert(a =~= b);
    }
}

impl Default for WaitForGraph {
    fn default() -> (g: Self)
        ensures
            forall|a: Seq<char>, b: Seq<char>| !g.waits(a, b),
    {
        WaitForGraph::new()
    }
}

/// The successor lists of `adj` as sequences.
spec fn rows(adj: Seq<Vec<usize>>) -> Seq<Seq<usize>> {
    Seq::new(adj.len(), |u: int| adj[u]@)
}

/// The cycle found, as a sequence.
spec fn found_cycle(r: Option<Vec<usize>>) -> Option<Seq<usize>> {
    match r {
        Some(c) => Some(c@),
        None => None,
    }
}

/// State of the depth-first search for a cycle.
struct Search {
    visited: Vec<bool>,
    active: Vec<bool>,
    stack: Vec<usize>,
    finish: Ghost<Seq<int>>,
    clock: Ghost<int>,
}

impl Search {
    spec fn done(&self, k: int) -> bool {
        self.visited@[k] && !self.active@[k]
    }

    /// The active nodes are exactly those on the stack, which is a path of
    /// the graph; a finished node is finished after all its successors.
    spec fn inv(&self, adj: Seq<Vec<usize>>) -> bool {
        let n = adj.len();
        &&& n <= usize::MAX
        &&& self.clock@ >= 0
        &&& well_indexed(adj)
        &&& self.visited@.len() == n
        &&& self.active@.len() == n
        &&& self.finish@.len() == n
        &&& forall|k: int| 0 <= k < n && #[trigger] self.active@[k] ==> self.visited@[k]
        &&& forall|i: int| 0 <= i < self.stack@.len() ==> (#[trigger] self.stack@[i]) < n
        &&& self.stack@.no_duplicates()
        &&& forall|k: int| 0 <= k < n ==> (#[trigger] self.active@[k] <==> self.stack@.contains(k as usize))
        &&& forall|i: int|
            0 <= i < self.stack@.len() - 1 ==> adj[#[trigger] self.stack@[i] as int]@.contains(
                self.stack@[i + 1],
            )
        &&& forall|k: int| 0 <= k < n && self.done(k) ==> 0 <= #[trigger] self.finish@[k] < self.clock@
        &&& forall|u: int, k: int|
            0 <= u < n && 0 <= k < adj[u]@.len() && self.done(u) ==> self.done(
                #[trigger] adj[u]@[k] as int,
            ) && self.finish@[adj[u]@[k] as int] < self.finish@[u]
    }

    /// Marks `node` visited and active and pushes it on the stack.
    fn enter(&mut self, adj: &Vec<Vec<usize>>, node: usize)
        requires
            old(self).inv(adj@),
            node < adj@.len(),
            !old(self).visited@[node as int],
            old(self).stack@.len() > 0 ==> adj@[old(self).stack@.last() as int]@.contains(node),
        ensures
            final(self).inv(adj@),
            final(self).stack@ == old(self).stack@.push(node),
            final(self).active@ == old(self).active@.update(node as int, true),
            final(self).visited@ == old(self).visited@.update(node as int, true),
            final(self).finish == old(self).finish,
            final(self).clock == old(self).clock,
    {
        let ghost entry_stack = self.stack@;
        let ghost n = adj@.len();
        proof {
            assert(!self.active@[node as int]);
            assert(!entry_stack.contains(node));
        }
        self.visited.set(node, true);
        self.active.set(node, true);
        self.stack.push(node);
        proof {
            assert forall|a: int, b: int| 0 <= a < b < self.stack@.len() implies self.stack@[a] != self.stack@[b] by {
                if b == entry_stack.len() {
                    assert(self.stack@[a] == entry_stack[a]);
                    assert(entry_stack.contains(entry_stack[a]));
                } else {
                    assert(self.stack@[a] == entry_stack[a]);
                    assert(self.stack@[b] == entry_stack[b]);
                }
            }
            assert forall|k: int| 0 <= k < n implies (#[trigger] self.active@[k]
                <==> self.stack@.contains(k as usize)) by {
                if k == node {
                    assert(self.stack@[self.stack@.len() - 1] == node);
                } else {
                    if self.stack@.contains(k as usize) {
                        let i = choose|i: int| 0 <= i < self.stack@.len() && self.stack@[i] == k as usize;
                        assert(self.stack@[entry_stack.len() as int] == node);
                        assert(i != entry_stack.len());
                        assert(entry_stack[i] == k as usize);
                    }
                    if entry_stack.contains(k as usize) {
                        let i = choose|i: int| 0 <= i < entry_stack.len() && entry_stack[i] == k as usize;
                        assert(self.stack@[i] == k as usize);
                    }
                }
            }
            assert forall|i: int| 0 <= i < self.stack@.len() - 1 implies adj@[#[trigger] self.stack@[i] as int]@.contains(
                self.stack@[i + 1],
            ) by {
                if i < entry_stack.len() - 1 {
                    assert(self.stack@[i] == entry_stack[i]);
                    assert(self.stack@[i + 1] == entry_stack[i + 1]);
                } else {
                    assert(self.stack@[i] == entry_stack.last());
                }
            }
            assert forall|u: int, k: int|
                0 <= u < n && 0 <= k < adj@[u]@.len() && self.done(u) implies self.done(
                #[trigger] adj@[u]@[k] as int,
            ) && self.finish@[adj@[u]@[k] as int] < self.finish@[u] by {
                assert(old(self).done(u));
            }
        }
    }

    /// Pops `node`, whose successors are all finished, and finishes it.
    fn leave(&mut self, adj: &Vec<Vec<usize>>, node: usize, Ghost(entry_stack): Ghost<Seq<usize>>, Ghost(entry_active): Ghost<Seq<bool>>)
        requires
            old(self).inv(adj@),
            node < adj@.len(),
            old(self).stack@ == entry_stack.push(node),
            old(self).active@ == entry_active.update(node as int, true),
            entry_active.len() == adj@.len(),
            !entry_active[node as int],
            old(self).visited@[node as int],
            forall|k: int| 0 <= k < adj@[node as int]@.len() ==> old(self).done(#[trigger] adj@[node as int]@[k] as int),
        ensures
            final(self).inv(adj@),
            final(self).stack@ == entry_stack,
            final(self).active@ == entry_active,
            final(self).visited@ == old(self).visited@,
            final(self).done(node as int),
    {
        let ghost n = adj@.len();
        self.stack.pop();
        self.active.set(node, false);
        let ghost clock = self.clock@;
        self.finish = Ghost(self.finish@.update(node as int, clock));
        self.clock = Ghost(clock + 1);
        proof {
            assert(self.stack@ =~= entry_stack);
            assert(self.active@ =~= entry_active);
            assert forall|a: int, b: int| 0 <= a < b < self.stack@.len() implies self.stack@[a] != self.stack@[b] by {
                assert(old(self).stack@[a] == self.stack@[a]);
                assert(old(self).stack@[b] == self.stack@[b]);
            }
            assert forall|i: int| 0 <= i < self.stack@.len() - 1 implies adj@[#[trigger] self.stack@[i] as int]@.contains(
                self.stack@[i + 1],
            ) by {
                assert(old(self).stack@[i] == self.stack@[i]);
                assert(old(self).stack@[i + 1] == self.stack@[i + 1]);
            }
            assert forall|k: int| 0 <= k < n implies (#[trigger] self.active@[k]
                <==> self.stack@.contains(k as usize)) by {
                if k == node {
                    assert(!entry_active[k]);
                    assert(old(self).active@[k]);
                    if self.stack@.contains(k as usize) {
                        let i = choose|i: int| 0 <= i < self.stack@.len() && self.stack@[i] == k as usize;
                        assert(old(self).stack@[i] == k as usize);
                        assert(old(self).active@[k]);
                    }
                } else {
                    assert(old(self).active@[k] == self.active@[k]);
                    if self.stack@.contains(k as usize) {
                        let i = choose|i: int| 0 <= i < self.stack@.len() && self.stack@[i] == k as usize;
                        assert(old(self).stack@[i] == k as usize);
                    }
                    if old(self).stack@.contains(k as usize) {
                        let i = choose|i: int| 0 <= i < old(self).stack@.len() && old(self).stack@[i] == k as usize;
                        assert(old(self).stack@[entry_stack.len() as int] == node);
                        assert(i != entry_stack.len());
                        assert(self.stack@[i] == k as usize);
                    }
                }
            }
            assert forall|k: int| 0 <= k < n && self.done(k) implies 0 <= #[trigger] self.finish@[k] < self.clock@ by {
                if k != node {
                    assert(old(self).done(k));
                    assert(self.finish@[k] == old(self).finish@[k]);
                }
            }
            assert forall|u: int, k: int|
                0 <= u < n && 0 <= k < adj@[u]@.len() && self.done(u) implies self.done(
                #[trigger] adj@[u]@[k] as int,
            ) && self.finish@[adj@[u]@[k] as int] < self.finish@[u] by {
                let v = adj@[u]@[k] as int;
                if u == node {
                    assert(old(self).done(v));
                    assert(v != node);
                } else {
                    assert(old(self).done(u));
                    assert(old(self).done(v));
                    assert(v != node) by {
                        assert(old(self).active@[node as int]);
                    }
                }
            }
        }
    }

    /// Explores `node` and everything reachable from it that is not yet
    /// visited; returns a cycle of indices when it meets a node still on the
    /// stack.
    fn visit(&mut self, adj: &Vec<Vec<usize>>, node: usize) -> (r: Option<Vec<usize>>)
        requires
            old(self).inv(adj@),
            node < adj@.len(),
            !old(self).visited@[node as int],
            old(self).stack@.len() > 0 ==> adj@[old(self).stack@.last() as int]@.contains(node),
        ensures
            final(self).inv(adj@),
            forall|k: int| 0 <= k < adj@.len() && old(self).visited@[k] ==> final(self).visited@[k],
            r is None ==> {
                &&& final(self).stack@ == old(self).stack@
                &&& final(self).active@ == old(self).active@
                &&& final(self).done(node as int)
            },
            r matches Some(c) ==> is_index_cycle(adj@, c@),
            r matches Some(c) ==> c@.drop_last().no_duplicates(),
            search_visit(rows(adj@), old(self).visited@, old(self).stack@, node as int) == (
                final(self).visited@,
                found_cycle(r),
            ),
        decreases unvisited(old(self).visited@),
    {
        let ghost entry_visited = self.visited@;
        let ghost entry_active = self.active@;
        let ghost entry_stack = self.stack@;
        self.enter(adj, node);
        proof {
            lemma_unvisited_strict(entry_visited, self.visited@, node as int);
            assert(!entry_active[node as int]);
        }
        let row = &adj[node];
        proof {
            assert(rows(adj@)[node as int] == row@);
            assert(search_visit(rows(adj@), entry_visited, entry_stack, node as int) == search_scan(
                rows(adj@),
                self.visited@,
                self.stack@,
                node as int,
                0,
            ));
        }
        let mut j: usize = 0;
        while j < row.len()
            invariant
                self.inv(adj@),
                rows(adj@)[node as int] == row@,
                search_visit(rows(adj@), entry_visited, entry_stack, node as int) == search_scan(
                    rows(adj@),
                    self.visited@,
                    self.stack@,
                    node as int,
                    j as int,
                ),
                node < adj@.len(),
                row@ == adj@[node as int]@,
                j <= row@.len(),
                entry_visited == old(self).visited@,
                entry_stack == old(self).stack@,
                entry_active == old(self).active@,
                self.stack@ == entry_stack.push(node),
                self.active@ == entry_active.update(node as int, true),
                self.visited@[node as int],
                forall|k: int| 0 <= k < adj@.len() && entry_visited[k] ==> self.visited@[k],
                forall|k: int| 0 <= k < j ==> self.done(#[trigger] row@[k] as int),
                unvisited(self.visited@) < unvisited(entry_visited),
            decreases row@.len() - j,
        {
            let next = row[j];
            proof {
                assert(row@.contains(next)) by {
                    assert(row@[j as int] == next);
                }
                assert(rows(adj@)[node as int][j as int] == next);
            }
            if !self.visited[next] {
                let ghost before = *self;
                let found = self.visit(adj, next);
                if found.is_some() {
                    return found;
                }
                proof {
                    lemma_unvisited_monotone(before.visited@, self.visited@);
                    assert forall|k: int| 0 <= k < j + 1 implies self.done(#[trigger] row@[k] as int) by {
                        if k < j {
                            assert(before.done(row@[k] as int));
                        }
                    }
                }
            } else if self.active[next] {
                proof {
                    assert(self.stack@.contains(next));
                }
                let cycle = close_cycle(adj, &self.stack, next);
                return Some(cycle);
            } else {
                proof {
                    assert(!self.stack@.contains(next));
                }
            }
            j = j + 1;
        }
        self.leave(adj, node, Ghost(entry_stack), Ghost(entry_active));
        None
    }
}

/// Index of the first occurrence of `x` in `s`.
fn position_of(s: &Vec<usize>, x: usize) -> (p: usize)
    requires
        s@.contains(x),
    ensures
        p < s@.len(),
        s@[p as int] == x,
        forall|i: int| 0 <= i < p ==> s@[i] != x,
{
    let mut p: usize = 0;
    while p < s.len()
        invariant
            s@.contains(x),
            forall|i: int| 0 <= i < p ==> s@[i] != x,
            p <= s@.len(),
        decreases s@.len() - p,
    {
        if s[p] == x {
            return p;
        }
        p = p + 1;
    }
    proof {
        let i = choose|i: int| 0 <= i < s@.len() && s@[i] == x;
        assert(s@[i] != x);
    }
    0
}

/// The cycle closed by the wait from the top of `stack` to `target`, an
/// earlier element of `stack`: the part of the stack from `target` on,
/// followed by `target`.
fn close_cycle(adj: &Vec<Vec<usize>>, stack: &Vec<usize>, target: usize) -> (c: Vec<usize>)
    requires
        stack@.len() > 0,
        stack@.contains(target),
        adj@[stack@.last() as int]@.contains(target),
        forall|i: int| 0 <= i < stack@.len() ==> (#[trigger] stack@[i]) < adj@.len(),
        forall|i: int|
            0 <= i < stack@.len() - 1 ==> adj@[#[trigger] stack@[i] as int]@.contains(stack@[i + 1]),
    ensures
        is_index_cycle(adj@, c@),
        c@ == closed_cycle(stack@, target),
        stack@.no_duplicates() ==> c@.drop_last().no_duplicates(),
{
    let p = position_of(stack, target);
    proof {
        let i = first_index(stack@, target);
        assert(0 <= p < stack@.len() && stack@[p as int] == target && forall|k: int| 0 <= k < p ==> stack@[k] != target);
        assert(0 <= i < stack@.len() && stack@[i] == target && forall|k: int| 0 <= k < i ==> stack@[k] != target);
        if i < p {
            assert(stack@[i] != target);
        }
        if p < i {
            assert(stack@[p as int] != target);
        }
        assert(i == p);
    }
    let mut cycle: Vec<usize> = Vec::new();
    let mut q: usize = p;
    while q < stack.len()
        invariant
            p <= q <= stack@.len(),
            cycle@ == stack@.subrange(p as int, q as int),
        decreases stack@.len() - q,
    {
        cycle.push(stack[q]);
        q = q + 1;
        proof {
            assert(cycle@ =~= stack@.subrange(p as int, q as int));
        }
    }
    cycle.push(target);
    proof {
        let st = stack@;
        let c = cycle@;
        assert(c.len() == st.len() - p + 1);
        assert(c[0] == st[p as int]);
        assert forall|i: int| 0 <= i < c.len() - 1 implies adj@[#[trigger] c[i] as int]@.contains(c[i + 1]) by {
            assert(c[i] == st[p + i]);
            if i < c.len() - 2 {
                assert(c[i + 1] == st[p + i + 1]);
            } else {
                assert(st[p + i] == st.last());
            }
        }
        assert forall|i: int| 0 <= i < c.len() implies (#[trigger] c[i]) < adj@.len() by {
            if i < c.len() - 1 {
                assert(c[i] == st[p + i]);
            }
        }
        assert(c =~= closed_cycle(st, target));
        if st.no_duplicates() {
            let d = c.drop_last();
            assert forall|a: int, b: int| 0 <= a < b < d.len() implies d[a] != d[b] by {
                assert(d[a] == st[p + a]);
                assert(d[b] == st[p + b]);
            }
        }
    }
    cycle
}

impl WaitForGraph {
    /// `waiter` waits for `owner` in this graph.
    pub closed spec fn waits(self, waiter: Seq<char>, owner: Seq<char>) -> bool {
        exists|i: int|
            0 <= i < self.edges@.len() && (#[trigger] self.edges@[i]).0@ == waiter
                && self.edges@[i].1@ == owner
    }

    /// `x` takes part in a wait of the graph.
    pub open spec fn is_node(self, x: Seq<char>) -> bool {
        exists|y: Seq<char>| #![trigger self.waits(x, y)] #![trigger self.waits(y, x)]
            self.waits(x, y) || self.waits(y, x)
    }

    /// The names of the graph in ascending order.
    pub open spec fn node_order(self) -> Seq<Seq<char>> {
        choose|s: Seq<Seq<char>>|
            strictly_ascending(s) && forall|x: Seq<char>| #[trigger] s.contains(x) <==> self.is_node(x)
    }

    /// The indices, below `v`, of the names in `names` that the name at
    /// index `u` waits for, ascending.
    pub open spec fn successors_upto(self, names: Seq<Seq<char>>, u: int, v: nat) -> Seq<usize>
        decreases v,
    {
        if v == 0 {
            Seq::empty()
        } else {
            let earlier = self.successors_upto(names, u, (v - 1) as nat);
            if self.waits(names[u], names[v - 1]) {
                earlier.push((v - 1) as usize)
            } else {
                earlier
            }
        }
    }

    /// The graph over the indices of the names in ascending order: node `u`
    /// waits for the nodes listed at `u`, in ascending order.
    pub open spec fn index_graph(self) -> Seq<Seq<usize>> {
        let names = self.node_order();
        Seq::new(names.len(), |u: int| self.successors_upto(names, u, names.len()))
    }

    /// The cycle that a depth-first search reports: names are explored in
    /// ascending order, the waits of each name in ascending order of the
    /// name waited for, and the first wait to a name on the current path
    /// closes the cycle.
    pub open spec fn first_cycle(self) -> Option<Seq<Seq<char>>> {
        let names = self.node_order();
        match first_index_cycle(self.index_graph()) {
            Some(c) => Some(Seq::new(c.len(), |i: int| names[c[i] as int])),
            None => None,
        }
    }

    /// Creates an empty graph.
    pub fn new() -> (g: Self)
        ensures
            forall|a: Seq<char>, b: Seq<char>| !g.waits(a, b),
    {
        WaitForGraph { edges: Vec::new() }
    }

    /// Adds the wait `waiter -> owner`.
    ///
    /// The graph is a set of waits: adding a wait twice changes nothing.
    pub fn add_wait(&mut self, waiter: &str, owner: &str)
        ensures
            forall|a: Seq<char>, b: Seq<char>|
                final(self).waits(a, b) == (old(self).waits(a, b) || (a == waiter@ && b == owner@)),
    {
        let ghost old_edges = self.edges@;
        self.edges.push((String::from_str(waiter), String::from_str(owner)));
        proof {
            assert forall|a: Seq<char>, b: Seq<char>|
                self.waits(a, b) == (old(self).waits(a, b) || (a == waiter@ && b == owner@)) by {
                if old(self).waits(a, b) {
                    let i = choose|i: int|
                        0 <= i < old_edges.len() && (#[trigger] old_edges[i]).0@ == a && old_edges[i].1@ == b;
                    assert(self.edges@[i] == old_edges[i]);
                }
                if a == waiter@ && b == owner@ {
                    assert(self.edges@[old_edges.len() as int] == self.edges@.last());
                }
                if self.waits(a, b) {
                    let i = choose|i: int|
                        0 <= i < self.edges@.len() && (#[trigger] self.edges@[i]).0@ == a && self.edges@[i].1@ == b;
                    if i < old_edges.len() {
                        assert(old_edges[i] == self.edges@[i]);
                    }
                }
            }
        }
    }

    /// Whether the graph contains a cycle of waits.
    pub fn has_cycle(&self) -> (r: bool)
        ensures
            r == has_wait_cycle(*self),
    {
        self.cycle_path().is_some()
    }

    /// Whether the wait `waiter -> owner` is recorded.
    fn has_edge(&self, waiter: &str, owner: &str) -> (r: bool)
        ensures
            r == self.waits(waiter@, owner@),
    {
        let mut i: usize = 0;
        while i < self.edges.len()
            invariant
                i <= self.edges@.len(),
                forall|k: int|
                    0 <= k < i ==> !((#[trigger] self.edges@[k]).0@ == waiter@ && self.edges@[k].1@
                        == owner@),
            decreases self.edges@.len() - i,
        {
            if text_equal(self.edges[i].0.as_str(), waiter) && text_equal(
                self.edges[i].1.as_str(),
                owner,
            ) {
                return true;
            }
            i = i + 1;
        }
        false
    }

    /// Adds `name` to the distinct, ascending list `names` unless present.
    fn insert_name(names: &mut Vec<String>, name: &String)
        requires
            forall|i: int, j: int|
                0 <= i < old(names)@.len() && 0 <= j < old(names)@.len() && i != j ==> old(
                    names,
                )@[i]@ != old(names)@[j]@,
            strictly_ascending(texts(old(names)@)),
        ensures
            forall|i: int, j: int|
                0 <= i < final(names)@.len() && 0 <= j < final(names)@.len() && i != j
                    ==> final(names)@[i]@ != final(names)@[j]@,
            strictly_ascending(texts(final(names)@)),
            forall|x: Seq<char>|
                texts(final(names)@).contains(x) == (texts(old(names)@).contains(x) || x == name@),
    {
        let ghost before = names@;
        let mut i: usize = 0;
        while i < names.len()
            invariant
                before == old(names)@,
                names@ == before,
                strictly_ascending(texts(before)),
                forall|p: int, q: int|
                    0 <= p < before.len() && 0 <= q < before.len() && p != q ==> before[p]@ != before[q]@,
                i <= names@.len(),
                forall|k: int| 0 <= k < i ==> (#[trigger] names@[k])@ != name@,
            decreases names@.len() - i,
        {
            if text_equal(names[i].as_str(), name.as_str()) {
                proof {
                    assert(names@ == old(names)@);

                    assert forall|x: Seq<char>|
                        texts(names@).contains(x) == (texts(before).contains(x) || x == name@) by {
                        if x == name@ {
                            assert(texts(names@)[i as int] == x);
                        }
                    }
                }
                return;
            }
            i = i + 1;
        }
        let mut position: usize = 0;
        while position < names.len() && !text_before(name.as_str(), names[position].as_str())
            invariant
                names@ == before,
                strictly_ascending(texts(before)),
                position <= names@.len(),
                forall|k: int| 0 <= k < names@.len() ==> (#[trigger] names@[k])@ != name@,
                forall|k: int| 0 <= k < position ==> !text_less(name@, (#[trigger] names@[k])@),
            decreases names@.len() - position,
        {
            position = position + 1;
        }
        names.insert(position, name.clone());
        proof {
            let after = names@;
            let tb = texts(before);
            let ta = texts(after);
            assert forall|a: int, b: int| 0 <= a < b < ta.len() implies text_less(#[trigger] ta[a], #[trigger] ta[b]) by {
                let pa = if a < position { a } else { a - 1 };
                let pb = if b < position { b } else { b - 1 };
                if a != position as int && b != position as int {
                    assert(after[a] == before[pa]);
                    assert(after[b] == before[pb]);
                    assert(text_less(tb[pa], tb[pb]));
                } else if a == position as int {
                    assert(after[b] == before[pb]);
                    assert(pb >= position);
                    assert(text_less(name@, before[position as int]@));
                    if pb > position {
                        assert(text_less(tb[position as int], tb[pb]));
                        lemma_text_transitive(name@, before[position as int]@, before[pb]@);
                    }
                } else {
                    assert(after[a] == before[pa]);
                    assert(pa < position);
                    assert(!text_less(name@, before[pa]@));
                    assert(before[pa]@ != name@);
                    lemma_text_trichotomy(name@, before[pa]@);
                }
            }
            assert forall|a: int, b: int|
                0 <= a < after.len() && 0 <= b < after.len() && a != b implies after[a]@ != after[b]@ by {
                let pa = if a < position { a } else { a - 1 };
                let pb = if b < position { b } else { b - 1 };
                if a != position as int && b != position as int {
                    assert(after[a] == before[pa]);
                    assert(after[b] == before[pb]);
                } else if a == position as int {
                    assert(after[b] == before[pb]);
                } else {
                    assert(after[a] == before[pa]);
                }
            }
            assert forall|x: Seq<char>|
                texts(after).contains(x) == (texts(before).contains(x) || x == name@) by {
                if texts(after).contains(x) {
                    let a = choose|a: int| 0 <= a < texts(after).len() && texts(after)[a] == x;
                    if a != position as int {
                        let pa = if a < position { a } else { a - 1 };
                        assert(texts(before)[pa] == x);
                    }
                }
                if texts(before).contains(x) {
                    let a = choose|a: int| 0 <= a < texts(before).len() && texts(before)[a] == x;
                    let pa = if a < position { a } else { a + 1 };
                    assert(texts(after)[pa] == x);
                }
                if x == name@ {
                    assert(texts(after)[position as int] == x);
                }
            }
        }
    }

    /// All nodes of the graph, each once, in ascending order of name.
    fn nodes(&self) -> (names: Vec<String>)
        ensures
            strictly_ascending(texts(names@)),
            forall|x: Seq<char>| #[trigger] texts(names@).contains(x) ==> self.is_node(x),
            forall|i: int, j: int|
                0 <= i < names@.len() && 0 <= j < names@.len() && i != j ==> names@[i]@ != names@[j]@,
            forall|a: Seq<char>, b: Seq<char>|
                self.waits(a, b) ==> texts(names@).contains(a) && texts(names@).contains(b),
    {
        let mut names: Vec<String> = Vec::new();
        let mut i: usize = 0;
        assert(texts(names@) =~= Seq::<Seq<char>>::empty());
        while i < self.edges.len()
            invariant
                i <= self.edges@.len(),
                strictly_ascending(texts(names@)),
                forall|x: Seq<char>| #[trigger] texts(names@).contains(x) ==> self.is_node(x),
                forall|p: int, q: int|
                    0 <= p < names@.len() && 0 <= q < names@.len() && p != q ==> names@[p]@ != names@[q]@,
                forall|k: int|
                    0 <= k < i ==> texts(names@).contains((#[trigger] self.edges@[k]).0@) && texts(
                        names@,
                    ).contains(self.edges@[k].1@),
            decreases self.edges@.len() - i,
        {
            let ghost mid = names@;
            proof {
                let e = self.edges@[i as int];
                assert(self.waits(e.0@, e.1@));
                assert(self.is_node(e.0@));
                assert(self.is_node(e.1@));
            }
            Self::insert_name(&mut names, &self.edges[i].0);
            Self::insert_name(&mut names, &self.edges[i].1);
            proof {
                assert forall|k: int| 0 <= k < i + 1 implies texts(names@).contains(
                    (#[trigger] self.edges@[k]).0@,
                ) && texts(names@).contains(self.edges@[k].1@) by {
                    if k < i {
                        assert(texts(mid).contains(self.edges@[k].0@));
                        assert(texts(mid).contains(self.edges@[k].1@));
                    }
                }
            }
            i = i + 1;
        }
        names
    }

    /// Returns a cycle of waits if the graph has one: nodes are explored in
    /// ascending order of name, depth first, and the first wait that closes
    /// a cycle on the current path is reported.
    #[verifier::rlimit(40)]
    pub fn cycle_path(&self) -> (r: Option<Vec<String>>)
        ensures
            r is Some <==> has_wait_cycle(*self),
            r matches Some(path) ==> is_wait_cycle(*self, texts(path@)),
            r matches Some(path) ==> self.first_cycle() == Some(texts(path@)),
            r is None ==> self.first_cycle() is None,
            r matches Some(path) ==> texts(path@).drop_last().no_duplicates(),
    {
        let names = self.nodes();
        let n = names.len();
        let ghost order = texts(names@);
        proof {
            assert forall|x: Seq<char>| #[trigger] order.contains(x) <==> self.is_node(x) by {
                if self.is_node(x) {
                    let y = choose|y: Seq<char>| #![trigger self.waits(x, y)] #![trigger self.waits(y, x)]
                        self.waits(x, y) || self.waits(y, x);
                    if self.waits(x, y) {
                        assert(order.contains(x));
                    } else {
                        assert(order.contains(x));
                    }
                }
            }
            let chosen = self.node_order();
            lemma_ascending_texts_unique(order, chosen);
            assert(order == self.node_order());
        }
        let mut adj: Vec<Vec<usize>> = Vec::new();
        let mut u: usize = 0;
        while u < n
            invariant
                n == names@.len(),
                order == texts(names@),
                u <= n,
                adj@.len() == u,
                forall|a: int| 0 <= a < u ==> (#[trigger] adj@[a])@ == self.successors_upto(order, a, n as nat),
                forall|a: int, k: int|
                    0 <= a < u && 0 <= k < adj@[a]@.len() ==> (#[trigger] adj@[a]@[k]) < n,
                forall|a: int, b: int|
                    0 <= a < u && 0 <= b < n ==> (adj@[a]@.contains(b as usize) <==> self.waits(
                        names@[a]@,
                        names@[b]@,
                    )),
            decreases n - u,
        {
            let mut row: Vec<usize> = Vec::new();
            let mut v: usize = 0;
            while v < n
                invariant
                    n == names@.len(),
                    order == texts(names@),
                    u < n,
                    v <= n,
                    row@ == self.successors_upto(order, u as int, v as nat),
                    forall|k: int| 0 <= k < row@.len() ==> (#[trigger] row@[k]) < v,
                    forall|b: int|
                        0 <= b < v ==> (row@.contains(b as usize) <==> self.waits(
                            names@[u as int]@,
                            names@[b]@,
                        )),
                decreases n - v,
            {
                let ghost before = row@;
                proof {
                    assert(order[u as int] == names@[u as int]@);
                    assert(order[v as int] == names@[v as int]@);
                }
                if self.has_edge(names[u].as_str(), names[v].as_str()) {
                    row.push(v);
                    proof {
                        assert(row@[row@.len() - 1] == v);
                    }
                }
                proof {
                    assert forall|b: int| 0 <= b < v + 1 implies (row@.contains(b as usize) <==> self.waits(
                        names@[u as int]@,
                        names@[b]@,
                    )) by {
                        if row@.contains(b as usize) && b < v {
                            let k = choose|k: int| 0 <= k < row@.len() && row@[k] == b as usize;
                            if k < before.len() {
                                assert(before[k] == b as usize);
                            }
                        }
                        if before.contains(b as usize) {
                            let k = choose|k: int| 0 <= k < before.len() && before[k] == b as usize;
                            assert(row@[k] == b as usize);
                        }
                    }
                }
                v = v + 1;
            }
            adj.push(row);
            proof {
                assert(adj@[u as int]@ == self.successors_upto(order, u as int, n as nat));
                assert forall|a: int, b: int|
                    0 <= a < u + 1 && 0 <= b < n implies (adj@[a]@.contains(b as usize) <==> self.waits(
                    names@[a]@,
                    names@[b]@,
                )) by {}
            }
            u = u + 1;
        }
        proof {
            assert(rows(adj@) =~= self.index_graph());
        }
        let mut visited: Vec<bool> = Vec::new();
        let mut active: Vec<bool> = Vec::new();
        let mut w: usize = 0;
        while w < n
            invariant
                w <= n,
                visited@.len() == w,
                active@.len() == w,
                forall|k: int| 0 <= k < w ==> !(#[trigger] visited@[k]),
                forall|k: int| 0 <= k < w ==> !(#[trigger] active@[k]),
            decreases n - w,
        {
            visited.push(false);
            active.push(false);
            w = w + 1;
        }
        let mut search = Search {
            visited,
            active,
            stack: Vec::new(),
            finish: Ghost(Seq::new(n as nat, |k: int| 0int)),
            clock: Ghost(0),
        };
        proof {
            assert(search.visited@ =~= Seq::new(rows(adj@).len(), |k: int| false));
        }
        let mut start: usize = 0;
        while start < n
            invariant
                n == adj@.len(),
                n == names@.len(),
                order == texts(names@),
                order == self.node_order(),
                rows(adj@) == self.index_graph(),
                forall|i: int, j: int|
                    0 <= i < names@.len() && 0 <= j < names@.len() && i != j ==> names@[i]@ != names@[j]@,
                first_index_cycle(rows(adj@)) == search_from(rows(adj@), search.visited@, start as int),
                start <= n,
                search.inv(adj@),
                search.stack@.len() == 0,
                forall|k: int| 0 <= k < n ==> !(#[trigger] search.active@[k]),
                forall|k: int| 0 <= k < start ==> #[trigger] search.visited@[k],
                forall|a: int, b: int|
                    0 <= a < n && 0 <= b < n ==> (adj@[a]@.contains(b as usize) <==> self.waits(
                        names@[a]@,
                        names@[b]@,
                    )),
            decreases n - start,
        {
            if !search.visited[start] {
                proof {
                    assert(search.stack@ =~= Seq::<usize>::empty());
                }
                let found = search.visit(&adj, start);
                match found {
                    Some(cycle) => {
                        let mut path: Vec<String> = Vec::new();
                        let mut k: usize = 0;
                        while k < cycle.len()
                            invariant
                                is_index_cycle(adj@, cycle@),
                                n == names@.len(),
                                n == adj@.len(),
                                k <= cycle@.len(),
                                path@.len() == k,
                                forall|i: int| 0 <= i < k ==> (#[trigger] path@[i])@ == names@[cycle@[i] as int]@,
                            decreases cycle@.len() - k,
                        {
                            path.push(names[cycle[k]].clone());
                            k = k + 1;
                        }
                        proof {
                            let t = texts(path@);
                            let c = cycle@;
                            assert forall|i: int| 0 <= i < t.len() - 1 implies self.waits(#[trigger] t[i], t[i + 1]) by {
                                assert(t[i] == names@[c[i] as int]@);
                                assert(t[i + 1] == names@[c[i + 1] as int]@);
                                assert(adj@[c[i] as int]@.contains(c[i + 1]));
                            }
                            assert(t[0] == t.last());
                            assert(is_wait_cycle(*self, t));
                            assert(t =~= Seq::new(c.len(), |i: int| order[c[i] as int]));
                            let d = t.drop_last();
                            assert forall|a: int, b: int| 0 <= a < b < d.len() implies d[a] != d[b] by {
                                assert(c.drop_last()[a] == c[a]);
                                assert(c.drop_last()[b] == c[b]);
                                assert(c[a] != c[b]);
                                assert(d[a] == names@[c[a] as int]@);
                                assert(d[b] == names@[c[b] as int]@);
                            }
                        }
                        return Some(path);
                    },
                    None => {},
                }
            }
            start = start + 1;
        }
        proof {
            self.lemma_no_cycle(adj@, names@, search);
        }
        None
    }

    /// When every node is finished, finish times strictly decrease along
    /// every wait, so no cycle of waits exists.
    proof fn lemma_no_cycle(self, adj: Seq<Vec<usize>>, names: Seq<String>, search: Search)
        requires
            search.inv(adj),
            names.len() <= usize::MAX,
            adj.len() == names.len(),
            forall|k: int| 0 <= k < adj.len() ==> #[trigger] search.visited@[k] && !search.active@[k],
            forall|a: int, b: int|
                0 <= a < adj.len() && 0 <= b < adj.len() ==> (adj[a]@.contains(b as usize)
                    <==> self.waits(names[a]@, names[b]@)),
            forall|a: Seq<char>, b: Seq<char>|
                self.waits(a, b) ==> texts(names).contains(a) && texts(names).contains(b),
        ensures
            !has_wait_cycle(self),
    {
        if has_wait_cycle(self) {
            let path = choose|path: Seq<Seq<char>>| is_wait_cycle(self, path);
            let index_of = |x: Seq<char>| choose|i: int| 0 <= i < names.len() && names[i]@ == x;
            let c = Seq::new(path.len(), |i: int| index_of(path[i]) as usize);
            assert forall|i: int| 0 <= i < path.len() implies 0 <= index_of(#[trigger] path[i]) < names.len()
                && names[index_of(path[i])]@ == path[i] by {
                let x = path[i];
                let j = if i < path.len() - 1 { i } else { 0 };
                assert(path[j] == x);
                assert(self.waits(path[j], path[j + 1]));
                assert(texts(names).contains(x));
                let a = choose|a: int| 0 <= a < texts(names).len() && texts(names)[a] == x;
                assert(names[a]@ == x);
            }
            assert forall|i: int| 0 <= i < c.len() - 1 implies adj[#[trigger] c[i] as int]@.contains(c[i + 1]) by {
                assert(self.waits(path[i], path[i + 1]));
                assert(names[c[i] as int]@ == path[i]);
                assert(names[c[i + 1] as int]@ == path[i + 1]);
            }
            assert(c[0] == c.last());
            lemma_finish_decreases(adj, search, c);
        }
    }
}

/// Along a path of finished nodes, the finish time of the last node is
/// smaller than that of the first.
proof fn lemma_finish_decreases(adj: Seq<Vec<usize>>, search: Search, c: Seq<usize>)
    requires
        search.inv(adj),
        forall|k: int| 0 <= k < adj.len() ==> #[trigger] search.visited@[k] && !search.active@[k],
        c.len() >= 2,
        forall|i: int| 0 <= i < c.len() ==> (#[trigger] c[i]) < adj.len(),
        forall|i: int| 0 <= i < c.len() - 1 ==> adj[#[trigger] c[i] as int]@.contains(c[i + 1]),
    ensures
        search.finish@[c.last() as int] < search.finish@[c[0] as int],
    decreases c.len(),
{
    let u = c[0] as int;
    assert(adj[u]@.contains(c[1]));
    let k = choose|k: int| 0 <= k < adj[u]@.len() && adj[u]@[k] == c[1];
    assert(search.visited@[u] && !search.active@[u]);
    assert(search.finish@[adj[u]@[k] as int] < search.finish@[u]);
    if c.len() > 2 {
        let d = c.drop_first();
        assert forall|i: int| 0 <= i < d.len() - 1 implies adj[#[trigger] d[i] as int]@.contains(d[i + 1]) by {
            assert(d[i] == c[i + 1]);
            assert(d[i + 1] == c[i + 2]);
        }
        lemma_finish_decreases(adj, search, d);
    }
}

} // verus!
