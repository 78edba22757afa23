//! Hazard pointers: participants announce the node they are reading, retired
//! nodes are only reclaimed once no announcement names them, and a scan runs
//! when enough nodes are waiting.

use vstd::prelude::*;
use vstd::std_specs::iter::IteratorSpec;
use vstd::string::*;

use std::collections::BTreeMap;

verus! {

broadcast use vstd::std_specs::btree::group_btree_axioms;

/// Stable identifier of a participant (a thread).
#[derive(Debug, Clone, Copy, PartialEq, Eq, PartialOrd, Ord, Structural)]
pub struct ParticipantId(usize);

impl ParticipantId {
    /// Numeric identifier.
    pub closed spec fn value(self) -> usize {
        self.0
    }

    /// Creates a participant identifier.
    pub fn new(id: usize) -> (p: Self)
        ensures
            p.value() == id,
    {
        ParticipantId(id)
    }

    /// Returns the numeric identifier.
    pub fn get(self) -> (id: usize)
        ensures
            id == self.value(),
    {
        self.0
    }
}

/// Stable identifier of a protected or retired node.
#[derive(Debug, Clone, Copy, PartialEq, Eq, PartialOrd, Ord, Structural)]
pub struct NodeId(usize);

impl NodeId {
    /// Numeric identifier.
    pub closed spec fn value(self) -> usize {
        self.0
    }

    /// Creates a node identifier.
    pub fn new(id: usize) -> (n: Self)
        ensures
            n.value() == id,
    {
        NodeId(id)
    }

    /// Returns the numeric identifier.
    pub fn get(self) -> (id: usize)
        ensures
            id == self.value(),
    {
        self.0
    }
}

/// Retired node that may not be reclaimable yet.
#[derive(Debug, Clone, PartialEq, Eq)]
pub struct RetiredNode {
    id: NodeId,
    payload: String,
}

impl View for RetiredNode {
    /// Identifier and payload text.
    type V = (NodeId, Seq<char>);

    closed spec fn view(&self) -> (NodeId, Seq<char>) {
        (self.id, self.payload@)
    }
}

impl RetiredNode {
    /// Creates a retired node with a descriptive payload.
    pub fn new(id: NodeId, payload: &str) -> (r: Self)
        ensures
            r@ == (id, payload@),
    {
        RetiredNode { id, payload: String::from_str(payload) }
    }

    /// Returns the identifier of the node.
    pub fn id(&self) -> (id: NodeId)
        ensures
            id == self@.0,
    {
        self.id
    }

    /// Returns the descriptive payload.
    pub fn payload(&self) -> (p: &str)
        ensures
            p@ == self@.1,
    {
        self.payload.as_str()
    }

    fn duplicate(&self) -> (r: Self)
        ensures
            r@ == self@,
    {
        RetiredNode::new(self.id, self.payload.as_str())
    }
}

/// Outcome of a hazard scan.
#[derive(Debug, Clone, PartialEq, Eq)]
pub struct ScanReport {
    /// Number of distinct protected nodes seen by the scan.
    pub scanned_hazards: usize,
    /// Nodes reclaimed by the scan.
    pub reclaimed: Vec<NodeId>,
    /// Nodes that stay retired because they are protected.
    pub delayed: Vec<NodeId>,
}

/// Announcements by ascending participant identifier.
pub open spec fn ascending(entries: Seq<(ParticipantId, NodeId)>) -> bool {
    forall|i: int, j: int| 0 <= i < j < entries.len() ==> entries[i].0.value() < entries[j].0.value()
}

/// Some participant announces `node`.
pub open spec fn guarded(entries: Seq<(ParticipantId, NodeId)>, node: NodeId) -> bool {
    exists|i: int| 0 <= i < entries.len() && (#[trigger] entries[i]).1 == node
}

/// The nodes announced by some participant.
pub open spec fn hazard_set(entries: Seq<(ParticipantId, NodeId)>) -> Set<NodeId> {
    Set::new(|n: NodeId| guarded(entries, n))
}

/// What a scan does to `retired`: the nodes that stay retired, the
/// identifiers reclaimed and the identifiers delayed, in retirement order.
pub open spec fn scan_outcome(entries: Seq<(ParticipantId, NodeId)>, retired: Seq<(NodeId, Seq<char>)>) -> (
    Seq<(NodeId, Seq<char>)>,
    Seq<NodeId>,
    Seq<NodeId>,
)
    decreases retired.len(),
{
    if retired.len() == 0 {
        (Seq::empty(), Seq::empty(), Seq::empty())
    } else {
        let (kept, freed, delayed) = scan_outcome(entries, retired.drop_last());
        let r = retired.last();
        if guarded(entries, r.0) {
            (kept.push(r), freed, delayed.push(r.0))
        } else {
            (kept, freed.push(r.0), delayed)
        }
    }
}

/// The sequence `s` lists exactly the entries of the map `m` from
/// participant identifier to protected node.
spec fn lists_map(m: Map<usize, NodeId>, s: Seq<(ParticipantId, NodeId)>) -> bool {
    forall|k: usize, n: NodeId|
        (m.contains_key(k) && m[k] == n) <==> #[trigger] s.contains((ParticipantId(k), n))
}

/// Number of leading entries of `s` whose participant is below `id`.
spec fn ids_below(s: Seq<(ParticipantId, NodeId)>, id: usize) -> int
    decreases s.len(),
{
    if s.len() == 0 {
        0
    } else if s.last().0.value() < id {
        s.len() as int
    } else {
        ids_below(s.drop_last(), id)
    }
}

/// In an ascending list, the entries below `id` are exactly those before
/// `ids_below(s, id)`.
proof fn lemma_ids_below(s: Seq<(ParticipantId, NodeId)>, id: usize)
    requires
        ascending(s),
    ensures
        0 <= ids_below(s, id) <= s.len(),
        forall|i: int| 0 <= i < ids_below(s, id) ==> s[i].0.value() < id,
        ids_below(s, id) < s.len() ==> s[ids_below(s, id)].0.value() >= id,
    decreases s.len(),
{
    if s.len() > 0 {
        let init = s.drop_last();
        if s.last().0.value() < id {
            assert forall|i: int| 0 <= i < s.len() implies s[i].0.value() < id by {
                if i < s.len() - 1 {
                    assert(s[i].0.value() < s[s.len() - 1].0.value());
                }
            }
        } else {
            assert(ascending(init)) by {
                assert forall|i: int, j: int| 0 <= i < j < init.len() implies init[i].0.value() < init[j].0.value() by {
                    assert(init[i] == s[i] && init[j] == s[j]);
                }
            }
            lemma_ids_below(init, id);
            assert forall|i: int| 0 <= i < ids_below(s, id) implies s[i].0.value() < id by {
                assert(init[i] == s[i]);
            }
            if ids_below(s, id) < init.len() {
                assert(init[ids_below(s, id)] == s[ids_below(s, id)]);
            }
        }
    }
}

/// Two announcement lists in ascending order of participant that hold the
/// same entries are the same list.
proof fn lemma_announcements_unique(a: Seq<(ParticipantId, NodeId)>, b: Seq<(ParticipantId, NodeId)>)
    requires
        ascending(a),
        ascending(b),
        forall|x: (ParticipantId, NodeId)| a.contains(x) <==> b.contains(x),
    ensures
        a == b,
    decreases a.len(),
{
    if a.len() == 0 {
        if b.len() > 0 {
            assert(b.contains(b[0]));
        }
        assert(b =~= a);
    } else if b.len() == 0 {
        assert(a.contains(a[0]));
    } else {
        assert(a.contains(a[0]));
        assert(b.contains(b[0]));
        let j = choose|j: int| 0 <= j < b.len() && b[j] == a[0];
        let i = choose|i: int| 0 <= i < a.len() && a[i] == b[0];
        assert(j == 0) by {
            if j > 0 {
                assert(b[0].0.value() < b[j].0.value());
                if i > 0 {
                    assert(a[0].0.value() < a[i].0.value());
                }
            }
        }
        let a1 = a.drop_first();
        let b1 = b.drop_first();
        assert forall|x: (ParticipantId, NodeId)| a1.contains(x) <==> b1.contains(x) by {
            if a1.contains(x) {
                let k = choose|k: int| 0 <= k < a1.len() && a1[k] == x;
                assert(a[k + 1] == x);
                assert(a.contains(x));
                let m = choose|m: int| 0 <= m < b.len() && b[m] == x;
                assert(a[0].0.value() < a[k + 1].0.value());
                assert(m != 0);
                assert(b1[m - 1] == x);
            }
            if b1.contains(x) {
                let k = choose|k: int| 0 <= k < b1.len() && b1[k] == x;
                assert(b[k + 1] == x);
                assert(b.contains(x));
                let m = choose|m: int| 0 <= m < a.len() && a[m] == x;
                assert(b[0].0.value() < b[k + 1].0.value());
                assert(m != 0);
                assert(a1[m - 1] == x);
            }
        }
        assert(ascending(a1)) by {
            assert forall|p: int, q: int| 0 <= p < q < a1.len() implies a1[p].0.value() < a1[q].0.value() by {
                assert(a1[p] == a[p + 1] && a1[q] == a[q + 1]);
            }
        }
        assert(ascending(b1)) by {
            assert forall|p: int, q: int| 0 <= p < q < b1.len() implies b1[p].0.value() < b1[q].0.value() by {
                assert(b1[p] == b[p + 1] && b1[q] == b[q + 1]);
            }
        }
        lemma_announcements_unique(a1, b1);
        assert forall|k: int| 0 <= k < a.len() implies a[k] == b[k] by {
            if k > 0 {
                assert(a[k] == a1[k - 1]);
                assert(b[k] == b1[k - 1]);
            }
        }
        assert(a =~= b);
    }
}

/// Hazard-pointer domain: which node each participant protects, which
/// nodes are retired, and which were reclaimed.
pub struct HazardDomain {
    retire_scan_threshold: usize,
    protected: BTreeMap<usize, NodeId>,
    hazard_list: Ghost<Seq<(ParticipantId, NodeId)>>,
    retired: Vec<RetiredNode>,
    reclaimed: Vec<NodeId>,
}

impl HazardDomain {
    /// Number of retired nodes that triggers an automatic scan.
    pub closed spec fn threshold(&self) -> usize {
        self.retire_scan_threshold
    }

    /// Announcements, by ascending participant identifier.
    pub closed spec fn hazards(&self) -> Seq<(ParticipantId, NodeId)> {
        self.hazard_list@
    }

    /// Nodes still retired, in retirement order.
    pub closed spec fn waiting(&self) -> Seq<(NodeId, Seq<char>)> {
        Seq::new(self.retired@.len(), |i: int| self.retired@[i]@)
    }

    /// Every node reclaimed so far, in reclamation order.
    pub closed spec fn history(&self) -> Seq<NodeId> {
        self.reclaimed@
    }

    /// The threshold is positive, and the map of announcements (participant
    /// identifier to node) holds exactly the announcements, which are listed
    /// by ascending participant.
    pub closed spec fn wf(&self) -> bool {
        &&& self.retire_scan_threshold > 0
        &&& ascending(self.hazard_list@)
        &&& lists_map(self.protected@, self.hazard_list@)
    }

    /// Creates a domain with the scan threshold.
    pub fn new(retire_scan_threshold: usize) -> (d: Self)
        requires
            retire_scan_threshold > 0,
        ensures
            d.wf(),
            d.threshold() == retire_scan_threshold,
            d.hazards() == Seq::<(ParticipantId, NodeId)>::empty(),
            d.waiting() == Seq::<(NodeId, Seq<char>)>::empty(),
            d.history() == Seq::<NodeId>::empty(),
    {
        let d = HazardDomain {
            retire_scan_threshold,
            protected: BTreeMap::new(),
            hazard_list: Ghost(Seq::empty()),
            retired: Vec::new(),
            reclaimed: Vec::new(),
        };
        assert(d.waiting() =~= Seq::<(NodeId, Seq<char>)>::empty());
        d
    }

    /// The announcements, by ascending participant, read from the map.
    fn hazard_entries(&self) -> (v: Vec<(ParticipantId, NodeId)>)
        requires
            self.wf(),
        ensures
            v@ == self.hazards(),
    {
        let ghost all = IteratorSpec::remaining(&vstd::std_specs::btree::spec_btree_map_iter(&self.protected));
        let mut v: Vec<(ParticipantId, NodeId)> = Vec::new();
        for entry in it: self.protected.iter()
            invariant
                all == IteratorSpec::remaining(&vstd::std_specs::btree::spec_btree_map_iter(&self.protected)),
                it.seq() == all,
                v@.len() == it.index(),
                forall|i: int| 0 <= i < it.index() ==> v@[i] == (ParticipantId(*all[i].0), *all[i].1),
        {
            v.push((ParticipantId(*entry.0), *entry.1));
        }
        proof {
            let keys = all.map_values(|kv: (&usize, &NodeId)| *kv.0);
            assert(vstd::std_specs::btree::increasing_seq(keys));
            assert(v@.len() == all.len());
            assert forall|i: int, j: int| 0 <= i < j < v@.len() implies v@[i].0.value() < v@[j].0.value() by {
                assert(keys[i] == v@[i].0.0);
                assert(keys[j] == v@[j].0.0);
                assert(vstd::std_specs::cmp::OrdSpec::cmp_spec(&keys[i], &keys[j]) is Less);
            }
            assert forall|x: (ParticipantId, NodeId)| v@.contains(x) <==> self.hazard_list@.contains(x) by {
                let k = x.0.0;
                let e = x.1;
                assert(x == (ParticipantId(k), e));
                if v@.contains(x) {
                    let i = choose|i: int| 0 <= i < v@.len() && v@[i] == x;
                    assert(self.protected@.contains_key(*all[i].0));
                    assert(lists_map(self.protected@, self.hazard_list@));
                }
                if self.hazard_list@.contains(x) {
                    assert(self.protected@.contains_key(k) && self.protected@[k] == e);
                    assert(all.contains((&k, &self.protected@[k])));
                    let i = choose|i: int| 0 <= i < all.len() && all[i] == (&k, &self.protected@[k]);
                    assert(v@[i] == x);
                }
            }
            lemma_announcements_unique(v@, self.hazard_list@);
        }
        v
    }

    /// `participant` now protects `node`, replacing what it protected before.
    pub fn protect(&mut self, participant: ParticipantId, node: NodeId)
        requires
            old(self).wf(),
        ensures
            final(self).wf(),
            forall|q: ParticipantId, m: NodeId|
                final(self).hazards().contains((q, m)) <==> ((q == participant && m == node) || (q
                    != participant && old(self).hazards().contains((q, m)))),
            final(self).threshold() == old(self).threshold(),
            final(self).waiting() == old(self).waiting(),
            final(self).history() == old(self).history(),
    {
        let ghost before = self.hazard_list@;
        let ghost position = ids_below(before, participant.value());
        proof {
            lemma_ids_below(before, participant.value());
        }
        let ghost replaced = position < before.len() && before[position].0 == participant;
        let ghost after = if replaced {
            before.update(position, (participant, node))
        } else {
            before.insert(position, (participant, node))
        };
        self.protected.insert(participant.0, node);
        self.hazard_list = Ghost(after);
        proof {
            assert forall|i: int, j: int| 0 <= i < j < after.len() implies after[i].0.value() < after[j].0.value() by {
                if !replaced {
                    let pi = if i < position { i } else { i - 1 };
                    let pj = if j < position { j } else { j - 1 };
                    if i != position {
                        assert(after[i] == before[pi]);
                    }
                    if j != position {
                        assert(after[j] == before[pj]);
                    }
                }
            }
            assert forall|q: ParticipantId, m: NodeId|
                after.contains((q, m)) <==> ((q == participant && m == node) || (q != participant
                    && before.contains((q, m)))) by {
                if after.contains((q, m)) {
                    let a = choose|a: int| 0 <= a < after.len() && after[a] == (q, m);
                    if a != position {
                        let pa = if replaced || a < position { a } else { a - 1 };
                        assert(after[a] == before[pa]);
                        if q == participant {
                            assert(before[pa].0.value() == participant.value());
                            if replaced {
                                assert(before[position].0.value() == participant.value());
                            }
                        }
                    }
                }
                if q == participant && m == node {
                    assert(after[position] == (q, m));
                }
                if q != participant && before.contains((q, m)) {
                    let b = choose|b: int| 0 <= b < before.len() && before[b] == (q, m);
                    let pb = if replaced || b < position { b } else { b + 1 };
                    if replaced && b == position {
                        assert(before[b].0.value() == participant.value());
                    }
                    assert(after[pb] == (q, m));
                }
            }
            assert forall|k: usize, m: NodeId|
                (self.protected@.contains_key(k) && self.protected@[k] == m) <==> #[trigger] after.contains((ParticipantId(k), m)) by {
                assert(old(self).wf());
                if k == participant.0 {
                    assert(ParticipantId(k) == participant);
                } else {
                    assert(ParticipantId(k) != participant);
                    assert((old(self).protected@.contains_key(k) && old(self).protected@[k] == m) <==> before.contains((ParticipantId(k), m)));
                }
            }
        }
    }

    /// `participant` no longer protects any node.
    pub fn clear(&mut self, participant: ParticipantId)
        requires
            old(self).wf(),
        ensures
            final(self).wf(),
            forall|q: ParticipantId, m: NodeId|
                final(self).hazards().contains((q, m)) <==> (q != participant && old(self).hazards().contains(
                    (q, m),
                )),
            final(self).threshold() == old(self).threshold(),
            final(self).waiting() == old(self).waiting(),
            final(self).history() == old(self).history(),
    {
        let ghost before = self.hazard_list@;
        let ghost present = exists|i: int| 0 <= i < before.len() && before[i].0 == participant;
        let ghost i = choose|i: int| 0 <= i < before.len() && before[i].0 == participant;
        let ghost after = if present { before.remove(i) } else { before };
        self.protected.remove(&participant.0);
        self.hazard_list = Ghost(after);
        proof {
            if present {
                assert forall|a: int, b: int| 0 <= a < b < after.len() implies after[a].0.value()
                    < after[b].0.value() by {
                    let pa = if a < i { a } else { a + 1 };
                    let pb = if b < i { b } else { b + 1 };
                    assert(after[a] == before[pa]);
                    assert(after[b] == before[pb]);
                }
            }
            assert forall|q: ParticipantId, m: NodeId|
                after.contains((q, m)) <==> (q != participant && before.contains((q, m))) by {
                if present {
                    if after.contains((q, m)) {
                        let a = choose|a: int| 0 <= a < after.len() && after[a] == (q, m);
                        let pa = if a < i { a } else { a + 1 };
                        assert(after[a] == before[pa]);
                        if q == participant {
                            assert(before[pa].0.value() == before[i].0.value());
                        }
                    }
                    if q != participant && before.contains((q, m)) {
                        let b = choose|b: int| 0 <= b < before.len() && before[b] == (q, m);
                        let pb = if b < i { b } else { b - 1 };
                        assert(b != i);
                        assert(after[pb] == (q, m));
                    }
                } else {
                    if before.contains((q, m)) {
                        let b = choose|b: int| 0 <= b < before.len() && before[b] == (q, m);
                        assert(before[b].0 != participant);
                    }
                }
            }
            assert forall|k: usize, m: NodeId|
                (self.protected@.contains_key(k) && self.protected@[k] == m) <==> #[trigger] after.contains((ParticipantId(k), m)) by {
                assert(old(self).wf());
                if k == participant.0 {
                    assert(ParticipantId(k) == participant);
                } else {
                    assert(ParticipantId(k) != participant);
                    assert((old(self).protected@.contains_key(k) && old(self).protected@[k] == m) <==> before.contains((ParticipantId(k), m)));
                }
            }
        }
    }

    /// Whether some participant protects `node`.
    pub fn is_protected(&self, node: NodeId) -> (b: bool)
        requires
            self.wf(),
        ensures
            b == guarded(self.hazards(), node),
    {
        let entries = self.hazard_entries();
        protects(&entries, node)
    }

    /// Returns the protected nodes in ascending order, each once.
    pub fn protected_nodes(&self) -> (v: Vec<NodeId>)
        requires
            self.wf(),
        ensures
            forall|i: int, j: int| 0 <= i < j < v@.len() ==> v@[i].value() < v@[j].value(),
            v@.to_set() == hazard_set(self.hazards()),
            v@.len() == hazard_set(self.hazards()).len(),
    {
        let entries = self.hazard_entries();
        let mut v: Vec<NodeId> = Vec::new();
        let mut i: usize = 0;
        while i < entries.len()
            invariant
                i <= entries@.len(),
                entries@ == self.hazards(),
                forall|a: int, b: int| 0 <= a < b < v@.len() ==> v@[a].value() < v@[b].value(),
                forall|n: NodeId| v@.contains(n) <==> guarded(entries@.subrange(0, i as int), n),
            decreases entries@.len() - i,
        {
            let ghost before = v@;
            let node = entries[i].1;
            insert_sorted(&mut v, node);
            proof {
                let pre = entries@.subrange(0, i as int);
                let post = entries@.subrange(0, i + 1);
                assert forall|n: NodeId| v@.contains(n) <==> guarded(post, n) by {
                    if guarded(pre, n) {
                        let k = choose|k: int| 0 <= k < pre.len() && (#[trigger] pre[k]).1 == n;
                        assert(post[k] == pre[k]);
                    }
                    if n == node {
                        assert(post[i as int].1 == n);
                    }
                    if guarded(post, n) {
                        let k = choose|k: int| 0 <= k < post.len() && (#[trigger] post[k]).1 == n;
                        if k < i {
                            assert(pre[k] == post[k]);
                        }
                    }
                }
            }
            i = i + 1;
        }
        proof {
            assert(entries@.subrange(0, i as int) =~= entries@);
            assert(v@.to_set() =~= hazard_set(self.hazards()));
            assert(v@.no_duplicates()) by {
                assert forall|a: int, b: int| 0 <= a < v@.len() && 0 <= b < v@.len() && a != b implies v@[a]
                    != v@[b] by {
                    if a < b {
                        assert(v@[a].value() < v@[b].value());
                    } else {
                        assert(v@[b].value() < v@[a].value());
                    }
                }
            }
            v@.unique_seq_to_set();
        }
        v
    }

    /// Retires `node`; once the retired nodes reach the threshold, scans.
    pub fn retire(&mut self, node: RetiredNode) -> (r: Option<ScanReport>)
        requires
            old(self).wf(),
        ensures
            final(self).wf(),
            final(self).threshold() == old(self).threshold(),
            final(self).hazards() == old(self).hazards(),
            ({
                let all = old(self).waiting().push(node@);
                let (kept, freed, delayed) = scan_outcome(old(self).hazards(), all);
                if all.len() >= old(self).threshold() {
                    &&& r matches Some(report) && report.scanned_hazards == hazard_set(
                        old(self).hazards(),
                    ).len() && report.reclaimed@ == freed && report.delayed@ == delayed
                    &&& final(self).waiting() == kept
                    &&& final(self).history() == old(self).history() + freed
                } else {
                    &&& r is None
                    &&& final(self).waiting() == all
                    &&& final(self).history() == old(self).history()
                }
            }),
    {
        let ghost view = node@;
        self.retired.push(node);
        proof {
            assert(self.waiting() =~= old(self).waiting().push(view));
        }
        if self.retired.len() >= self.retire_scan_threshold {
            Some(self.scan())
        } else {
            None
        }
    }

    /// Scans the announcements and reclaims the retired nodes that no
    /// participant protects.
    pub fn scan(&mut self) -> (report: ScanReport)
        requires
            old(self).wf(),
        ensures
            final(self).wf(),
            ({
                let (kept, freed, delayed) = scan_outcome(old(self).hazards(), old(self).waiting());
                &&& report.scanned_hazards == hazard_set(old(self).hazards()).len()
                &&& report.reclaimed@ == freed
                &&& report.delayed@ == delayed
                &&& final(self).waiting() == kept
                &&& final(self).history() == old(self).history() + freed
            }),
            final(self).threshold() == old(self).threshold(),
            final(self).hazards() == old(self).hazards(),
    {
        let hazards = self.protected_nodes();
        let entries = self.hazard_entries();
        let scanned_hazards = hazards.len();
        let mut reclaimed: Vec<NodeId> = Vec::new();
        let mut delayed: Vec<NodeId> = Vec::new();
        let mut still_retired: Vec<RetiredNode> = Vec::new();
        let ghost all = self.waiting();
        let mut i: usize = 0;
        while i < self.retired.len()
            invariant
                i <= self.retired@.len(),
                all == self.waiting(),
                *self == *old(self),
                ({
                    let (kept, freed, del) = scan_outcome(entries@, all.subrange(0, i as int));
                    &&& Seq::new(still_retired@.len(), |k: int| still_retired@[k]@) == kept
                    &&& reclaimed@ == freed
                    &&& delayed@ == del
                }),
            decreases self.retired@.len() - i,
        {
            let ghost prefix = all.subrange(0, i as int);
            let ghost kept_before = Seq::new(still_retired@.len(), |k: int| still_retired@[k]@);
            proof {
                assert(all.subrange(0, i + 1).drop_last() =~= prefix);
                assert(all.subrange(0, i + 1).last() == self.retired@[i as int]@);
            }
            let retired = &self.retired[i];
            if protects(&entries, retired.id) {
                delayed.push(retired.id);
                still_retired.push(retired.duplicate());
                proof {
                    assert(Seq::new(still_retired@.len(), |k: int| still_retired@[k]@) =~= kept_before.push(
                        self.retired@[i as int]@,
                    ));
                }
            } else {
                reclaimed.push(retired.id);
            }
            i = i + 1;
        }
        proof {
            assert(all.subrange(0, i as int) =~= all);
        }
        let ghost still_retired_view = still_retired@;
        self.retired = still_retired;
        let ghost history = self.reclaimed@;
        let mut k: usize = 0;
        while k < reclaimed.len()
            invariant
                k <= reclaimed@.len(),
                self.reclaimed@ == history + reclaimed@.subrange(0, k as int),
                history == old(self).reclaimed@,
                self.retire_scan_threshold == old(self).retire_scan_threshold,
                self.protected@ == old(self).protected@,
                self.hazard_list == old(self).hazard_list,
                self.retired@ == still_retired_view,
            decreases reclaimed@.len() - k,
        {
            self.reclaimed.push(reclaimed[k]);
            k = k + 1;
            proof {
                assert(self.reclaimed@ =~= history + reclaimed@.subrange(0, k as int));
            }
        }
        proof {
            assert(reclaimed@.subrange(0, k as int) =~= reclaimed@);
        }
        ScanReport { scanned_hazards, reclaimed, delayed }
    }

    /// Returns the identifiers of the nodes still retired.
    pub fn retired_nodes(&self) -> (v: Vec<NodeId>)
        ensures
            v@ == Seq::new(self.waiting().len(), |i: int| self.waiting()[i].0),
    {
        let mut v: Vec<NodeId> = Vec::new();
        let mut i: usize = 0;
        while i < self.retired.len()
            invariant
                i <= self.retired@.len(),
                v@ == Seq::new(i as nat, |k: int| self.retired@[k]@.0),
            decreases self.retired@.len() - i,
        {
            v.push(self.retired[i].id());
            i = i + 1;
            proof {
                assert(v@ =~= Seq::new(i as nat, |k: int| self.retired@[k]@.0));
            }
        }
        proof {
            assert(v@ =~= Seq::new(self.waiting().len(), |i: int| self.waiting()[i].0));
        }
        v
    }

    /// Returns every node reclaimed so far.
    pub fn reclaimed_nodes(&self) -> (v: Vec<NodeId>)
        ensures
            v@ == self.history(),
    {
        self.reclaimed.clone()
    }
}

/// Whether some announcement names `node`.
fn protects(protected: &Vec<(ParticipantId, NodeId)>, node: NodeId) -> (b: bool)
    ensures
        b == guarded(protected@, node),
{
    let mut i: usize = 0;
    while i < protected.len()
        invariant
            i <= protected@.len(),
            forall|k: int| 0 <= k < i ==> (#[trigger] protected@[k]).1 != node,
        decreases protected@.len() - i,
    {
        if protected[i].1.0 == node.0 {
            proof {
                assert(protected@[i as int].1 == node);
            }
            return true;
        }
        i = i + 1;
    }
    false
}

/// Inserts `node` into the ascending list `v` unless it is there already.
fn insert_sorted(v: &mut Vec<NodeId>, node: NodeId)
    requires
        forall|a: int, b: int| 0 <= a < b < old(v)@.len() ==> old(v)@[a].value() < old(v)@[b].value(),
    ensures
        forall|a: int, b: int| 0 <= a < b < final(v)@.len() ==> final(v)@[a].value() < final(v)@[b].value(),
        forall|n: NodeId| final(v)@.contains(n) <==> (old(v)@.contains(n) || n == node),
{
    let ghost before = v@;
    let mut p: usize = 0;
    while p < v.len() && v[p].0 < node.0
        invariant
            v@ == before,
            p <= before.len(),
            forall|k: int| 0 <= k < p ==> before[k].value() < node.value(),
        decreases before.len() - p,
    {
        p = p + 1;
    }
    if p < v.len() && v[p].0 == node.0 {
        proof {
            assert(v@[p as int] == node);
        }
        return;
    }
    v.insert(p, node);
    proof {
        let after = v@;
        assert forall|a: int, b: int| 0 <= a < b < after.len() implies after[a].value() < after[b].value() by {
            let pa = if a < p { a } else { a - 1 };
            let pb = if b < p { b } else { b - 1 };
            if a != p as int {
                assert(after[a] == before[pa]);
            }
            if b != p as int {
                assert(after[b] == before[pb]);
            }
        }
        assert forall|n: NodeId| after.contains(n) <==> (before.contains(n) || n == node) by {
            if after.contains(n) {
                let a = choose|a: int| 0 <= a < after.len() && after[a] == n;
                if a != p as int {
                    let pa = if a < p { a } else { a - 1 };
                    assert(after[a] == before[pa]);
                }
            }
            if before.contains(n) {
                let b = choose|b: int| 0 <= b < before.len() && before[b] == n;
                let pb = if b < p { b } else { b + 1 };
                assert(after[pb] == n);
            }
            if n == node {
                assert(after[p as int] == n);
            }
        }
    }
}

/// Safety: a scan never reclaims a node that some participant protects.
pub proof fn lemma_protected_never_reclaimed(
    entries: Seq<(ParticipantId, NodeId)>,
    retired: Seq<(NodeId, Seq<char>)>,
    node: NodeId,
)
    requires
        guarded(entries, node),
    ensures
        !scan_outcome(entries, retired).1.contains(node),
    decreases retired.len(),
{
    if retired.len() > 0 {
        lemma_protected_never_reclaimed(entries, retired.drop_last(), node);
        let freed = scan_outcome(entries, retired).1;
        let before = scan_outcome(entries, retired.drop_last()).1;
        if freed.contains(node) {
            let k = choose|k: int| 0 <= k < freed.len() && freed[k] == node;
            if k < before.len() {
                assert(before[k] == node);
            }
        }
    }
}

/// A scan loses no node: every retired node either stays retired or is
/// reclaimed, and the delayed identifiers are those of the nodes that stay;
/// a node that no participant protects is reclaimed.
pub proof fn lemma_scan_partitions(entries: Seq<(ParticipantId, NodeId)>, retired: Seq<(NodeId, Seq<char>)>)
    ensures
        ({
            let (kept, freed, delayed) = scan_outcome(entries, retired);
            &&& kept.len() + freed.len() == retired.len()
            &&& delayed == Seq::new(kept.len(), |i: int| kept[i].0)
            &&& forall|i: int| 0 <= i < kept.len() ==> guarded(entries, #[trigger] kept[i].0)
            &&& forall|i: int| 0 <= i < freed.len() ==> !guarded(entries, #[trigger] freed[i])
        }),
    decreases retired.len(),
{
    if retired.len() > 0 {
        lemma_scan_partitions(entries, retired.drop_last());
        let (k2, f2, d2) = scan_outcome(entries, retired);
        assert(d2 =~= Seq::new(k2.len(), |i: int| k2[i].0));
    }
}

} // verus!
