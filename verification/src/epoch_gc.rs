//! Epoch-based reclamation: participants pin the global epoch while they
//! read shared objects, retired objects wait until no participant can still
//! hold them, and the global epoch only advances past participants that
//! have observed it.

use vstd::prelude::*;
use vstd::std_specs::iter::IteratorSpec;
use vstd::string::*;

use std::collections::BTreeMap;

verus! {

broadcast use vstd::std_specs::btree::group_btree_axioms;

/// Stable identifier of a participant of the domain.
#[derive(Debug, Clone, Copy, PartialEq, Eq, PartialOrd, Ord, Structural)]
pub struct ParticipantId(usize);

impl ParticipantId {
    /// Numeric identifier.
    pub closed spec fn value(self) -> usize {
        self.0
    }

    /// Creates a participant identifier.
    pub fn new(id: usize) -> (p: Self)
        ensures
            p.value() == id,
    {
        ParticipantId(id)
    }

    /// Returns the numeric identifier.
    pub fn get(self) -> (id: usize)
        ensures
            id == self.value(),
    {
        self.0
    }
}

/// Stable identifier of a retired object.
#[derive(Debug, Clone, Copy, PartialEq, Eq, PartialOrd, Ord, Structural)]
pub struct ObjectId(usize);

impl ObjectId {
    /// Numeric identifier.
    pub closed spec fn value(self) -> usize {
        self.0
    }

    /// Creates an object identifier.
    pub fn new(id: usize) -> (o: Self)
        ensures
            o.value() == id,
    {
        ObjectId(id)
    }

    /// Returns the numeric identifier.
    pub fn get(self) -> (id: usize)
        ensures
            id == self.value(),
    {
        self.0
    }
}

/// Mark handed out when a participant enters a critical section: the
/// participant and the epoch it observed.
#[derive(Debug, Clone, Copy, PartialEq, Eq, Structural)]
pub struct Pin {
    participant: ParticipantId,
    epoch: usize,
}

impl Pin {
    /// Participant of the mark.
    pub closed spec fn holder(self) -> ParticipantId {
        self.participant
    }

    /// Epoch observed when pinning.
    pub closed spec fn observed(self) -> usize {
        self.epoch
    }

    fn new(participant: ParticipantId, epoch: usize) -> (p: Self)
        ensures
            p.holder() == participant,
            p.observed() == epoch,
    {
        Pin { participant, epoch }
    }

    /// Returns the participant of the mark.
    pub fn participant(self) -> (p: ParticipantId)
        ensures
            p == self.holder(),
    {
        self.participant
    }

    /// Returns the epoch observed when pinning.
    pub fn epoch(self) -> (e: usize)
        ensures
            e == self.observed(),
    {
        self.epoch
    }
}

/// Retired object that participants of older epochs may still hold.
#[derive(Debug, Clone, PartialEq, Eq)]
pub struct RetiredObject {
    id: ObjectId,
    retired_epoch: usize,
    payload: String,
}

impl View for RetiredObject {
    /// Identifier, retirement epoch and payload text.
    type V = (ObjectId, usize, Seq<char>);

    closed spec fn view(&self) -> (ObjectId, usize, Seq<char>) {
        (self.id, self.retired_epoch, self.payload@)
    }
}

impl RetiredObject {
    /// Creates a retired object with a descriptive payload.
    pub fn new(id: ObjectId, retired_epoch: usize, payload: &str) -> (r: Self)
        ensures
            r@ == (id, retired_epoch, payload@),
    {
        RetiredObject { id, retired_epoch, payload: String::from_str(payload) }
    }

    /// Returns the identifier of the object.
    pub fn id(&self) -> (id: ObjectId)
        ensures
            id == self@.0,
    {
        self.id
    }

    /// Returns the epoch in which the object was retired.
    pub fn retired_epoch(&self) -> (e: usize)
        ensures
            e == self@.1,
    {
        self.retired_epoch
    }

    /// Returns the descriptive payload.
    pub fn payload(&self) -> (p: &str)
        ensures
            p@ == self@.2,
    {
        self.payload.as_str()
    }

    fn duplicate(&self) -> (r: Self)
        ensures
            r@ == self@,
    {
        RetiredObject::new(self.id, self.retired_epoch, self.payload.as_str())
    }
}

/// Outcome of an attempt to advance the global epoch.
#[derive(Debug, Clone, PartialEq, Eq)]
pub struct EpochAdvance {
    previous_epoch: usize,
    current_epoch: usize,
    advanced: bool,
    blocked_by: Vec<ParticipantId>,
}

impl EpochAdvance {
    /// Epoch before the attempt.
    pub closed spec fn before(&self) -> usize {
        self.previous_epoch
    }

    /// Epoch after the attempt.
    pub closed spec fn after(&self) -> usize {
        self.current_epoch
    }

    /// Whether the epoch advanced.
    pub closed spec fn moved(&self) -> bool {
        self.advanced
    }

    /// Participants that prevented the advance.
    pub closed spec fn blockers(&self) -> Seq<ParticipantId> {
        self.blocked_by@
    }

    fn advanced_result(previous_epoch: usize, current_epoch: usize) -> (a: Self)
        ensures
            a.before() == previous_epoch,
            a.after() == current_epoch,
            a.moved(),
            a.blockers() == Seq::<ParticipantId>::empty(),
    {
        EpochAdvance { previous_epoch, current_epoch, advanced: true, blocked_by: Vec::new() }
    }

    fn blocked(current_epoch: usize, blocked_by: Vec<ParticipantId>) -> (a: Self)
        ensures
            a.before() == current_epoch,
            a.after() == current_epoch,
            !a.moved(),
            a.blockers() == blocked_by@,
    {
        EpochAdvance { previous_epoch: current_epoch, current_epoch, advanced: false, blocked_by }
    }

    /// Returns whether the global epoch advanced.
    pub fn advanced(&self) -> (b: bool)
        ensures
            b == self.moved(),
    {
        self.advanced
    }

    /// Returns the epoch before the attempt.
    pub fn previous_epoch(&self) -> (e: usize)
        ensures
            e == self.before(),
    {
        self.previous_epoch
    }

    /// Returns the global epoch after the attempt.
    pub fn current_epoch(&self) -> (e: usize)
        ensures
            e == self.after(),
    {
        self.current_epoch
    }

    /// Returns the participants that prevented the advance.
    pub fn blocked_by(&self) -> (s: &[ParticipantId])
        ensures
            s@ == self.blockers(),
    {
        self.blocked_by.as_slice()
    }
}

/// Outcome of a scan of the retired objects.
#[derive(Debug, Clone, PartialEq, Eq)]
pub struct ReclaimReport {
    global_epoch: usize,
    reclaimed: Vec<ObjectId>,
    delayed: Vec<ObjectId>,
    blocked_by: Vec<ParticipantId>,
}

impl ReclaimReport {
    /// Global epoch seen by the scan.
    pub closed spec fn epoch(&self) -> usize {
        self.global_epoch
    }

    /// Objects reclaimed by the scan, in retirement order.
    pub closed spec fn freed(&self) -> Seq<ObjectId> {
        self.reclaimed@
    }

    /// Objects that stay retired, in retirement order.
    pub closed spec fn kept(&self) -> Seq<ObjectId> {
        self.delayed@
    }

    /// Participants that may still hold a kept object, each once.
    pub closed spec fn holders(&self) -> Seq<ParticipantId> {
        self.blocked_by@
    }

    /// Returns the global epoch seen by the scan.
    pub fn global_epoch(&self) -> (e: usize)
        ensures
            e == self.epoch(),
    {
        self.global_epoch
    }

    /// Returns the objects reclaimed by the scan.
    pub fn reclaimed(&self) -> (s: &[ObjectId])
        ensures
            s@ == self.freed(),
    {
        self.reclaimed.as_slice()
    }

    /// Returns the objects that stay retired.
    pub fn delayed(&self) -> (s: &[ObjectId])
        ensures
            s@ == self.kept(),
    {
        self.delayed.as_slice()
    }

    /// Returns the participants that may still hold retired memory.
    pub fn blocked_by(&self) -> (s: &[ParticipantId])
        ensures
            s@ == self.holders(),
    {
        self.blocked_by.as_slice()
    }
}

/// Pinned participants with their epochs, in ascending order of identifier.
pub open spec fn ascending(entries: Seq<(ParticipantId, usize)>) -> bool {
    forall|i: int, j: int| 0 <= i < j < entries.len() ==> entries[i].0.value() < entries[j].0.value()
}

/// The participants pinned at an epoch strictly below `bound`, in the order
/// of `entries`.
pub open spec fn pinned_below(entries: Seq<(ParticipantId, usize)>, bound: int) -> Seq<ParticipantId>
    decreases entries.len(),
{
    if entries.len() == 0 {
        Seq::empty()
    } else {
        let rest = pinned_below(entries.drop_last(), bound);
        if entries.last().1 < bound {
            rest.push(entries.last().0)
        } else {
            rest
        }
    }
}

/// `target` followed by the elements of `source` it does not hold yet, in
/// order, each once.
pub open spec fn extend_unique(target: Seq<ParticipantId>, source: Seq<ParticipantId>) -> Seq<
    ParticipantId,
>
    decreases source.len(),
{
    if source.len() == 0 {
        target
    } else {
        let t = extend_unique(target, source.drop_last());
        if t.contains(source.last()) {
            t
        } else {
            t.push(source.last())
        }
    }
}

/// An object retired at `retired_epoch` can be reclaimed: the global epoch
/// is at least `lag` epochs later, and no participant is pinned at that
/// epoch or an earlier one.
pub open spec fn reclaimable(
    entries: Seq<(ParticipantId, usize)>,
    global: usize,
    lag: usize,
    retired_epoch: usize,
) -> bool {
    &&& retired_epoch + lag <= global
    &&& pinned_below(entries, retired_epoch + 1).len() == 0
}

/// What a scan does to `retired`: the objects that stay retired, the
/// identifiers reclaimed, the identifiers delayed and the participants that
/// hold delayed objects.
pub open spec fn scan_outcome(
    entries: Seq<(ParticipantId, usize)>,
    global: usize,
    lag: usize,
    retired: Seq<(ObjectId, usize, Seq<char>)>,
) -> (Seq<(ObjectId, usize, Seq<char>)>, Seq<ObjectId>, Seq<ObjectId>, Seq<ParticipantId>)
    decreases retired.len(),
{
    if retired.len() == 0 {
        (Seq::empty(), Seq::empty(), Seq::empty(), Seq::empty())
    } else {
        let (kept, freed, delayed, holders) = scan_outcome(entries, global, lag, retired.drop_last());
        let r = retired.last();
        if reclaimable(entries, global, lag, r.1) {
            (kept, freed.push(r.0), delayed, holders)
        } else {
            (kept.push(r), freed, delayed.push(r.0), extend_unique(holders, pinned_below(entries, r.1 + 1)))
        }
    }
}

/// The sequence `s` lists exactly the entries of the map `m` from
/// participant identifier to epoch.
spec fn lists_map(m: Map<usize, usize>, s: Seq<(ParticipantId, usize)>) -> bool {
    forall|k: usize, e: usize|
        (m.contains_key(k) && m[k] == e) <==> #[trigger] s.contains((ParticipantId(k), e))
}

/// Number of leading entries of `s` whose identifier is below `id`.
spec fn ids_below(s: Seq<(ParticipantId, usize)>, id: usize) -> int
    decreases s.len(),
{
    if s.len() == 0 {
        0
    } else if s.last().0.value() < id {
        s.len() as int
    } else {
        ids_below(s.drop_last(), id)
    }
}

/// In an ascending list, the entries below `id` are exactly those before
/// `ids_below(s, id)`.
proof fn lemma_ids_below(s: Seq<(ParticipantId, usize)>, id: usize)
    requires
        ascending(s),
    ensures
        0 <= ids_below(s, id) <= s.len(),
        forall|i: int| 0 <= i < ids_below(s, id) ==> s[i].0.value() < id,
        ids_below(s, id) < s.len() ==> s[ids_below(s, id)].0.value() >= id,
    decreases s.len(),
{
    if s.len() > 0 {
        let init = s.drop_last();
        if s.last().0.value() < id {
            assert forall|i: int| 0 <= i < s.len() implies s[i].0.value() < id by {
                if i < s.len() - 1 {
                    assert(s[i].0.value() < s[s.len() - 1].0.value());
                }
            }
        } else {
            assert(ascending(init)) by {
                assert forall|i: int, j: int| 0 <= i < j < init.len() implies init[i].0.value() < init[j].0.value() by {
                    assert(init[i] == s[i] && init[j] == s[j]);
                }
            }
            lemma_ids_below(init, id);
            assert forall|i: int| 0 <= i < ids_below(s, id) implies s[i].0.value() < id by {
                assert(init[i] == s[i]);
            }
            if ids_below(s, id) < init.len() {
                assert(init[ids_below(s, id)] == s[ids_below(s, id)]);
            }
        }
    }
}

/// Epoch-based reclamation domain.
///
/// It tracks pinned participants, retired objects and the global epoch.
/// No memory is managed: the domain states the conditions under which a
/// low-level collector may free an object.
pub struct EpochDomain {
    reclaim_lag: usize,
    global_epoch: usize,
    pinned: BTreeMap<usize, usize>,
    pin_list: Ghost<Seq<(ParticipantId, usize)>>,
    retired: Vec<RetiredObject>,
    reclaimed: Vec<ObjectId>,
}

impl EpochDomain {
    /// Epochs an object must age before it can be reclaimed.
    pub closed spec fn lag(&self) -> usize {
        self.reclaim_lag
    }

    /// Current global epoch.
    pub closed spec fn epoch(&self) -> usize {
        self.global_epoch
    }

    /// Pinned participants and their epochs, by ascending identifier.
    pub closed spec fn pins(&self) -> Seq<(ParticipantId, usize)> {
        self.pin_list@
    }

    /// Objects still retired, in retirement order.
    pub closed spec fn waiting(&self) -> Seq<(ObjectId, usize, Seq<char>)> {
        Seq::new(self.retired@.len(), |i: int| self.retired@[i]@)
    }

    /// Every object reclaimed so far, in reclamation order.
    pub closed spec fn history(&self) -> Seq<ObjectId> {
        self.reclaimed@
    }

    /// The lag is positive, and the map of pins (identifier to epoch)
    /// holds exactly the pins, which are listed by ascending identifier.
    pub closed spec fn wf(&self) -> bool {
        &&& self.reclaim_lag > 0
        &&& ascending(self.pin_list@)
        &&& lists_map(self.pinned@, self.pin_list@)
    }

    /// Creates a domain with the minimum lag before reclamation.
    pub fn new(reclaim_lag: usize) -> (d: Self)
        requires
            reclaim_lag > 0,
        ensures
            d.wf(),
            ascending(d.pins()),
            d.lag() == reclaim_lag,
            d.epoch() == 0,
            d.pins() == Seq::<(ParticipantId, usize)>::empty(),
            d.waiting() == Seq::<(ObjectId, usize, Seq<char>)>::empty(),
            d.history() == Seq::<ObjectId>::empty(),
    {
        let d = EpochDomain {
            reclaim_lag,
            global_epoch: 0,
            pinned: BTreeMap::new(),
            pin_list: Ghost(Seq::empty()),
            retired: Vec::new(),
            reclaimed: Vec::new(),
        };
        assert(d.waiting() =~= Seq::<(ObjectId, usize, Seq<char>)>::empty());
        d
    }

    /// Returns the current global epoch.
    pub fn global_epoch(&self) -> (e: usize)
        ensures
            e == self.epoch(),
    {
        self.global_epoch
    }

    /// The pins, by ascending identifier, read from the map.
    fn pin_entries(&self) -> (v: Vec<(ParticipantId, usize)>)
        requires
            self.wf(),
        ensures
            v@ == self.pins(),
    {
        let ghost all = IteratorSpec::remaining(&vstd::std_specs::btree::spec_btree_map_iter(&self.pinned));
        let mut v: Vec<(ParticipantId, usize)> = Vec::new();
        for entry in it: self.pinned.iter()
            invariant
                all == IteratorSpec::remaining(&vstd::std_specs::btree::spec_btree_map_iter(&self.pinned)),
                it.seq() == all,
                v@.len() == it.index(),
                forall|i: int| 0 <= i < it.index() ==> v@[i] == (ParticipantId(*all[i].0), *all[i].1),
        {
            v.push((ParticipantId(*entry.0), *entry.1));
        }
        proof {
            let keys = all.map_values(|kv: (&usize, &usize)| *kv.0);
            assert(vstd::std_specs::btree::increasing_seq(keys));
            assert(v@.len() == all.len());
            assert forall|i: int, j: int| 0 <= i < j < v@.len() implies v@[i].0.value() < v@[j].0.value() by {
                assert(keys[i] == v@[i].0.0);
                assert(keys[j] == v@[j].0.0);
                assert(vstd::std_specs::cmp::OrdSpec::cmp_spec(&keys[i], &keys[j]) is Less);
            }
            assert forall|x: (ParticipantId, usize)| v@.contains(x) <==> self.pin_list@.contains(x) by {
                let k = x.0.0;
                let e = x.1;
                assert(x == (ParticipantId(k), e));
                if v@.contains(x) {
                    let i = choose|i: int| 0 <= i < v@.len() && v@[i] == x;
                    assert(self.pinned@.contains_key(*all[i].0));
                    assert(lists_map(self.pinned@, self.pin_list@));
                }
                if self.pin_list@.contains(x) {
                    assert(self.pinned@.contains_key(k) && self.pinned@[k] == e);
                    assert(all.contains((&k, &self.pinned@[k])));
                    let i = choose|i: int| 0 <= i < all.len() && all[i] == (&k, &self.pinned@[k]);
                    assert(v@[i] == x);
                }
            }
            lemma_ascending_unique(v@, self.pin_list@);
        }
        v
    }

    /// Pins `participant` at the current global epoch, replacing an earlier
    /// pin of the same participant.
    pub fn pin(&mut self, participant: ParticipantId) -> (p: Pin)
        requires
            old(self).wf(),
        ensures
            final(self).wf(),
            ascending(final(self).pins()),
            p.holder() == participant,
            p.observed() == old(self).epoch(),
            forall|q: ParticipantId, e: usize|
                final(self).pins().contains((q, e)) <==> ((q == participant && e == old(self).epoch())
                    || (q != participant && old(self).pins().contains((q, e)))),
            final(self).epoch() == old(self).epoch(),
            final(self).lag() == old(self).lag(),
            final(self).waiting() == old(self).waiting(),
            final(self).history() == old(self).history(),
    {
        let epoch = self.global_epoch;
        let ghost before = self.pin_list@;
        let ghost position = ids_below(before, participant.value());
        proof {
            lemma_ids_below(before, participant.value());
        }
        let ghost replaced = position < before.len() && before[position].0 == participant;
        let ghost after = if replaced {
            before.update(position, (participant, epoch))
        } else {
            before.insert(position, (participant, epoch))
        };
        self.pinned.insert(participant.0, epoch);
        self.pin_list = Ghost(after);
        proof {
            assert forall|i: int, j: int| 0 <= i < j < after.len() implies after[i].0.value() < after[j].0.value() by {
                if replaced {
                } else {
                    let pi = if i < position { i } else { i - 1 };
                    let pj = if j < position { j } else { j - 1 };
                    if i != position {
                        assert(after[i] == before[pi]);
                    }
                    if j != position {
                        assert(after[j] == before[pj]);
                    }
                }
            }
            assert forall|q: ParticipantId, e: usize|
                after.contains((q, e)) <==> ((q == participant && e == epoch) || (q != participant
                    && before.contains((q, e)))) by {
                if after.contains((q, e)) {
                    let a = choose|a: int| 0 <= a < after.len() && after[a] == (q, e);
                    if a != position {
                        let pa = if replaced || a < position { a } else { a - 1 };
                        assert(after[a] == before[pa]);
                        if q == participant {
                            assert(before[pa].0.value() == participant.value());
                            if replaced {
                                assert(before[position].0.value() == participant.value());
                            }
                        }
                    }
                }
                if q == participant && e == epoch {
                    assert(after[position] == (q, e));
                }
                if q != participant && before.contains((q, e)) {
                    let b = choose|b: int| 0 <= b < before.len() && before[b] == (q, e);
                    let pb = if replaced || b < position { b } else { b + 1 };
                    if replaced && b == position {
                        assert(before[b].0.value() == participant.value());
                    }
                    assert(after[pb] == (q, e));
                }
            }
            assert forall|k: usize, e: usize|
                (self.pinned@.contains_key(k) && self.pinned@[k] == e) <==> #[trigger] after.contains((ParticipantId(k), e)) by {
                assert(old(self).wf());
                if k == participant.0 {
                    assert(ParticipantId(k) == participant);
                } else {
                    assert(ParticipantId(k) != participant);
                    assert((old(self).pinned@.contains_key(k) && old(self).pinned@[k] == e) <==> before.contains((ParticipantId(k), e)));
                }
            }
        }
        Pin::new(participant, epoch)
    }

    /// Marks `participant` as quiescent: its pin is removed.
    pub fn unpin(&mut self, participant: ParticipantId)
        requires
            old(self).wf(),
        ensures
            final(self).wf(),
            ascending(final(self).pins()),
            forall|q: ParticipantId, e: usize|
                final(self).pins().contains((q, e)) <==> (q != participant && old(self).pins().contains(
                    (q, e),
                )),
            final(self).epoch() == old(self).epoch(),
            final(self).lag() == old(self).lag(),
            final(self).waiting() == old(self).waiting(),
            final(self).history() == old(self).history(),
    {
        let ghost before = self.pin_list@;
        let ghost present = exists|i: int| 0 <= i < before.len() && before[i].0 == participant;
        let ghost i = choose|i: int| 0 <= i < before.len() && before[i].0 == participant;
        let ghost after = if present { before.remove(i) } else { before };
        self.pinned.remove(&participant.0);
        self.pin_list = Ghost(after);
        proof {
            if present {
                assert forall|a: int, b: int| 0 <= a < b < after.len() implies after[a].0.value()
                    < after[b].0.value() by {
                    let pa = if a < i { a } else { a + 1 };
                    let pb = if b < i { b } else { b + 1 };
                    assert(after[a] == before[pa]);
                    assert(after[b] == before[pb]);
                }
            }
            assert forall|q: ParticipantId, e: usize|
                after.contains((q, e)) <==> (q != participant && before.contains((q, e))) by {
                if present {
                    if after.contains((q, e)) {
                        let a = choose|a: int| 0 <= a < after.len() && after[a] == (q, e);
                        let pa = if a < i { a } else { a + 1 };
                        assert(after[a] == before[pa]);
                        if q == participant {
                            assert(before[pa].0.value() == before[i].0.value());
                        }
                    }
                    if q != participant && before.contains((q, e)) {
                        let b = choose|b: int| 0 <= b < before.len() && before[b] == (q, e);
                        let pb = if b < i { b } else { b - 1 };
                        assert(b != i);
                        assert(after[pb] == (q, e));
                    }
                } else {
                    if before.contains((q, e)) {
                        let b = choose|b: int| 0 <= b < before.len() && before[b] == (q, e);
                        assert(before[b].0 != participant);
                    }
                }
            }
            assert forall|k: usize, e: usize|
                (self.pinned@.contains_key(k) && self.pinned@[k] == e) <==> #[trigger] after.contains((ParticipantId(k), e)) by {
                assert(old(self).wf());
                if k == participant.0 {
                    assert(ParticipantId(k) == participant);
                } else {
                    assert(ParticipantId(k) != participant);
                    assert((old(self).pinned@.contains_key(k) && old(self).pinned@[k] == e) <==> before.contains((ParticipantId(k), e)));
                }
            }
        }
    }

    /// Whether `participant` is pinned.
    pub fn is_pinned(&self, participant: ParticipantId) -> (b: bool)
        requires
            self.wf(),
        ensures
            b == exists|e: usize| self.pins().contains((participant, e)),
    {
        let b = self.pinned.contains_key(&participant.0);
        proof {
            let k = participant.0;
            assert(ParticipantId(k) == participant);
            if b {
                let e = self.pinned@[k];
                assert(self.pins().contains((participant, e)));
            } else {
                assert forall|e: usize| !self.pins().contains((participant, e)) by {
                    assert(!(self.pinned@.contains_key(k) && self.pinned@[k] == e));
                }
            }
        }
        b
    }

    /// Returns the pinned participants by ascending identifier.
    pub fn pinned_participants(&self) -> (v: Vec<ParticipantId>)
        requires
            self.wf(),
        ensures
            v@ == Seq::new(self.pins().len(), |i: int| self.pins()[i].0),
    {
        let entries = self.pin_entries();
        let mut v: Vec<ParticipantId> = Vec::new();
        let mut i: usize = 0;
        while i < entries.len()
            invariant
                i <= entries@.len(),
                v@ == Seq::new(i as nat, |k: int| entries@[k].0),
            decreases entries@.len() - i,
        {
            v.push(entries[i].0);
            i = i + 1;
            proof {
                assert(v@ =~= Seq::new(i as nat, |k: int| entries@[k].0));
            }
        }
        v
    }

    /// Retires `object` at the current global epoch.
    pub fn retire(&mut self, object: ObjectId, payload: &str) -> (r: RetiredObject)
        ensures
            r@ == (object, old(self).epoch(), payload@),
            final(self).waiting() == old(self).waiting().push(r@),
            final(self).epoch() == old(self).epoch(),
            final(self).lag() == old(self).lag(),
            final(self).pins() == old(self).pins(),
            final(self).history() == old(self).history(),
            old(self).wf() ==> final(self).wf(),
    {
        let retired = RetiredObject::new(object, self.global_epoch, payload);
        self.retired.push(RetiredObject::new(object, self.global_epoch, payload));
        proof {
            assert(self.waiting() =~= old(self).waiting().push(retired@));
        }
        retired
    }

    /// Tries to advance the global epoch.
    ///
    /// Participants pinned at the current epoch still allow one advance: they
    /// all observed the epoch in force. Participants pinned at an earlier
    /// epoch are stale and block the advance.
    pub fn try_advance(&mut self) -> (a: EpochAdvance)
        requires
            old(self).wf(),
            old(self).epoch() < usize::MAX,
        ensures
            final(self).wf(),
            ascending(old(self).pins()),
            pinned_below(old(self).pins(), old(self).epoch() as int).len() == 0 ==> {
                &&& a.moved()
                &&& a.before() == old(self).epoch()
                &&& a.after() == old(self).epoch() + 1
                &&& a.blockers() == Seq::<ParticipantId>::empty()
                &&& final(self).epoch() == old(self).epoch() + 1
            },
            pinned_below(old(self).pins(), old(self).epoch() as int).len() > 0 ==> {
                &&& !a.moved()
                &&& a.before() == old(self).epoch()
                &&& a.after() == old(self).epoch()
                &&& a.blockers() == pinned_below(old(self).pins(), old(self).epoch() as int)
                &&& final(self).epoch() == old(self).epoch()
            },
            final(self).pins() == old(self).pins(),
            final(self).lag() == old(self).lag(),
            final(self).waiting() == old(self).waiting(),
            final(self).history() == old(self).history(),
            a.moved() <==> forall|q: ParticipantId, e: usize|
                #[trigger] old(self).pins().contains((q, e)) ==> e >= old(self).epoch(),
            forall|q: ParticipantId|
                #[trigger] a.blockers().contains(q) <==> (!a.moved() && exists|e: usize|
                    #![trigger old(self).pins().contains((q, e))]
                    old(self).pins().contains((q, e)) && e < old(self).epoch()),
            forall|i: int, j: int|
                0 <= i < j < a.blockers().len() ==> (#[trigger] a.blockers()[i]).value() < (
                #[trigger] a.blockers()[j]).value(),
    {
        proof {
            lemma_pinned_below_exact(self.pins(), self.epoch() as int);
            let pb = pinned_below(self.pins(), self.epoch() as int);
            if pb.len() > 0 {
                assert(pb.contains(pb[0]));
            }
            if exists|q: ParticipantId, e: usize| #[trigger] self.pins().contains((q, e)) && e < self.epoch() {
                let (q, e) = choose|q: ParticipantId, e: usize| #[trigger] self.pins().contains((q, e)) && e < self.epoch();
                assert(pb.contains(q));
            }
        }
        let entries = self.pin_entries();
        let blocked_by = stale_participants(&entries, self.global_epoch);
        if blocked_by.len() == 0 {
            let previous_epoch = self.global_epoch;
            self.global_epoch = self.global_epoch + 1;
            EpochAdvance::advanced_result(previous_epoch, self.global_epoch)
        } else {
            EpochAdvance::blocked(self.global_epoch, blocked_by)
        }
    }

    /// Scans the retired objects and reclaims those that are safe.
    ///
    /// An object can be reclaimed once it has aged by the lag and no
    /// participant is pinned at the epoch of its retirement or an earlier
    /// one.
    pub fn scan(&mut self) -> (report: ReclaimReport)
        requires
            old(self).wf(),
        ensures
            final(self).wf(),
            ({
                let (kept, freed, delayed, holders) = scan_outcome(
                    old(self).pins(),
                    old(self).epoch(),
                    old(self).lag(),
                    old(self).waiting(),
                );
                &&& report.epoch() == old(self).epoch()
                &&& report.freed() == freed
                &&& report.kept() == delayed
                &&& report.holders() == holders
                &&& final(self).waiting() == kept
                &&& final(self).history() == old(self).history() + freed
            }),
            final(self).epoch() == old(self).epoch(),
            final(self).lag() == old(self).lag(),
            final(self).pins() == old(self).pins(),
            forall|q: ParticipantId|
                #[trigger] report.holders().contains(q) <==> exists|i: int, e: usize|
                    #![trigger old(self).pins().contains((q, e)), old(self).waiting()[i]]
                    0 <= i < old(self).waiting().len() && old(self).pins().contains((q, e)) && e
                        <= old(self).waiting()[i].1,
            report.holders().no_duplicates(),
    {
        proof {
            lemma_scan_holders_exact(self.pins(), self.epoch(), self.lag(), self.waiting());
        }
        let global_epoch = self.global_epoch;
        let lag = self.reclaim_lag;
        let mut reclaimed: Vec<ObjectId> = Vec::new();
        let mut delayed: Vec<ObjectId> = Vec::new();
        let mut still_retired: Vec<RetiredObject> = Vec::new();
        let mut blocked_by: Vec<ParticipantId> = Vec::new();
        let ghost all = self.waiting();
        let entries = self.pin_entries();
        let mut i: usize = 0;
        while i < self.retired.len()
            invariant
                i <= self.retired@.len(),
                all == self.waiting(),
                *self == *old(self),
                entries@ == self.pins(),
                global_epoch == self.global_epoch,
                lag == self.reclaim_lag,
                ({
                    let (kept, freed, del, holders) = scan_outcome(
                        entries@,
                        global_epoch,
                        lag,
                        all.subrange(0, i as int),
                    );
                    &&& Seq::new(still_retired@.len(), |k: int| still_retired@[k]@) == kept
                    &&& reclaimed@ == freed
                    &&& delayed@ == del
                    &&& blocked_by@ == holders
                }),
            decreases self.retired@.len() - i,
        {
            let ghost prefix = all.subrange(0, i as int);
            let ghost kept_before = Seq::new(still_retired@.len(), |k: int| still_retired@[k]@);
            proof {
                assert(all.subrange(0, i + 1).drop_last() =~= prefix);
                assert(all.subrange(0, i + 1).last() == self.retired@[i as int]@);
            }
            let retired = &self.retired[i];
            let blockers = object_blockers(&entries, retired.retired_epoch);
            let mature = global_epoch >= lag && retired.retired_epoch <= global_epoch - lag;
            if mature && blockers.len() == 0 {
                reclaimed.push(retired.id);
            } else {
                delayed.push(retired.id);
                still_retired.push(retired.duplicate());
                extend_unique_into(&mut blocked_by, blockers);
                proof {
                    assert(Seq::new(still_retired@.len(), |k: int| still_retired@[k]@) =~= kept_before.push(
                        self.retired@[i as int]@,
                    ));
                }
            }
            i = i + 1;
        }
        proof {
            assert(all.subrange(0, i as int) =~= all);
        }
        let ghost still_retired_view = still_retired@;
        self.retired = still_retired;
        let mut k: usize = 0;
        let ghost history = self.reclaimed@;
        while k < reclaimed.len()
            invariant
                k <= reclaimed@.len(),
                self.reclaimed@ == history + reclaimed@.subrange(0, k as int),
                history == old(self).reclaimed@,
                self.reclaim_lag == old(self).reclaim_lag,
                self.global_epoch == old(self).global_epoch,
                self.pinned@ == old(self).pinned@,
                self.pin_list == old(self).pin_list,
                self.retired@ == still_retired_view,
            decreases reclaimed@.len() - k,
        {
            self.reclaimed.push(reclaimed[k]);
            k = k + 1;
            proof {
                assert(self.reclaimed@ =~= history + reclaimed@.subrange(0, k as int));
            }
        }
        proof {
            assert(reclaimed@.subrange(0, k as int) =~= reclaimed@);
        }
        ReclaimReport { global_epoch, reclaimed, delayed, blocked_by }
    }

    /// Returns the identifiers of the objects still retired.
    pub fn retired_objects(&self) -> (v: Vec<ObjectId>)
        ensures
            v@ == Seq::new(self.waiting().len(), |i: int| self.waiting()[i].0),
    {
        let mut v: Vec<ObjectId> = Vec::new();
        let mut i: usize = 0;
        while i < self.retired.len()
            invariant
                i <= self.retired@.len(),
                v@ == Seq::new(i as nat, |k: int| self.retired@[k]@.0),
            decreases self.retired@.len() - i,
        {
            v.push(self.retired[i].id());
            i = i + 1;
            proof {
                assert(v@ =~= Seq::new(i as nat, |k: int| self.retired@[k]@.0));
            }
        }
        proof {
            assert(v@ =~= Seq::new(self.waiting().len(), |i: int| self.waiting()[i].0));
        }
        v
    }

    /// Returns every object reclaimed so far.
    pub fn reclaimed_objects(&self) -> (v: Vec<ObjectId>)
        ensures
            v@ == self.history(),
    {
        self.reclaimed.clone()
    }
}

/// Participants pinned at an epoch strictly below `bound`.
fn pinned_before_bound(pinned: &Vec<(ParticipantId, usize)>, bound: usize, inclusive: bool) -> (v: Vec<
    ParticipantId,
>)
    ensures
        v@ == pinned_below(pinned@, if inclusive {
            bound + 1
        } else {
            bound as int
        }),
{
    let ghost limit: int = if inclusive {
        bound + 1
    } else {
        bound as int
    };
    let mut v: Vec<ParticipantId> = Vec::new();
    let mut i: usize = 0;
    while i < pinned.len()
        invariant
            i <= pinned@.len(),
            limit == (if inclusive {
                bound + 1
            } else {
                bound as int
            }),
            v@ == pinned_below(pinned@.subrange(0, i as int), limit),
        decreases pinned@.len() - i,
    {
        proof {
            assert(pinned@.subrange(0, i + 1).drop_last() =~= pinned@.subrange(0, i as int));
        }
        let (participant, epoch) = pinned[i];
        if (inclusive && epoch <= bound) || (!inclusive && epoch < bound) {
            v.push(participant);
        }
        i = i + 1;
    }
    proof {
        assert(pinned@.subrange(0, i as int) =~= pinned@);
    }
    v
}

/// Participants still pinned at an epoch older than the global one.
fn stale_participants(pinned: &Vec<(ParticipantId, usize)>, global_epoch: usize) -> (v: Vec<
    ParticipantId,
>)
    ensures
        v@ == pinned_below(pinned@, global_epoch as int),
{
    pinned_before_bound(pinned, global_epoch, false)
}

/// Participants pinned at `retired_epoch` or earlier, who may hold an object
/// retired then.
fn object_blockers(pinned: &Vec<(ParticipantId, usize)>, retired_epoch: usize) -> (v: Vec<
    ParticipantId,
>)
    ensures
        v@ == pinned_below(pinned@, retired_epoch + 1),
{
    pinned_before_bound(pinned, retired_epoch, true)
}

/// Appends the participants of `source` that `target` does not hold yet.
fn extend_unique_into(target: &mut Vec<ParticipantId>, source: Vec<ParticipantId>)
    ensures
        final(target)@ == extend_unique(old(target)@, source@),
{
    let ghost start = target@;
    let mut i: usize = 0;
    while i < source.len()
        invariant
            i <= source@.len(),
            target@ == extend_unique(start, source@.subrange(0, i as int)),
        decreases source@.len() - i,
    {
        proof {
            assert(source@.subrange(0, i + 1).drop_last() =~= source@.subrange(0, i as int));
        }
        let participant = source[i];
        let mut found = false;
        let mut k: usize = 0;
        while k < target.len()
            invariant
                k <= target@.len(),
                found == (exists|j: int| 0 <= j < k && target@[j] == participant),
            decreases target@.len() - k,
        {
            if target[k].0 == participant.0 {
                found = true;
            }
            k = k + 1;
        }
        if !found {
            target.push(participant);
        }
        i = i + 1;
    }
    proof {
        assert(source@.subrange(0, i as int) =~= source@);
    }
}

/// No participant is pinned below `bound` exactly when `pinned_below` is
/// empty.
pub proof fn lemma_pinned_below_empty(entries: Seq<(ParticipantId, usize)>, bound: int)
    ensures
        pinned_below(entries, bound).len() == 0 <==> forall|i: int|
            0 <= i < entries.len() ==> #[trigger] entries[i].1 >= bound,
    decreases entries.len(),
{
    if entries.len() > 0 {
        let init = entries.drop_last();
        lemma_pinned_below_empty(init, bound);
        if pinned_below(entries, bound).len() == 0 {
            assert forall|i: int| 0 <= i < entries.len() implies #[trigger] entries[i].1 >= bound by {
                if i < entries.len() - 1 {
                    assert(init[i] == entries[i]);
                }
            }
        } else {
            if pinned_below(init, bound).len() > 0 {
                let i = choose|i: int| 0 <= i < init.len() && init[i].1 < bound;
                assert(entries[i] == init[i]);
            }
        }
    }
}

/// Two pin lists in ascending order of identifier that hold the same
/// entries are the same list: the pins of a domain are determined by which
/// participants are pinned at which epoch.
pub proof fn lemma_ascending_unique(a: Seq<(ParticipantId, usize)>, b: Seq<(ParticipantId, usize)>)
    requires
        ascending(a),
        ascending(b),
        forall|x: (ParticipantId, usize)| a.contains(x) <==> b.contains(x),
    ensures
        a == b,
    decreases a.len(),
{
    if a.len() == 0 {
        if b.len() > 0 {
            assert(b.contains(b[0]));
        }
        assert(b =~= a);
    } else if b.len() == 0 {
        assert(a.contains(a[0]));
    } else {
        assert(a.contains(a[0]));
        assert(b.contains(b[0]));
        let j = choose|j: int| 0 <= j < b.len() && b[j] == a[0];
        let i = choose|i: int| 0 <= i < a.len() && a[i] == b[0];
        assert(j == 0) by {
            if j > 0 {
                assert(b[0].0.value() < b[j].0.value());
                if i > 0 {
                    assert(a[0].0.value() < a[i].0.value());
                }
            }
        }
        let a1 = a.drop_first();
        let b1 = b.drop_first();
        assert forall|x: (ParticipantId, usize)| a1.contains(x) <==> b1.contains(x) by {
            if a1.contains(x) {
                let k = choose|k: int| 0 <= k < a1.len() && a1[k] == x;
                assert(a[k + 1] == x);
                assert(a.contains(x));
                let m = choose|m: int| 0 <= m < b.len() && b[m] == x;
                assert(a[0].0.value() < a[k + 1].0.value());
                assert(m != 0);
                assert(b1[m - 1] == x);
            }
            if b1.contains(x) {
                let k = choose|k: int| 0 <= k < b1.len() && b1[k] == x;
                assert(b[k + 1] == x);
                assert(b.contains(x));
                let m = choose|m: int| 0 <= m < a.len() && a[m] == x;
                assert(b[0].0.value() < b[k + 1].0.value());
                assert(m != 0);
                assert(a1[m - 1] == x);
            }
        }
        assert(ascending(a1)) by {
            assert forall|p: int, q: int| 0 <= p < q < a1.len() implies a1[p].0.value() < a1[q].0.value() by {
                assert(a1[p] == a[p + 1] && a1[q] == a[q + 1]);
            }
        }
        assert(ascending(b1)) by {
            assert forall|p: int, q: int| 0 <= p < q < b1.len() implies b1[p].0.value() < b1[q].0.value() by {
                assert(b1[p] == b[p + 1] && b1[q] == b[q + 1]);
            }
        }
        lemma_ascending_unique(a1, b1);
        assert(a =~= b) by {
            assert(a.len() == a1.len() + 1);
            assert(b.len() == b1.len() + 1);
            assert forall|k: int| 0 <= k < a.len() implies a[k] == b[k] by {
                if k > 0 {
                    assert(a[k] == a1[k - 1]);
                    assert(b[k] == b1[k - 1]);
                }
            }
        }
    }
}

/// The participants reported below a bound are exactly those pinned at an
/// epoch strictly below it; over pins listed by ascending identifier they
/// come by ascending identifier, each once.
pub proof fn lemma_pinned_below_exact(entries: Seq<(ParticipantId, usize)>, bound: int)
    ensures
        forall|q: ParticipantId|
            #[trigger] pinned_below(entries, bound).contains(q) <==> exists|e: usize|
                #![trigger entries.contains((q, e))]
                entries.contains((q, e)) && e < bound,
        ascending(entries) ==> forall|i: int, j: int|
            0 <= i < j < pinned_below(entries, bound).len() ==> (#[trigger] pinned_below(entries, bound)[i]).value()
                < (#[trigger] pinned_below(entries, bound)[j]).value(),
    decreases entries.len(),
{
    if entries.len() > 0 {
        let init = entries.drop_last();
        let last = entries.last();
        let rest = pinned_below(init, bound);
        lemma_pinned_below_exact(init, bound);
        let pb = pinned_below(entries, bound);
        assert forall|q: ParticipantId| #[trigger] pb.contains(q) <==> exists|e: usize|
            #![trigger entries.contains((q, e))]
            entries.contains((q, e)) && e < bound by {
            if pb.contains(q) {
                if rest.contains(q) {
                    let e = choose|e: usize| init.contains((q, e)) && e < bound;
                    let k = choose|k: int| 0 <= k < init.len() && init[k] == (q, e);
                    assert(entries[k] == (q, e));
                    assert(entries.contains((q, e)));
                } else {
                    assert(last.1 < bound && q == last.0);
                    assert(entries[entries.len() - 1] == (q, last.1));
                    assert(entries.contains((q, last.1)));
                }
            }
            if exists|e: usize| #![trigger entries.contains((q, e))] entries.contains((q, e)) && e < bound {
                let e = choose|e: usize| entries.contains((q, e)) && e < bound;
                let k = choose|k: int| 0 <= k < entries.len() && entries[k] == (q, e);
                if k < entries.len() - 1 {
                    assert(init[k] == (q, e));
                    assert(init.contains((q, e)));
                    assert(rest.contains(q));
                    if last.1 < bound {
                        assert(pb == rest.push(last.0));
                        let m = choose|m: int| 0 <= m < rest.len() && rest[m] == q;
                        assert(pb[m] == q);
                    }
                } else {
                    assert(pb == rest.push(last.0));
                    assert(pb[rest.len() as int] == q);
                }
            }
        }
        if ascending(entries) {
            assert(ascending(init)) by {
                assert forall|i: int, j: int| 0 <= i < j < init.len() implies init[i].0.value() < init[j].0.value() by {
                    assert(init[i] == entries[i] && init[j] == entries[j]);
                }
            }
            if last.1 < bound {
                assert forall|i: int, j: int| 0 <= i < j < pb.len() implies (#[trigger] pb[i]).value() < (#[trigger] pb[j]).value() by {
                    if j < rest.len() {
                        assert(pb[i] == rest[i] && pb[j] == rest[j]);
                    } else {
                        assert(pb[j] == last.0);
                        assert(pb[i] == rest[i]);
                        assert(rest.contains(rest[i]));
                        let q = rest[i];
                        let e = choose|e: usize| init.contains((q, e)) && e < bound;
                        let k = choose|k: int| 0 <= k < init.len() && init[k] == (q, e);
                        assert(entries[k] == (q, e));
                        assert(entries[k].0.value() < entries[entries.len() - 1].0.value());
                    }
                }
            }
        }
    }
}

/// `extend_unique` keeps `target` in front, adds exactly the elements of
/// `source`, and brings in no duplicate.
pub proof fn lemma_extend_unique_exact(target: Seq<ParticipantId>, source: Seq<ParticipantId>)
    ensures
        forall|x: ParticipantId|
            #[trigger] extend_unique(target, source).contains(x) <==> (target.contains(x) || source.contains(x)),
        extend_unique(target, source).len() >= target.len(),
        extend_unique(target, source).subrange(0, target.len() as int) == target,
        target.no_duplicates() ==> extend_unique(target, source).no_duplicates(),
    decreases source.len(),
{
    if source.len() > 0 {
        let init = source.drop_last();
        let x0 = source.last();
        let t = extend_unique(target, init);
        lemma_extend_unique_exact(target, init);
        let r = extend_unique(target, source);
        assert forall|x: ParticipantId| #[trigger] r.contains(x) <==> (target.contains(x) || source.contains(x)) by {
            if source.contains(x) {
                let k = choose|k: int| 0 <= k < source.len() && source[k] == x;
                if k < source.len() - 1 {
                    assert(init[k] == x);
                    assert(init.contains(x));
                }
            }
            if init.contains(x) {
                let k = choose|k: int| 0 <= k < init.len() && init[k] == x;
                assert(source[k] == x);
            }
            if !t.contains(x0) {
                assert(r == t.push(x0));
                assert(r[t.len() as int] == x0);
                if t.contains(x) {
                    let k = choose|k: int| 0 <= k < t.len() && t[k] == x;
                    assert(r[k] == x);
                }
                if r.contains(x) {
                    let k = choose|k: int| 0 <= k < r.len() && r[k] == x;
                    if k < t.len() {
                        assert(t[k] == x);
                    }
                }
            }
        }
        if !t.contains(x0) {
            assert(r.subrange(0, target.len() as int) =~= t.subrange(0, target.len() as int));
            if target.no_duplicates() {
                assert forall|a: int, b: int| 0 <= a < r.len() && 0 <= b < r.len() && a != b implies r[a] != r[b] by {
                    if a < t.len() && b < t.len() {
                        assert(r[a] == t[a] && r[b] == t[b]);
                    } else if a < t.len() {
                        assert(r[a] == t[a]);
                        assert(t.contains(t[a]));
                    } else {
                        assert(r[b] == t[b]);
                        assert(t.contains(t[b]));
                    }
                }
            }
        }
    }
}

/// An object retired at `retired_epoch` can be reclaimed exactly when it
/// has aged by the lag and every pin is at a later epoch.
pub proof fn lemma_reclaimable_exact(
    entries: Seq<(ParticipantId, usize)>,
    global: usize,
    lag: usize,
    retired_epoch: usize,
)
    ensures
        reclaimable(entries, global, lag, retired_epoch) <==> (retired_epoch + lag <= global && forall|
            q: ParticipantId,
            e: usize,
        | #[trigger] entries.contains((q, e)) ==> e > retired_epoch),
{
    lemma_pinned_below_exact(entries, retired_epoch + 1);
    let pb = pinned_below(entries, retired_epoch + 1);
    if pb.len() > 0 {
        assert(pb.contains(pb[0]));
    }
    if exists|q: ParticipantId, e: usize| #[trigger] entries.contains((q, e)) && e <= retired_epoch {
        let (q, e) = choose|q: ParticipantId, e: usize| #[trigger] entries.contains((q, e)) && e <= retired_epoch;
        assert(pb.contains(q));
    }
}

/// The participants reported as holding delayed objects are, each once,
/// exactly the participants pinned at or before the retirement epoch of some
/// retired object; every such object is delayed, since a pin at or before
/// its epoch keeps it from being reclaimed.
pub proof fn lemma_scan_holders_exact(
    entries: Seq<(ParticipantId, usize)>,
    global: usize,
    lag: usize,
    retired: Seq<(ObjectId, usize, Seq<char>)>,
)
    ensures
        forall|q: ParticipantId|
            #[trigger] scan_outcome(entries, global, lag, retired).3.contains(q) <==> exists|i: int, e: usize|
                #![trigger entries.contains((q, e)), retired[i]]
                0 <= i < retired.len() && entries.contains((q, e)) && e <= retired[i].1,
        scan_outcome(entries, global, lag, retired).3.no_duplicates(),
    decreases retired.len(),
{
    if retired.len() > 0 {
        let init = retired.drop_last();
        let r = retired.last();
        lemma_scan_holders_exact(entries, global, lag, init);
        let before = scan_outcome(entries, global, lag, init).3;
        let after = scan_outcome(entries, global, lag, retired).3;
        lemma_reclaimable_exact(entries, global, lag, r.1);
        lemma_pinned_below_exact(entries, r.1 + 1);
        lemma_extend_unique_exact(before, pinned_below(entries, r.1 + 1));
        assert forall|q: ParticipantId| #[trigger] after.contains(q) <==> exists|i: int, e: usize|
            #![trigger entries.contains((q, e)), retired[i]]
            0 <= i < retired.len() && entries.contains((q, e)) && e <= retired[i].1 by {
            if after.contains(q) {
                if before.contains(q) {
                    let (i, e) = choose|i: int, e: usize|
                        #![trigger entries.contains((q, e)), init[i]]
                        0 <= i < init.len() && entries.contains((q, e)) && e <= init[i].1;
                    assert(retired[i] == init[i]);
                } else {
                    assert(pinned_below(entries, r.1 + 1).contains(q));
                    let e = choose|e: usize| entries.contains((q, e)) && e < r.1 + 1;
                    assert(retired[retired.len() - 1] == r);
                }
            }
            if exists|i: int, e: usize|
                #![trigger entries.contains((q, e)), retired[i]]
                0 <= i < retired.len() && entries.contains((q, e)) && e <= retired[i].1 {
                let (i, e) = choose|i: int, e: usize|
                    #![trigger entries.contains((q, e)), retired[i]]
                    0 <= i < retired.len() && entries.contains((q, e)) && e <= retired[i].1;
                if i < retired.len() - 1 {
                    assert(init[i] == retired[i]);
                    assert(before.contains(q));
                } else {
                    assert(retired[i] == r);
                    assert(!reclaimable(entries, global, lag, r.1));
                    assert(pinned_below(entries, r.1 + 1).contains(q));
                }
            }
        }
    }
}

/// A scan loses no object: every retired object either stays retired or is
/// reclaimed, and the delayed identifiers are those of the objects that stay.
pub proof fn lemma_scan_conserves(
    entries: Seq<(ParticipantId, usize)>,
    global: usize,
    lag: usize,
    retired: Seq<(ObjectId, usize, Seq<char>)>,
)
    ensures
        ({
            let (kept, freed, delayed, holders) = scan_outcome(entries, global, lag, retired);
            &&& kept.len() + freed.len() == retired.len()
            &&& delayed == Seq::new(kept.len(), |i: int| kept[i].0)
        }),
    decreases retired.len(),
{
    if retired.len() > 0 {
        lemma_scan_conserves(entries, global, lag, retired.drop_last());
        let (kept, freed, delayed, holders) = scan_outcome(entries, global, lag, retired.drop_last());
        let (k2, f2, d2, h2) = scan_outcome(entries, global, lag, retired);
        assert(d2 =~= Seq::new(k2.len(), |i: int| k2[i].0));
    }
}

/// Safety: an object stays retired while a participant is pinned at the
/// epoch of its retirement or an earlier one, and while it has not aged by
/// the lag.
pub proof fn lemma_scan_keeps_guarded(
    entries: Seq<(ParticipantId, usize)>,
    global: usize,
    lag: usize,
    retired: Seq<(ObjectId, usize, Seq<char>)>,
    k: int,
)
    requires
        0 <= k < retired.len(),
        (exists|i: int| 0 <= i < entries.len() && entries[i].1 <= retired[k].1) || retired[k].1 + lag
            > global,
    ensures
        scan_outcome(entries, global, lag, retired).0.contains(retired[k]),
    decreases retired.len(),
{
    lemma_pinned_below_empty(entries, retired[k].1 + 1);
    if exists|i: int| 0 <= i < entries.len() && entries[i].1 <= retired[k].1 {
        let i = choose|i: int| 0 <= i < entries.len() && entries[i].1 <= retired[k].1;
        assert(entries[i].1 < retired[k].1 + 1);
    }
    let kept = scan_outcome(entries, global, lag, retired).0;
    if k == retired.len() - 1 {
        assert(kept.last() == retired[k]);
        assert(kept[kept.len() - 1] == retired[k]);
    } else {
        let init = retired.drop_last();
        assert(init[k] == retired[k]);
        lemma_scan_keeps_guarded(entries, global, lag, init, k);
        let before = scan_outcome(entries, global, lag, init).0;
        let j = choose|j: int| 0 <= j < before.len() && before[j] == retired[k];
        assert(kept[j] == retired[k]);
    }
}

/// Progress: an object that has aged by the lag and that no pinned
/// participant can hold is reclaimed by the scan.
pub proof fn lemma_scan_frees_unguarded(
    entries: Seq<(ParticipantId, usize)>,
    global: usize,
    lag: usize,
    retired: Seq<(ObjectId, usize, Seq<char>)>,
    k: int,
)
    requires
        0 <= k < retired.len(),
        forall|i: int| 0 <= i < entries.len() ==> entries[i].1 > retired[k].1,
        retired[k].1 + lag <= global,
    ensures
        scan_outcome(entries, global, lag, retired).1.contains(retired[k].0),
    decreases retired.len(),
{
    lemma_pinned_below_empty(entries, retired[k].1 + 1);
    let freed = scan_outcome(entries, global, lag, retired).1;
    if k == retired.len() - 1 {
        assert(freed[freed.len() - 1] == retired[k].0);
    } else {
        let init = retired.drop_last();
        assert(init[k] == retired[k]);
        lemma_scan_frees_unguarded(entries, global, lag, init, k);
        let before = scan_outcome(entries, global, lag, init).1;
        let j = choose|j: int| 0 <= j < before.len() && before[j] == retired[k].0;
        assert(freed[j] == retired[k].0);
    }
}

} // verus!
