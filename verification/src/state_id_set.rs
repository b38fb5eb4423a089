use vstd::prelude::*;
use crate::state::StateId;

verus! {

/// The set of states that a bit vector marks as active.
pub open spec fn bits_set(bits: Seq<bool>) -> Set<nat> {
    Set::new(|i: nat| i < bits.len() && bits[i as int])
}

/// The bits of a set after marking `id` active: the vector grows to hold
/// `id` when it is too short, and no other bit changes.
pub open spec fn inserted_bits(bits: Seq<bool>, id: nat) -> Seq<bool> {
    Seq::new(
        if id < bits.len() { bits.len() } else { id + 1 },
        |i: int| i == id || (i < bits.len() && bits[i]),
    )
}

/// A set of state ids, held as a vector of flags indexed by id.
#[derive(Debug, Clone, PartialEq, Eq, Hash)]
pub struct StateIdSet {
    active: Vec<bool>,
}

impl View for StateIdSet {
    type V = Seq<bool>;

    closed spec fn view(&self) -> Seq<bool> {
        self.active@
    }
}

pub proof fn lemma_inserted_bits_set(bits: Seq<bool>, id: nat)
    ensures
        bits_set(inserted_bits(bits, id)) == bits_set(bits).insert(id),
{
    assert(bits_set(inserted_bits(bits, id)) =~= bits_set(bits).insert(id));
}

/// Marking `id` twice marks it once.
pub proof fn lemma_insert_idempotent(bits: Seq<bool>, id: nat)
    ensures
        inserted_bits(inserted_bits(bits, id), id) == inserted_bits(bits, id),
{
    assert(inserted_bits(inserted_bits(bits, id), id) =~= inserted_bits(bits, id));
}

/// Marking two ids gives the same flags in either order.
pub proof fn lemma_insert_commutes(bits: Seq<bool>, x: nat, y: nat)
    ensures
        inserted_bits(inserted_bits(bits, x), y) == inserted_bits(inserted_bits(bits, y), x),
{
    assert(inserted_bits(inserted_bits(bits, x), y) =~= inserted_bits(inserted_bits(bits, y), x));
}

/// The flags of the set that marking the ids of `ids` in turn builds from the
/// empty set.
pub open spec fn bits_after_inserts(ids: Seq<nat>) -> Seq<bool>
    decreases ids.len(),
{
    if ids.len() == 0 {
        Seq::empty()
    } else {
        inserted_bits(bits_after_inserts(ids.drop_last()), ids.last())
    }
}

/// `bits` are the flags of a set built by marking, in some order, the ids of `s`.
pub open spec fn built_by_marking(bits: Seq<bool>, s: Set<nat>) -> bool {
    exists|ids: Seq<nat>| ids.to_set() == s && #[trigger] bits_after_inserts(ids) == bits
}

/// The flags built by marking `ids` mark exactly those ids, and the last flag,
/// if any, is set.
proof fn lemma_bits_after_inserts_shape(ids: Seq<nat>)
    ensures
        forall|i: int| 0 <= i < bits_after_inserts(ids).len() ==> #[trigger] bits_after_inserts(ids)[i]
            == ids.to_set().contains(i as nat),
        forall|x: nat| #[trigger] ids.to_set().contains(x) ==> x < bits_after_inserts(ids).len(),
        bits_after_inserts(ids).len() > 0 ==> bits_after_inserts(ids)[bits_after_inserts(ids).len() - 1],
    decreases ids.len(),
{
    if ids.len() > 0 {
        let init = ids.drop_last();
        lemma_bits_after_inserts_shape(init);
        assert(ids =~= init.push(ids.last()));
        assert(ids.to_set() =~= init.to_set().insert(ids.last())) by {
            assert forall|x: nat| ids.to_set().contains(x) <==> init.to_set().insert(ids.last()).contains(x) by {
                if ids.to_set().contains(x) {
                    let k = choose|k: int| 0 <= k < ids.len() && ids[k] == x;
                    if k < init.len() {
                        assert(init[k] == x);
                    }
                }
                if init.to_set().contains(x) {
                    let k = choose|k: int| 0 <= k < init.len() && init[k] == x;
                    assert(ids[k] == x);
                }
                if x == ids.last() {
                    assert(ids[ids.len() - 1] == x);
                }
            }
        }
    }
}

/// A set built by marking the ids of `ids` holds exactly those ids, so its
/// members in increasing order are the ids of `ids`.
pub proof fn lemma_inserts_mark_the_ids(ids: Seq<nat>)
    ensures
        bits_set(bits_after_inserts(ids)) == ids.to_set(),
{
    lemma_bits_after_inserts_shape(ids);
    assert(bits_set(bits_after_inserts(ids)) =~= ids.to_set());
}

/// Sets built by marking the same ids, in any order and with any repeats,
/// are equal.
pub proof fn lemma_same_ids_same_set(a: Seq<nat>, b: Seq<nat>)
    requires
        a.to_set() == b.to_set(),
    ensures
        bits_after_inserts(a) == bits_after_inserts(b),
{
    lemma_bits_after_inserts_shape(a);
    lemma_bits_after_inserts_shape(b);
    let ba = bits_after_inserts(a);
    let bb = bits_after_inserts(b);
    if ba.len() < bb.len() {
        assert(bb[bb.len() - 1]);
        assert(a.to_set().contains((bb.len() - 1) as nat));
    }
    if bb.len() < ba.len() {
        assert(ba[ba.len() - 1]);
        assert(b.to_set().contains((ba.len() - 1) as nat));
    }
    assert(ba =~= bb);
}

/// The flags of `bits` as integers: one for an active state, zero otherwise.
pub open spec fn bits_to_flags(bits: Seq<bool>) -> Seq<usize> {
    Seq::new(bits.len(), |i: int| if bits[i] { 1usize } else { 0usize })
}

/// The bits that integer flags stand for: a flag of one marks a state active.
pub open spec fn flags_to_bits(flags: Seq<usize>) -> Seq<bool> {
    Seq::new(flags.len(), |i: int| flags[i] == 1)
}

pub proof fn lemma_flags_round_trip(bits: Seq<bool>)
    ensures
        flags_to_bits(bits_to_flags(bits)) == bits,
{
    assert(flags_to_bits(bits_to_flags(bits)) =~= bits);
}

impl StateIdSet {
    /// Appends the flags of this set to `key`.
    pub(crate) fn append_flags(&self, key: &mut Vec<usize>)
        ensures
            final(key)@ == old(key)@ + bits_to_flags(self@),
    {
        let mut i: usize = 0;
        while i < self.active.len()
            invariant
                i <= self.active.len(),
                key@ == old(key)@ + bits_to_flags(self.active@.take(i as int)),
            decreases self.active.len() - i,
        {
            key.push(if self.active[i] { 1 } else { 0 });
            i += 1;
            assert(key@ =~= old(key)@ + bits_to_flags(self.active@.take(i as int)));
        }
        assert(self.active@.take(i as int) =~= self.active@);
    }

    /// The set whose flags are `flags[start..]`.
    pub(crate) fn from_flags(flags: &Vec<usize>, start: usize) -> (s: StateIdSet)
        requires
            start <= flags.len(),
        ensures
            s@ == flags_to_bits(flags@.skip(start as int)),
    {
        let mut active: Vec<bool> = Vec::new();
        let mut i: usize = start;
        while i < flags.len()
            invariant
                start <= i <= flags.len(),
                active@ == flags_to_bits(flags@.subrange(start as int, i as int)),
            decreases flags.len() - i,
        {
            active.push(flags[i] == 1);
            i += 1;
            assert(active@ =~= flags_to_bits(flags@.subrange(start as int, i as int)));
        }
        assert(flags@.subrange(start as int, i as int) =~= flags@.skip(start as int));
        StateIdSet { active }
    }

    /// The empty set.
    pub(crate) fn new() -> (s: StateIdSet)
        ensures
            s@ == Seq::<bool>::empty(),
    {
        StateIdSet { active: Vec::new() }
    }

    /// The set holding `state` alone.
    pub(crate) fn from_state(state: StateId) -> (s: StateIdSet)
        requires
            state@ < usize::MAX,
        ensures
            s@ == inserted_bits(Seq::empty(), state@ as nat),
    {
        let mut s = Self::new();
        s.insert(state);
        s
    }

    /// Marks `state` active.
    pub(crate) fn insert(&mut self, state: StateId)
        requires
            state@ < usize::MAX,
        ensures
            final(self)@ == inserted_bits(old(self)@, state@ as nat),
    {
        let id = state.id();
        if id >= self.active.len() {
            self.active.resize(id + 1, false);
        }
        self.active.set(id, true);
        assert(self.active@ =~= inserted_bits(old(self)@, id as nat));
    }

    /// A copy of this set with `state` marked active.
    pub(crate) fn with_inserted(&self, state: StateId) -> (s: StateIdSet)
        requires
            state@ < usize::MAX,
        ensures
            s@ == inserted_bits(self@, state@ as nat),
    {
        let mut next = self.copy();
        next.insert(state);
        next
    }

    /// A copy of this set.
    pub(crate) fn copy(&self) -> (s: StateIdSet)
        ensures
            s@ == self@,
    {
        let mut active: Vec<bool> = Vec::new();
        let mut i: usize = 0;
        while i < self.active.len()
            invariant
                i <= self.active.len(),
                active@ == self.active@.take(i as int),
            decreases self.active.len() - i,
        {
            active.push(self.active[i]);
            i += 1;
            assert(active@ =~= self.active@.take(i as int));
        }
        assert(self.active@.take(i as int) =~= self.active@);
        StateIdSet { active }
    }

    /// The members of the set, in increasing order.
    pub(crate) fn iter(&self) -> (r: Vec<StateId>)
        ensures
            forall|k: int| 0 <= k < r.len() ==> bits_set(self@).contains(#[trigger] r@[k]@ as nat),
            forall|i: nat| bits_set(self@).contains(i) ==> exists|k: int| 0 <= k < r.len() && #[trigger] r@[k]@ == i,
            forall|j: int, k: int| 0 <= j < k < r.len() ==> r@[j]@ < r@[k]@,
    {
        let mut r: Vec<StateId> = Vec::new();
        let mut i: usize = 0;
        while i < self.active.len()
            invariant
                i <= self.active.len(),
                forall|k: int| 0 <= k < r.len() ==> #[trigger] r@[k]@ < i && self.active@[r@[k]@ as int],
                forall|n: nat| n < i && self.active@[n as int] ==> exists|k: int| 0 <= k < r.len() && #[trigger] r@[k]@ == n,
                forall|j: int, k: int| 0 <= j < k < r.len() ==> r@[j]@ < r@[k]@,
            decreases self.active.len() - i,
        {
            if self.active[i] {
                let ghost old_r = r@;
                r.push(StateId::from_id(i));
                assert(r@[r.len() - 1]@ == i);
                assert forall|n: nat| n < i + 1 && self.active@[n as int] implies exists|k: int| 0 <= k < r.len() && #[trigger] r@[k]@ == n by {
                    if n < i {
                        let k = choose|k: int| 0 <= k < old_r.len() && #[trigger] old_r[k]@ == n;
                        assert(r@[k] == old_r[k]);
                    } else {
                        assert(r@[r.len() - 1]@ == n);
                    }
                }
            }
            i += 1;
        }
        r
    }
}

} // verus!
