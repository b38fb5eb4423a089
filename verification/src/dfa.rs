use vstd::prelude::*;
use crate::state::{StateId, StateKind};
use crate::symbol::Symbol;

mod ranges;
mod product;
mod subset;
mod concat;
mod star;
mod derived;
mod chars;
mod partition;
mod signature;
mod numbering;
mod minimize;
mod decode;
mod decoded;
mod utf8;

verus! {

/// Every symbol maps to a state below `n`.
pub open spec fn table_total<S: Symbol>(m: Map<S, usize>, n: nat) -> bool {
    &&& forall|c: S| #[trigger] m.contains_key(c)
    &&& forall|c: S| #[trigger] m[c] < n
}

/// A deterministic finite automaton over symbols `S`: a start state, whether
/// each state accepts, and for each state a table giving the next state on
/// every symbol.
pub struct Dfa<S: Symbol = char> {
    start: StateId,
    state_kinds: Vec<StateKind>,
    transitions: Vec<S::Table>,
}

impl<S: Symbol> Dfa<S> {
    /// The index of the start state.
    pub closed spec fn start_spec(&self) -> nat {
        self.start@ as nat
    }

    /// The number of states.
    pub closed spec fn num_states(&self) -> nat {
        self.transitions@.len()
    }

    /// Whether state `q` accepts.
    pub closed spec fn accepting(&self, q: nat) -> bool {
        self.state_kinds@[q as int].spec_accepting()
    }

    /// The transition table of state `q`.
    pub closed spec fn table(&self, q: nat) -> Map<S, usize> {
        S::table_view(self.transitions@[q as int])
    }

    /// The automaton is well formed: one kind and one table per state, the
    /// start is a state, and every table maps every symbol to a state.
    pub closed spec fn wf(&self) -> bool {
        &&& self.state_kinds@.len() == self.transitions@.len()
        &&& self.start@ < self.transitions@.len()
        &&& self.transitions@.len() <= usize::MAX
        &&& forall|q: nat| q < self.transitions@.len() ==> table_total(#[trigger] self.table(q), self.transitions@.len())
    }

    /// The state reached from `q` on symbol `c`.
    pub open spec fn next(&self, q: nat, c: S) -> nat {
        self.table(q)[c] as nat
    }

    /// The state reached from `q` after reading `w`.
    pub open spec fn run(&self, q: nat, w: Seq<S>) -> nat
        decreases w.len(),
    {
        if w.len() == 0 {
            q
        } else {
            self.next(self.run(q, w.drop_last()), w.last())
        }
    }

    /// Some word leads from the start to state `q`.
    pub open spec fn reaches(&self, q: nat) -> bool {
        exists|w: Seq<S>| #[trigger] self.run(self.start_spec(), w) == q
    }

    /// The automaton accepts the word `w`.
    pub open spec fn accepts(&self, w: Seq<S>) -> bool {
        self.accepting(self.run(self.start_spec(), w))
    }

    pub proof fn lemma_run_in_range(&self, q: nat, w: Seq<S>)
        requires
            self.wf(),
            q < self.num_states(),
        ensures
            self.run(q, w) < self.num_states(),
        decreases w.len(),
    {
        if w.len() > 0 {
            self.lemma_run_in_range(q, w.drop_last());
            let p = self.run(q, w.drop_last());
            assert(table_total(self.table(p), self.num_states()));
            assert(self.table(p).contains_key(w.last()));
        }
    }

    /// Every table of a well-formed automaton maps every symbol to a state.
    pub proof fn lemma_tables_total(&self, q: nat)
        requires
            self.wf(),
            q < self.num_states(),
        ensures
            table_total(self.table(q), self.num_states()),
    {
    }

    /// A well-formed automaton has at least one state, its start is one of
    /// them, and every symbol leads from each state to a state.
    pub proof fn lemma_wf_bounds(&self)
        requires
            self.wf(),
        ensures
            1 <= self.num_states() <= usize::MAX,
            self.start_spec() < self.num_states(),
            forall|q: nat, c: S| q < self.num_states() ==> #[trigger] self.table(q).contains_key(c),
            forall|q: nat, c: S| q < self.num_states() ==> #[trigger] self.next(q, c) < self.num_states(),
    {
        assert forall|q: nat, c: S| q < self.num_states() implies #[trigger] self.table(q).contains_key(c) by {
            assert(table_total(self.table(q), self.num_states()));
        }
        assert forall|q: nat, c: S| q < self.num_states() implies #[trigger] self.next(q, c) < self.num_states() by {
            assert(table_total(self.table(q), self.num_states()));
        }
    }

    /// Reading `w` then `c` is reading `w` and stepping on `c`.
    pub proof fn lemma_run_push(&self, q: nat, w: Seq<S>, c: S)
        ensures
            self.run(q, w.push(c)) == self.next(self.run(q, w), c),
    {
        assert(w.push(c).drop_last() =~= w);
    }

    /// Reading `c` and then `w` is stepping on `c` and then reading `w`.
    pub proof fn lemma_run_prepend(&self, q: nat, c: S, w: Seq<S>)
        ensures
            self.run(q, seq![c] + w) == self.run(self.next(q, c), w),
        decreases w.len(),
    {
        if w.len() > 0 {
            assert((seq![c] + w).drop_last() =~= seq![c] + w.drop_last());
            assert((seq![c] + w).last() == w.last());
            self.lemma_run_prepend(q, c, w.drop_last());
        } else {
            assert(seq![c] + w =~= seq![c]);
            assert(seq![c].drop_last() =~= Seq::<S>::empty());
            assert(self.run(q, seq![c]) == self.next(self.run(q, Seq::<S>::empty()), c));
        }
    }

    /// A one-state automaton of the given kind that stays in its start state.
    fn new(start_kind: StateKind) -> (dfa: Self)
        ensures
            dfa.wf(),
            dfa.num_states() == 1,
            dfa.start_spec() == 0,
            dfa.accepting(0) == start_kind.spec_accepting(),
            dfa.table(0) == Map::total(|c: S| 0usize),
    {
        let start = StateId::from_id(0);
        let dfa = Dfa { start, state_kinds: vec![start_kind], transitions: vec![S::universe(start)] };
        assert(table_total(dfa.table(0), 1));
        dfa
    }

    proof fn lemma_pushed_state_wf(old_dfa: Self, new_dfa: Self)
        requires
            old_dfa.wf(),
            new_dfa.start == old_dfa.start,
            new_dfa.transitions@.len() == old_dfa.transitions@.len() + 1,
            new_dfa.transitions@.len() <= usize::MAX,
            new_dfa.state_kinds@.len() == new_dfa.transitions@.len(),
            forall|q: int| 0 <= q < old_dfa.transitions@.len() ==> new_dfa.transitions@[q] == old_dfa.transitions@[q],
            S::table_view(new_dfa.transitions@.last()) == Map::total(|c: S| old_dfa.transitions@.len() as usize),
        ensures
            new_dfa.wf(),
    {
        let n = new_dfa.transitions@.len();
        assert forall|q: nat| q < n implies table_total(#[trigger] new_dfa.table(q), n) by {
            let m = new_dfa.table(q);
            if q < old_dfa.transitions@.len() {
                assert(m == old_dfa.table(q));
                assert(table_total(old_dfa.table(q), old_dfa.transitions@.len()));
                assert forall|c: S| m.contains_key(c) && #[trigger] m[c] < n by {
                    assert(old_dfa.table(q).contains_key(c));
                }
            } else {
                assert(m == Map::total(|c: S| old_dfa.transitions@.len() as usize));
                assert forall|c: S| m.contains_key(c) && #[trigger] m[c] < n by {
                    assert(Map::total(|c: S| old_dfa.transitions@.len() as usize).contains_key(c));
                }
            }
        }
    }

    /// Adds a state of the given kind whose transitions all lead to itself.
    fn new_state(&mut self, state_kind: StateKind) -> (id: StateId)
        requires
            old(self).wf(),
        ensures
            final(self).wf(),
            id@ == old(self).num_states(),
            final(self).num_states() == old(self).num_states() + 1,
            final(self).start_spec() == old(self).start_spec(),
            final(self).accepting(id@ as nat) == state_kind.spec_accepting(),
            final(self).table(id@ as nat) == Map::total(|c: S| id@),
            forall|q: nat| q < old(self).num_states() ==> #[trigger] final(self).table(q) == old(self).table(q),
            forall|q: nat| q < old(self).num_states() ==> #[trigger] final(self).accepting(q) == old(self).accepting(q),
    {
        let id = StateId::from_id(self.transitions.len());
        self.state_kinds.push(state_kind);
        self.transitions.push(S::universe(id));
        let n = self.transitions.len();
        proof {
            let ghost old_dfa = *old(self);
            let ghost new_dfa = *self;
            Self::lemma_pushed_state_wf(old_dfa, new_dfa);
        }
        id
    }

    /// Replaces the transitions of `state` with `table`, which maps every
    /// symbol to a state.
    fn set_transitions(&mut self, state: StateId, table: S::Table)
        requires
            old(self).wf(),
            state@ < old(self).num_states(),
            table_total(S::table_view(table), old(self).num_states()),
        ensures
            final(self).wf(),
            final(self).num_states() == old(self).num_states(),
            final(self).start_spec() == old(self).start_spec(),
            final(self).table(state@ as nat) == S::table_view(table),
            forall|q: nat| q < old(self).num_states() ==> #[trigger] final(self).accepting(q) == old(self).accepting(q),
            forall|q: nat| q < old(self).num_states() && q != state@ ==> #[trigger] final(self).table(q) == old(self).table(q),
    {
        self.transitions.set(state.id(), table);
        assert forall|q: nat| q < self.transitions@.len() implies table_total(#[trigger] self.table(q), self.transitions@.len()) by {
            if q != state@ {
                assert(self.table(q) == old(self).table(q));
                assert(table_total(old(self).table(q), old(self).transitions@.len()));
            }
        }
    }

    /// The state reached from `state` on `symbol`.
    fn step(&self, state: StateId, symbol: S) -> (r: StateId)
        requires
            self.wf(),
            state@ < self.num_states(),
        ensures
            r@ == self.next(state@ as nat, symbol),
            r@ < self.num_states(),
    {
        let ghost q = state@ as nat;
        assert(table_total(self.table(q), self.num_states()));
        assert(self.table(q).contains_key(symbol));
        S::get(&self.transitions[state.id()], symbol)
    }

    fn state_kind(&self, state: StateId) -> (k: StateKind)
        requires
            self.wf(),
            state@ < self.num_states(),
        ensures
            k.spec_accepting() == self.accepting(state@ as nat),
    {
        self.state_kinds[state.id()]
    }

    fn is_accepting(&self, state: StateId) -> (r: bool)
        requires
            self.wf(),
            state@ < self.num_states(),
        ensures
            r == self.accepting(state@ as nat),
    {
        self.state_kind(state).is_accepting()
    }

    /// The automaton that accepts no word.
    pub fn empty() -> (dfa: Self)
        ensures
            dfa.wf(),
            dfa.num_states() == 1,
            forall|w: Seq<S>| !dfa.accepts(w),
    {
        let dfa = Self::new(StateKind::Rejecting);
        assert forall|w: Seq<S>| !dfa.accepts(w) by {
            dfa.lemma_run_in_range(0, w);
        }
        dfa
    }

    /// The automaton that accepts the empty word alone.
    pub fn epsilon() -> (dfa: Self)
        ensures
            dfa.wf(),
            forall|w: Seq<S>| dfa.accepts(w) <==> w.len() == 0,
    {
        let mut dfa = Self::new(StateKind::Accepting);
        let dead = dfa.new_state(StateKind::Rejecting);
        let start = dfa.start;
        dfa.set_transitions(start, S::universe(dead));
        assert forall|c: S| #[trigger] dfa.table(0)[c] == 1 by {
            assert(Map::total(|c: S| dead@)[c] == dead@);
        }
        assert forall|c: S| #[trigger] dfa.table(1)[c] == 1 by {
            assert(Map::total(|c: S| dead@)[c] == dead@);
        }
        assert(dfa.accepting(0));
        assert(!dfa.accepting(1));
        assert forall|w: Seq<S>| dfa.accepts(w) <==> w.len() == 0 by {
            if w.len() > 0 {
                Self::lemma_epsilon_run(&dfa, w);
            }
        }
        dfa
    }

    proof fn lemma_epsilon_run(dfa: &Self, w: Seq<S>)
        requires
            dfa.wf(),
            dfa.num_states() == 2,
            dfa.start_spec() == 0,
            forall|c: S| #[trigger] dfa.table(0)[c] == 1,
            forall|c: S| #[trigger] dfa.table(1)[c] == 1,
            w.len() > 0,
        ensures
            dfa.run(0, w) == 1,
        decreases w.len(),
    {
        if w.len() > 1 {
            Self::lemma_epsilon_run(dfa, w.drop_last());
        } else {
            assert(w.drop_last().len() == 0);
        }
        assert(dfa.table(dfa.run(0, w.drop_last()))[w.last()] == 1);
    }

    /// The index of the start state.
    pub fn start_state(&self) -> (s: StateId)
        ensures
            s@ == self.start_spec(),
            self.wf() ==> s@ < self.num_states(),
    {
        self.start
    }

    /// The number of states.
    pub fn state_count(&self) -> (n: usize)
        ensures
            n == self.num_states(),
    {
        self.transitions.len()
    }

    /// The transition tables, one per state, indexed by state id.
    pub fn transitions(&self) -> (r: &[S::Table])
        ensures
            r@.len() == self.num_states(),
            forall|q: int| 0 <= q < r@.len() ==> S::table_view(#[trigger] r@[q]) == self.table(q as nat),
    {
        self.transitions.as_slice()
    }

    /// Whether the state with the given index accepts.
    pub fn is_accepting_index(&self, index: usize) -> (r: bool)
        requires
            self.wf(),
            index < self.num_states(),
        ensures
            r == self.accepting(index as nat),
    {
        self.is_accepting(StateId::from_id(index))
    }

    /// Whether the automaton accepts the sequence of symbols `input`.
    pub fn is_match_symbols(&self, input: &[S]) -> (r: bool)
        requires
            self.wf(),
        ensures
            r == self.accepts(input@),
    {
        let mut state = self.start;
        let mut i: usize = 0;
        while i < input.len()
            invariant
                self.wf(),
                i <= input@.len(),
                state@ == self.run(self.start_spec(), input@.take(i as int)),
                state@ < self.num_states(),
            decreases input@.len() - i,
        {
            let ghost prefix = input@.take(i as int);
            state = self.step(state, input[i]);
            proof {
                self.lemma_run_push(self.start_spec(), prefix, input@[i as int]);
                assert(input@.take(i + 1) =~= prefix.push(input@[i as int]));
            }
            i += 1;
        }
        assert(input@.take(i as int) =~= input@);
        self.is_accepting(state)
    }
}

impl Dfa<u8> {
    /// Whether the automaton accepts the bytes `input`.
    pub fn is_match_bytes(&self, input: &[u8]) -> (r: bool)
        requires
            self.wf(),
        ensures
            r == self.accepts(input@),
    {
        self.is_match_symbols(input)
    }
}

} // verus!
