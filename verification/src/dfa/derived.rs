use vstd::prelude::*;
use crate::state::StateKind;
use crate::symbol::Symbol;
use super::{Dfa, table_total};

verus! {

impl<S: Symbol> Dfa<S> {
    /// Two automata with the same tables reach the same state on every word.
    proof fn lemma_run_same_tables(a: &Self, b: &Self, q: nat, w: Seq<S>)
        requires
            a.wf(),
            a.num_states() == b.num_states(),
            forall|p: nat| p < a.num_states() ==> #[trigger] b.table(p) == a.table(p),
            q < a.num_states(),
        ensures
            b.run(q, w) == a.run(q, w),
        decreases w.len(),
    {
        if w.len() > 0 {
            Self::lemma_run_same_tables(a, b, q, w.drop_last());
            a.lemma_run_in_range(q, w.drop_last());
        }
    }

    /// The automaton accepting the words that `self` rejects.
    pub fn complement(&self) -> (dfa: Self)
        requires
            self.wf(),
        ensures
            dfa.wf(),
            dfa.start_spec() == self.start_spec(),
            dfa.num_states() == self.num_states(),
            forall|q: nat| q < self.num_states() ==> #[trigger] dfa.table(q) == self.table(q),
            forall|q: nat| q < self.num_states() ==> #[trigger] dfa.accepting(q) == !self.accepting(q),
            forall|w: Seq<S>| #[trigger] dfa.accepts(w) == !self.accepts(w),
    {
        let mut state_kinds: Vec<StateKind> = Vec::new();
        let mut transitions: Vec<S::Table> = Vec::new();
        let mut i: usize = 0;
        while i < self.transitions.len()
            invariant
                self.wf(),
                i <= self.num_states(),
                state_kinds@.len() == i,
                transitions@.len() == i,
                forall|p: int| 0 <= p < i ==> (#[trigger] state_kinds@[p]).spec_accepting() == !self.accepting(p as nat),
                forall|p: int| 0 <= p < i ==> S::table_view(#[trigger] transitions@[p]) == self.table(p as nat),
            decreases self.num_states() - i,
        {
            state_kinds.push(self.state_kinds[i].complement());
            transitions.push(S::clone_table(&self.transitions[i]));
            i += 1;
        }
        let dfa = Dfa { start: self.start, state_kinds, transitions };
        proof {
            assert forall|q: nat| q < dfa.num_states() implies #[trigger] dfa.table(q) == self.table(q) by {
                assert(S::table_view(dfa.transitions@[q as int]) == self.table(q));
            }
            assert forall|q: nat| q < dfa.num_states() implies table_total(#[trigger] dfa.table(q), dfa.num_states()) by {
                assert(dfa.table(q) == self.table(q));
                assert(table_total(self.table(q), self.num_states()));
            }
            assert forall|w: Seq<S>| #[trigger] dfa.accepts(w) == !self.accepts(w) by {
                Self::lemma_run_same_tables(self, &dfa, self.start_spec(), w);
                self.lemma_run_in_range(self.start_spec(), w);
                let q = self.run(self.start_spec(), w);
                assert(dfa.state_kinds@[q as int].spec_accepting() == !self.accepting(q));
            }
        }
        dfa
    }

    /// The automaton accepting the empty word and the words `self` accepts.
    pub fn optional(&self) -> (dfa: Self)
        requires
            self.wf(),
        ensures
            dfa.wf(),
            forall|w: Seq<S>| #[trigger] dfa.accepts(w) == (w.len() == 0 || self.accepts(w)),
    {
        let eps = Self::epsilon();
        let dfa = eps.union(self);
        assert forall|w: Seq<S>| #[trigger] dfa.accepts(w) == (w.len() == 0 || self.accepts(w)) by {
            assert(dfa.accepts(w) == (eps.accepts(w) || self.accepts(w)));
        }
        dfa
    }

    /// The automaton accepting the concatenations of one or more words that
    /// `self` accepts.
    pub fn plus(&self) -> (dfa: Self)
        requires
            self.wf(),
        ensures
            dfa.wf(),
            forall|w: Seq<S>| #[trigger] dfa.accepts(w) == exists|i: int|
                0 <= i <= w.len() && self.accepts(w.take(i)) && self.in_star(#[trigger] w.skip(i)),
    {
        let star = self.star();
        let dfa = self.concat(&star);
        assert forall|w: Seq<S>| #[trigger] dfa.accepts(w) == exists|i: int|
            0 <= i <= w.len() && self.accepts(w.take(i)) && self.in_star(#[trigger] w.skip(i)) by {
            assert(dfa.accepts(w) == self.concat_accepts(&star, w));
            if dfa.accepts(w) {
                let i = choose|i: int| 0 <= i <= w.len() && self.accepts(w.take(i)) && star.accepts(#[trigger] w.skip(i));
                assert(self.in_star(w.skip(i)));
            }
            if exists|i: int| 0 <= i <= w.len() && self.accepts(w.take(i)) && self.in_star(#[trigger] w.skip(i)) {
                let i = choose|i: int| 0 <= i <= w.len() && self.accepts(w.take(i)) && self.in_star(#[trigger] w.skip(i));
                assert(star.accepts(w.skip(i)));
            }
        }
        dfa
    }
}

} // verus!
