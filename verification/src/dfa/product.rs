use vstd::prelude::*;
use crate::state::StateId;
use crate::symbol::{Symbol, SymbolCode, covers, joined, range_lookup};
use crate::key_index::{
    key_index_new, key_index_len, key_index_insert, key_index_get, key_index_get_index, key_index_entries,
    keys_distinct, key_bounded, key_space, lemma_distinct_keys_bounded, lemma_distinct_pairs_bounded,
};
use super::{Dfa, table_total};
use super::ranges::{spans_sorted, lemma_lookup_sorted};

verus! {

/// The kind of a product state: both components accept (intersection) or
/// either does (union).
pub open spec fn product_accepts(both: bool, left: bool, right: bool) -> bool {
    if both {
        left && right
    } else {
        left || right
    }
}

impl<S: Symbol> Dfa<S> {
    /// The state of a product built so far: entry `i` of `entries` is the
    /// pair of states of `self` and `other` that state `i` of `dfa` stands
    /// for, and the states before `cursor` have their transitions.
    spec fn product_inv(
        &self,
        other: &Self,
        both: bool,
        dfa: Self,
        entries: Seq<(Seq<usize>, usize)>,
        cursor: nat,
    ) -> bool {
        &&& dfa.wf()
        &&& dfa.start_spec() == 0
        &&& keys_distinct(entries)
        &&& entries.len() == dfa.num_states()
        &&& cursor <= entries.len()
        &&& entries[0].0 == seq![self.start@, other.start@]
        &&& forall|i: int| 0 <= i < entries.len() ==> (#[trigger] entries[i]).1 == i
        &&& forall|i: int|
            0 <= i < entries.len() ==> (#[trigger] entries[i]).0.len() == 2 && entries[i].0[0]
                < self.num_states() && entries[i].0[1] < other.num_states()
        &&& forall|i: nat|
            i < entries.len() ==> #[trigger] dfa.accepting(i) == product_accepts(
                both,
                self.accepting(entries[i as int].0[0] as nat),
                other.accepting(entries[i as int].0[1] as nat),
            )
        &&& forall|i: nat, c: S|
            i < cursor ==> entries[#[trigger] dfa.table(i)[c] as int].0 == seq![
                self.table(entries[i as int].0[0] as nat)[c],
                other.table(entries[i as int].0[1] as nat)[c],
            ]
    }

    /// Some word leads `self` to the first state of `key` and `other` to the
    /// second.
    pub open spec fn pair_reached(&self, other: &Self, key: Seq<usize>) -> bool {
        exists|w: Seq<S>| self.run(self.start_spec(), w) == key[0] && #[trigger] other.run(other.start_spec(), w) == key[1]
    }

    spec fn pairs_reached(&self, other: &Self, entries: Seq<(Seq<usize>, usize)>) -> bool {
        forall|i: int| 0 <= i < entries.len() ==> #[trigger] self.pair_reached(other, entries[i].0)
    }

    /// `dfa` is the product of `self` and `other`: state `i` stands for the
    /// pair `pairs[i]` of their states, no pair twice, and every pair is
    /// reached by some word; the start stands for the pair of start states;
    /// each state steps on every symbol to the state of the pair of the
    /// components' next states, and accepts as `product_accepts` combines the
    /// components' acceptance.
    pub open spec fn is_product(&self, other: &Self, both: bool, dfa: &Self, pairs: Seq<(nat, nat)>) -> bool {
        &&& pairs.len() == dfa.num_states()
        &&& dfa.start_spec() == 0
        &&& pairs[0] == (self.start_spec(), other.start_spec())
        &&& forall|i: int, j: int| 0 <= i < j < pairs.len() ==> #[trigger] pairs[i] != #[trigger] pairs[j]
        &&& forall|i: int| 0 <= i < pairs.len() ==> (#[trigger] pairs[i]).0 < self.num_states() && pairs[i].1
            < other.num_states()
        &&& forall|i: int|
            #![trigger pairs[i]]
            0 <= i < pairs.len() ==> exists|w: Seq<S>|
                (self.run(self.start_spec(), w), #[trigger] other.run(other.start_spec(), w)) == pairs[i]
        &&& forall|i: nat| i < pairs.len() ==> #[trigger] dfa.accepting(i) == product_accepts(
            both,
            self.accepting(pairs[i as int].0),
            other.accepting(pairs[i as int].1),
        )
        &&& forall|i: nat, c: S| i < pairs.len() ==> pairs[#[trigger] dfa.next(i, c) as int] == (
            self.next(pairs[i as int].0, c),
            other.next(pairs[i as int].1, c),
        )
    }

    /// A pair reached by some word steps on `c` to a pair reached by a word.
    proof fn lemma_pair_step(&self, other: &Self, key: Seq<usize>, c: S)
        requires
            self.pair_reached(other, key),
        ensures
            self.pair_reached(other, seq![self.table(key[0] as nat)[c], other.table(key[1] as nat)[c]]),
    {
        let w = choose|w: Seq<S>| self.run(self.start_spec(), w) == key[0] && #[trigger] other.run(other.start_spec(), w) == key[1];
        self.lemma_run_push(self.start_spec(), w, c);
        other.lemma_run_push(other.start_spec(), w, c);
        let w2 = w.push(c);
        let k2 = seq![self.table(key[0] as nat)[c], other.table(key[1] as nat)[c]];
        assert(self.run(self.start_spec(), w2) == k2[0] && other.run(other.start_spec(), w2) == k2[1]);
    }

    /// The finished entries of a product make it a product in the sense of
    /// `is_product`.
    proof fn lemma_is_product(&self, other: &Self, both: bool, dfa: Self, entries: Seq<(Seq<usize>, usize)>)
        requires
            self.wf(),
            other.wf(),
            self.product_inv(other, both, dfa, entries, entries.len()),
            self.pairs_reached(other, entries),
        ensures
            self.is_product(other, both, &dfa, Seq::new(entries.len(), |i: int| (entries[i].0[0] as nat, entries[i].0[1] as nat))),
    {
        let pairs = Seq::new(entries.len(), |i: int| (entries[i].0[0] as nat, entries[i].0[1] as nat));
        assert forall|i: int, j: int| 0 <= i < j < pairs.len() implies #[trigger] pairs[i] != #[trigger] pairs[j] by {
            assert(entries[i].0 != entries[j].0);
            if pairs[i] == pairs[j] {
                assert(entries[i].0 =~= entries[j].0);
            }
        }
        assert forall|i: int|
            #![trigger pairs[i]]
            0 <= i < pairs.len() implies exists|w: Seq<S>|
                (self.run(self.start_spec(), w), #[trigger] other.run(other.start_spec(), w)) == pairs[i] by {
            assert(self.pair_reached(other, entries[i].0));
            let w = choose|w: Seq<S>| self.run(self.start_spec(), w) == entries[i].0[0] && #[trigger] other.run(other.start_spec(), w) == entries[i].0[1];
            assert((self.run(self.start_spec(), w), other.run(other.start_spec(), w)) == pairs[i]);
        }
        assert forall|i: nat, c: S| i < pairs.len() implies pairs[#[trigger] dfa.next(i, c) as int] == (
            self.next(pairs[i as int].0, c),
            other.next(pairs[i as int].1, c),
        ) by {
            assert(table_total(dfa.table(i), dfa.num_states()));
            assert(entries[dfa.table(i)[c] as int].0 == seq![
                self.table(entries[i as int].0[0] as nat)[c],
                other.table(entries[i as int].0[1] as nat)[c],
            ]);
        }
        assert(pairs[0] == (self.start_spec(), other.start_spec()));
    }

    /// Reading `w` in a finished product leads to the state standing for the
    /// pair of states that `self` and `other` reach on `w`.
    proof fn lemma_product_run(
        &self,
        other: &Self,
        both: bool,
        dfa: Self,
        entries: Seq<(Seq<usize>, usize)>,
        w: Seq<S>,
    )
        requires
            self.wf(),
            other.wf(),
            self.product_inv(other, both, dfa, entries, entries.len()),
        ensures
            dfa.run(0, w) < entries.len(),
            entries[dfa.run(0, w) as int].0 == seq![
                self.run(self.start_spec(), w) as usize,
                other.run(other.start_spec(), w) as usize,
            ],
        decreases w.len(),
    {
        dfa.lemma_run_in_range(0, w);
        if w.len() == 0 {
            assert(entries[0].0 =~= seq![self.start_spec() as usize, other.start_spec() as usize]);
        } else {
            let p = w.drop_last();
            let c = w.last();
            self.lemma_product_run(other, both, dfa, entries, p);
            let q = dfa.run(0, p);
            self.lemma_run_in_range(self.start_spec(), p);
            other.lemma_run_in_range(other.start_spec(), p);
            assert(entries[dfa.table(q)[c] as int].0 == seq![
                self.table(entries[q as int].0[0] as nat)[c],
                other.table(entries[q as int].0[1] as nat)[c],
            ]);
            assert(entries[q as int].0[0] == self.run(self.start_spec(), p));
            assert(entries[q as int].0[1] == other.run(other.start_spec(), p));
            let l = self.run(self.start_spec(), p);
            let r = other.run(other.start_spec(), p);
            assert(table_total(self.table(l), self.num_states()));
            assert(table_total(other.table(r), other.num_states()));
            assert(self.table(l)[c] < self.num_states());
            assert(other.table(r)[c] < other.num_states());
        }
    }

    /// The product automaton of `self` and `other`, whose states are the
    /// pairs of their states reachable from the pair of start states.
    fn product(&self, other: &Self, both: bool) -> (dfa: Self)
        requires
            self.wf(),
            other.wf(),
        ensures
            dfa.wf(),
            dfa.num_states() <= self.num_states() * other.num_states(),
            exists|pairs: Seq<(nat, nat)>| #[trigger] self.is_product(other, both, &dfa, pairs),
            forall|w: Seq<S>| #[trigger] dfa.accepts(w) == product_accepts(both, self.accepts(w), other.accepts(w)),
    {
        let start_kind = if both {
            self.state_kind(self.start).and(other.state_kind(other.start))
        } else {
            self.state_kind(self.start).or(other.state_kind(other.start))
        };
        let mut dfa = Self::new(start_kind);
        let mut pair_to_state = key_index_new();
        key_index_insert(&mut pair_to_state, vec![self.start.id(), other.start.id()], dfa.start.id());
        let ghost bound: nat = if self.num_states() < other.num_states() { other.num_states() } else { self.num_states() };
        let ghost space = key_space(bound + 1, 2);
        proof {
            let entries = key_index_entries(pair_to_state);
            assert(entries[0].0 =~= seq![self.start@, other.start@]);
            assert(keys_distinct(entries));
            let w0 = Seq::<S>::empty();
            assert(self.run(self.start_spec(), w0) == entries[0].0[0] && other.run(other.start_spec(), w0) == entries[0].0[1]);
            assert(self.pair_reached(other, entries[0].0));
        }

        let mut cursor: usize = 0;
        while cursor < key_index_len(&pair_to_state)
            invariant
                self.wf(),
                other.wf(),
                self.product_inv(other, both, dfa, key_index_entries(pair_to_state), cursor as nat),
                self.pairs_reached(other, key_index_entries(pair_to_state)),
                space == key_space(bound + 1, 2),
                bound >= self.num_states(),
                bound >= other.num_states(),
            decreases space - cursor,
        {
            let ghost entries0 = key_index_entries(pair_to_state);
            proof {
                assert forall|i: int| 0 <= i < entries0.len() implies key_bounded(#[trigger] entries0[i].0, bound, 2) by {
                    assert(entries0[i].0.len() == 2);
                    assert forall|j: int| 0 <= j < entries0[i].0.len() implies #[trigger] entries0[i].0[j] < bound by {
                        if j == 0 {
                        } else {
                        }
                    }
                }
                lemma_distinct_keys_bounded(entries0, bound, 2);
            }
            let (key, state_index) = key_index_get_index(&pair_to_state, cursor).unwrap();
            assert(key@ == entries0[cursor as int].0);
            let left_state = StateId::from_id(key[0]);
            let right_state = StateId::from_id(key[1]);
            let ranges = S::join(&self.transitions[left_state.id()], &other.transitions[right_state.id()]);
            let ghost lq = left_state@ as nat;
            let ghost rq = right_state@ as nat;
            proof {
                assert(table_total(self.table(lq), self.num_states()));
                assert(table_total(other.table(rq), other.num_states()));
            }
            let mut out: Vec<(S, S, StateId)> = Vec::new();
            let mut k: usize = 0;
            while k < ranges.len()
                invariant
                    self.wf(),
                    other.wf(),
                    self.product_inv(other, both, dfa, key_index_entries(pair_to_state), cursor as nat),
                    self.pairs_reached(other, key_index_entries(pair_to_state)),
                    cursor < key_index_entries(pair_to_state).len(),
                    key_index_entries(pair_to_state)[cursor as int] == entries0[cursor as int],
                    lq < self.num_states(),
                    rq < other.num_states(),
                    lq == entries0[cursor as int].0[0],
                    rq == entries0[cursor as int].0[1],
                    joined(ranges@, self.table(lq), other.table(rq)),
                    table_total(self.table(lq), self.num_states()),
                    table_total(other.table(rq), other.num_states()),
                    k <= ranges.len(),
                    out.len() == k,
                    forall|j: int| 0 <= j < k ==> (#[trigger] out@[j]).0 == ranges@[j].0 && out@[j].1 == ranges@[j].1,
                    forall|j: int| 0 <= j < k ==> (#[trigger] out@[j]).2@ < dfa.num_states(),
                    forall|j: int| 0 <= j < k ==> key_index_entries(pair_to_state)[(#[trigger] out@[j]).2@ as int].0 == seq![
                        ranges@[j].2@, ranges@[j].3@],
                decreases ranges.len() - k,
            {
                let (lo, hi, x, y) = ranges[k];
                let ghost entries1 = key_index_entries(pair_to_state);
                let ghost dfa1 = dfa;
                proof {
                    assert(covers(lo, lo, lo));
                    assert(covers(ranges@[k as int].0, ranges@[k as int].1, lo));
                    assert(self.table(lq).contains_key(lo));
                    assert(x@ == self.table(lq)[lo]);
                    assert(y@ == other.table(rq)[lo]);
                }
                let next_key = vec![x.id(), y.id()];
                let next = match key_index_get(&pair_to_state, &next_key) {
                    Some(existing) => {
                        proof {
                            let i = choose|i: int| 0 <= i < entries1.len() && entries1[i] == (next_key@, existing);
                            assert(entries1[i].1 == i);
                        }
                        existing
                    },
                    None => {
                        let state_kind = if both {
                            self.state_kind(x).and(other.state_kind(y))
                        } else {
                            self.state_kind(x).or(other.state_kind(y))
                        };
                        let new_id = dfa.new_state(state_kind);
                        key_index_insert(&mut pair_to_state, next_key, new_id.id());
                        proof {
                            let entries2 = key_index_entries(pair_to_state);
                            assert(entries2 == entries1.push((next_key@, new_id@)));
                            assert(next_key@ =~= seq![x@, y@]);
                            assert(keys_distinct(entries2)) by {
                                assert forall|i: int, j: int| 0 <= i < j < entries2.len() implies #[trigger] entries2[i].0 != #[trigger] entries2[j].0 by {
                                    if j == entries1.len() {
                                        assert(entries1[i].0 != next_key@);
                                    } else {
                                        assert(entries1[i] == entries2[i]);
                                        assert(entries1[j] == entries2[j]);
                                    }
                                }
                            }
                            assert forall|i: nat| i < entries2.len() implies #[trigger] dfa.accepting(i) == product_accepts(
                                both,
                                self.accepting(entries2[i as int].0[0] as nat),
                                other.accepting(entries2[i as int].0[1] as nat),
                            ) by {
                                if i < entries1.len() {
                                    assert(entries2[i as int] == entries1[i as int]);
                                    assert(dfa1.accepting(i) == product_accepts(
                                        both,
                                        self.accepting(entries1[i as int].0[0] as nat),
                                        other.accepting(entries1[i as int].0[1] as nat),
                                    ));
                                }
                            }
                            assert forall|i: nat, c: S| i < cursor implies entries2[#[trigger] dfa.table(i)[c] as int].0 == seq![
                                self.table(entries2[i as int].0[0] as nat)[c],
                                other.table(entries2[i as int].0[1] as nat)[c],
                            ] by {
                                assert(dfa.table(i) == dfa1.table(i));
                                assert(entries2[i as int] == entries1[i as int]);
                                assert(entries1[dfa1.table(i)[c] as int].0 == seq![
                                    self.table(entries1[i as int].0[0] as nat)[c],
                                    other.table(entries1[i as int].0[1] as nat)[c],
                                ]);
                                assert(table_total(dfa1.table(i), dfa1.num_states()));
                                assert(dfa1.table(i)[c] < entries1.len());
                            }
                            assert forall|i: int| 0 <= i < entries2.len() implies (#[trigger] entries2[i]).0.len() == 2 && entries2[i].0[0]
                                < self.num_states() && entries2[i].0[1] < other.num_states() by {
                                if i < entries1.len() {
                                    assert(entries2[i] == entries1[i]);
                                }
                            }
                            assert forall|i: int| 0 <= i < entries2.len() implies (#[trigger] entries2[i]).1 == i by {
                                if i < entries1.len() {
                                    assert(entries2[i] == entries1[i]);
                                }
                            }
                            assert(entries2[0] == entries1[0]);
                            assert forall|i: int| 0 <= i < entries2.len() implies #[trigger] self.pair_reached(other, entries2[i].0) by {
                                if i < entries1.len() {
                                    assert(entries2[i] == entries1[i]);
                                } else {
                                    assert(entries1[cursor as int] == entries0[cursor as int]);
                                    assert(self.pair_reached(other, entries1[cursor as int].0));
                                    self.lemma_pair_step(other, entries1[cursor as int].0, lo);
                                    assert(entries2[i].0 =~= seq![
                                        self.table(entries1[cursor as int].0[0] as nat)[lo],
                                        other.table(entries1[cursor as int].0[1] as nat)[lo],
                                    ]);
                                }
                            }
                            assert forall|j: int| 0 <= j < k implies entries2[(#[trigger] out@[j]).2@ as int].0 == seq![
                                ranges@[j].2@, ranges@[j].3@] by {
                                assert(entries2[out@[j].2@ as int] == entries1[out@[j].2@ as int]);
                            }
                        }
                        new_id.id()
                    },
                };
                let ghost old_out = out@;
                out.push((lo, hi, StateId::from_id(next)));
                proof {
                    let entries3 = key_index_entries(pair_to_state);
                    assert(entries3[next as int].0 =~= seq![x@, y@]);
                    assert forall|j: int| 0 <= j < k + 1 implies (#[trigger] out@[j]).0 == ranges@[j].0 && out@[j].1 == ranges@[j].1 by {
                        if j < k {
                            assert(out@[j] == old_out[j]);
                        }
                    }
                    assert forall|j: int| 0 <= j < k + 1 implies (#[trigger] out@[j]).2@ < dfa.num_states() by {
                        if j < k {
                            assert(out@[j] == old_out[j]);
                        }
                    }
                    assert forall|j: int| 0 <= j < k + 1 implies entries3[(#[trigger] out@[j]).2@ as int].0 == seq![
                        ranges@[j].2@, ranges@[j].3@] by {
                        if j < k {
                            assert(out@[j] == old_out[j]);
                        }
                    }
                }
                k += 1;
            }
            let ghost entries4 = key_index_entries(pair_to_state);
            let ghost out_seq = out@;
            proof {
                assert(spans_sorted(out_seq)) by {
                    assert forall|i: int| 0 <= i < out_seq.len() implies (#[trigger] out_seq[i]).0.code() <= out_seq[i].1.code() by {
                        assert(ranges@[i].0.code() <= ranges@[i].1.code());
                    }
                    assert forall|i: int| 0 <= i < out_seq.len() - 1 implies (#[trigger] out_seq[i]).1.code() < out_seq[i + 1].0.code() by {
                        assert(ranges@[i].1.code() < ranges@[i + 1].0.code());
                        assert(out_seq[i + 1].0 == ranges@[i + 1].0);
                    }
                }
            }
            let table = S::from_ranges(out);
            proof {
                let m = S::table_view(table);
                assert forall|c: S| #[trigger] m.contains_key(c) && entries4[m[c] as int].0 == seq![
                    self.table(lq)[c], other.table(rq)[c]] && m[c] < dfa.num_states() by {
                    assert(self.table(lq).contains_key(c));
                    assert(other.table(rq).contains_key(c));
                    let j = choose|j: int| 0 <= j < ranges@.len() && covers((#[trigger] ranges@[j]).0, ranges@[j].1, c);
                    assert(covers(out_seq[j].0, out_seq[j].1, c));
                    lemma_lookup_sorted(out_seq, j, c);
                    assert(range_lookup(out_seq, c) is Some);
                    assert(self.table(lq)[c] == ranges@[j].2@);
                    assert(other.table(rq)[c] == ranges@[j].3@);
                }
                assert forall|c: S| #[trigger] m[c] < dfa.num_states() by {
                    assert(m.contains_key(c));
                }
                assert(table_total(m, dfa.num_states()));
            }
            let ghost dfa5 = dfa;
            dfa.set_transitions(StateId::from_id(state_index), table);
            proof {
                let entries = key_index_entries(pair_to_state);
                assert(state_index == cursor);
                assert forall|i: nat, c: S| i < cursor + 1 implies entries[#[trigger] dfa.table(i)[c] as int].0 == seq![
                    self.table(entries[i as int].0[0] as nat)[c],
                    other.table(entries[i as int].0[1] as nat)[c],
                ] by {
                    if i < cursor {
                        assert(dfa.table(i) == dfa5.table(i));
                    } else {
                        assert(S::table_view(table).contains_key(c));
                    }
                }
                assert forall|i: nat| i < entries.len() implies #[trigger] dfa.accepting(i) == product_accepts(
                    both,
                    self.accepting(entries[i as int].0[0] as nat),
                    other.accepting(entries[i as int].0[1] as nat),
                ) by {
                    assert(dfa5.accepting(i) == product_accepts(
                        both,
                        self.accepting(entries[i as int].0[0] as nat),
                        other.accepting(entries[i as int].0[1] as nat),
                    ));
                }
            }
            cursor += 1;
        }
        proof {
            let entries = key_index_entries(pair_to_state);
            lemma_distinct_pairs_bounded(entries, self.num_states(), other.num_states());
            self.lemma_is_product(other, both, dfa, entries);
            assert forall|w: Seq<S>| #[trigger] dfa.accepts(w) == product_accepts(both, self.accepts(w), other.accepts(w)) by {
                self.lemma_product_run(other, both, dfa, entries, w);
                let q = dfa.run(0, w);
                assert(dfa.accepting(q) == product_accepts(
                    both,
                    self.accepting(entries[q as int].0[0] as nat),
                    other.accepting(entries[q as int].0[1] as nat),
                ));
                self.lemma_run_in_range(self.start_spec(), w);
                other.lemma_run_in_range(other.start_spec(), w);
            }
        }
        dfa
    }

    /// The automaton accepting the words that `self` or `other` accepts.
    pub fn union(&self, other: &Self) -> (dfa: Self)
        requires
            self.wf(),
            other.wf(),
        ensures
            dfa.wf(),
            dfa.num_states() <= self.num_states() * other.num_states(),
            exists|pairs: Seq<(nat, nat)>| #[trigger] self.is_product(other, false, &dfa, pairs),
            forall|w: Seq<S>| #[trigger] dfa.accepts(w) == (self.accepts(w) || other.accepts(w)),
    {
        self.product(other, false)
    }

    /// The automaton accepting the words that both `self` and `other` accept.
    pub fn intersection(&self, other: &Self) -> (dfa: Self)
        requires
            self.wf(),
            other.wf(),
        ensures
            dfa.wf(),
            dfa.num_states() <= self.num_states() * other.num_states(),
            exists|pairs: Seq<(nat, nat)>| #[trigger] self.is_product(other, true, &dfa, pairs),
            forall|w: Seq<S>| #[trigger] dfa.accepts(w) == (self.accepts(w) && other.accepts(w)),
    {
        self.product(other, true)
    }
}

} // verus!
