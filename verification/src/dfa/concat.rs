use vstd::prelude::*;
use crate::state::{StateId, StateKind};
use crate::state_id_set::{
    StateIdSet, bits_set, lemma_inserted_bits_set, bits_to_flags, flags_to_bits, lemma_flags_round_trip,
};
use crate::symbol::{Symbol, SymbolCode, covers, joined, range_lookup};
use crate::key_index::{
    key_index_new, key_index_len, key_index_insert, key_index_get, key_index_get_index, key_index_entries,
    keys_distinct, key_bounded, key_space, lemma_distinct_keys_bounded,
};
use super::{Dfa, table_total};
use super::ranges::{spans_sorted, lemma_lookup_sorted};

verus! {

/// The left state that a concatenation key names.
pub open spec fn key_left(k: Seq<usize>) -> nat {
    k[0] as nat
}

/// The right states that a concatenation key names.
pub open spec fn key_right(k: Seq<usize>) -> Set<nat> {
    bits_set(flags_to_bits(k.skip(1)))
}

impl<S: Symbol> Dfa<S> {
    /// The states of `right` to step from, on leaving a state that is left
    /// state `l` with active right states `active`: those, and the start of
    /// `right` when `l` accepts.
    pub open spec fn concat_sources(&self, right: &Self, l: nat, active: Set<nat>) -> Set<nat> {
        if self.accepting(l) {
            active.insert(right.start_spec())
        } else {
            active
        }
    }

    /// Whether a concatenation state accepts: some active right state
    /// accepts, or the left state accepts and so does the start of `right`.
    pub open spec fn concat_accepting(&self, right: &Self, l: nat, active: Set<nat>) -> bool {
        right.any_accepts(active) || (self.accepting(l) && right.accepting(right.start_spec()))
    }

    /// The states of `right` reached on the suffixes of `w` that follow a
    /// prefix that `self` accepts.
    pub open spec fn concat_reached(&self, right: &Self, w: Seq<S>) -> Set<nat> {
        Set::new(|s: nat| exists|i: int| 0 <= i <= w.len() && self.accepts(w.take(i))
            && s == right.run(right.start_spec(), #[trigger] w.skip(i)))
    }

    /// `w` splits into a prefix that `self` accepts and a suffix that `right` accepts.
    pub open spec fn concat_accepts(&self, right: &Self, w: Seq<S>) -> bool {
        exists|i: int| 0 <= i <= w.len() && self.accepts(w.take(i)) && right.accepts(#[trigger] w.skip(i))
    }

    spec fn concat_inv(&self, right: &Self, dfa: Self, entries: Seq<(Seq<usize>, usize)>, cursor: nat) -> bool {
        &&& dfa.wf()
        &&& dfa.start_spec() == 0
        &&& keys_distinct(entries)
        &&& entries.len() == dfa.num_states()
        &&& cursor <= entries.len()
        &&& key_left(entries[0].0) == self.start_spec()
        &&& key_right(entries[0].0) == (if self.accepting(self.start_spec()) {
            Set::empty().insert(right.start_spec())
        } else {
            Set::empty()
        })
        &&& forall|i: int| 0 <= i < entries.len() ==> (#[trigger] entries[i]).1 == i
        &&& forall|i: int| 0 <= i < entries.len() ==> key_bounded(#[trigger] entries[i].0,
            if self.num_states() < 2 { 2 } else { self.num_states() }, right.num_states() + 1)
        &&& forall|i: int| 0 <= i < entries.len() ==> 1 <= (#[trigger] entries[i]).0.len()
            && key_left(entries[i].0) < self.num_states()
            && (forall|j: int| 1 <= j < entries[i].0.len() ==> entries[i].0[j] < 2)
        &&& forall|i: nat|
            i < entries.len() ==> #[trigger] dfa.accepting(i) == self.concat_accepting(
                right, key_left(entries[i as int].0), key_right(entries[i as int].0))
        &&& forall|i: nat, c: S|
            i < cursor ==> key_left(entries[#[trigger] dfa.table(i)[c] as int].0)
                == self.next(key_left(entries[i as int].0), c)
        &&& forall|i: nat, c: S|
            i < cursor ==> key_right(entries[#[trigger] dfa.table(i)[c] as int].0) == right.image(
                self.concat_sources(right, key_left(entries[i as int].0), key_right(entries[i as int].0)), c)
    }

    proof fn lemma_concat_reached_step(&self, right: &Self, w: Seq<S>, c: S)
        requires
            self.wf(),
            right.wf(),
        ensures
            self.concat_reached(right, w.push(c)) == right.image(
                self.concat_sources(right, self.run(self.start_spec(), w), self.concat_reached(right, w)), c)
                .union(if self.accepts(w.push(c)) { Set::empty().insert(right.start_spec()) } else { Set::empty() }),
    {
        let w2 = w.push(c);
        let before = self.concat_reached(right, w);
        let l = self.run(self.start_spec(), w);
        let src = self.concat_sources(right, l, before);
        let after = right.image(src, c).union(
            if self.accepts(w2) { Set::empty().insert(right.start_spec()) } else { Set::empty() });
        assert forall|s: nat| self.concat_reached(right, w2).contains(s) implies after.contains(s) by {
            let i = choose|i: int| 0 <= i <= w2.len() && self.accepts(w2.take(i))
                && s == right.run(right.start_spec(), #[trigger] w2.skip(i));
            if i == w2.len() {
                assert(w2.take(i) =~= w2);
                assert(w2.skip(i) =~= Seq::<S>::empty());
            } else {
                assert(w2.take(i) =~= w.take(i));
                assert(w2.skip(i) =~= w.skip(i).push(c));
                right.lemma_run_push(right.start_spec(), w.skip(i), c);
                let p = right.run(right.start_spec(), w.skip(i));
                if i == w.len() {
                    assert(w.take(i) =~= w);
                    assert(w.skip(i) =~= Seq::<S>::empty());
                    assert(src.contains(right.start_spec()));
                } else {
                    assert(before.contains(p));
                }
                assert(src.contains(p));
                assert(right.next(p, c) == s);
            }
        }
        assert forall|s: nat| after.contains(s) implies self.concat_reached(right, w2).contains(s) by {
            if right.image(src, c).contains(s) {
                let p = choose|p: nat| src.contains(p) && #[trigger] right.next(p, c) == s;
                if before.contains(p) {
                    let i = choose|i: int| 0 <= i <= w.len() && self.accepts(w.take(i))
                        && p == right.run(right.start_spec(), #[trigger] w.skip(i));
                    assert(w2.take(i) =~= w.take(i));
                    assert(w2.skip(i) =~= w.skip(i).push(c));
                    right.lemma_run_push(right.start_spec(), w.skip(i), c);
                    assert(s == right.run(right.start_spec(), w2.skip(i)));
                } else {
                    let i = w.len() as int;
                    assert(self.accepting(l));
                    assert(p == right.start_spec());
                    assert(w.take(i) =~= w);
                    assert(w.skip(i) =~= Seq::<S>::empty());
                    assert(w2.take(i) =~= w);
                    assert(w2.skip(i) =~= Seq::<S>::empty().push(c));
                    right.lemma_run_push(right.start_spec(), Seq::<S>::empty(), c);
                    assert(s == right.run(right.start_spec(), w2.skip(i)));
                }
            } else {
                let i = w2.len() as int;
                assert(w2.take(i) =~= w2);
                assert(w2.skip(i) =~= Seq::<S>::empty());
            }
        }
        assert(self.concat_reached(right, w2) =~= after);
    }

    proof fn lemma_concat_run(&self, right: &Self, dfa: Self, entries: Seq<(Seq<usize>, usize)>, w: Seq<S>)
        requires
            self.wf(),
            right.wf(),
            self.concat_inv(right, dfa, entries, entries.len()),
        ensures
            dfa.run(0, w) < entries.len(),
            key_left(entries[dfa.run(0, w) as int].0) == self.run(self.start_spec(), w),
            self.concat_sources(right, key_left(entries[dfa.run(0, w) as int].0),
                key_right(entries[dfa.run(0, w) as int].0)) == self.concat_reached(right, w),
        decreases w.len(),
    {
        dfa.lemma_run_in_range(0, w);
        let j = dfa.run(0, w);
        if w.len() == 0 {
            let reached = self.concat_reached(right, w);
            assert forall|s: nat| reached.contains(s) <==> self.concat_sources(right,
                key_left(entries[0].0), key_right(entries[0].0)).contains(s) by {
                assert(w.take(0) =~= w);
                assert(w.skip(0) =~= w);
                if reached.contains(s) {
                    let i = choose|i: int| 0 <= i <= w.len() && self.accepts(w.take(i))
                        && s == right.run(right.start_spec(), #[trigger] w.skip(i));
                    assert(i == 0);
                }
            }
            assert(reached =~= self.concat_sources(right, key_left(entries[0].0), key_right(entries[0].0)));
        } else {
            let p = w.drop_last();
            let c = w.last();
            assert(p.push(c) =~= w);
            self.lemma_concat_run(right, dfa, entries, p);
            let q = dfa.run(0, p);
            let l = key_left(entries[q as int].0);
            self.lemma_run_in_range(self.start_spec(), p);
            assert(key_left(entries[j as int].0) == self.next(l, c));
            self.lemma_run_push(self.start_spec(), p, c);
            self.lemma_concat_reached_step(right, p, c);
            let r = key_right(entries[j as int].0);
            assert(r == right.image(self.concat_sources(right, l, key_right(entries[q as int].0)), c));
            assert(self.concat_sources(right, l, key_right(entries[q as int].0)) == self.concat_reached(right, p));
            assert(self.accepting(self.run(self.start_spec(), w)) == self.accepts(w));
            assert(self.concat_sources(right, key_left(entries[j as int].0), r) =~= self.concat_reached(right, w));
        }
    }

    /// The accepting kind of a concatenation state.
    fn concat_state_kind(&self, left_state: StateId, right: &Self, right_active: &StateIdSet) -> (k: StateKind)
        requires
            self.wf(),
            right.wf(),
            left_state@ < self.num_states(),
            forall|i: nat| #[trigger] bits_set(right_active@).contains(i) ==> i < right.num_states(),
        ensures
            k.spec_accepting() == self.concat_accepting(right, left_state@ as nat, bits_set(right_active@)),
    {
        right.any_accepting(right_active).or(
            if self.is_accepting(left_state) && right.is_accepting(right.start) {
                StateKind::Accepting
            } else {
                StateKind::Rejecting
            },
        )
    }

    /// The automaton accepting the words that split into a word `self`
    /// accepts followed by a word `right` accepts.
    pub fn concat(&self, right: &Self) -> (dfa: Self)
        requires
            self.wf(),
            right.wf(),
        ensures
            dfa.wf(),
            forall|w: Seq<S>| #[trigger] dfa.accepts(w) == self.concat_accepts(right, w),
    {
        let ghost na = self.num_states();
        let ghost nb = right.num_states();
        let ghost bound: nat = if na < 2 { 2 } else { na };
        let ghost space = key_space(bound + 1, nb + 1);
        let mut right_active = StateIdSet::new();
        if self.is_accepting(self.start) {
            right_active.insert(right.start);
        }
        proof {
            lemma_inserted_bits_set(Seq::empty(), right.start_spec());
            assert(bits_set(Seq::<bool>::empty()) =~= Set::<nat>::empty());
        }
        let start_kind = self.concat_state_kind(self.start, right, &right_active);
        let mut dfa = Self::new(start_kind);
        let mut key_to_state = key_index_new();
        let mut start_key = vec![self.start.id()];
        right_active.append_flags(&mut start_key);
        let ghost sk = start_key@;
        key_index_insert(&mut key_to_state, start_key, dfa.start.id());
        proof {
            let entries = key_index_entries(key_to_state);
            lemma_flags_round_trip(right_active@);
            assert(sk.skip(1) =~= bits_to_flags(right_active@));
            assert(key_right(entries[0].0) == bits_set(right_active@));
            assert(keys_distinct(entries));
            assert(key_bounded(entries[0].0, bound, nb + 1)) by {
                assert forall|j: int| 0 <= j < sk.len() implies #[trigger] sk[j] < bound by {
                    if j > 0 {
                        assert(sk[j] == bits_to_flags(right_active@)[j - 1]);
                    }
                }
            }
            assert forall|j: int| 1 <= j < sk.len() implies sk[j] < 2 by {
                assert(sk[j] == bits_to_flags(right_active@)[j - 1]);
            }
        }

        let mut cursor: usize = 0;
        while cursor < key_index_len(&key_to_state)
            invariant
                self.wf(),
                right.wf(),
                na == self.num_states(),
                nb == right.num_states(),
                bound == (if na < 2 { 2 } else { na }),
                space == key_space(bound + 1, nb + 1),
                self.concat_inv(right, dfa, key_index_entries(key_to_state), cursor as nat),
            decreases space - cursor,
        {
            let ghost entries0 = key_index_entries(key_to_state);
            proof {
                lemma_distinct_keys_bounded(entries0, bound, nb + 1);
            }
            let (key, state_index) = key_index_get_index(&key_to_state, cursor).unwrap();
            assert(key@ == entries0[cursor as int].0);
            let left_state = StateId::from_id(key[0]);
            let right_active = StateIdSet::from_flags(&key, 1);
            let mut right_sources = right_active.copy();
            if self.is_accepting(left_state) {
                right_sources.insert(right.start);
            }
            let ghost lq = left_state@ as nat;
            proof {
                assert(key_bounded(entries0[cursor as int].0, bound, nb + 1));
                assert(right_active@.len() <= nb);
                lemma_inserted_bits_set(right_active@, right.start_spec());
                assert(bits_set(right_sources@) == self.concat_sources(right, lq, key_right(key@)));
                assert(table_total(self.table(lq), na));
            }
            let right_next_map = right.subset_transition_map(&right_sources);
            let ranges = S::join_set(&self.transitions[left_state.id()], &right_next_map);
            let ghost sources = self.concat_sources(right, lq, key_right(key@));
            let mut out: Vec<(S, S, StateId)> = Vec::new();
            let mut k: usize = 0;
            while k < ranges.len()
                invariant
                    self.wf(),
                    right.wf(),
                    na == self.num_states(),
                    nb == right.num_states(),
                    bound == (if na < 2 { 2 } else { na }),
                    self.concat_inv(right, dfa, key_index_entries(key_to_state), cursor as nat),
                    cursor < key_index_entries(key_to_state).len(),
                    key_index_entries(key_to_state)[cursor as int] == entries0[cursor as int],
                    lq < na,
                    lq == key_left(entries0[cursor as int].0),
                    sources == self.concat_sources(right, lq, key_right(entries0[cursor as int].0)),
                    joined(ranges@, self.table(lq), S::set_table_view(right_next_map)),
                    table_total(self.table(lq), na),
                    forall|c: S| #[trigger] S::set_table_view(right_next_map).contains_key(c),
                    forall|c: S| bits_set(#[trigger] S::set_table_view(right_next_map)[c]) == right.image(sources, c),
                    forall|c: S| (#[trigger] S::set_table_view(right_next_map)[c]).len() <= nb,
                    k <= ranges.len(),
                    out.len() == k,
                    forall|j: int| 0 <= j < k ==> (#[trigger] out@[j]).0 == ranges@[j].0 && out@[j].1 == ranges@[j].1,
                    forall|j: int| 0 <= j < k ==> (#[trigger] out@[j]).2@ < dfa.num_states(),
                    forall|j: int| 0 <= j < k ==> key_left(key_index_entries(key_to_state)[(#[trigger] out@[j]).2@ as int].0)
                        == ranges@[j].2@,
                    forall|j: int| 0 <= j < k ==> key_right(key_index_entries(key_to_state)[(#[trigger] out@[j]).2@ as int].0)
                        == bits_set(ranges@[j].3@),
                decreases ranges.len() - k,
            {
                let lo = ranges[k].0;
                let hi = ranges[k].1;
                let left_next = ranges[k].2;
                let ghost entries1 = key_index_entries(key_to_state);
                let ghost dfa1 = dfa;
                proof {
                    assert(covers(lo, lo, lo));
                    assert(covers(ranges@[k as int].0, ranges@[k as int].1, lo));
                    assert(self.table(lq).contains_key(lo));
                    assert(left_next@ == self.table(lq)[lo]);
                    assert(left_next@ < na);
                    assert(S::set_table_view(right_next_map).contains_key(lo));
                    assert(ranges@[k as int].3@ == S::set_table_view(right_next_map)[lo]);
                    assert(ranges@[k as int].3@.len() <= nb);
                }
                let mut next_key = vec![left_next.id()];
                ranges[k].3.append_flags(&mut next_key);
                let ghost nk = next_key@;
                proof {
                    lemma_flags_round_trip(ranges@[k as int].3@);
                    assert(nk.skip(1) =~= bits_to_flags(ranges@[k as int].3@));
                    assert(key_left(nk) == left_next@);
                    assert(key_right(nk) == bits_set(ranges@[k as int].3@));
                }
                let next = match key_index_get(&key_to_state, &next_key) {
                    Some(existing) => {
                        proof {
                            let i = choose|i: int| 0 <= i < entries1.len() && entries1[i] == (nk, existing);
                            assert(entries1[i].1 == i);
                        }
                        existing
                    },
                    None => {
                        let state_kind = self.concat_state_kind(left_next, right, &ranges[k].3);
                        let new_id = dfa.new_state(state_kind);
                        key_index_insert(&mut key_to_state, next_key, new_id.id());
                        proof {
                            let entries2 = key_index_entries(key_to_state);
                            assert(entries2 == entries1.push((nk, new_id@)));
                            assert(keys_distinct(entries2)) by {
                                assert forall|i: int, j: int| 0 <= i < j < entries2.len() implies #[trigger] entries2[i].0 != #[trigger] entries2[j].0 by {
                                    if j == entries1.len() {
                                        assert(entries1[i].0 != nk);
                                    } else {
                                        assert(entries1[i] == entries2[i]);
                                        assert(entries1[j] == entries2[j]);
                                    }
                                }
                            }
                            assert forall|i: int| 0 <= i < entries2.len() implies (#[trigger] entries2[i]).1 == i by {
                                if i < entries1.len() {
                                    assert(entries2[i] == entries1[i]);
                                }
                            }
                            assert forall|i: int| 0 <= i < entries2.len() implies key_bounded(#[trigger] entries2[i].0, bound, nb + 1) by {
                                if i < entries1.len() {
                                    assert(entries2[i] == entries1[i]);
                                } else {
                                    assert forall|j: int| 0 <= j < nk.len() implies #[trigger] nk[j] < bound by {
                                        if j > 0 {
                                            assert(nk[j] == bits_to_flags(ranges@[k as int].3@)[j - 1]);
                                        }
                                    }
                                }
                            }
                            assert forall|i: int| 0 <= i < entries2.len() implies 1 <= (#[trigger] entries2[i]).0.len()
                                && key_left(entries2[i].0) < self.num_states()
                                && (forall|j: int| 1 <= j < entries2[i].0.len() ==> entries2[i].0[j] < 2) by {
                                if i < entries1.len() {
                                    assert(entries2[i] == entries1[i]);
                                } else {
                                    assert forall|j: int| 1 <= j < nk.len() implies nk[j] < 2 by {
                                        assert(nk[j] == bits_to_flags(ranges@[k as int].3@)[j - 1]);
                                    }
                                }
                            }
                            assert forall|i: nat| i < entries2.len() implies #[trigger] dfa.accepting(i) == self.concat_accepting(
                                right, key_left(entries2[i as int].0), key_right(entries2[i as int].0)) by {
                                if i < entries1.len() {
                                    assert(entries2[i as int] == entries1[i as int]);
                                    assert(dfa1.accepting(i) == self.concat_accepting(
                                        right, key_left(entries1[i as int].0), key_right(entries1[i as int].0)));
                                }
                            }
                            assert forall|i: nat, c: S| i < cursor implies key_left(entries2[#[trigger] dfa.table(i)[c] as int].0)
                                == self.next(key_left(entries2[i as int].0), c) by {
                                assert(dfa.table(i) == dfa1.table(i));
                                assert(entries2[i as int] == entries1[i as int]);
                                assert(table_total(dfa1.table(i), dfa1.num_states()));
                                assert(entries2[dfa1.table(i)[c] as int] == entries1[dfa1.table(i)[c] as int]);
                            }
                            assert forall|i: nat, c: S| i < cursor implies key_right(entries2[#[trigger] dfa.table(i)[c] as int].0) == right.image(
                                self.concat_sources(right, key_left(entries2[i as int].0), key_right(entries2[i as int].0)), c) by {
                                assert(dfa.table(i) == dfa1.table(i));
                                assert(entries2[i as int] == entries1[i as int]);
                                assert(table_total(dfa1.table(i), dfa1.num_states()));
                                assert(entries2[dfa1.table(i)[c] as int] == entries1[dfa1.table(i)[c] as int]);
                            }
                            assert(entries2[0] == entries1[0]);
                            assert forall|j: int| 0 <= j < k implies key_left(entries2[(#[trigger] out@[j]).2@ as int].0) == ranges@[j].2@
                                && key_right(entries2[out@[j].2@ as int].0) == bits_set(ranges@[j].3@) by {
                                assert(entries2[out@[j].2@ as int] == entries1[out@[j].2@ as int]);
                            }
                        }
                        new_id.id()
                    },
                };
                let ghost old_out = out@;
                out.push((lo, hi, StateId::from_id(next)));
                proof {
                    let entries3 = key_index_entries(key_to_state);
                    assert(entries3[next as int].0 == nk);
                    assert forall|j: int| 0 <= j < k + 1 implies (#[trigger] out@[j]).0 == ranges@[j].0 && out@[j].1 == ranges@[j].1 by {
                        if j < k {
                            assert(out@[j] == old_out[j]);
                        }
                    }
                    assert forall|j: int| 0 <= j < k + 1 implies (#[trigger] out@[j]).2@ < dfa.num_states() by {
                        if j < k {
                            assert(out@[j] == old_out[j]);
                        }
                    }
                    assert forall|j: int| 0 <= j < k + 1 implies key_left(entries3[(#[trigger] out@[j]).2@ as int].0) == ranges@[j].2@ by {
                        if j < k {
                            assert(out@[j] == old_out[j]);
                        }
                    }
                    assert forall|j: int| 0 <= j < k + 1 implies key_right(entries3[(#[trigger] out@[j]).2@ as int].0) == bits_set(ranges@[j].3@) by {
                        if j < k {
                            assert(out@[j] == old_out[j]);
                        }
                    }
                }
                k += 1;
            }
            let ghost entries4 = key_index_entries(key_to_state);
            let ghost out_seq = out@;
            proof {
                assert(spans_sorted(out_seq)) by {
                    assert forall|i: int| 0 <= i < out_seq.len() implies (#[trigger] out_seq[i]).0.code() <= out_seq[i].1.code() by {
                        assert(ranges@[i].0.code() <= ranges@[i].1.code());
                    }
                    assert forall|i: int| 0 <= i < out_seq.len() - 1 implies (#[trigger] out_seq[i]).1.code() < out_seq[i + 1].0.code() by {
                        assert(ranges@[i].1.code() < ranges@[i + 1].0.code());
                        assert(out_seq[i + 1].0 == ranges@[i + 1].0);
                    }
                }
            }
            let table = S::from_ranges(out);
            proof {
                let m = S::table_view(table);
                assert forall|c: S| #[trigger] m.contains_key(c) && m[c] < dfa.num_states()
                    && key_left(entries4[m[c] as int].0) == self.next(lq, c)
                    && key_right(entries4[m[c] as int].0) == right.image(sources, c) by {
                    assert(self.table(lq).contains_key(c));
                    assert(S::set_table_view(right_next_map).contains_key(c));
                    let j = choose|j: int| 0 <= j < ranges@.len() && covers((#[trigger] ranges@[j]).0, ranges@[j].1, c);
                    assert(covers(out_seq[j].0, out_seq[j].1, c));
                    lemma_lookup_sorted(out_seq, j, c);
                    assert(range_lookup(out_seq, c) is Some);
                    assert(self.table(lq)[c] == ranges@[j].2@);
                    assert(S::set_table_view(right_next_map)[c] == ranges@[j].3@);
                }
                assert forall|c: S| #[trigger] m[c] < dfa.num_states() by {
                    assert(m.contains_key(c));
                }
                assert(table_total(m, dfa.num_states()));
            }
            let ghost dfa5 = dfa;
            dfa.set_transitions(StateId::from_id(state_index), table);
            proof {
                let entries = key_index_entries(key_to_state);
                assert(state_index == cursor);
                assert forall|i: nat, c: S| i < cursor + 1 implies key_left(entries[#[trigger] dfa.table(i)[c] as int].0)
                    == self.next(key_left(entries[i as int].0), c) by {
                    if i < cursor {
                        assert(dfa.table(i) == dfa5.table(i));
                    } else {
                        assert(S::table_view(table).contains_key(c));
                    }
                }
                assert forall|i: nat, c: S| i < cursor + 1 implies key_right(entries[#[trigger] dfa.table(i)[c] as int].0) == right.image(
                    self.concat_sources(right, key_left(entries[i as int].0), key_right(entries[i as int].0)), c) by {
                    if i < cursor {
                        assert(dfa.table(i) == dfa5.table(i));
                    } else {
                        assert(S::table_view(table).contains_key(c));
                    }
                }
                assert forall|i: nat| i < entries.len() implies #[trigger] dfa.accepting(i) == self.concat_accepting(
                    right, key_left(entries[i as int].0), key_right(entries[i as int].0)) by {
                    assert(dfa5.accepting(i) == self.concat_accepting(
                        right, key_left(entries[i as int].0), key_right(entries[i as int].0)));
                }
            }
            cursor += 1;
        }
        proof {
            let entries = key_index_entries(key_to_state);
            assert forall|w: Seq<S>| #[trigger] dfa.accepts(w) == self.concat_accepts(right, w) by {
                self.lemma_concat_run(right, dfa, entries, w);
                let q = dfa.run(0, w);
                let l = key_left(entries[q as int].0);
                let r = key_right(entries[q as int].0);
                let reached = self.concat_reached(right, w);
                assert(dfa.accepting(q) == self.concat_accepting(right, l, r));
                assert(self.concat_sources(right, l, r) == reached);
                if dfa.accepting(q) {
                    if right.any_accepts(r) {
                        let s = choose|s: nat| r.contains(s) && #[trigger] right.accepting(s);
                        assert(reached.contains(s));
                        let i = choose|i: int| 0 <= i <= w.len() && self.accepts(w.take(i))
                            && s == right.run(right.start_spec(), #[trigger] w.skip(i));
                        assert(right.accepts(w.skip(i)));
                    } else {
                        assert(reached.contains(right.start_spec()));
                        let i = choose|i: int| 0 <= i <= w.len() && self.accepts(w.take(i))
                            && right.start_spec() == right.run(right.start_spec(), #[trigger] w.skip(i));
                        assert(right.accepts(w.skip(i)));
                    }
                }
                if self.concat_accepts(right, w) {
                    let i = choose|i: int| 0 <= i <= w.len() && self.accepts(w.take(i)) && right.accepts(#[trigger] w.skip(i));
                    let s = right.run(right.start_spec(), w.skip(i));
                    assert(reached.contains(s));
                    if r.contains(s) {
                        assert(right.any_accepts(r));
                    } else {
                        assert(self.accepting(l));
                        assert(s == right.start_spec());
                    }
                }
            }
        }
        dfa
    }
}

} // verus!
