use vstd::prelude::*;
use crate::state::{StateId, StateKind};
use crate::state_id_set::{
    StateIdSet, bits_set, lemma_inserted_bits_set, bits_to_flags, flags_to_bits, lemma_flags_round_trip,
};
use crate::symbol::{Symbol, SymbolCode, covers, listed, range_lookup};
use crate::key_index::{
    key_index_new, key_index_len, key_index_insert, key_index_get, key_index_get_index, key_index_entries,
    keys_distinct, key_bounded, key_space, lemma_distinct_keys_bounded,
};
use super::{Dfa, table_total};
use super::ranges::{spans_sorted, lemma_lookup_sorted};

verus! {

/// Whether a star key marks a boundary between repetitions.
pub open spec fn key_boundary(k: Seq<usize>) -> bool {
    k[0] == 1
}

/// The active states that a star key names.
pub open spec fn key_active(k: Seq<usize>) -> Set<nat> {
    bits_set(flags_to_bits(k.skip(1)))
}

impl<S: Symbol> Dfa<S> {
    /// `w` is a concatenation of zero or more words that the automaton accepts.
    pub open spec fn in_star(&self, w: Seq<S>) -> bool
        decreases w.len(),
    {
        w.len() == 0 || exists|i: int| 0 <= i < w.len() && self.in_star(#[trigger] w.take(i)) && self.accepts(w.skip(i))
    }

    /// The states reached on the suffixes of `w` that follow a prefix in the star.
    pub open spec fn star_reached(&self, w: Seq<S>) -> Set<nat> {
        Set::new(|s: nat| exists|i: int| 0 <= i <= w.len() && self.in_star(#[trigger] w.take(i))
            && s == self.run(self.start_spec(), w.skip(i)))
    }

    /// The active states after stepping on `c` from `active`, with the start
    /// added when some of them accepts.
    pub open spec fn star_next(&self, active: Set<nat>, c: S) -> Set<nat> {
        if self.any_accepts(self.image(active, c)) {
            self.image(active, c).insert(self.start_spec())
        } else {
            self.image(active, c)
        }
    }

    spec fn star_inv(&self, dfa: Self, entries: Seq<(Seq<usize>, usize)>, cursor: nat) -> bool {
        &&& dfa.wf()
        &&& dfa.start_spec() == 0
        &&& keys_distinct(entries)
        &&& entries.len() == dfa.num_states()
        &&& cursor <= entries.len()
        &&& key_boundary(entries[0].0)
        &&& key_active(entries[0].0) == Set::empty().insert(self.start_spec())
        &&& forall|i: int| 0 <= i < entries.len() ==> (#[trigger] entries[i]).1 == i
        &&& forall|i: int| 0 <= i < entries.len() ==> key_bounded(#[trigger] entries[i].0, 2, self.num_states() + 1)
        &&& forall|i: int| 0 <= i < entries.len() ==> 1 <= (#[trigger] entries[i]).0.len()
        &&& forall|i: nat| i < entries.len() ==> #[trigger] dfa.accepting(i) == key_boundary(entries[i as int].0)
        &&& forall|i: nat, c: S|
            i < cursor ==> key_boundary(entries[#[trigger] dfa.table(i)[c] as int].0)
                == self.any_accepts(self.image(key_active(entries[i as int].0), c))
        &&& forall|i: nat, c: S|
            i < cursor ==> key_active(entries[#[trigger] dfa.table(i)[c] as int].0)
                == self.star_next(key_active(entries[i as int].0), c)
    }

    proof fn lemma_star_step(&self, w: Seq<S>, c: S)
        requires
            self.wf(),
        ensures
            self.in_star(w.push(c)) == self.any_accepts(self.image(self.star_reached(w), c)),
            self.star_reached(w.push(c)) == self.star_next(self.star_reached(w), c),
    {
        let w2 = w.push(c);
        let y = self.image(self.star_reached(w), c);
        assert(w2.len() > 0);
        assert(self.in_star(w2) == exists|i: int| 0 <= i < w2.len() && self.in_star(#[trigger] w2.take(i)) && self.accepts(w2.skip(i)));
        assert forall|i: int| 0 <= i <= w.len() implies #[trigger] w2.take(i) == w.take(i)
            && self.run(self.start_spec(), w2.skip(i)) == self.next(self.run(self.start_spec(), w.skip(i)), c) by {
            assert(w2.take(i) =~= w.take(i));
            assert(w2.skip(i) =~= w.skip(i).push(c));
            self.lemma_run_push(self.start_spec(), w.skip(i), c);
        }
        assert forall|t: nat| y.contains(t) <==> exists|i: int| 0 <= i <= w.len() && self.in_star(#[trigger] w2.take(i))
            && t == self.run(self.start_spec(), w2.skip(i)) by {
            if y.contains(t) {
                let s = choose|s: nat| self.star_reached(w).contains(s) && #[trigger] self.next(s, c) == t;
                let i = choose|i: int| 0 <= i <= w.len() && self.in_star(#[trigger] w.take(i))
                    && s == self.run(self.start_spec(), w.skip(i));
                assert(w2.take(i) == w.take(i));
            }
            if exists|i: int| 0 <= i <= w.len() && self.in_star(#[trigger] w2.take(i))
                && t == self.run(self.start_spec(), w2.skip(i)) {
                let i = choose|i: int| 0 <= i <= w.len() && self.in_star(#[trigger] w2.take(i))
                    && t == self.run(self.start_spec(), w2.skip(i));
                assert(w2.take(i) == w.take(i));
                let s = self.run(self.start_spec(), w.skip(i));
                assert(self.star_reached(w).contains(s));
                assert(self.next(s, c) == t);
            }
        }
        if self.in_star(w2) {
            let i = choose|i: int| 0 <= i < w2.len() && self.in_star(#[trigger] w2.take(i)) && self.accepts(w2.skip(i));
            let t = self.run(self.start_spec(), w2.skip(i));
            assert(y.contains(t));
        }
        if self.any_accepts(y) {
            let t = choose|t: nat| y.contains(t) && #[trigger] self.accepting(t);
            let i = choose|i: int| 0 <= i <= w.len() && self.in_star(#[trigger] w2.take(i))
                && t == self.run(self.start_spec(), w2.skip(i));
            assert(self.accepts(w2.skip(i)));
        }
        let r2 = self.star_reached(w2);
        let nx = self.star_next(self.star_reached(w), c);
        assert forall|t: nat| r2.contains(t) implies nx.contains(t) by {
            let i = choose|i: int| 0 <= i <= w2.len() && self.in_star(#[trigger] w2.take(i))
                && t == self.run(self.start_spec(), w2.skip(i));
            if i == w2.len() {
                assert(w2.take(i) =~= w2);
                assert(w2.skip(i) =~= Seq::<S>::empty());
            } else {
                assert(y.contains(t));
            }
        }
        assert forall|t: nat| nx.contains(t) implies r2.contains(t) by {
            if y.contains(t) {
                let i = choose|i: int| 0 <= i <= w.len() && self.in_star(#[trigger] w2.take(i))
                    && t == self.run(self.start_spec(), w2.skip(i));
            } else {
                let i = w2.len() as int;
                assert(w2.take(i) =~= w2);
                assert(w2.skip(i) =~= Seq::<S>::empty());
            }
        }
        assert(r2 =~= nx);
    }

    proof fn lemma_star_run(&self, dfa: Self, entries: Seq<(Seq<usize>, usize)>, w: Seq<S>)
        requires
            self.wf(),
            self.star_inv(dfa, entries, entries.len()),
        ensures
            dfa.run(0, w) < entries.len(),
            key_boundary(entries[dfa.run(0, w) as int].0) == self.in_star(w),
            key_active(entries[dfa.run(0, w) as int].0) == self.star_reached(w),
        decreases w.len(),
    {
        dfa.lemma_run_in_range(0, w);
        if w.len() == 0 {
            let r = self.star_reached(w);
            assert forall|s: nat| r.contains(s) <==> s == self.start_spec() by {
                assert(w.take(0) =~= w);
                assert(w.skip(0) =~= w);
                if r.contains(s) {
                    let i = choose|i: int| 0 <= i <= w.len() && self.in_star(#[trigger] w.take(i))
                        && s == self.run(self.start_spec(), w.skip(i));
                    assert(i == 0);
                }
            }
            assert(r =~= Set::empty().insert(self.start_spec()));
        } else {
            let p = w.drop_last();
            let c = w.last();
            assert(p.push(c) =~= w);
            self.lemma_star_run(dfa, entries, p);
            self.lemma_star_step(p, c);
        }
    }

    /// The automaton accepting the concatenations of zero or more words that
    /// `self` accepts.
    pub fn star(&self) -> (dfa: Self)
        requires
            self.wf(),
        ensures
            dfa.wf(),
            forall|w: Seq<S>| #[trigger] dfa.accepts(w) == self.in_star(w),
    {
        let ghost na = self.num_states();
        let ghost space = key_space(3, na + 1);
        let start_active = StateIdSet::from_state(self.start);
        let mut dfa = Self::new(StateKind::Accepting);
        let mut key_to_state = key_index_new();
        let mut start_key = vec![1usize];
        start_active.append_flags(&mut start_key);
        let ghost sk = start_key@;
        key_index_insert(&mut key_to_state, start_key, dfa.start.id());
        proof {
            let entries = key_index_entries(key_to_state);
            lemma_flags_round_trip(start_active@);
            assert(sk.skip(1) =~= bits_to_flags(start_active@));
            lemma_inserted_bits_set(Seq::empty(), self.start_spec());
            assert(bits_set(Seq::<bool>::empty()) =~= Set::<nat>::empty());
            assert(key_active(entries[0].0) == Set::empty().insert(self.start_spec()));
            assert(keys_distinct(entries));
            assert(key_bounded(entries[0].0, 2, na + 1)) by {
                assert forall|j: int| 0 <= j < sk.len() implies #[trigger] sk[j] < 2 by {
                    if j > 0 {
                        assert(sk[j] == bits_to_flags(start_active@)[j - 1]);
                    }
                }
            }
        }

        let mut cursor: usize = 0;
        while cursor < key_index_len(&key_to_state)
            invariant
                self.wf(),
                na == self.num_states(),
                space == key_space(3, na + 1),
                self.star_inv(dfa, key_index_entries(key_to_state), cursor as nat),
            decreases space - cursor,
        {
            let ghost entries0 = key_index_entries(key_to_state);
            proof {
                lemma_distinct_keys_bounded(entries0, 2, na + 1);
            }
            let (key, state_index) = key_index_get_index(&key_to_state, cursor).unwrap();
            assert(key@ == entries0[cursor as int].0);
            let active = StateIdSet::from_flags(&key, 1);
            proof {
                assert(key_bounded(entries0[cursor as int].0, 2, na + 1));
                assert(active@.len() <= na);
            }
            let next_map = self.subset_transition_map(&active);
            let ranges = S::set_ranges(&next_map);
            let ghost act = key_active(key@);
            let mut out: Vec<(S, S, StateId)> = Vec::new();
            let mut k: usize = 0;
            while k < ranges.len()
                invariant
                    self.wf(),
                    na == self.num_states(),
                    self.star_inv(dfa, key_index_entries(key_to_state), cursor as nat),
                    cursor < key_index_entries(key_to_state).len(),
                    key_index_entries(key_to_state)[cursor as int] == entries0[cursor as int],
                    act == key_active(entries0[cursor as int].0),
                    listed(ranges@, S::set_table_view(next_map)),
                    forall|c: S| #[trigger] S::set_table_view(next_map).contains_key(c),
                    forall|c: S| bits_set(#[trigger] S::set_table_view(next_map)[c]) == self.image(act, c),
                    forall|c: S| (#[trigger] S::set_table_view(next_map)[c]).len() <= na,
                    k <= ranges.len(),
                    out.len() == k,
                    forall|j: int| 0 <= j < k ==> (#[trigger] out@[j]).0 == ranges@[j].0 && out@[j].1 == ranges@[j].1,
                    forall|j: int| 0 <= j < k ==> (#[trigger] out@[j]).2@ < dfa.num_states(),
                    forall|j: int| 0 <= j < k ==> key_boundary(key_index_entries(key_to_state)[(#[trigger] out@[j]).2@ as int].0)
                        == self.any_accepts(bits_set(ranges@[j].2@)),
                    forall|j: int| 0 <= j < k ==> key_active(key_index_entries(key_to_state)[(#[trigger] out@[j]).2@ as int].0)
                        == (if self.any_accepts(bits_set(ranges@[j].2@)) {
                            bits_set(ranges@[j].2@).insert(self.start_spec())
                        } else {
                            bits_set(ranges@[j].2@)
                        }),
                decreases ranges.len() - k,
            {
                let lo = ranges[k].0;
                let hi = ranges[k].1;
                let ghost entries1 = key_index_entries(key_to_state);
                let ghost dfa1 = dfa;
                let ghost img = bits_set(ranges@[k as int].2@);
                proof {
                    assert(covers(lo, lo, lo));
                    assert(covers(ranges@[k as int].0, ranges@[k as int].1, lo));
                    assert(S::set_table_view(next_map).contains_key(lo));
                    assert(ranges@[k as int].2@ == S::set_table_view(next_map)[lo]);
                    assert(ranges@[k as int].2@.len() <= na);
                }
                let mut next_active = ranges[k].2.copy();
                let boundary_kind = self.any_accepting(&next_active);
                if boundary_kind.is_accepting() {
                    next_active.insert(self.start);
                }
                proof {
                    lemma_inserted_bits_set(ranges@[k as int].2@, self.start_spec());
                    assert(next_active@.len() <= na);
                }
                let mut next_key = vec![if boundary_kind.is_accepting() { 1usize } else { 0usize }];
                next_active.append_flags(&mut next_key);
                let ghost nk = next_key@;
                proof {
                    lemma_flags_round_trip(next_active@);
                    assert(nk.skip(1) =~= bits_to_flags(next_active@));
                    assert(key_boundary(nk) == self.any_accepts(img));
                    assert(key_active(nk) == (if self.any_accepts(img) { img.insert(self.start_spec()) } else { img }));
                }
                let next = match key_index_get(&key_to_state, &next_key) {
                    Some(existing) => {
                        proof {
                            let i = choose|i: int| 0 <= i < entries1.len() && entries1[i] == (nk, existing);
                            assert(entries1[i].1 == i);
                        }
                        existing
                    },
                    None => {
                        let new_id = dfa.new_state(boundary_kind);
                        key_index_insert(&mut key_to_state, next_key, new_id.id());
                        proof {
                            let entries2 = key_index_entries(key_to_state);
                            assert(entries2 == entries1.push((nk, new_id@)));
                            assert(keys_distinct(entries2)) by {
                                assert forall|i: int, j: int| 0 <= i < j < entries2.len() implies #[trigger] entries2[i].0 != #[trigger] entries2[j].0 by {
                                    if j == entries1.len() {
                                        assert(entries1[i].0 != nk);
                                    } else {
                                        assert(entries1[i] == entries2[i]);
                                        assert(entries1[j] == entries2[j]);
                                    }
                                }
                            }
                            assert forall|i: int| 0 <= i < entries2.len() implies (#[trigger] entries2[i]).1 == i by {
                                if i < entries1.len() {
                                    assert(entries2[i] == entries1[i]);
                                }
                            }
                            assert forall|i: int| 0 <= i < entries2.len() implies key_bounded(#[trigger] entries2[i].0, 2, na + 1) by {
                                if i < entries1.len() {
                                    assert(entries2[i] == entries1[i]);
                                } else {
                                    assert forall|j: int| 0 <= j < nk.len() implies #[trigger] nk[j] < 2 by {
                                        if j > 0 {
                                            assert(nk[j] == bits_to_flags(next_active@)[j - 1]);
                                        }
                                    }
                                }
                            }
                            assert forall|i: int| 0 <= i < entries2.len() implies 1 <= (#[trigger] entries2[i]).0.len() by {
                                if i < entries1.len() {
                                    assert(entries2[i] == entries1[i]);
                                }
                            }
                            assert forall|i: nat| i < entries2.len() implies #[trigger] dfa.accepting(i) == key_boundary(entries2[i as int].0) by {
                                if i < entries1.len() {
                                    assert(entries2[i as int] == entries1[i as int]);
                                    assert(dfa1.accepting(i) == key_boundary(entries1[i as int].0));
                                }
                            }
                            assert forall|i: nat, c: S| i < cursor implies key_boundary(entries2[#[trigger] dfa.table(i)[c] as int].0)
                                == self.any_accepts(self.image(key_active(entries2[i as int].0), c)) by {
                                assert(dfa.table(i) == dfa1.table(i));
                                assert(entries2[i as int] == entries1[i as int]);
                                assert(table_total(dfa1.table(i), dfa1.num_states()));
                                assert(entries2[dfa1.table(i)[c] as int] == entries1[dfa1.table(i)[c] as int]);
                            }
                            assert forall|i: nat, c: S| i < cursor implies key_active(entries2[#[trigger] dfa.table(i)[c] as int].0)
                                == self.star_next(key_active(entries2[i as int].0), c) by {
                                assert(dfa.table(i) == dfa1.table(i));
                                assert(entries2[i as int] == entries1[i as int]);
                                assert(table_total(dfa1.table(i), dfa1.num_states()));
                                assert(entries2[dfa1.table(i)[c] as int] == entries1[dfa1.table(i)[c] as int]);
                            }
                            assert(entries2[0] == entries1[0]);
                            assert forall|j: int| 0 <= j < k implies entries2[(#[trigger] out@[j]).2@ as int] == entries1[out@[j].2@ as int] by {
                            }
                        }
                        new_id.id()
                    },
                };
                let ghost old_out = out@;
                out.push((lo, hi, StateId::from_id(next)));
                proof {
                    let entries3 = key_index_entries(key_to_state);
                    assert(entries3[next as int].0 == nk);
                    assert forall|j: int| 0 <= j < k + 1 implies (#[trigger] out@[j]).0 == ranges@[j].0 && out@[j].1 == ranges@[j].1 by {
                        if j < k {
                            assert(out@[j] == old_out[j]);
                        }
                    }
                    assert forall|j: int| 0 <= j < k + 1 implies (#[trigger] out@[j]).2@ < dfa.num_states() by {
                        if j < k {
                            assert(out@[j] == old_out[j]);
                        }
                    }
                    assert forall|j: int| 0 <= j < k + 1 implies key_boundary(entries3[(#[trigger] out@[j]).2@ as int].0)
                        == self.any_accepts(bits_set(ranges@[j].2@)) by {
                        if j < k {
                            assert(out@[j] == old_out[j]);
                        }
                    }
                    assert forall|j: int| 0 <= j < k + 1 implies key_active(entries3[(#[trigger] out@[j]).2@ as int].0)
                        == (if self.any_accepts(bits_set(ranges@[j].2@)) {
                            bits_set(ranges@[j].2@).insert(self.start_spec())
                        } else {
                            bits_set(ranges@[j].2@)
                        }) by {
                        if j < k {
                            assert(out@[j] == old_out[j]);
                        }
                    }
                }
                k += 1;
            }
            let ghost entries4 = key_index_entries(key_to_state);
            let ghost out_seq = out@;
            proof {
                assert(spans_sorted(out_seq)) by {
                    assert forall|i: int| 0 <= i < out_seq.len() implies (#[trigger] out_seq[i]).0.code() <= out_seq[i].1.code() by {
                        assert(ranges@[i].0.code() <= ranges@[i].1.code());
                    }
                    assert forall|i: int| 0 <= i < out_seq.len() - 1 implies (#[trigger] out_seq[i]).1.code() < out_seq[i + 1].0.code() by {
                        assert(ranges@[i].1.code() < ranges@[i + 1].0.code());
                        assert(out_seq[i + 1].0 == ranges@[i + 1].0);
                    }
                }
            }
            let table = S::from_ranges(out);
            proof {
                let m = S::table_view(table);
                assert forall|c: S| #[trigger] m.contains_key(c) && m[c] < dfa.num_states()
                    && key_boundary(entries4[m[c] as int].0) == self.any_accepts(self.image(act, c))
                    && key_active(entries4[m[c] as int].0) == self.star_next(act, c) by {
                    assert(S::set_table_view(next_map).contains_key(c));
                    let j = choose|j: int| 0 <= j < ranges@.len() && covers((#[trigger] ranges@[j]).0, ranges@[j].1, c);
                    assert(covers(out_seq[j].0, out_seq[j].1, c));
                    lemma_lookup_sorted(out_seq, j, c);
                    assert(range_lookup(out_seq, c) is Some);
                    assert(S::set_table_view(next_map)[c] == ranges@[j].2@);
                }
                assert forall|c: S| #[trigger] m[c] < dfa.num_states() by {
                    assert(m.contains_key(c));
                }
                assert(table_total(m, dfa.num_states()));
            }
            let ghost dfa5 = dfa;
            dfa.set_transitions(StateId::from_id(state_index), table);
            proof {
                let entries = key_index_entries(key_to_state);
                assert(state_index == cursor);
                assert forall|i: nat, c: S| i < cursor + 1 implies key_boundary(entries[#[trigger] dfa.table(i)[c] as int].0)
                    == self.any_accepts(self.image(key_active(entries[i as int].0), c)) by {
                    if i < cursor {
                        assert(dfa.table(i) == dfa5.table(i));
                    } else {
                        assert(S::table_view(table).contains_key(c));
                    }
                }
                assert forall|i: nat, c: S| i < cursor + 1 implies key_active(entries[#[trigger] dfa.table(i)[c] as int].0)
                    == self.star_next(key_active(entries[i as int].0), c) by {
                    if i < cursor {
                        assert(dfa.table(i) == dfa5.table(i));
                    } else {
                        assert(S::table_view(table).contains_key(c));
                    }
                }
                assert forall|i: nat| i < entries.len() implies #[trigger] dfa.accepting(i) == key_boundary(entries[i as int].0) by {
                    assert(dfa5.accepting(i) == key_boundary(entries[i as int].0));
                }
            }
            cursor += 1;
        }
        proof {
            let entries = key_index_entries(key_to_state);
            assert forall|w: Seq<S>| #[trigger] dfa.accepts(w) == self.in_star(w) by {
                self.lemma_star_run(dfa, entries, w);
            }
        }
        dfa
    }
}

} // verus!
