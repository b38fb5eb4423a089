use vstd::prelude::*;
use crate::state::{StateId, StateKind};
use crate::state_id_set::{StateIdSet, bits_set, inserted_bits, lemma_inserted_bits_set, bits_after_inserts, built_by_marking};
use crate::symbol::{Symbol, SymbolCode, covers, joined, listed};
use super::{Dfa, table_total};
use super::ranges::{spans_sorted, lemma_lookup_sorted};

verus! {

impl<S: Symbol> Dfa<S> {
    /// The states reached from the states of `set` on symbol `c`.
    pub open spec fn image(&self, set: Set<nat>, c: S) -> Set<nat> {
        Set::new(|t: nat| exists|s: nat| set.contains(s) && #[trigger] self.next(s, c) == t)
    }

    /// The states reached on `c` from the first `m` states of `members`.
    spec fn reached(&self, members: Seq<StateId>, m: int, c: S) -> Set<nat> {
        Set::new(|t: nat| exists|i: int| 0 <= i < m && t == self.next(members[i]@ as nat, c))
    }

    /// The states reached on `c` from the first `m` states of `members`, in
    /// the order of `members`.
    spec fn reached_ids(&self, members: Seq<StateId>, m: int, c: S) -> Seq<nat> {
        Seq::new(m as nat, |i: int| self.next(members[i]@ as nat, c))
    }

    spec fn subset_acc_ok(&self, t: Map<S, Seq<bool>>, members: Seq<StateId>, m: int) -> bool {
        &&& forall|c: S| #[trigger] t.contains_key(c)
        &&& forall|c: S| bits_set(#[trigger] t[c]) == self.reached(members, m, c) && t[c].len() <= self.num_states()
        &&& forall|c: S| #[trigger] t[c] == bits_after_inserts(self.reached_ids(members, m, c))
    }

    /// Some state of `set` accepts.
    pub open spec fn any_accepts(&self, set: Set<nat>) -> bool {
        exists|s: nat| set.contains(s) && #[trigger] self.accepting(s)
    }

    /// Whether some state of `active` accepts.
    pub(crate) fn any_accepting(&self, active: &StateIdSet) -> (k: StateKind)
        requires
            self.wf(),
            forall|i: nat| #[trigger] bits_set(active@).contains(i) ==> i < self.num_states(),
        ensures
            k.spec_accepting() == self.any_accepts(bits_set(active@)),
    {
        let members = active.iter();
        let mut acc = StateKind::Rejecting;
        let mut i: usize = 0;
        while i < members.len()
            invariant
                self.wf(),
                forall|i: nat| #[trigger] bits_set(active@).contains(i) ==> i < self.num_states(),
                i <= members.len(),
                forall|k: int| 0 <= k < members.len() ==> bits_set(active@).contains(#[trigger] members@[k]@ as nat),
                acc.spec_accepting() == exists|k: int| 0 <= k < i && self.accepting(#[trigger] members@[k]@ as nat),
            decreases members.len() - i,
        {
            assert(bits_set(active@).contains(members@[i as int]@ as nat));
            acc = acc.or(self.state_kind(members[i]));
            i += 1;
        }
        proof {
            if acc.spec_accepting() {
                let k = choose|k: int| 0 <= k < i && self.accepting(#[trigger] members@[k]@ as nat);
                assert(bits_set(active@).contains(members@[k]@ as nat));
            }
            if self.any_accepts(bits_set(active@)) {
                let s = choose|s: nat| bits_set(active@).contains(s) && #[trigger] self.accepting(s);
                let k = choose|k: int| 0 <= k < members.len() && #[trigger] members@[k]@ == s;
                assert(self.accepting(members@[k]@ as nat));
            }
        }
        acc
    }

    /// The table giving, for each symbol, the set of states reached on it
    /// from the states of `sources`.
    pub(crate) fn subset_transition_map(&self, sources: &StateIdSet) -> (t: S::SetTable)
        requires
            self.wf(),
            forall|i: nat| #[trigger] bits_set(sources@).contains(i) ==> i < self.num_states(),
        ensures
            forall|c: S| #[trigger] S::set_table_view(t).contains_key(c),
            bits_set(sources@).is_empty() ==> forall|c: S| #[trigger] S::set_table_view(t)[c] == Seq::<bool>::empty(),
            forall|c: S| bits_set(#[trigger] S::set_table_view(t)[c]) == self.image(bits_set(sources@), c),
            forall|c: S| (#[trigger] S::set_table_view(t)[c]).len() <= self.num_states(),
            forall|c: S| built_by_marking(#[trigger] S::set_table_view(t)[c], self.image(bits_set(sources@), c)),
    {
        let members = sources.iter();
        let ghost n = self.num_states();
        if members.len() == 0 {
            let t = S::set_universe(StateIdSet::new());
            proof {
                assert forall|c: S| bits_set(#[trigger] S::set_table_view(t)[c]) == self.image(bits_set(sources@), c) by {
                    assert(Map::total(|c: S| Seq::<bool>::empty())[c] == Seq::<bool>::empty());
                    assert forall|t: nat| !self.image(bits_set(sources@), c).contains(t) by {
                        if self.image(bits_set(sources@), c).contains(t) {
                            let s = choose|s: nat| bits_set(sources@).contains(s) && #[trigger] self.next(s, c) == t;
                            let k = choose|k: int| 0 <= k < members.len() && #[trigger] members@[k]@ == s;
                        }
                    }
                    assert(bits_set(S::set_table_view(t)[c]) =~= self.image(bits_set(sources@), c));
                }
                assert forall|c: S| #[trigger] S::set_table_view(t).contains_key(c) by {
                    assert(Map::total(|c: S| Seq::<bool>::empty()).contains_key(c));
                }
                assert forall|c: S| (#[trigger] S::set_table_view(t)[c]).len() <= self.num_states() by {
                    assert(Map::total(|c: S| Seq::<bool>::empty())[c] == Seq::<bool>::empty());
                }
                assert forall|c: S| #[trigger] S::set_table_view(t)[c] == Seq::<bool>::empty() by {
                    assert(Map::total(|c: S| Seq::<bool>::empty())[c] == Seq::<bool>::empty());
                }
                assert forall|c: S| built_by_marking(#[trigger] S::set_table_view(t)[c], self.image(bits_set(sources@), c)) by {
                    let ids = Seq::<nat>::empty();
                    assert(Map::total(|c: S| Seq::<bool>::empty())[c] == Seq::<bool>::empty());
                    assert(bits_set(S::set_table_view(t)[c]) == self.image(bits_set(sources@), c));
                    assert(bits_set(Seq::<bool>::empty()) =~= Set::<nat>::empty());
                    assert(ids.to_set() =~= self.image(bits_set(sources@), c));
                    assert(bits_after_inserts(ids) == S::set_table_view(t)[c]);
                }
            }
            return t;
        }
        proof {
            assert forall|k: int| 0 <= k < members.len() implies (#[trigger] members@[k])@ < n by {
                assert(bits_set(sources@).contains(members@[k]@ as nat));
            }
        }
        let first = members[0];
        let ranges = S::ranges(&self.transitions[first.id()]);
        let ghost q0 = first@ as nat;
        proof {
            assert(table_total(self.table(q0), n));
        }
        let mut out: Vec<(S, S, StateIdSet)> = Vec::new();
        let mut k: usize = 0;
        while k < ranges.len()
            invariant
                self.wf(),
                n == self.num_states(),
                q0 < n,
                listed(ranges@, self.table(q0)),
                table_total(self.table(q0), n),
                k <= ranges.len(),
                out.len() == k,
                forall|j: int| 0 <= j < k ==> (#[trigger] out@[j]).0 == ranges@[j].0 && out@[j].1 == ranges@[j].1
                    && out@[j].2@ == inserted_bits(Seq::empty(), ranges@[j].2@ as nat),
            decreases ranges.len() - k,
        {
            let (lo, hi, next) = ranges[k];
            proof {
                assert(covers(lo, lo, lo));
                assert(covers(ranges@[k as int].0, ranges@[k as int].1, lo));
                assert(self.table(q0).contains_key(lo));
                assert(self.table(q0)[lo] == next@);
                assert(self.table(q0)[lo] < n);
            }
            let ghost old_out = out@;
            out.push((lo, hi, StateIdSet::from_state(next)));
            proof {
                assert forall|j: int| 0 <= j < k + 1 implies (#[trigger] out@[j]).0 == ranges@[j].0 && out@[j].1 == ranges@[j].1
                    && out@[j].2@ == inserted_bits(Seq::empty(), ranges@[j].2@ as nat) by {
                    if j < k {
                        assert(out@[j] == old_out[j]);
                    }
                }
            }
            k += 1;
        }
        let ghost out0 = out@;
        proof {
            assert(spans_sorted(out0)) by {
                assert forall|i: int| 0 <= i < out0.len() implies (#[trigger] out0[i]).0.code() <= out0[i].1.code() by {
                    assert(ranges@[i].0.code() <= ranges@[i].1.code());
                }
                assert forall|i: int| 0 <= i < out0.len() - 1 implies (#[trigger] out0[i]).1.code() < out0[i + 1].0.code() by {
                    assert(ranges@[i].1.code() < ranges@[i + 1].0.code());
                    assert(out0[i + 1].0 == ranges@[i + 1].0);
                }
            }
        }
        let mut acc = S::set_from_ranges(out);
        proof {
            assert forall|c: S| #[trigger] S::set_table_view(acc).contains_key(c) by {
                assert(self.table(q0).contains_key(c));
                let j = choose|j: int| 0 <= j < ranges@.len() && covers((#[trigger] ranges@[j]).0, ranges@[j].1, c);
                assert(covers(out0[j].0, out0[j].1, c));
                lemma_lookup_sorted(out0, j, c);
            }
            assert forall|c: S| bits_set(#[trigger] S::set_table_view(acc)[c]) == self.reached(members@, 1, c)
                && S::set_table_view(acc)[c].len() <= n by {
                assert(self.table(q0).contains_key(c));
                let j = choose|j: int| 0 <= j < ranges@.len() && covers((#[trigger] ranges@[j]).0, ranges@[j].1, c);
                assert(covers(out0[j].0, out0[j].1, c));
                lemma_lookup_sorted(out0, j, c);
                let v = ranges@[j].2@;
                assert(self.table(q0)[c] == v);
                assert(v < n);
                lemma_inserted_bits_set(Seq::empty(), v as nat);
                assert(bits_set(Seq::<bool>::empty()) =~= Set::<nat>::empty());
                assert(bits_set(S::set_table_view(acc)[c]) =~= self.reached(members@, 1, c)) by {
                    assert forall|t: nat| bits_set(S::set_table_view(acc)[c]).contains(t) implies exists|i: int| 0 <= i < 1 && t == self.next(members@[i]@ as nat, c) by {
                        assert(t == self.next(members@[0]@ as nat, c));
                    }
                }
            }
            assert forall|c: S| #[trigger] S::set_table_view(acc)[c] == bits_after_inserts(self.reached_ids(members@, 1, c)) by {
                assert(self.table(q0).contains_key(c));
                let j = choose|j: int| 0 <= j < ranges@.len() && covers((#[trigger] ranges@[j]).0, ranges@[j].1, c);
                assert(covers(out0[j].0, out0[j].1, c));
                lemma_lookup_sorted(out0, j, c);
                let ids = self.reached_ids(members@, 1, c);
                assert(ids.drop_last() =~= Seq::<nat>::empty());
                assert(bits_after_inserts(Seq::<nat>::empty()) == Seq::<bool>::empty());
                assert(ids.last() == self.table(q0)[c]);
                assert(self.table(q0)[c] == ranges@[j].2@);
                assert(S::set_table_view(acc)[c] == out0[j].2@);
            }
        }
        assert(self.subset_acc_ok(S::set_table_view(acc), members@, 1));
        let mut m: usize = 1;
        while m < members.len()
            invariant
                self.wf(),
                n == self.num_states(),
                1 <= m <= members.len(),
                forall|k: int| 0 <= k < members.len() ==> (#[trigger] members@[k])@ < n,
                self.subset_acc_ok(S::set_table_view(acc), members@, m as int),
            decreases members.len() - m,
        {
            let source = members[m];
            let ghost qs = source@ as nat;
            proof {
                assert(table_total(self.table(qs), n));
            }
            let pairs = S::join_set(&self.transitions[source.id()], &acc);
            let mut out: Vec<(S, S, StateIdSet)> = Vec::new();
            let mut k: usize = 0;
            while k < pairs.len()
                invariant
                    self.wf(),
                    n == self.num_states(),
                    qs < n,
                    joined(pairs@, self.table(qs), S::set_table_view(acc)),
                    table_total(self.table(qs), n),
                    self.subset_acc_ok(S::set_table_view(acc), members@, m as int),
                    k <= pairs.len(),
                    out.len() == k,
                    forall|j: int| 0 <= j < k ==> (#[trigger] out@[j]).0 == pairs@[j].0 && out@[j].1 == pairs@[j].1
                        && out@[j].2@ == inserted_bits(pairs@[j].3@, pairs@[j].2@ as nat),
                decreases pairs.len() - k,
            {
                let lo = pairs[k].0;
                let hi = pairs[k].1;
                let next = pairs[k].2;
                proof {
                    assert(covers(lo, lo, lo));
                    assert(covers(pairs@[k as int].0, pairs@[k as int].1, lo));
                    assert(self.table(qs).contains_key(lo));
                    assert(self.table(qs)[lo] == next@);
                    assert(self.table(qs)[lo] < n);
                }
                let set = pairs[k].3.with_inserted(next);
                let ghost old_out = out@;
                out.push((lo, hi, set));
                proof {
                    assert forall|j: int| 0 <= j < k + 1 implies (#[trigger] out@[j]).0 == pairs@[j].0 && out@[j].1 == pairs@[j].1
                        && out@[j].2@ == inserted_bits(pairs@[j].3@, pairs@[j].2@ as nat) by {
                        if j < k {
                            assert(out@[j] == old_out[j]);
                        }
                    }
                }
                k += 1;
            }
            let ghost out1 = out@;
            let ghost acc_old = S::set_table_view(acc);
            proof {
                assert(spans_sorted(out1)) by {
                    assert forall|i: int| 0 <= i < out1.len() implies (#[trigger] out1[i]).0.code() <= out1[i].1.code() by {
                        assert(pairs@[i].0.code() <= pairs@[i].1.code());
                    }
                    assert forall|i: int| 0 <= i < out1.len() - 1 implies (#[trigger] out1[i]).1.code() < out1[i + 1].0.code() by {
                        assert(pairs@[i].1.code() < pairs@[i + 1].0.code());
                        assert(out1[i + 1].0 == pairs@[i + 1].0);
                    }
                }
            }
            acc = S::set_from_ranges(out);
            proof {
                assert forall|c: S| #[trigger] S::set_table_view(acc).contains_key(c) by {
                    assert(self.table(qs).contains_key(c));
                    assert(acc_old.contains_key(c));
                    let j = choose|j: int| 0 <= j < pairs@.len() && covers((#[trigger] pairs@[j]).0, pairs@[j].1, c);
                    assert(covers(out1[j].0, out1[j].1, c));
                    lemma_lookup_sorted(out1, j, c);
                }
                assert forall|c: S| bits_set(#[trigger] S::set_table_view(acc)[c]) == self.reached(members@, m + 1, c)
                    && S::set_table_view(acc)[c].len() <= n by {
                    assert(self.table(qs).contains_key(c));
                    assert(acc_old.contains_key(c));
                    assert(acc_old[c].len() <= n);
                    let j = choose|j: int| 0 <= j < pairs@.len() && covers((#[trigger] pairs@[j]).0, pairs@[j].1, c);
                    assert(covers(out1[j].0, out1[j].1, c));
                    lemma_lookup_sorted(out1, j, c);
                    let v = pairs@[j].2@;
                    let old_bits = pairs@[j].3@;
                    assert(self.table(qs)[c] == v);
                    assert(acc_old[c] == old_bits);
                    assert(v < n);
                    lemma_inserted_bits_set(old_bits, v as nat);
                    let target = self.reached(members@, m + 1, c);
                    let before = self.reached(members@, m as int, c);
                    assert(bits_set(old_bits) == before);
                    assert(target =~= before.insert(v as nat)) by {
                        assert forall|t: nat| target.contains(t) implies before.insert(v as nat).contains(t) by {
                            let i = choose|i: int| 0 <= i < m + 1 && t == self.next(members@[i]@ as nat, c);
                            if i < m {
                                assert(before.contains(t));
                            }
                        }
                        assert forall|t: nat| before.insert(v as nat).contains(t) implies target.contains(t) by {
                            if t == v {
                                assert(t == self.next(members@[m as int]@ as nat, c));
                            } else {
                                let i = choose|i: int| 0 <= i < m && t == self.next(members@[i]@ as nat, c);
                            }
                        }
                    }
                }
            }
            proof {
                assert forall|c: S| #[trigger] S::set_table_view(acc)[c] == bits_after_inserts(self.reached_ids(members@, m + 1, c)) by {
                    assert(self.table(qs).contains_key(c));
                    assert(acc_old.contains_key(c));
                    let j = choose|j: int| 0 <= j < pairs@.len() && covers((#[trigger] pairs@[j]).0, pairs@[j].1, c);
                    assert(covers(out1[j].0, out1[j].1, c));
                    lemma_lookup_sorted(out1, j, c);
                    assert(self.table(qs)[c] == pairs@[j].2@);
                    assert(acc_old[c] == pairs@[j].3@);
                    let ids = self.reached_ids(members@, m + 1, c);
                    assert(ids.drop_last() =~= self.reached_ids(members@, m as int, c));
                    assert(ids.last() == self.table(qs)[c]);
                }
            }
            assert(self.subset_acc_ok(S::set_table_view(acc), members@, m + 1));
            m += 1;
        }
        proof {
            assert forall|c: S| bits_set(#[trigger] S::set_table_view(acc)[c]) == self.image(bits_set(sources@), c) by {
                assert(S::set_table_view(acc).contains_key(c));
                let got = self.reached(members@, m as int, c);
                assert(got =~= self.image(bits_set(sources@), c)) by {
                    assert forall|t: nat| got.contains(t) implies self.image(bits_set(sources@), c).contains(t) by {
                        let i = choose|i: int| 0 <= i < m && t == self.next(members@[i]@ as nat, c);
                        assert(bits_set(sources@).contains(members@[i]@ as nat));
                    }
                    assert forall|t: nat| self.image(bits_set(sources@), c).contains(t) implies got.contains(t) by {
                        let s = choose|s: nat| bits_set(sources@).contains(s) && #[trigger] self.next(s, c) == t;
                        let k = choose|k: int| 0 <= k < members.len() && #[trigger] members@[k]@ == s;
                        assert(t == self.next(members@[k]@ as nat, c));
                    }
                }
            }
            assert forall|c: S| (#[trigger] S::set_table_view(acc)[c]).len() <= self.num_states() by {
                assert(S::set_table_view(acc).contains_key(c));
            }
            assert forall|c: S| built_by_marking(#[trigger] S::set_table_view(acc)[c], self.image(bits_set(sources@), c)) by {
                let ids = self.reached_ids(members@, m as int, c);
                assert(S::set_table_view(acc)[c] == bits_after_inserts(ids));
                assert(bits_set(S::set_table_view(acc)[c]) == self.image(bits_set(sources@), c));
                assert(ids.to_set() =~= self.reached(members@, m as int, c)) by {
                    assert forall|t: nat| ids.to_set().contains(t) implies self.reached(members@, m as int, c).contains(t) by {
                        let i = choose|i: int| 0 <= i < ids.len() && ids[i] == t;
                    }
                    assert forall|t: nat| self.reached(members@, m as int, c).contains(t) implies ids.to_set().contains(t) by {
                        let i = choose|i: int| 0 <= i < m && t == self.next(members@[i]@ as nat, c);
                        assert(ids[i] == t);
                    }
                }
                assert(self.reached(members@, m as int, c) =~= self.image(bits_set(sources@), c)) by {
                    assert forall|t: nat| self.reached(members@, m as int, c).contains(t) implies self.image(bits_set(sources@), c).contains(t) by {
                        let i = choose|i: int| 0 <= i < m && t == self.next(members@[i]@ as nat, c);
                        assert(bits_set(sources@).contains(members@[i]@ as nat));
                    }
                    assert forall|t: nat| self.image(bits_set(sources@), c).contains(t) implies self.reached(members@, m as int, c).contains(t) by {
                        let s = choose|s: nat| bits_set(sources@).contains(s) && #[trigger] self.next(s, c) == t;
                        let k = choose|k: int| 0 <= k < members.len() && #[trigger] members@[k]@ == s;
                        assert(t == self.next(members@[k]@ as nat, c));
                    }
                }
            }
        }
        acc
    }
}

} // verus!
