use vstd::prelude::*;
use crate::state::StateId;
use crate::symbol::{Symbol, SymbolCode, covers, listed, coalesced};
use crate::key_index::{key_index_new, key_index_len, key_index_insert, key_index_get, key_index_entries};
use super::{Dfa, table_total};
use super::ranges::{spans_sorted, lemma_lookup_sorted, lemma_listing_unique};
use super::partition::{
    blocks_before, numbered_in_order, refines, label_occurs, lemma_blocks_before_bound, lemma_same_blocks,
    lemma_refined_blocks, lemma_numbered_labels,
};
use super::signature::{kind_flag, ranges_key, signature, same_ranges, lemma_signature_eq, lemma_signature_labels};
use super::numbering::{numbering, lemma_numbering_empty, lemma_numbering_step, lemma_numbering_labels};

verus! {

/// The number of flags of `s` that are set.
pub open spec fn count_true(s: Seq<bool>) -> nat
    decreases s.len(),
{
    if s.len() == 0 {
        0
    } else {
        count_true(s.drop_last()) + if s.last() { 1nat } else { 0nat }
    }
}

proof fn lemma_count_true_bound(s: Seq<bool>)
    ensures
        count_true(s) <= s.len(),
    decreases s.len(),
{
    if s.len() > 0 {
        lemma_count_true_bound(s.drop_last());
    }
}

proof fn lemma_count_true_none(s: Seq<bool>)
    requires
        forall|j: int| 0 <= j < s.len() ==> !(#[trigger] s[j]),
    ensures
        count_true(s) == 0,
    decreases s.len(),
{
    if s.len() > 0 {
        lemma_count_true_none(s.drop_last());
    }
}

proof fn lemma_count_true_set(s: Seq<bool>, i: int)
    requires
        0 <= i < s.len(),
        !s[i],
    ensures
        count_true(s.update(i, true)) == count_true(s) + 1,
    decreases s.len(),
{
    let t = s.update(i, true);
    if i < s.len() - 1 {
        assert(t.drop_last() =~= s.drop_last().update(i, true));
        lemma_count_true_set(s.drop_last(), i);
    } else {
        assert(t.drop_last() =~= s.drop_last());
    }
}

/// State `q` is among the states listed in `rs`.
pub open spec fn is_listed(rs: Seq<usize>, q: nat) -> bool {
    exists|i: int| 0 <= i < rs.len() && rs[i] == q
}

/// The labels that `ls` gives the states listed in `rs`, in the order of `rs`.
pub open spec fn at_positions(ls: Seq<usize>, rs: Seq<usize>) -> Seq<usize> {
    Seq::new(rs.len(), |i: int| ls[rs[i] as int])
}

/// The views of a list of range lists.
pub open spec fn range_lists<S: SymbolCode>(v: Seq<Vec<(S, S, StateId)>>) -> Seq<Seq<(S, S, StateId)>> {
    Seq::new(v.len(), |i: int| v[i]@)
}

/// Twice the number of blocks that `ls` could still split into, plus one
/// while its blocks are not numbered in order.
pub open spec fn refinement_measure(ls: Seq<usize>) -> int {
    2 * (ls.len() - blocks_before(ls, ls.len())) + if numbered_in_order(ls) {
        0int
    } else {
        1int
    }
}

/// A pass that changes some label, splitting blocks only and numbering them
/// in order, lowers the measure.
proof fn lemma_measure_drops(cur: Seq<usize>, next: Seq<usize>)
    requires
        refines(next, cur),
        numbered_in_order(next),
        exists|i: int| 0 <= i < cur.len() && next[i] != cur[i],
    ensures
        0 <= refinement_measure(next) < refinement_measure(cur),
{
    lemma_blocks_before_bound(next, next.len());
    lemma_blocks_before_bound(cur, cur.len());
    lemma_refined_blocks(next, cur);
    if refines(cur, next) {
        lemma_same_blocks(next, cur, next.len());
    }
}

/// The state of the quotient that stands for block `b` when the start state
/// lies in block `sb`: the start block is state 0 and the other blocks follow
/// in increasing order.
pub open spec fn block_state(b: nat, sb: nat) -> nat {
    if b == sb {
        0
    } else if b < sb {
        b + 1
    } else {
        b
    }
}

/// The indices at which `flags` is set, in increasing order.
fn set_indices(flags: &Vec<bool>) -> (rs: Vec<usize>)
    ensures
        rs@.len() <= flags@.len(),
        forall|i: int, j: int| 0 <= i < j < rs@.len() ==> #[trigger] rs@[i] < #[trigger] rs@[j],
        forall|i: int| 0 <= i < rs@.len() ==> #[trigger] rs@[i] < flags@.len() && flags@[rs@[i] as int],
        forall|q: nat| q < flags@.len() && #[trigger] flags@[q as int] ==> is_listed(rs@, q),
{
    let mut rs: Vec<usize> = Vec::new();
    let mut idx: usize = 0;
    while idx < flags.len()
        invariant
            idx <= flags@.len(),
            rs@.len() <= idx,
            forall|i: int, j: int| 0 <= i < j < rs@.len() ==> #[trigger] rs@[i] < #[trigger] rs@[j],
            forall|i: int| 0 <= i < rs@.len() ==> #[trigger] rs@[i] < idx && flags@[rs@[i] as int],
            forall|q: nat| q < idx && #[trigger] flags@[q as int] ==> is_listed(rs@, q),
        decreases flags@.len() - idx,
    {
        if flags[idx] {
            let ghost old_rs = rs@;
            rs.push(idx);
            proof {
                assert forall|q: nat| q < idx + 1 && #[trigger] flags@[q as int] implies is_listed(rs@, q) by {
                    if q < idx {
                        let i = choose|i: int| 0 <= i < old_rs.len() && old_rs[i] == q;
                        assert(rs@[i] == old_rs[i]);
                    } else {
                        assert(rs@[old_rs.len() as int] == q);
                    }
                }
            }
        }
        idx += 1;
    }
    rs
}

/// A sequence of `n` zeros.
fn zeros(n: usize) -> (v: Vec<usize>)
    ensures
        v@.len() == n,
        forall|i: int| 0 <= i < n ==> v@[i] == 0,
{
    let mut v: Vec<usize> = Vec::new();
    let mut i: usize = 0;
    while i < n
        invariant
            i <= n,
            v@.len() == i,
            forall|j: int| 0 <= j < i ==> v@[j] == 0,
        decreases n - i,
    {
        v.push(0);
        i += 1;
    }
    v
}

impl<S: Symbol> Dfa<S> {
    /// `rs` lists in increasing order states that include the start and every
    /// state that a listed state steps to, and `rr` gives the transition ranges
    /// of each listed state, touching ranges with equal targets merged.
    pub open spec fn closed_listing(&self, rs: Seq<usize>, rr: Seq<Seq<(S, S, StateId)>>) -> bool {
        &&& self.wf()
        &&& forall|i: int, j: int| 0 <= i < j < rs.len() ==> #[trigger] rs[i] < #[trigger] rs[j]
        &&& forall|i: int| 0 <= i < rs.len() ==> #[trigger] rs[i] < self.num_states()
        &&& is_listed(rs, self.start_spec())
        &&& forall|i: int, c: S| 0 <= i < rs.len() ==> is_listed(rs, #[trigger] self.next(rs[i] as nat, c))
        &&& rr.len() == rs.len()
        &&& forall|i: int| 0 <= i < rs.len() ==> listed(#[trigger] rr[i], self.table(rs[i] as nat))
        &&& forall|i: int| 0 <= i < rs.len() ==> coalesced(#[trigger] rr[i])
    }

    /// The signature of the `i`-th listed state under the block labels `ls`.
    pub open spec fn signature_at(&self, rs: Seq<usize>, rr: Seq<Seq<(S, S, StateId)>>, i: int, ls: Seq<usize>) -> Seq<usize> {
        signature(self.accepting(rs[i] as nat), rr[i], ls)
    }

    /// States whose signatures under `ls` agree share a label in `ls`.
    pub open spec fn respects_signatures(&self, rs: Seq<usize>, rr: Seq<Seq<(S, S, StateId)>>, ls: Seq<usize>) -> bool {
        forall|i: int, j: int|
            #![trigger self.signature_at(rs, rr, i, ls), self.signature_at(rs, rr, j, ls)]
            0 <= i < rs.len() && 0 <= j < rs.len() && self.signature_at(rs, rr, i, ls) == self.signature_at(rs, rr, j, ls)
                ==> ls[rs[i] as int] == ls[rs[j] as int]
    }

    /// Listed states share a label in `next` exactly when their signatures
    /// under `cur` agree.
    pub open spec fn labels_signatures(
        &self,
        rs: Seq<usize>,
        rr: Seq<Seq<(S, S, StateId)>>,
        cur: Seq<usize>,
        next: Seq<usize>,
    ) -> bool {
        forall|i: int, j: int|
            #![trigger next[rs[i] as int], next[rs[j] as int]]
            0 <= i < rs.len() && 0 <= j < rs.len() ==> (next[rs[i] as int] == next[rs[j] as int]
                <==> self.signature_at(rs, rr, i, cur) == self.signature_at(rs, rr, j, cur))
    }

    /// Listed states that share a label accept alike and step on every
    /// symbol to states that share a label.
    pub open spec fn stable_labels(&self, rs: Seq<usize>, ls: Seq<usize>) -> bool {
        forall|i: int, j: int|
            #![trigger ls[rs[i] as int], ls[rs[j] as int]]
            0 <= i < rs.len() && 0 <= j < rs.len() && ls[rs[i] as int] == ls[rs[j] as int] ==> {
                &&& self.accepting(rs[i] as nat) == self.accepting(rs[j] as nat)
                &&& forall|c: S| ls[#[trigger] self.next(rs[i] as nat, c) as int] == ls[self.next(rs[j] as nat, c) as int]
            }
    }

    /// The state that every range of a listed state leads to is listed.
    proof fn lemma_targets_listed(&self, rs: Seq<usize>, rr: Seq<Seq<(S, S, StateId)>>, i: int, k: int)
        requires
            self.closed_listing(rs, rr),
            0 <= i < rs.len(),
            0 <= k < rr[i].len(),
        ensures
            rr[i][k].2@ == self.next(rs[i] as nat, rr[i][k].0),
            is_listed(rs, rr[i][k].2@ as nat),
    {
        let lo = rr[i][k].0;
        assert(listed(rr[i], self.table(rs[i] as nat)));
        assert(covers(lo, lo, lo));
        assert(covers(rr[i][k].0, rr[i][k].1, lo));
        assert(self.table(rs[i] as nat).contains_key(lo));
        assert(is_listed(rs, self.next(rs[i] as nat, lo)));
    }

    /// A pass keeps the labels respecting signatures, and splits blocks only.
    proof fn lemma_pass_refines(
        &self,
        rs: Seq<usize>,
        rr: Seq<Seq<(S, S, StateId)>>,
        cur: Seq<usize>,
        next: Seq<usize>,
    )
        requires
            self.closed_listing(rs, rr),
            cur.len() == self.num_states(),
            next.len() == self.num_states(),
            self.respects_signatures(rs, rr, cur),
            self.labels_signatures(rs, rr, cur, next),
        ensures
            self.respects_signatures(rs, rr, next),
            refines(at_positions(next, rs), at_positions(cur, rs)),
    {
        let pn = at_positions(next, rs);
        let pc = at_positions(cur, rs);
        assert forall|i: int, j: int|
            #![trigger pc[i], pc[j]]
            0 <= i < pn.len() && 0 <= j < pn.len() && pn[i] == pn[j] implies pc[i] == pc[j] by {
            assert(next[rs[i] as int] == next[rs[j] as int]);
            assert(self.signature_at(rs, rr, i, cur) == self.signature_at(rs, rr, j, cur));
        }
        assert forall|i: int, j: int|
            #![trigger self.signature_at(rs, rr, i, next), self.signature_at(rs, rr, j, next)]
            0 <= i < rs.len() && 0 <= j < rs.len() && self.signature_at(rs, rr, i, next) == self.signature_at(rs, rr, j, next)
                implies next[rs[i] as int] == next[rs[j] as int] by {
            let ai = self.accepting(rs[i] as nat);
            let aj = self.accepting(rs[j] as nat);
            lemma_signature_eq(ai, rr[i], aj, rr[j], next);
            assert forall|k: int| 0 <= k < rr[i].len() implies (#[trigger] rr[i][k]).0.code() == (#[trigger] rr[j][k]).0.code()
                && rr[i][k].1.code() == rr[j][k].1.code() && cur[rr[i][k].2@ as int] == cur[rr[j][k].2@ as int] by {
                self.lemma_targets_listed(rs, rr, i, k);
                self.lemma_targets_listed(rs, rr, j, k);
                let p = choose|p: int| 0 <= p < rs.len() && rs[p] == rr[i][k].2@;
                let p2 = choose|p2: int| 0 <= p2 < rs.len() && rs[p2] == rr[j][k].2@;
                assert(next[rs[p] as int] == next[rs[p2] as int]);
                assert(self.signature_at(rs, rr, p, cur) == self.signature_at(rs, rr, p2, cur));
            }
            lemma_signature_eq(ai, rr[i], aj, rr[j], cur);
        }
    }

    /// Listed states whose ranges have the same bounds and targets in the same
    /// blocks step on every symbol to states in the same block.
    #[verifier::spinoff_prover]
    proof fn lemma_same_ranges_step(&self, rs: Seq<usize>, rr: Seq<Seq<(S, S, StateId)>>, ls: Seq<usize>, i: int, j: int, c: S)
        requires
            self.closed_listing(rs, rr),
            0 <= i < rs.len(),
            0 <= j < rs.len(),
            same_ranges(rr[i], rr[j], ls),
        ensures
            ls[self.next(rs[i] as nat, c) as int] == ls[self.next(rs[j] as nat, c) as int],
            is_listed(rs, self.next(rs[i] as nat, c)),
            is_listed(rs, self.next(rs[j] as nat, c)),
    {
        let qi = rs[i] as nat;
        let qj = rs[j] as nat;
        assert(listed(rr[i], self.table(qi)));
        assert(listed(rr[j], self.table(qj)));
        assert(table_total(self.table(qi), self.num_states()));
        assert(self.table(qi).contains_key(c));
        let k = choose|k: int| 0 <= k < rr[i].len() && covers((#[trigger] rr[i][k]).0, rr[i][k].1, c);
        assert(rr[j].len() == rr[i].len());
        let ri = rr[i][k];
        let rj = rr[j][k];
        assert(ri.0.code() == rj.0.code() && ri.1.code() == rj.1.code() && ls[ri.2@ as int] == ls[rj.2@ as int]);
        assert(covers(rj.0, rj.1, c));
        assert(self.table(qj).contains_key(c) && self.table(qj)[c] == rj.2@);
        assert(self.table(qi).contains_key(c) && self.table(qi)[c] == ri.2@);
    }

    /// Labels that a pass leaves unchanged tell listed states apart exactly by
    /// their signatures under those same labels.
    proof fn lemma_unchanged_fixed(
        &self,
        rs: Seq<usize>,
        rr: Seq<Seq<(S, S, StateId)>>,
        cur: Seq<usize>,
        next: Seq<usize>,
    )
        requires
            self.closed_listing(rs, rr),
            cur.len() == self.num_states(),
            next.len() == self.num_states(),
            self.labels_signatures(rs, rr, cur, next),
            forall|i: int| 0 <= i < rs.len() ==> next[#[trigger] rs[i] as int] == cur[rs[i] as int],
        ensures
            self.labels_signatures(rs, rr, next, next),
    {
        assert forall|i: int| 0 <= i < rs.len() implies #[trigger] self.signature_at(rs, rr, i, cur)
            == self.signature_at(rs, rr, i, next) by {
            assert forall|k: int| 0 <= k < rr[i].len() implies cur[(#[trigger] rr[i][k]).2@ as int]
                == next[rr[i][k].2@ as int] by {
                self.lemma_targets_listed(rs, rr, i, k);
                let p = choose|p: int| 0 <= p < rs.len() && rs[p] == rr[i][k].2@;
                assert(next[rs[p] as int] == cur[rs[p] as int]);
            }
            lemma_signature_labels(self.accepting(rs[i] as nat), rr[i], cur, next);
        }
        assert forall|i: int, j: int|
            #![trigger next[rs[i] as int], next[rs[j] as int]]
            0 <= i < rs.len() && 0 <= j < rs.len() implies (next[rs[i] as int] == next[rs[j] as int]
                <==> self.signature_at(rs, rr, i, next) == self.signature_at(rs, rr, j, next)) by {
            assert(self.signature_at(rs, rr, i, cur) == self.signature_at(rs, rr, i, next));
            assert(self.signature_at(rs, rr, j, cur) == self.signature_at(rs, rr, j, next));
        }
    }

    /// A labelling that tells listed states apart exactly by their signatures
    /// under itself splits states no less than labels by acceptance do.
    proof fn lemma_fixed_refines_acceptance(&self, rs: Seq<usize>, rr: Seq<Seq<(S, S, StateId)>>, fixed: Seq<usize>, ls: Seq<usize>)
        requires
            self.closed_listing(rs, rr),
            self.labels_signatures(rs, rr, fixed, fixed),
            forall|i: int, j: int|
                #![trigger ls[rs[i] as int], ls[rs[j] as int]]
                0 <= i < rs.len() && 0 <= j < rs.len() && self.accepting(rs[i] as nat) == self.accepting(rs[j] as nat)
                    ==> ls[rs[i] as int] == ls[rs[j] as int],
        ensures
            refines(at_positions(fixed, rs), at_positions(ls, rs)),
    {
        let pf = at_positions(fixed, rs);
        let pl = at_positions(ls, rs);
        assert forall|i: int, j: int|
            #![trigger pl[i], pl[j]]
            0 <= i < pf.len() && 0 <= j < pf.len() && pf[i] == pf[j] implies pl[i] == pl[j] by {
            assert(fixed[rs[i] as int] == fixed[rs[j] as int]);
            assert(self.signature_at(rs, rr, i, fixed) == self.signature_at(rs, rr, j, fixed));
            lemma_signature_eq(self.accepting(rs[i] as nat), rr[i], self.accepting(rs[j] as nat), rr[j], fixed);
            assert(ls[rs[i] as int] == ls[rs[j] as int]);
        }
    }

    /// A pass keeps the labels coarser than a labelling that tells listed
    /// states apart exactly by their signatures under itself.
    proof fn lemma_fixed_refines_pass(
        &self,
        rs: Seq<usize>,
        rr: Seq<Seq<(S, S, StateId)>>,
        fixed: Seq<usize>,
        cur: Seq<usize>,
        next: Seq<usize>,
    )
        requires
            self.closed_listing(rs, rr),
            self.labels_signatures(rs, rr, fixed, fixed),
            refines(at_positions(fixed, rs), at_positions(cur, rs)),
            self.labels_signatures(rs, rr, cur, next),
        ensures
            refines(at_positions(fixed, rs), at_positions(next, rs)),
    {
        let pf = at_positions(fixed, rs);
        let pc = at_positions(cur, rs);
        let pn = at_positions(next, rs);
        assert forall|i: int, j: int|
            #![trigger pn[i], pn[j]]
            0 <= i < pf.len() && 0 <= j < pf.len() && pf[i] == pf[j] implies pn[i] == pn[j] by {
            let ai = self.accepting(rs[i] as nat);
            let aj = self.accepting(rs[j] as nat);
            assert(fixed[rs[i] as int] == fixed[rs[j] as int]);
            assert(self.signature_at(rs, rr, i, fixed) == self.signature_at(rs, rr, j, fixed));
            lemma_signature_eq(ai, rr[i], aj, rr[j], fixed);
            assert forall|k: int| 0 <= k < rr[i].len() implies (#[trigger] rr[i][k]).0.code() == (#[trigger] rr[j][k]).0.code()
                && rr[i][k].1.code() == rr[j][k].1.code() && cur[rr[i][k].2@ as int] == cur[rr[j][k].2@ as int] by {
                self.lemma_targets_listed(rs, rr, i, k);
                self.lemma_targets_listed(rs, rr, j, k);
                let p = choose|p: int| 0 <= p < rs.len() && rs[p] == rr[i][k].2@;
                let p2 = choose|p2: int| 0 <= p2 < rs.len() && rs[p2] == rr[j][k].2@;
                assert(pf[p] == pf[p2]);
                assert(pc[p] == pc[p2]);
            }
            lemma_signature_eq(ai, rr[i], aj, rr[j], cur);
            assert(next[rs[i] as int] == next[rs[j] as int]);
        }
    }

    /// Labels that a pass leaves unchanged are stable.
    proof fn lemma_unchanged_stable(
        &self,
        rs: Seq<usize>,
        rr: Seq<Seq<(S, S, StateId)>>,
        cur: Seq<usize>,
        next: Seq<usize>,
    )
        requires
            self.closed_listing(rs, rr),
            cur.len() == self.num_states(),
            next.len() == self.num_states(),
            self.labels_signatures(rs, rr, cur, next),
            forall|i: int| 0 <= i < rs.len() ==> next[#[trigger] rs[i] as int] == cur[rs[i] as int],
        ensures
            self.stable_labels(rs, next),
    {
        assert forall|i: int, j: int|
            #![trigger next[rs[i] as int], next[rs[j] as int]]
            0 <= i < rs.len() && 0 <= j < rs.len() && next[rs[i] as int] == next[rs[j] as int] implies {
                &&& self.accepting(rs[i] as nat) == self.accepting(rs[j] as nat)
                &&& forall|c: S| next[#[trigger] self.next(rs[i] as nat, c) as int] == next[self.next(rs[j] as nat, c) as int]
            } by {
            let ai = self.accepting(rs[i] as nat);
            let aj = self.accepting(rs[j] as nat);
            assert(self.signature_at(rs, rr, i, cur) == self.signature_at(rs, rr, j, cur));
            lemma_signature_eq(ai, rr[i], aj, rr[j], cur);
            assert forall|c: S| next[#[trigger] self.next(rs[i] as nat, c) as int] == next[self.next(rs[j] as nat, c) as int] by {
                self.lemma_same_ranges_step(rs, rr, cur, i, j, c);
                let qi = self.next(rs[i] as nat, c);
                let qj = self.next(rs[j] as nat, c);
                let p = choose|p: int| 0 <= p < rs.len() && rs[p] == qi;
                let p2 = choose|p2: int| 0 <= p2 < rs.len() && rs[p2] == qj;
                assert(next[rs[p] as int] == cur[rs[p] as int]);
                assert(next[rs[p2] as int] == cur[rs[p2] as int]);
            }
        }
    }

    /// `qd` has a state for each block of the listed states under `ls`, the
    /// state `block_state(b, sb)` for block `b`, which accepts and steps as the
    /// states of the block do; its start is the state of block `sb`.
    pub open spec fn is_quotient(&self, qd: &Self, rs: Seq<usize>, ls: Seq<usize>, sb: nat, count: nat) -> bool {
        &&& qd.wf()
        &&& qd.num_states() == count
        &&& qd.start_spec() == block_state(sb, sb)
        &&& forall|i: int| 0 <= i < rs.len() ==> #[trigger] ls[rs[i] as int] < count
        &&& forall|i: int|
            0 <= i < rs.len() ==> qd.accepting(block_state(#[trigger] ls[rs[i] as int] as nat, sb)) == self.accepting(rs[i] as nat)
        &&& forall|i: int, c: S|
            #![trigger qd.next(block_state(ls[rs[i] as int] as nat, sb), c)]
            0 <= i < rs.len() ==> qd.next(block_state(ls[rs[i] as int] as nat, sb), c)
                == block_state(ls[self.next(rs[i] as nat, c) as int] as nat, sb)
    }

    /// From a listed state, the quotient follows the blocks of the states that
    /// this automaton runs through.
    proof fn lemma_quotient_run(
        &self,
        qd: &Self,
        rs: Seq<usize>,
        rr: Seq<Seq<(S, S, StateId)>>,
        ls: Seq<usize>,
        sb: nat,
        count: nat,
        i: int,
        w: Seq<S>,
    )
        requires
            self.closed_listing(rs, rr),
            self.is_quotient(qd, rs, ls, sb, count),
            0 <= i < rs.len(),
        ensures
            is_listed(rs, self.run(rs[i] as nat, w)),
            qd.run(block_state(ls[rs[i] as int] as nat, sb), w) == block_state(ls[self.run(rs[i] as nat, w) as int] as nat, sb),
        decreases w.len(),
    {
        if w.len() > 0 {
            self.lemma_quotient_run(qd, rs, rr, ls, sb, count, i, w.drop_last());
            let p = self.run(rs[i] as nat, w.drop_last());
            let j = choose|j: int| 0 <= j < rs.len() && rs[j] == p;
            assert(is_listed(rs, self.next(rs[j] as nat, w.last())));
            assert(qd.next(block_state(ls[rs[j] as int] as nat, sb), w.last())
                == block_state(ls[self.next(rs[j] as nat, w.last()) as int] as nat, sb));
        }
    }

    /// The quotient accepts what this automaton accepts.
    proof fn lemma_quotient_accepts(
        &self,
        qd: &Self,
        rs: Seq<usize>,
        rr: Seq<Seq<(S, S, StateId)>>,
        ls: Seq<usize>,
        sb: nat,
        count: nat,
    )
        requires
            self.closed_listing(rs, rr),
            self.is_quotient(qd, rs, ls, sb, count),
            sb == ls[self.start_spec() as int],
        ensures
            forall|w: Seq<S>| #[trigger] qd.accepts(w) == self.accepts(w),
    {
        let i0 = choose|i: int| 0 <= i < rs.len() && rs[i] == self.start_spec();
        assert forall|w: Seq<S>| #[trigger] qd.accepts(w) == self.accepts(w) by {
            self.lemma_quotient_run(qd, rs, rr, ls, sb, count, i0, w);
            let p = self.run(self.start_spec(), w);
            let j = choose|j: int| 0 <= j < rs.len() && rs[j] == p;
            assert(qd.accepting(block_state(ls[rs[j] as int] as nat, sb)) == self.accepting(rs[j] as nat));
        }
    }

    /// `dfa` is the quotient of the states of this automaton that are
    /// reachable from the start, listed in `rs` with their transition ranges
    /// `rr`, under labels `ls` that give two listed states the same label
    /// exactly when their signatures under `ls` agree: when they accept alike
    /// and their ranges have the same bounds and lead to states with the same
    /// labels. Of all such labellings, `ls` merges the most: states that any
    /// of them labels alike, `ls` labels alike.
    pub open spec fn is_reachable_quotient(
        &self,
        dfa: &Self,
        rs: Seq<usize>,
        rr: Seq<Seq<(S, S, StateId)>>,
        ls: Seq<usize>,
    ) -> bool {
        &&& self.closed_listing(rs, rr)
        &&& forall|i: int| 0 <= i < rs.len() ==> self.reaches(#[trigger] rs[i] as nat)
        &&& self.labels_signatures(rs, rr, ls, ls)
        &&& forall|fixed: Seq<usize>| #[trigger] self.labels_signatures(rs, rr, fixed, fixed)
            ==> refines(at_positions(fixed, rs), at_positions(ls, rs))
        &&& self.is_quotient(dfa, rs, ls, ls[self.start_spec() as int] as nat, dfa.num_states())
    }

    /// Words that lead this automaton to states that accept alike and have the
    /// same table lead the quotient to the same state.
    proof fn lemma_same_table_merged(
        &self,
        qd: &Self,
        rs: Seq<usize>,
        rr: Seq<Seq<(S, S, StateId)>>,
        ls: Seq<usize>,
        w1: Seq<S>,
        w2: Seq<S>,
    )
        requires
            self.is_reachable_quotient(qd, rs, rr, ls),
            self.accepting(self.run(self.start_spec(), w1)) == self.accepting(self.run(self.start_spec(), w2)),
            self.table(self.run(self.start_spec(), w1)) == self.table(self.run(self.start_spec(), w2)),
        ensures
            qd.run(qd.start_spec(), w1) == qd.run(qd.start_spec(), w2),
    {
        let sb = ls[self.start_spec() as int] as nat;
        let count = qd.num_states();
        let i0 = choose|i: int| 0 <= i < rs.len() && rs[i] == self.start_spec();
        self.lemma_quotient_run(qd, rs, rr, ls, sb, count, i0, w1);
        self.lemma_quotient_run(qd, rs, rr, ls, sb, count, i0, w2);
        let p = self.run(self.start_spec(), w1);
        let q = self.run(self.start_spec(), w2);
        let i = choose|i: int| 0 <= i < rs.len() && rs[i] == p;
        let j = choose|j: int| 0 <= j < rs.len() && rs[j] == q;
        assert(listed(rr[i], self.table(p)));
        assert(listed(rr[j], self.table(q)));
        assert(coalesced(rr[i]));
        assert(coalesced(rr[j]));
        lemma_listing_unique(rr[i], rr[j], self.table(p));
        assert(same_ranges(rr[i], rr[j], ls));
        lemma_signature_eq(self.accepting(p), rr[i], self.accepting(q), rr[j], ls);
        assert(self.signature_at(rs, rr, i, ls) == self.signature_at(rs, rr, j, ls));
        assert(ls[rs[i] as int] == ls[rs[j] as int]);
    }

    /// Every state of the quotient is reached from its start, when every
    /// listed state is reached and every block holds a listed state.
    proof fn lemma_quotient_reaches(
        &self,
        qd: &Self,
        rs: Seq<usize>,
        rr: Seq<Seq<(S, S, StateId)>>,
        ls: Seq<usize>,
        sb: nat,
        count: nat,
    )
        requires
            self.closed_listing(rs, rr),
            self.is_quotient(qd, rs, ls, sb, count),
            sb == ls[self.start_spec() as int],
            forall|i: int| 0 <= i < rs.len() ==> self.reaches(#[trigger] rs[i] as nat),
            forall|b: nat| b < count ==> #[trigger] label_occurs(at_positions(ls, rs), rs.len(), b),
        ensures
            forall|q: nat| q < qd.num_states() ==> #[trigger] qd.reaches(q),
    {
        let i0 = choose|i: int| 0 <= i < rs.len() && rs[i] == self.start_spec();
        assert(ls[rs[i0] as int] < count);
        assert forall|q: nat| q < qd.num_states() implies #[trigger] qd.reaches(q) by {
            let b: nat = if q == 0 {
                sb
            } else if q <= sb {
                (q - 1) as nat
            } else {
                q
            };
            assert(block_state(b, sb) == q);
            assert(label_occurs(at_positions(ls, rs), rs.len(), b));
            let j = choose|j: int| 0 <= j < rs.len() && #[trigger] at_positions(ls, rs)[j] == b;
            assert(ls[rs[j] as int] == b);
            assert(self.reaches(rs[j] as nat));
            let w = choose|w: Seq<S>| #[trigger] self.run(self.start_spec(), w) == rs[j] as nat;
            self.lemma_quotient_run(qd, rs, rr, ls, sb, count, i0, w);
            assert(qd.run(qd.start_spec(), w) == q);
        }
    }

    /// The table of the quotient state of the block of `rep`: each symbol leads
    /// to the state that `block_to_state` gives the block of `rep`'s next state.
    fn quotient_table(&self, rep: usize, block_of: &Vec<usize>, block_to_state: &Vec<StateId>, bound: Ghost<nat>) -> (t: S::Table)
        requires
            self.wf(),
            rep < self.num_states(),
            block_of@.len() == self.num_states(),
            forall|c: S| block_of@[#[trigger] self.next(rep as nat, c) as int] < block_to_state@.len(),
            forall|b: int| 0 <= b < block_to_state@.len() ==> (#[trigger] block_to_state@[b])@ < bound@,
        ensures
            table_total(S::table_view(t), bound@),
            forall|c: S| #[trigger] S::table_view(t)[c] == block_to_state@[block_of@[self.next(rep as nat, c) as int] as int]@,
    {
        let ghost q = rep as nat;
        let ghost n = self.num_states();
        assert(table_total(self.table(q), n));
        let ranges = S::ranges(&self.transitions[rep]);
        let mut out: Vec<(S, S, StateId)> = Vec::new();
        let mut k: usize = 0;
        while k < ranges.len()
            invariant
                self.wf(),
                q < n,
                n == self.num_states(),
                block_of@.len() == n,
                listed(ranges@, self.table(q)),
                table_total(self.table(q), n),
                forall|c: S| block_of@[#[trigger] self.next(q, c) as int] < block_to_state@.len(),
                k <= ranges@.len(),
                out@.len() == k,
                forall|j: int| 0 <= j < k ==> (#[trigger] out@[j]).0 == ranges@[j].0 && out@[j].1 == ranges@[j].1
                    && out@[j].2 == block_to_state@[block_of@[ranges@[j].2@ as int] as int],
            decreases ranges@.len() - k,
        {
            let range = ranges[k];
            proof {
                let lo = ranges@[k as int].0;
                assert(covers(lo, lo, lo));
                assert(covers(ranges@[k as int].0, ranges@[k as int].1, lo));
                assert(self.table(q).contains_key(lo));
                assert(range.2@ == self.next(q, lo));
            }
            let target = block_to_state[block_of[range.2.id()]];
            out.push((range.0, range.1, target));
            k += 1;
        }
        let ghost out_seq = out@;
        proof {
            assert(spans_sorted(out_seq)) by {
                assert forall|i: int| 0 <= i < out_seq.len() implies (#[trigger] out_seq[i]).0.code() <= out_seq[i].1.code() by {
                    assert(ranges@[i].0.code() <= ranges@[i].1.code());
                }
                assert forall|i: int| 0 <= i < out_seq.len() - 1 implies (#[trigger] out_seq[i]).1.code() < out_seq[i + 1].0.code() by {
                    assert(ranges@[i].1.code() < ranges@[i + 1].0.code());
                    assert(out_seq[i + 1].0 == ranges@[i + 1].0);
                }
            }
        }
        let t = S::from_ranges(out);
        proof {
            let m = S::table_view(t);
            assert forall|c: S| #[trigger] m.contains_key(c) && m[c] == block_to_state@[block_of@[self.next(q, c) as int] as int]@ by {
                assert(self.table(q).contains_key(c));
                let j = choose|j: int| 0 <= j < ranges@.len() && covers((#[trigger] ranges@[j]).0, ranges@[j].1, c);
                assert(covers(out_seq[j].0, out_seq[j].1, c));
                lemma_lookup_sorted(out_seq, j, c);
                assert(self.table(q)[c] == ranges@[j].2@);
            }
            assert forall|c: S| #[trigger] m[c] < bound@ by {
                assert(m.contains_key(c));
                assert(m[c] == block_to_state@[block_of@[self.next(q, c) as int] as int]@);
            }
            assert forall|c: S| #[trigger] m.contains_key(c) by {
                assert(m.contains_key(c) && m[c] == block_to_state@[block_of@[self.next(q, c) as int] as int]@);
            }
            assert forall|c: S| #[trigger] m[c] == block_to_state@[block_of@[self.next(q, c) as int] as int]@ by {
                assert(m.contains_key(c) && m[c] == block_to_state@[block_of@[self.next(q, c) as int] as int]@);
            }
        }
        t
    }

    /// The states reachable from the start, in increasing order, with the
    /// transition ranges of each.
    fn reachable_listing(&self) -> (r: (Vec<usize>, Vec<Vec<(S, S, StateId)>>))
        requires
            self.wf(),
        ensures
            self.closed_listing(r.0@, range_lists(r.1@)),
            forall|i: int| 0 <= i < r.0@.len() ==> self.reaches(#[trigger] r.0@[i] as nat),
            r.0@.len() <= self.num_states(),
    {
        let reachable = self.reachable_flags();
        let rs = set_indices(&reachable);
        let mut ranges_of: Vec<Vec<(S, S, StateId)>> = Vec::new();
        let mut i: usize = 0;
        while i < rs.len()
            invariant
                self.wf(),
                i <= rs@.len(),
                ranges_of@.len() == i,
                forall|k: int| 0 <= k < rs@.len() ==> #[trigger] rs@[k] < self.num_states(),
                forall|k: int| 0 <= k < i ==> listed(#[trigger] ranges_of@[k]@, self.table(rs@[k] as nat)),
                forall|k: int| 0 <= k < i ==> coalesced(#[trigger] ranges_of@[k]@),
            decreases rs@.len() - i,
        {
            ranges_of.push(S::ranges(&self.transitions[rs[i]]));
            i += 1;
        }
        proof {
            let rr = range_lists(ranges_of@);
            assert forall|i: int| 0 <= i < rs@.len() implies listed(#[trigger] rr[i], self.table(rs@[i] as nat)) by {
                assert(rr[i] == ranges_of@[i]@);
            }
            assert forall|i: int| 0 <= i < rs@.len() implies coalesced(#[trigger] rr[i]) by {
                assert(rr[i] == ranges_of@[i]@);
            }
            assert forall|i: int, c: S| 0 <= i < rs@.len() implies is_listed(rs@, #[trigger] self.next(rs@[i] as nat, c)) by {
                assert(reachable@[rs@[i] as int]);
                assert(reachable@[self.next(rs@[i] as nat, c) as int]);
                assert(table_total(self.table(rs@[i] as nat), self.num_states()));
                assert(self.table(rs@[i] as nat)[c] < self.num_states());
            }
            assert(reachable@[self.start_spec() as int]);
        }
        (rs, ranges_of)
    }

    /// Labels the listed states by acceptance: accepting states 1 when some
    /// listed state rejects, all others 0.
    fn initial_blocks(&self, rs: &Vec<usize>) -> (block_of: Vec<usize>)
        requires
            self.wf(),
            forall|i: int| 0 <= i < rs@.len() ==> #[trigger] rs@[i] < self.num_states(),
        ensures
            block_of@.len() == self.num_states(),
            forall|i: int, j: int|
                #![trigger block_of@[rs@[i] as int], block_of@[rs@[j] as int]]
                0 <= i < rs@.len() && 0 <= j < rs@.len() && self.accepting(rs@[i] as nat) == self.accepting(rs@[j] as nat)
                    ==> block_of@[rs@[i] as int] == block_of@[rs@[j] as int],
    {
        let mut has_rejecting = false;
        let mut i: usize = 0;
        while i < rs.len()
            invariant
                self.wf(),
                i <= rs@.len(),
                forall|k: int| 0 <= k < rs@.len() ==> #[trigger] rs@[k] < self.num_states(),
            decreases rs@.len() - i,
        {
            if !self.is_accepting(StateId::from_id(rs[i])) {
                has_rejecting = true;
            }
            i += 1;
        }
        let mut block_of = zeros(self.transitions.len());
        let mut i: usize = 0;
        while i < rs.len()
            invariant
                self.wf(),
                i <= rs@.len(),
                block_of@.len() == self.num_states(),
                forall|k: int| 0 <= k < rs@.len() ==> #[trigger] rs@[k] < self.num_states(),
                forall|k: int| 0 <= k < i ==> block_of@[#[trigger] rs@[k] as int]
                    == if !self.accepting(rs@[k] as nat) { 0usize } else if has_rejecting { 1usize } else { 0usize },
            decreases rs@.len() - i,
        {
            let state = rs[i];
            let block: usize = if !self.is_accepting(StateId::from_id(state)) {
                0
            } else if has_rejecting {
                1
            } else {
                0
            };
            block_of.set(state, block);
            i += 1;
        }
        block_of
    }

    /// Refines the blocks of the listed states until a pass changes no label;
    /// the final labels are stable and numbered in order.
    fn stable_blocks(&self, rs: &Vec<usize>, ranges_of: &Vec<Vec<(S, S, StateId)>>) -> (block_of: Vec<usize>)
        requires
            self.closed_listing(rs@, range_lists(ranges_of@)),
        ensures
            block_of@.len() == self.num_states(),
            self.stable_labels(rs@, block_of@),
            self.labels_signatures(rs@, range_lists(ranges_of@), block_of@, block_of@),
            forall|fixed: Seq<usize>| #[trigger] self.labels_signatures(rs@, range_lists(ranges_of@), fixed, fixed)
                ==> refines(at_positions(fixed, rs@), at_positions(block_of@, rs@)),
            numbered_in_order(at_positions(block_of@, rs@)),
    {
        let ghost rr = range_lists(ranges_of@);
        let mut block_of = self.initial_blocks(rs);
        proof {
            assert forall|fixed: Seq<usize>| #[trigger] self.labels_signatures(rs@, rr, fixed, fixed)
                implies refines(at_positions(fixed, rs@), at_positions(block_of@, rs@)) by {
                self.lemma_fixed_refines_acceptance(rs@, rr, fixed, block_of@);
            }
            assert forall|i: int, j: int|
                #![trigger self.signature_at(rs@, rr, i, block_of@), self.signature_at(rs@, rr, j, block_of@)]
                0 <= i < rs@.len() && 0 <= j < rs@.len()
                    && self.signature_at(rs@, rr, i, block_of@) == self.signature_at(rs@, rr, j, block_of@)
                    implies block_of@[rs@[i] as int] == block_of@[rs@[j] as int] by {
                lemma_signature_eq(self.accepting(rs@[i] as nat), rr[i], self.accepting(rs@[j] as nat), rr[j], block_of@);
            }
        }
        loop
            invariant
                self.closed_listing(rs@, rr),
                rr == range_lists(ranges_of@),
                block_of@.len() == self.num_states(),
                self.respects_signatures(rs@, rr, block_of@),
                forall|fixed: Seq<usize>| #[trigger] self.labels_signatures(rs@, rr, fixed, fixed)
                    ==> refines(at_positions(fixed, rs@), at_positions(block_of@, rs@)),
            ensures
                block_of@.len() == self.num_states(),
                self.stable_labels(rs@, block_of@),
                self.labels_signatures(rs@, rr, block_of@, block_of@),
                forall|fixed: Seq<usize>| #[trigger] self.labels_signatures(rs@, rr, fixed, fixed)
                    ==> refines(at_positions(fixed, rs@), at_positions(block_of@, rs@)),
                numbered_in_order(at_positions(block_of@, rs@)),
            decreases refinement_measure(at_positions(block_of@, rs@)),
        {
            let next = self.refine_pass(rs, ranges_of, &block_of);
            let mut changed = false;
            let mut i: usize = 0;
            while i < rs.len()
                invariant
                    self.closed_listing(rs@, rr),
                    i <= rs@.len(),
                    next@.len() == self.num_states(),
                    block_of@.len() == self.num_states(),
                    changed == exists|k: int| 0 <= k < i && next@[rs@[k] as int] != block_of@[rs@[k] as int],
                decreases rs@.len() - i,
            {
                if next[rs[i]] != block_of[rs[i]] {
                    changed = true;
                }
                i += 1;
            }
            proof {
                assert forall|fixed: Seq<usize>| #[trigger] self.labels_signatures(rs@, rr, fixed, fixed)
                    implies refines(at_positions(fixed, rs@), at_positions(next@, rs@)) by {
                    self.lemma_fixed_refines_pass(rs@, rr, fixed, block_of@, next@);
                }
                self.lemma_pass_refines(rs@, rr, block_of@, next@);
                let pn = at_positions(next@, rs@);
                let pc = at_positions(block_of@, rs@);
                if changed {
                    let k = choose|k: int| 0 <= k < rs@.len() && next@[rs@[k] as int] != block_of@[rs@[k] as int];
                    assert(pn[k] != pc[k]);
                    lemma_measure_drops(pc, pn);
                } else {
                    assert forall|k: int| 0 <= k < rs@.len() implies next@[#[trigger] rs@[k] as int] == block_of@[rs@[k] as int] by {
                        if next@[rs@[k] as int] != block_of@[rs@[k] as int] {
                            assert(exists|k2: int| 0 <= k2 < rs@.len() && next@[rs@[k2] as int] != block_of@[rs@[k2] as int]);
                        }
                    }
                    self.lemma_unchanged_stable(rs@, rr, block_of@, next@);
                    self.lemma_unchanged_fixed(rs@, rr, block_of@, next@);
                }
            }
            block_of = next;
            if !changed {
                break;
            }
        }
        block_of
    }

    /// The number of blocks among the listed states, one more than the largest
    /// label, when the labels are numbered in order.
    fn block_count(&self, rs: &Vec<usize>, block_of: &Vec<usize>, rr: Ghost<Seq<Seq<(S, S, StateId)>>>) -> (count: usize)
        requires
            self.closed_listing(rs@, rr@),
            block_of@.len() == self.num_states(),
            numbered_in_order(at_positions(block_of@, rs@)),
        ensures
            count == blocks_before(at_positions(block_of@, rs@), rs@.len()),
            count <= rs@.len(),
            forall|i: int| 0 <= i < rs@.len() ==> #[trigger] block_of@[rs@[i] as int] < count,
            forall|b: nat| b < count ==> #[trigger] label_occurs(at_positions(block_of@, rs@), rs@.len(), b),
    {
        let ghost ls = at_positions(block_of@, rs@);
        proof {
            lemma_numbered_labels(ls, rs@.len());
            lemma_blocks_before_bound(ls, rs@.len());
            assert forall|i: int| 0 <= i < rs@.len() implies #[trigger] block_of@[rs@[i] as int] < blocks_before(ls, rs@.len()) by {
                assert(ls[i] == block_of@[rs@[i] as int]);
            }
        }
        let mut max_block: usize = 0;
        let mut i: usize = 0;
        while i < rs.len()
            invariant
                self.closed_listing(rs@, rr@),
                block_of@.len() == self.num_states(),
                ls == at_positions(block_of@, rs@),
                i <= rs@.len(),
                forall|k: int| 0 <= k < i ==> block_of@[#[trigger] rs@[k] as int] <= max_block,
                forall|k: int| 0 <= k < rs@.len() ==> #[trigger] block_of@[rs@[k] as int] < blocks_before(ls, rs@.len()),
                max_block < blocks_before(ls, rs@.len()) || rs@.len() == 0,
            decreases rs@.len() - i,
        {
            if block_of[rs[i]] > max_block {
                max_block = block_of[rs[i]];
            }
            i += 1;
        }
        proof {
            let i0 = choose|i: int| 0 <= i < rs@.len() && rs@[i] == self.start_spec();
            assert(ls[i0] < blocks_before(ls, rs@.len()));
            let top = (blocks_before(ls, rs@.len()) - 1) as nat;
            assert(label_occurs(ls, rs@.len(), top));
            let k = choose|k: int| 0 <= k < rs@.len() && #[trigger] ls[k] == top;
            assert(block_of@[rs@[k] as int] <= max_block);
        }
        max_block + 1
    }

    /// The automaton with one state per block of the listed states, which
    /// accepts and steps as the states of its block do.
    fn build_quotient(&self, rs: &Vec<usize>, block_of: &Vec<usize>, rr: Ghost<Seq<Seq<(S, S, StateId)>>>) -> (qd: Self)
        requires
            self.closed_listing(rs@, rr@),
            block_of@.len() == self.num_states(),
            self.stable_labels(rs@, block_of@),
            numbered_in_order(at_positions(block_of@, rs@)),
        ensures
            self.is_quotient(&qd, rs@, block_of@, block_of@[self.start_spec() as int] as nat,
                blocks_before(at_positions(block_of@, rs@), rs@.len())),
            forall|b: nat| b < blocks_before(at_positions(block_of@, rs@), rs@.len())
                ==> #[trigger] label_occurs(at_positions(block_of@, rs@), rs@.len(), b),
            qd.num_states() <= rs@.len(),
    {
        let ghost ls = at_positions(block_of@, rs@);
        let block_count = self.block_count(rs, block_of, rr);
        let mut representative: Vec<Option<usize>> = Vec::new();
        let mut b: usize = 0;
        while b < block_count
            invariant
                b <= block_count,
                representative@.len() == b,
                forall|k: int| 0 <= k < b ==> #[trigger] representative@[k] is None,
            decreases block_count - b,
        {
            representative.push(None);
            b += 1;
        }
        let mut i: usize = 0;
        while i < rs.len()
            invariant
                self.closed_listing(rs@, rr@),
                block_of@.len() == self.num_states(),
                ls == at_positions(block_of@, rs@),
                i <= rs@.len(),
                representative@.len() == block_count,
                forall|k: int| 0 <= k < rs@.len() ==> #[trigger] block_of@[rs@[k] as int] < block_count,
                forall|k: int| 0 <= k < block_count ==> (#[trigger] representative@[k] matches Some(r)
                    ==> is_listed(rs@, r as nat) && block_of@[r as int] == k),
                forall|k: int| 0 <= k < i ==> #[trigger] representative@[block_of@[rs@[k] as int] as int] is Some,
            decreases rs@.len() - i,
        {
            let block = block_of[rs[i]];
            if representative[block].is_none() {
                representative.set(block, Some(rs[i]));
            }
            i += 1;
        }
        proof {
            assert forall|k: int| 0 <= k < block_count implies #[trigger] representative@[k] is Some by {
                assert(label_occurs(ls, rs@.len(), k as nat));
                let j = choose|j: int| 0 <= j < rs@.len() && #[trigger] ls[j] == k;
                assert(representative@[block_of@[rs@[j] as int] as int] is Some);
            }
        }
        let ghost reps = representative@;
        let ghost n = self.num_states();
        let start_block = block_of[self.start.id()];
        let ghost sb = start_block as nat;
        proof {
            let i0 = choose|i: int| 0 <= i < rs@.len() && rs@[i] == self.start_spec();
            assert(block_of@[rs@[i0] as int] < block_count);
        }
        let start_rep = representative[start_block].unwrap();
        let mut minimized = Self::new(self.state_kinds[start_rep]);
        let mut block_to_state: Vec<StateId> = Vec::new();
        let mut b: usize = 0;
        while b < block_count
            invariant
                self.wf(),
                n == self.num_states(),
                representative@ == reps,
                reps.len() == block_count,
                forall|k: int| 0 <= k < block_count ==> (#[trigger] reps[k]) is Some,
                forall|k: int| 0 <= k < block_count ==> (#[trigger] reps[k]).unwrap() < n,
                sb == start_block,
                sb < block_count,
                b <= block_count,
                minimized.wf(),
                minimized.start_spec() == 0,
                minimized.num_states() == if sb < b { b as nat } else { (b + 1) as nat },
                minimized.accepting(0) == self.accepting(reps[sb as int].unwrap() as nat),
                block_to_state@.len() == b,
                forall|k: int| 0 <= k < b ==> (#[trigger] block_to_state@[k])@ == block_state(k as nat, sb),
                forall|k: int| 0 <= k < b && k != sb ==> minimized.accepting(block_state(k as nat, sb))
                    == self.accepting(#[trigger] reps[k].unwrap() as nat),
            decreases block_count - b,
        {
            let ghost old_map = block_to_state@;
            if b == start_block {
                block_to_state.push(minimized.start_state());
                proof {
                    assert forall|k: int| 0 <= k < b + 1 implies (#[trigger] block_to_state@[k])@ == block_state(k as nat, sb) by {
                        if k < b {
                            assert(block_to_state@[k] == old_map[k]);
                        }
                    }
                }
            } else {
                let rep = representative[b].unwrap();
                let kind = self.state_kinds[rep];
                let ghost before = minimized;
                let id = minimized.new_state(kind);
                proof {
                    assert forall|k: int| 0 <= k < b && k != sb implies minimized.accepting(block_state(k as nat, sb))
                        == self.accepting(#[trigger] reps[k].unwrap() as nat) by {
                        assert(block_state(k as nat, sb) < before.num_states());
                    }
                    assert(minimized.accepting(0) == before.accepting(0));
                }
                block_to_state.push(id);
                proof {
                    assert(id@ == block_state(b as nat, sb));
                    assert forall|k: int| 0 <= k < b + 1 implies (#[trigger] block_to_state@[k])@ == block_state(k as nat, sb) by {
                        if k < b {
                            assert(block_to_state@[k] == old_map[k]);
                        }
                    }
                }
            }
            b += 1;
        }
        let ghost count = block_count as nat;
        let ghost tables0 = minimized;
        let mut b: usize = 0;
        while b < block_count
            invariant
                self.closed_listing(rs@, rr@),
                n == self.num_states(),
                block_of@.len() == n,
                ls == at_positions(block_of@, rs@),
                forall|k: int| 0 <= k < rs@.len() ==> #[trigger] block_of@[rs@[k] as int] < block_count,
                representative@ == reps,
                reps.len() == block_count,
                forall|k: int| 0 <= k < block_count ==> (#[trigger] reps[k]) is Some,
                forall|k: int| 0 <= k < block_count ==> is_listed(rs@, (#[trigger] reps[k]).unwrap() as nat)
                    && block_of@[reps[k].unwrap() as int] == k,
                sb == start_block,
                count == block_count,
                sb < block_count,
                b <= block_count,
                block_to_state@.len() == block_count,
                forall|k: int| 0 <= k < block_count ==> (#[trigger] block_to_state@[k])@ == block_state(k as nat, sb),
                minimized.wf(),
                minimized.start_spec() == 0,
                minimized.num_states() == count,
                forall|q: nat| q < count ==> #[trigger] minimized.accepting(q) == tables0.accepting(q),
                forall|k: int, c: S| 0 <= k < b ==> #[trigger] minimized.next(block_state(k as nat, sb), c)
                    == block_state(block_of@[self.next(reps[k].unwrap() as nat, c) as int] as nat, sb),
            decreases block_count - b,
        {
            let rep = representative[b].unwrap();
            let ghost r = rep as nat;
            proof {
                let j = choose|j: int| 0 <= j < rs@.len() && rs@[j] == r;
                assert forall|c: S| block_of@[#[trigger] self.next(r, c) as int] < block_to_state@.len() by {
                    assert(is_listed(rs@, self.next(rs@[j] as nat, c)));
                    let j2 = choose|j2: int| 0 <= j2 < rs@.len() && rs@[j2] == self.next(rs@[j] as nat, c);
                    assert(block_of@[rs@[j2] as int] < block_count);
                }
                assert forall|k: int| 0 <= k < block_to_state@.len() implies (#[trigger] block_to_state@[k])@ < count by {
                    assert(block_to_state@[k]@ == block_state(k as nat, sb));
                }
            }
            let table = self.quotient_table(rep, block_of, &block_to_state, Ghost(count));
            let ghost before = minimized;
            minimized.set_transitions(block_to_state[b], table);
            proof {
                assert forall|k: int, c: S| 0 <= k < b + 1 implies #[trigger] minimized.next(block_state(k as nat, sb), c)
                    == block_state(block_of@[self.next(reps[k].unwrap() as nat, c) as int] as nat, sb) by {
                    if k < b {
                        assert(block_to_state@[b as int]@ == block_state(b as nat, sb));
                        assert(block_state(k as nat, sb) != block_state(b as nat, sb));
                        assert(block_state(k as nat, sb) < count);
                        assert(minimized.table(block_state(k as nat, sb)) == before.table(block_state(k as nat, sb)));
                        assert(minimized.next(block_state(k as nat, sb), c) == before.next(block_state(k as nat, sb), c));
                    } else {
                        assert(S::table_view(table)[c] == block_to_state@[block_of@[self.next(r, c) as int] as int]@);
                        let j = choose|j: int| 0 <= j < rs@.len() && rs@[j] == r;
                        assert(is_listed(rs@, self.next(rs@[j] as nat, c)));
                        let j2 = choose|j2: int| 0 <= j2 < rs@.len() && rs@[j2] == self.next(rs@[j] as nat, c);
                        assert(block_of@[rs@[j2] as int] < block_count);
                        assert(r == reps[b as int].unwrap());
                        assert(block_to_state@[b as int]@ == block_state(b as nat, sb));
                        assert(minimized.table(block_state(b as nat, sb)) == S::table_view(table));
                        let t = block_of@[self.next(r, c) as int];
                        assert(block_to_state@[t as int]@ == block_state(t as nat, sb));
                        assert(k == b);
                        assert(minimized.next(block_state(k as nat, sb), c) == S::table_view(table)[c]);
                    }
                }
            }
            b += 1;
        }
        proof {
            let qd = minimized;
            assert forall|i: int| 0 <= i < rs@.len() implies qd.accepting(block_state(#[trigger] block_of@[rs@[i] as int] as nat, sb))
                == self.accepting(rs@[i] as nat) by {
                let k = block_of@[rs@[i] as int] as int;
                let r = reps[k].unwrap();
                let j = choose|j: int| 0 <= j < rs@.len() && rs@[j] == r;
                assert(block_of@[rs@[j] as int] == block_of@[rs@[i] as int]);
            }
            assert forall|i: int, c: S|
                #![trigger qd.next(block_state(block_of@[rs@[i] as int] as nat, sb), c)]
                0 <= i < rs@.len() implies qd.next(block_state(block_of@[rs@[i] as int] as nat, sb), c)
                    == block_state(block_of@[self.next(rs@[i] as nat, c) as int] as nat, sb) by {
                let k = block_of@[rs@[i] as int] as int;
                let r = reps[k].unwrap();
                let j = choose|j: int| 0 <= j < rs@.len() && rs@[j] == r;
                assert(block_of@[rs@[j] as int] == block_of@[rs@[i] as int]);
                assert(block_of@[self.next(rs@[j] as nat, c) as int] == block_of@[self.next(rs@[i] as nat, c) as int]);
            }
        }
        minimized
    }

    /// An automaton that accepts the same words, built from the states
    /// reachable from the start: states are merged into blocks while no block
    /// holds two states that differ in acceptance or in the blocks that their
    /// transition ranges lead to.
    pub fn minimize(&self) -> (dfa: Self)
        requires
            self.wf(),
        ensures
            dfa.wf(),
            forall|w: Seq<S>| #[trigger] dfa.accepts(w) == self.accepts(w),
            dfa.num_states() <= self.num_states(),
            forall|q: nat| q < dfa.num_states() ==> #[trigger] dfa.reaches(q),
            exists|rs: Seq<usize>, rr: Seq<Seq<(S, S, StateId)>>, ls: Seq<usize>|
                #[trigger] self.is_reachable_quotient(&dfa, rs, rr, ls),
            forall|w1: Seq<S>, w2: Seq<S>|
                #![trigger dfa.run(dfa.start_spec(), w1), dfa.run(dfa.start_spec(), w2)]
                self.accepting(self.run(self.start_spec(), w1)) == self.accepting(self.run(self.start_spec(), w2))
                    && self.table(self.run(self.start_spec(), w1)) == self.table(self.run(self.start_spec(), w2))
                    ==> dfa.run(dfa.start_spec(), w1) == dfa.run(dfa.start_spec(), w2),
    {
        let (rs, ranges_of) = self.reachable_listing();
        let ghost rr = range_lists(ranges_of@);
        let block_of = self.stable_blocks(&rs, &ranges_of);
        let minimized = self.build_quotient(&rs, &block_of, Ghost(rr));
        proof {
            let sb = block_of@[self.start_spec() as int] as nat;
            let count = blocks_before(at_positions(block_of@, rs@), rs@.len());
            self.lemma_quotient_accepts(&minimized, rs@, rr, block_of@, sb, count);
            self.lemma_quotient_reaches(&minimized, rs@, rr, block_of@, sb, count);
            assert(self.is_reachable_quotient(&minimized, rs@, rr, block_of@));
            assert forall|w1: Seq<S>, w2: Seq<S>|
                #![trigger minimized.run(minimized.start_spec(), w1), minimized.run(minimized.start_spec(), w2)]
                self.accepting(self.run(self.start_spec(), w1)) == self.accepting(self.run(self.start_spec(), w2))
                    && self.table(self.run(self.start_spec(), w1)) == self.table(self.run(self.start_spec(), w2))
                    implies minimized.run(minimized.start_spec(), w1) == minimized.run(minimized.start_spec(), w2) by {
                self.lemma_same_table_merged(&minimized, rs@, rr, block_of@, w1, w2);
            }
        }
        minimized
    }

    /// The signature of `state`, whose transition ranges are `ranges`, under
    /// the block labels `cur`.
    fn signature_key(&self, state: usize, ranges: &Vec<(S, S, StateId)>, cur: &Vec<usize>) -> (key: Vec<usize>)
        requires
            self.wf(),
            state < self.num_states(),
            listed(ranges@, self.table(state as nat)),
            cur@.len() == self.num_states(),
        ensures
            key@ == signature(self.accepting(state as nat), ranges@, cur@),
    {
        let ghost q = state as nat;
        let ghost n = self.num_states();
        assert(table_total(self.table(q), n));
        let mut key: Vec<usize> = Vec::new();
        key.push(if self.is_accepting(StateId::from_id(state)) { 1 } else { 0 });
        let mut k: usize = 0;
        while k < ranges.len()
            invariant
                self.wf(),
                q < n,
                n == self.num_states(),
                listed(ranges@, self.table(q)),
                table_total(self.table(q), n),
                cur@.len() == n,
                k <= ranges@.len(),
                key@ == seq![kind_flag(self.accepting(q))] + ranges_key(ranges@.take(k as int), cur@),
            decreases ranges@.len() - k,
        {
            let range = ranges[k];
            proof {
                let lo = ranges@[k as int].0;
                assert(covers(lo, lo, lo));
                assert(covers(ranges@[k as int].0, ranges@[k as int].1, lo));
                assert(self.table(q).contains_key(lo));
                assert(range.2@ == self.table(q)[lo]);
            }
            key.push(range.0.to_code());
            key.push(range.1.to_code());
            key.push(cur[range.2.id()]);
            proof {
                assert(ranges@.take(k + 1).drop_last() =~= ranges@.take(k as int));
            }
            k += 1;
        }
        assert(ranges@.take(k as int) =~= ranges@);
        key
    }

    /// Numbers the signatures of the listed states under `cur` in the order in
    /// which they first occur, and labels each listed state with the number of
    /// its signature.
    fn refine_pass(&self, rs: &Vec<usize>, ranges_of: &Vec<Vec<(S, S, StateId)>>, cur: &Vec<usize>) -> (next: Vec<usize>)
        requires
            self.closed_listing(rs@, range_lists(ranges_of@)),
            cur@.len() == self.num_states(),
        ensures
            next@.len() == cur@.len(),
            numbered_in_order(at_positions(next@, rs@)),
            forall|i: int, j: int|
                #![trigger next@[rs@[i] as int], next@[rs@[j] as int]]
                0 <= i < rs@.len() && 0 <= j < rs@.len() ==> (next@[rs@[i] as int] == next@[rs@[j] as int]
                    <==> self.signature_at(rs@, range_lists(ranges_of@), i, cur@)
                    == self.signature_at(rs@, range_lists(ranges_of@), j, cur@)),
    {
        let ghost rr = range_lists(ranges_of@);
        let ghost n = self.num_states();
        let ghost sigs = Seq::new(rs@.len(), |j: int| self.signature_at(rs@, rr, j, cur@));
        let mut next = zeros(cur.len());
        let mut signature_to_block = key_index_new();
        let ghost mut ls: Seq<usize> = Seq::empty();
        proof {
            lemma_numbering_empty(sigs);
        }
        let mut i: usize = 0;
        while i < rs.len()
            invariant
                self.closed_listing(rs@, rr),
                rr == range_lists(ranges_of@),
                n == self.num_states(),
                cur@.len() == n,
                next@.len() == n,
                sigs == Seq::new(rs@.len(), |j: int| self.signature_at(rs@, rr, j, cur@)),
                i <= rs@.len(),
                ls.len() == i,
                forall|j: int| 0 <= j < i ==> next@[#[trigger] rs@[j] as int] == ls[j],
                numbering(key_index_entries(signature_to_block), ls, sigs),
            decreases rs@.len() - i,
        {
            let state = rs[i];
            assert(listed(rr[i as int], self.table(state as nat)));
            let key = self.signature_key(state, &ranges_of[i], cur);
            let ghost entries0 = key_index_entries(signature_to_block);
            let block = match key_index_get(&signature_to_block, &key) {
                Some(existing) => existing,
                None => {
                    let new_block = key_index_len(&signature_to_block);
                    key_index_insert(&mut signature_to_block, key, new_block);
                    new_block
                },
            };
            proof {
                lemma_numbering_step(entries0, key_index_entries(signature_to_block), ls, sigs, block);
            }
            let ghost old_ls = ls;
            next.set(state, block);
            proof {
                ls = ls.push(block);
                assert forall|j: int| 0 <= j < i + 1 implies next@[#[trigger] rs@[j] as int] == ls[j] by {
                    if j < i {
                        assert(rs@[j] < rs@[i as int]);
                        assert(old_ls[j] == ls[j]);
                    }
                }
            }
            i += 1;
        }
        proof {
            lemma_numbering_labels(key_index_entries(signature_to_block), ls, sigs);
            assert(at_positions(next@, rs@) =~= ls);
            assert forall|i: int, j: int|
                #![trigger next@[rs@[i] as int], next@[rs@[j] as int]]
                0 <= i < rs@.len() && 0 <= j < rs@.len() implies (next@[rs@[i] as int] == next@[rs@[j] as int]
                    <==> self.signature_at(rs@, rr, i, cur@) == self.signature_at(rs@, rr, j, cur@)) by {
                assert(ls[i] == next@[rs@[i] as int]);
                assert(ls[j] == next@[rs@[j] as int]);
                assert(sigs[i] == self.signature_at(rs@, rr, i, cur@));
                assert(sigs[j] == self.signature_at(rs@, rr, j, cur@));
            }
        }
        next
    }

    /// A state that a reachable state steps to is reachable.
    proof fn lemma_reaches_step(&self, q: nat, c: S)
        requires
            self.reaches(q),
        ensures
            self.reaches(self.next(q, c)),
    {
        let w = choose|w: Seq<S>| #[trigger] self.run(self.start_spec(), w) == q;
        self.lemma_run_push(self.start_spec(), w, c);
    }

    /// Marks the states reachable from the start: the start is marked, and
    /// every state that a marked state steps to is marked.
    fn reachable_flags(&self) -> (reachable: Vec<bool>)
        requires
            self.wf(),
        ensures
            reachable@.len() == self.num_states(),
            reachable@[self.start_spec() as int],
            forall|q: nat, c: S| #![trigger reachable@[q as int], self.next(q, c)] q < self.num_states() && reachable@[q as int]
                ==> reachable@[self.next(q, c) as int],
            forall|q: nat| q < self.num_states() && #[trigger] reachable@[q as int] ==> self.reaches(q),
    {
        let ghost n = self.num_states();
        let state_count = self.transitions.len();
        let mut reachable: Vec<bool> = Vec::new();
        let mut i: usize = 0;
        while i < state_count
            invariant
                i <= state_count,
                state_count == n,
                reachable@.len() == i,
                forall|j: int| 0 <= j < i ==> !(#[trigger] reachable@[j]),
            decreases state_count - i,
        {
            reachable.push(false);
            i += 1;
        }
        proof {
            lemma_count_true_none(reachable@);
        }
        let mut stack: Vec<StateId> = vec![self.start];
        proof {
            assert(self.run(self.start_spec(), Seq::<S>::empty()) == self.start_spec());
            assert(stack@[0]@ == self.start_spec());
        }
        while stack.len() > 0
            invariant
                self.wf(),
                n == self.num_states(),
                reachable@.len() == n,
                forall|q: nat| q < n && #[trigger] reachable@[q as int] ==> self.reaches(q),
                forall|k: int| 0 <= k < stack.len() ==> self.reaches((#[trigger] stack@[k])@ as nat),
                forall|k: int| 0 <= k < stack.len() ==> (#[trigger] stack@[k])@ < n,
                reachable@[self.start_spec() as int] || exists|k: int| 0 <= k < stack.len() && (#[trigger] stack@[k])@ == self.start_spec(),
                forall|q: nat, c: S| #![trigger reachable@[q as int], self.next(q, c)] q < n && reachable@[q as int] ==> reachable@[self.next(q, c) as int]
                    || exists|k: int| 0 <= k < stack.len() && (#[trigger] stack@[k])@ == self.next(q, c),
            decreases n - count_true(reachable@), stack.len(),
        {
            proof {
                lemma_count_true_bound(reachable@);
            }
            let ghost pre = stack@;
            let state = stack.pop().unwrap();
            let ghost old_stack = stack@;
            assert(pre =~= old_stack.push(state));
            let ghost old_reachable = reachable@;
            if reachable[state.id()] {
                proof {
                    assert forall|q: nat, c: S| #![trigger reachable@[q as int], self.next(q, c)] q < n && reachable@[q as int] implies reachable@[self.next(q, c) as int]
                        || exists|k: int| 0 <= k < stack.len() && (#[trigger] stack@[k])@ == self.next(q, c) by {
                        if !reachable@[self.next(q, c) as int] {
                            let k = choose|k: int| 0 <= k < pre.len() && (#[trigger] pre[k])@ == self.next(q, c);
                            if k < old_stack.len() {
                                assert(pre[k] == stack@[k]);
                            }
                        }
                    }
                    if !reachable@[self.start_spec() as int] {
                        let k = choose|k: int| 0 <= k < pre.len() && (#[trigger] pre[k])@ == self.start_spec();
                        if k < old_stack.len() {
                            assert(pre[k] == stack@[k]);
                        }
                    }
                }
                continue;
            }
            reachable.set(state.id(), true);
            proof {
                lemma_count_true_set(old_reachable, state@ as int);
            }
            let ghost q0 = state@ as nat;
            proof {
                assert(table_total(self.table(q0), n));
                assert(pre[pre.len() - 1] == state);
                assert(self.reaches(q0));
                assert forall|k: int| 0 <= k < stack.len() implies self.reaches((#[trigger] stack@[k])@ as nat) by {
                    assert(stack@[k] == pre[k]);
                }
            }
            let ranges = S::ranges(&self.transitions[state.id()]);
            let mut k: usize = 0;
            while k < ranges.len()
                invariant
                    self.wf(),
                    n == self.num_states(),
                    q0 < n,
                    reachable@.len() == n,
                    reachable@[q0 as int],
                    self.reaches(q0),
                    forall|q: nat| q < n && #[trigger] reachable@[q as int] ==> self.reaches(q),
                    forall|j: int| 0 <= j < stack.len() ==> self.reaches((#[trigger] stack@[j])@ as nat),
                    count_true(reachable@) == count_true(old_reachable) + 1,
                    listed(ranges@, self.table(q0)),
                    table_total(self.table(q0), n),
                    k <= ranges.len(),
                    forall|j: int| 0 <= j < stack.len() ==> (#[trigger] stack@[j])@ < n,
                    stack@.len() >= old_stack.len(),
                    forall|j: int| 0 <= j < old_stack.len() ==> #[trigger] stack@[j] == old_stack[j],
                    forall|j: int| 0 <= j < k ==> reachable@[ranges@[j].2@ as int]
                        || exists|m: int| 0 <= m < stack.len() && (#[trigger] stack@[m]) == (#[trigger] ranges@[j]).2,
                decreases ranges.len() - k,
            {
                let next = ranges[k].2;
                proof {
                    let lo = ranges@[k as int].0;
                    assert(covers(lo, lo, lo));
                    assert(covers(ranges@[k as int].0, ranges@[k as int].1, lo));
                    assert(self.table(q0).contains_key(lo));
                    assert(next@ == self.table(q0)[lo]);
                }
                let ghost before = stack@;
                proof {
                    self.lemma_reaches_step(q0, ranges@[k as int].0);
                }
                if !reachable[next.id()] {
                    stack.push(next);
                }
                proof {
                    assert forall|j: int| 0 <= j < k + 1 implies reachable@[ranges@[j].2@ as int]
                        || exists|m: int| 0 <= m < stack.len() && (#[trigger] stack@[m]) == (#[trigger] ranges@[j]).2 by {
                        if j < k {
                            if !reachable@[ranges@[j].2@ as int] {
                                let m = choose|m: int| 0 <= m < before.len() && (#[trigger] before[m]) == ranges@[j].2;
                                assert(stack@[m] == before[m]);
                            }
                        } else if !reachable@[ranges@[j].2@ as int] {
                            assert(stack@[stack.len() - 1] == next);
                        }
                    }
                }
                k += 1;
            }
            proof {
                assert forall|q: nat, c: S| #![trigger reachable@[q as int], self.next(q, c)] q < n && reachable@[q as int] implies reachable@[self.next(q, c) as int]
                    || exists|k: int| 0 <= k < stack.len() && (#[trigger] stack@[k])@ == self.next(q, c) by {
                    if q == q0 {
                        assert(self.table(q0).contains_key(c));
                        let j = choose|j: int| 0 <= j < ranges@.len() && covers((#[trigger] ranges@[j]).0, ranges@[j].1, c);
                        assert(self.table(q0)[c] == ranges@[j].2@);
                        if !reachable@[ranges@[j].2@ as int] {
                            let m = choose|m: int| 0 <= m < stack.len() && (#[trigger] stack@[m]) == ranges@[j].2;
                            assert(stack@[m]@ == self.next(q, c));
                        }
                    } else {
                        assert(old_reachable[q as int]);
                        if !reachable@[self.next(q, c) as int] {
                            assert(!old_reachable[self.next(q, c) as int]);
                            let k = choose|k: int| 0 <= k < pre.len() && (#[trigger] pre[k])@ == self.next(q, c);
                            if k == old_stack.len() {
                                assert(self.next(q, c) == q0);
                            } else {
                                assert(pre[k] == old_stack[k]);
                                assert(stack@[k] == old_stack[k]);
                            }
                        }
                    }
                }
                if !reachable@[self.start_spec() as int] {
                    let k = choose|k: int| 0 <= k < pre.len() && (#[trigger] pre[k])@ == self.start_spec();
                    if k < old_stack.len() {
                        assert(pre[k] == old_stack[k]);
                        assert(stack@[k] == old_stack[k]);
                    }
                }
                lemma_count_true_bound(reachable@);
            }
        }
        reachable
    }
}

} // verus!
