use vstd::prelude::*;
use crate::state::StateId;
use crate::symbol::SymbolCode;

verus! {

/// 1 for an accepting state, 0 for a rejecting one.
pub open spec fn kind_flag(accepting: bool) -> usize {
    if accepting {
        1
    } else {
        0
    }
}

/// What the ranges `rs` add to a signature under the block labels `ls`: for
/// each range, the codes of its first and last symbols and the block of its
/// target.
pub open spec fn ranges_key<S: SymbolCode>(rs: Seq<(S, S, StateId)>, ls: Seq<usize>) -> Seq<usize>
    decreases rs.len(),
{
    if rs.len() == 0 {
        Seq::empty()
    } else {
        ranges_key(rs.drop_last(), ls) + seq![
            rs.last().0.code() as usize,
            rs.last().1.code() as usize,
            ls[rs.last().2@ as int],
        ]
    }
}

/// The signature of a state that accepts or not and has the transition
/// ranges `rs`, under the block labels `ls`.
pub open spec fn signature<S: SymbolCode>(accepting: bool, rs: Seq<(S, S, StateId)>, ls: Seq<usize>) -> Seq<usize> {
    seq![kind_flag(accepting)] + ranges_key(rs, ls)
}

/// Two lists of ranges have the same bounds and targets in the same blocks.
pub open spec fn same_ranges<S: SymbolCode>(a: Seq<(S, S, StateId)>, b: Seq<(S, S, StateId)>, ls: Seq<usize>) -> bool {
    &&& a.len() == b.len()
    &&& forall|k: int| 0 <= k < a.len() ==> (#[trigger] a[k]).0.code() == (#[trigger] b[k]).0.code()
        && a[k].1.code() == b[k].1.code() && ls[a[k].2@ as int] == ls[b[k].2@ as int]
}

proof fn lemma_ranges_key_entries<S: SymbolCode>(rs: Seq<(S, S, StateId)>, ls: Seq<usize>)
    ensures
        ranges_key(rs, ls).len() == 3 * rs.len(),
        forall|k: int| #![trigger rs[k]] 0 <= k < rs.len() ==> {
            &&& ranges_key(rs, ls)[3 * k] as int == rs[k].0.code()
            &&& ranges_key(rs, ls)[3 * k + 1] as int == rs[k].1.code()
            &&& ranges_key(rs, ls)[3 * k + 2] == ls[rs[k].2@ as int]
        },
    decreases rs.len(),
{
    if rs.len() > 0 {
        let init = rs.drop_last();
        lemma_ranges_key_entries(init, ls);
        S::lemma_code_bounded(rs.last().0);
        S::lemma_code_bounded(rs.last().1);
        let key = ranges_key(rs, ls);
        assert forall|k: int| #![trigger rs[k]] 0 <= k < rs.len() implies {
            &&& key[3 * k] as int == rs[k].0.code()
            &&& key[3 * k + 1] as int == rs[k].1.code()
            &&& key[3 * k + 2] == ls[rs[k].2@ as int]
        } by {
            if k < init.len() {
                assert(init[k] == rs[k]);
            }
        }
    }
}

proof fn lemma_ranges_key_labels<S: SymbolCode>(rs: Seq<(S, S, StateId)>, a: Seq<usize>, b: Seq<usize>)
    requires
        forall|k: int| 0 <= k < rs.len() ==> a[(#[trigger] rs[k]).2@ as int] == b[rs[k].2@ as int],
    ensures
        ranges_key(rs, a) == ranges_key(rs, b),
    decreases rs.len(),
{
    if rs.len() > 0 {
        let init = rs.drop_last();
        assert forall|k: int| 0 <= k < init.len() implies a[(#[trigger] init[k]).2@ as int] == b[init[k].2@ as int] by {
            assert(init[k] == rs[k]);
        }
        lemma_ranges_key_labels(init, a, b);
        assert(a[rs[rs.len() - 1].2@ as int] == b[rs[rs.len() - 1].2@ as int]);
    }
}

/// A signature reads the labels only at the targets of the ranges.
pub proof fn lemma_signature_labels<S: SymbolCode>(accepting: bool, rs: Seq<(S, S, StateId)>, a: Seq<usize>, b: Seq<usize>)
    requires
        forall|k: int| 0 <= k < rs.len() ==> a[(#[trigger] rs[k]).2@ as int] == b[rs[k].2@ as int],
    ensures
        signature(accepting, rs, a) == signature(accepting, rs, b),
{
    lemma_ranges_key_labels(rs, a, b);
}

/// Signatures are equal exactly when the acceptance agrees and the ranges
/// have the same bounds and targets in the same blocks.
pub proof fn lemma_signature_eq<S: SymbolCode>(
    acc_a: bool,
    a: Seq<(S, S, StateId)>,
    acc_b: bool,
    b: Seq<(S, S, StateId)>,
    ls: Seq<usize>,
)
    ensures
        signature(acc_a, a, ls) == signature(acc_b, b, ls) <==> (acc_a == acc_b && same_ranges(a, b, ls)),
{
    let ka = signature(acc_a, a, ls);
    let kb = signature(acc_b, b, ls);
    lemma_ranges_key_entries(a, ls);
    lemma_ranges_key_entries(b, ls);
    let ra = ranges_key(a, ls);
    let rb = ranges_key(b, ls);
    if ka == kb {
        assert(ka[0] == kb[0]);
        assert(ka.len() == kb.len());
        assert forall|k: int| 0 <= k < a.len() implies (#[trigger] a[k]).0.code() == (#[trigger] b[k]).0.code()
            && a[k].1.code() == b[k].1.code() && ls[a[k].2@ as int] == ls[b[k].2@ as int] by {
            assert(ka[1 + 3 * k] == ra[3 * k]);
            assert(kb[1 + 3 * k] == rb[3 * k]);
            assert(ka[1 + 3 * k + 1] == ra[3 * k + 1]);
            assert(kb[1 + 3 * k + 1] == rb[3 * k + 1]);
            assert(ka[1 + 3 * k + 2] == ra[3 * k + 2]);
            assert(kb[1 + 3 * k + 2] == rb[3 * k + 2]);
        }
    }
    if acc_a == acc_b && same_ranges(a, b, ls) {
        assert(ra =~= rb) by {
            assert forall|x: int| 0 <= x < ra.len() implies ra[x] == rb[x] by {
                let k = x / 3;
                let r = x % 3;
                assert(x == 3 * k + r);
                assert(a[k].0.code() == b[k].0.code());
            }
        }
        assert(ka =~= kb);
    }
}

} // verus!
