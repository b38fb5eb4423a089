use vstd::prelude::*;
use crate::key_index::keys_distinct;
use super::partition::{opens_block, blocks_before, numbered_in_order, label_occurs, lemma_numbered_push};

verus! {

/// `entries` numbers the distinct signatures among the first `ls.len()` of
/// `sigs` in the order in which they first occur, and `ls` labels each of
/// those positions with the number of its signature.
pub open spec fn numbering(entries: Seq<(Seq<usize>, usize)>, ls: Seq<usize>, sigs: Seq<Seq<usize>>) -> bool {
    &&& ls.len() <= sigs.len()
    &&& keys_distinct(entries)
    &&& forall|b: int| 0 <= b < entries.len() ==> (#[trigger] entries[b]).1 == b
    &&& forall|j: int| 0 <= j < ls.len() ==> #[trigger] ls[j] < entries.len() && entries[ls[j] as int].0 == sigs[j]
    &&& forall|b: nat| b < entries.len() ==> #[trigger] label_occurs(ls, ls.len(), b)
    &&& numbered_in_order(ls)
    &&& blocks_before(ls, ls.len()) == entries.len()
}

pub proof fn lemma_numbering_empty(sigs: Seq<Seq<usize>>)
    ensures
        numbering(Seq::empty(), Seq::empty(), sigs),
{
}

/// Labelling the next position with the number of its signature, new or
/// already seen, keeps the numbering.
pub proof fn lemma_numbering_step(
    entries0: Seq<(Seq<usize>, usize)>,
    entries: Seq<(Seq<usize>, usize)>,
    ls: Seq<usize>,
    sigs: Seq<Seq<usize>>,
    block: usize,
)
    requires
        numbering(entries0, ls, sigs),
        ls.len() < sigs.len(),
        ({
            ||| (exists|b: int| 0 <= b < entries0.len() && entries0[b] == (sigs[ls.len() as int], block)) && entries == entries0
            ||| (forall|b: int| 0 <= b < entries0.len() ==> entries0[b].0 != sigs[ls.len() as int]) && block == entries0.len()
                && entries == entries0.push((sigs[ls.len() as int], block))
        }),
    ensures
        numbering(entries, ls.push(block), sigs),
{
    let i = ls.len() as int;
    let ext = ls.push(block);
    let key = sigs[i];
    assert forall|j: int| 0 <= j < i implies #[trigger] ext[j] == ls[j] by {
    }
    if exists|b: int| 0 <= b < entries0.len() && entries0[b] == (key, block) {
        let b = choose|b: int| 0 <= b < entries0.len() && entries0[b] == (key, block);
        assert(entries0[b].1 == b);
        assert(label_occurs(ls, ls.len(), b as nat));
        let j = choose|j: int| 0 <= j < i && #[trigger] ls[j] == b;
        assert(ext[j] == ext[i]);
        assert(!opens_block(ext, i));
        lemma_numbered_push(ls, block);
        assert forall|b2: nat| b2 < entries.len() implies #[trigger] label_occurs(ext, ext.len(), b2) by {
            assert(label_occurs(ls, ls.len(), b2));
            let j2 = choose|j2: int| 0 <= j2 < i && #[trigger] ls[j2] == b2;
            assert(ext[j2] == ls[j2]);
        }
    } else {
        assert(block == entries0.len());
        assert(opens_block(ext, i)) by {
            assert forall|j: int| 0 <= j < i implies #[trigger] ext[j] != ext[i] by {
                assert(ls[j] < entries0.len());
            }
        }
        lemma_numbered_push(ls, block);
        assert forall|b: int| 0 <= b < entries.len() implies (#[trigger] entries[b]).1 == b by {
            if b < entries0.len() {
                assert(entries[b] == entries0[b]);
            }
        }
        assert forall|j: int| 0 <= j < ext.len() implies #[trigger] ext[j] < entries.len()
            && entries[ext[j] as int].0 == sigs[j] by {
            if j < i {
                assert(entries[ls[j] as int] == entries0[ls[j] as int]);
            }
        }
        assert forall|b: nat| b < entries.len() implies #[trigger] label_occurs(ext, ext.len(), b) by {
            if b < entries0.len() {
                assert(label_occurs(ls, ls.len(), b));
                let j = choose|j: int| 0 <= j < i && #[trigger] ls[j] == b;
                assert(ext[j] == ls[j]);
            } else {
                assert(ext[i] == b);
            }
        }
        assert forall|x: int, y: int| 0 <= x < y < entries.len() implies #[trigger] entries[x].0 != #[trigger] entries[y].0 by {
            assert(entries[x] == entries0[x]);
            if y < entries0.len() {
                assert(entries[y] == entries0[y]);
            }
        }
    }
}

/// Once every position is labelled, two positions share a label exactly when
/// they share a signature.
pub proof fn lemma_numbering_labels(entries: Seq<(Seq<usize>, usize)>, ls: Seq<usize>, sigs: Seq<Seq<usize>>)
    requires
        numbering(entries, ls, sigs),
        ls.len() == sigs.len(),
    ensures
        forall|i: int, j: int| 0 <= i < ls.len() && 0 <= j < ls.len() ==> (#[trigger] ls[i] == #[trigger] ls[j] <==> sigs[i] == sigs[j]),
{
    assert forall|i: int, j: int| 0 <= i < ls.len() && 0 <= j < ls.len() implies (#[trigger] ls[i] == #[trigger] ls[j] <==> sigs[i] == sigs[j]) by {
        if sigs[i] == sigs[j] && ls[i] != ls[j] {
            if ls[i] < ls[j] {
                assert(entries[ls[i] as int].0 != entries[ls[j] as int].0);
            } else {
                assert(entries[ls[j] as int].0 != entries[ls[i] as int].0);
            }
        }
    }
}

} // verus!
