use vstd::prelude::*;

verus! {

/// No position before `i` carries the label at `i`: position `i` opens a block.
pub open spec fn opens_block(ls: Seq<usize>, i: int) -> bool {
    forall|j: int| 0 <= j < i ==> #[trigger] ls[j] != ls[i]
}

/// The number of positions before `i` that open a block.
pub open spec fn blocks_before(ls: Seq<usize>, i: nat) -> nat
    decreases i,
{
    if i == 0 {
        0
    } else {
        blocks_before(ls, (i - 1) as nat) + if opens_block(ls, i - 1) {
            1nat
        } else {
            0nat
        }
    }
}

/// Blocks are numbered from zero in the order in which they first occur.
pub open spec fn numbered_in_order(ls: Seq<usize>) -> bool {
    forall|i: int| 0 <= i < ls.len() && #[trigger] opens_block(ls, i) ==> ls[i] == blocks_before(ls, i as nat)
}

/// Positions that share a label in `a` share one in `b`.
pub open spec fn refines(a: Seq<usize>, b: Seq<usize>) -> bool {
    &&& a.len() == b.len()
    &&& forall|i: int, j: int|
        #![trigger b[i], b[j]]
        0 <= i < a.len() && 0 <= j < a.len() && a[i] == a[j] ==> b[i] == b[j]
}

pub proof fn lemma_blocks_before_bound(ls: Seq<usize>, i: nat)
    ensures
        blocks_before(ls, i) <= i,
    decreases i,
{
    if i > 0 {
        lemma_blocks_before_bound(ls, (i - 1) as nat);
    }
}

/// Counting blocks before `i` looks at the first `i` labels only.
pub proof fn lemma_blocks_before_prefix(a: Seq<usize>, b: Seq<usize>, i: nat)
    requires
        i <= a.len(),
        i <= b.len(),
        forall|j: int| 0 <= j < i ==> a[j] == b[j],
    ensures
        blocks_before(a, i) == blocks_before(b, i),
        forall|k: int| 0 <= k < i ==> opens_block(a, k) == opens_block(b, k),
    decreases i,
{
    if i > 0 {
        lemma_blocks_before_prefix(a, b, (i - 1) as nat);
        let k = i - 1;
        assert(opens_block(a, k) == opens_block(b, k)) by {
            if opens_block(a, k) {
                assert forall|j: int| 0 <= j < k implies #[trigger] b[j] != b[k] by {
                    assert(a[j] != a[k]);
                }
            }
            if opens_block(b, k) {
                assert forall|j: int| 0 <= j < k implies #[trigger] a[j] != a[k] by {
                    assert(b[j] != b[k]);
                }
            }
        }
    }
}

/// Extending the labels keeps the numbering of the earlier positions; the new
/// position keeps the order when it opens a block with the next number.
pub proof fn lemma_numbered_push(ls: Seq<usize>, v: usize)
    requires
        numbered_in_order(ls),
        opens_block(ls.push(v), ls.len() as int) ==> v == blocks_before(ls, ls.len()),
    ensures
        numbered_in_order(ls.push(v)),
        blocks_before(ls.push(v), ls.len()) == blocks_before(ls, ls.len()),
{
    let ext = ls.push(v);
    lemma_blocks_before_prefix(ls, ext, ls.len());
    assert forall|i: int| 0 <= i < ext.len() && #[trigger] opens_block(ext, i) implies ext[i] == blocks_before(ext, i as nat) by {
        if i < ls.len() {
            lemma_blocks_before_prefix(ls, ext, i as nat);
            assert(opens_block(ls, i));
        }
    }
}

/// A label that occurs earlier occurs first at a position that opens a block.
pub proof fn lemma_first_occurrence(ls: Seq<usize>, x: int) -> (k: int)
    requires
        0 <= x < ls.len(),
    ensures
        0 <= k <= x,
        ls[k] == ls[x],
        opens_block(ls, k),
    decreases x,
{
    if opens_block(ls, x) {
        x
    } else {
        let j = choose|j: int| 0 <= j < x && #[trigger] ls[j] == ls[x];
        lemma_first_occurrence(ls, j)
    }
}

/// Some position before `i` carries label `v`.
pub open spec fn label_occurs(ls: Seq<usize>, i: nat, v: nat) -> bool {
    exists|j: int| 0 <= j < i && #[trigger] ls[j] == v
}

/// Labels numbered in order use exactly the numbers below the block count.
pub proof fn lemma_numbered_labels(ls: Seq<usize>, i: nat)
    requires
        numbered_in_order(ls),
        i <= ls.len(),
    ensures
        forall|j: int| 0 <= j < i ==> #[trigger] ls[j] < blocks_before(ls, i),
        forall|v: nat| v < blocks_before(ls, i) ==> #[trigger] label_occurs(ls, i, v),
    decreases i,
{
    if i > 0 {
        let k = i - 1;
        lemma_numbered_labels(ls, k as nat);
        if !opens_block(ls, k) {
            let j = choose|j: int| 0 <= j < k && #[trigger] ls[j] == ls[k];
            assert forall|v: nat| v < blocks_before(ls, i) implies #[trigger] label_occurs(ls, i, v) by {
                assert(label_occurs(ls, k as nat, v));
                let j = choose|j: int| 0 <= j < k && #[trigger] ls[j] == v;
            }
        } else {
            assert(opens_block(ls, k));
            assert(ls[k] == blocks_before(ls, k as nat));
            assert forall|v: nat| v < blocks_before(ls, i) implies #[trigger] label_occurs(ls, i, v) by {
                if v == ls[k] {
                    assert(ls[k] == v);
                } else {
                    assert(label_occurs(ls, k as nat, v));
                    let j = choose|j: int| 0 <= j < k && #[trigger] ls[j] == v;
                }
            }
        }
    }
}

/// Labels that share blocks at the same positions count the same blocks, and
/// numbered in order they are the same labels.
pub proof fn lemma_same_blocks(a: Seq<usize>, b: Seq<usize>, i: nat)
    requires
        refines(a, b),
        refines(b, a),
        i <= a.len(),
    ensures
        blocks_before(a, i) == blocks_before(b, i),
        numbered_in_order(a) && numbered_in_order(b) ==> forall|j: int| 0 <= j < i ==> #[trigger] a[j] == b[j],
    decreases i,
{
    if i > 0 {
        let k = i - 1;
        lemma_same_blocks(a, b, k as nat);
        assert(opens_block(a, k) == opens_block(b, k)) by {
            if opens_block(a, k) {
                assert forall|j: int| 0 <= j < k implies #[trigger] b[j] != b[k] by {
                    assert(a[j] != a[k]);
                }
            }
            if opens_block(b, k) {
                assert forall|j: int| 0 <= j < k implies #[trigger] a[j] != a[k] by {
                    assert(b[j] != b[k]);
                }
            }
        }
        if numbered_in_order(a) && numbered_in_order(b) {
            if !opens_block(a, k) {
                let j = choose|j: int| 0 <= j < k && #[trigger] a[j] == a[k];
                assert(b[j] == b[k]);
                assert(a[j] == b[j]);
            }
        }
    }
}

proof fn lemma_refined_count(a: Seq<usize>, b: Seq<usize>, split: int, i: nat)
    requires
        refines(a, b),
        i <= a.len(),
        0 <= split < a.len(),
        split_point(a, b, split),
    ensures
        blocks_before(a, i) >= blocks_before(b, i) + if split < i {
            1int
        } else {
            0int
        },
    decreases i,
{
    if i > 0 {
        let k = i - 1;
        lemma_refined_count(a, b, split, k as nat);
        if opens_block(b, k) {
            assert forall|j: int| 0 <= j < k implies #[trigger] a[j] != a[k] by {
                if a[j] == a[k] {
                    assert(b[j] == b[k]);
                }
            }
        }
    }
}

/// Position `split` opens a block of `a` but not of `b`.
spec fn split_point(a: Seq<usize>, b: Seq<usize>, split: int) -> bool {
    opens_block(a, split) && !opens_block(b, split)
}

/// Refining labels count at least as many blocks, and more where they part two
/// positions that share a coarser block.
pub proof fn lemma_refined_blocks(a: Seq<usize>, b: Seq<usize>)
    requires
        refines(a, b),
    ensures
        blocks_before(a, a.len()) >= blocks_before(b, b.len()),
        !refines(b, a) ==> blocks_before(a, a.len()) > blocks_before(b, b.len()),
{
    if !refines(b, a) {
        let (i, j) = choose|i: int, j: int|
            0 <= i < a.len() && 0 <= j < a.len() && b[i] == b[j] && a[i] != a[j];
        let fi = lemma_first_occurrence(a, i);
        let fj = lemma_first_occurrence(a, j);
        assert(b[fi] == b[i]);
        assert(b[fj] == b[j]);
        let lo = if fi < fj { fi } else { fj };
        let hi = if fi < fj { fj } else { fi };
        assert(fi != fj);
        assert(b[lo] == b[hi]);
        assert(!opens_block(b, hi));
        assert(split_point(a, b, hi));
        lemma_refined_count(a, b, hi, a.len());
    } else {
        lemma_refined_count_weak(a, b, a.len());
    }
}

proof fn lemma_refined_count_weak(a: Seq<usize>, b: Seq<usize>, i: nat)
    requires
        refines(a, b),
        i <= a.len(),
    ensures
        blocks_before(a, i) >= blocks_before(b, i),
    decreases i,
{
    if i > 0 {
        let k = i - 1;
        lemma_refined_count_weak(a, b, k as nat);
        if opens_block(b, k) {
            assert forall|j: int| 0 <= j < k implies #[trigger] a[j] != a[k] by {
                if a[j] == a[k] {
                    assert(b[j] == b[k]);
                }
            }
        }
    }
}

} // verus!
