use vstd::prelude::*;
use crate::symbol::{SymbolCode, covers, range_lookup, listed, coalesced};

verus! {

/// The ranges of `rs` are nonempty, and each starts after the previous one ends.
pub open spec fn spans_sorted<S: SymbolCode, V>(rs: Seq<(S, S, V)>) -> bool {
    &&& forall|i: int| 0 <= i < rs.len() ==> (#[trigger] rs[i]).0.code() <= rs[i].1.code()
    &&& forall|i: int| 0 <= i < rs.len() - 1 ==> (#[trigger] rs[i]).1.code() < rs[i + 1].0.code()
}

/// In sorted ranges, every range ends before every later range starts.
pub proof fn lemma_spans_sorted_far<S: SymbolCode, V>(rs: Seq<(S, S, V)>, i: int, j: int)
    requires
        spans_sorted(rs),
        0 <= i < j < rs.len(),
    ensures
        rs[i].1.code() < rs[j].0.code(),
    decreases j - i,
{
    if j > i + 1 {
        lemma_spans_sorted_far(rs, i, j - 1);
        assert(rs[j - 1].0.code() <= rs[j - 1].1.code());
        assert(rs[j - 1].1.code() < rs[j].0.code());
    }
}

/// In sorted ranges, looking up a symbol that range `k` holds gives that
/// range's value.
pub proof fn lemma_lookup_sorted<S: SymbolCode, V: View>(rs: Seq<(S, S, V)>, k: int, c: S)
    requires
        spans_sorted(rs),
        0 <= k < rs.len(),
        covers(rs[k].0, rs[k].1, c),
    ensures
        range_lookup(rs, c) == Some(rs[k].2@),
    decreases rs.len(),
{
    let last = rs.len() - 1;
    if k < last {
        lemma_spans_sorted_far(rs, k, last);
        let shorter = rs.drop_last();
        assert(spans_sorted(shorter)) by {
            assert forall|i: int| 0 <= i < shorter.len() implies (#[trigger] shorter[i]).0.code() <= shorter[i].1.code() by {
                assert(shorter[i] == rs[i]);
            }
            assert forall|i: int| 0 <= i < shorter.len() - 1 implies (#[trigger] shorter[i]).1.code() < shorter[i + 1].0.code() by {
                assert(shorter[i] == rs[i]);
                assert(shorter[i + 1] == rs[i + 1]);
            }
        }
        assert(shorter[k] == rs[k]);
        lemma_lookup_sorted(shorter, k, c);
    }
}

/// A symbol in range `i` of a listing of `m` maps to the range's value.
pub proof fn lemma_listed_value<S: SymbolCode, V: View>(rs: Seq<(S, S, V)>, m: Map<S, V::V>, i: int, c: S)
    requires
        listed(rs, m),
        0 <= i < rs.len(),
        covers(rs[i].0, rs[i].1, c),
    ensures
        m.contains_key(c),
        m[c] == rs[i].2@,
{
    assert(forall|i2: int, c2: S|
        0 <= i2 < rs.len() && covers(rs[i2].0, rs[i2].1, c2) ==> #[trigger] m.contains_key(c2)
            && m[c2] == (#[trigger] rs[i2]).2@);
    assert(m.contains_key(c));
}

/// Range `k` of a listing of `m` starts where range `k` of another listing
/// does, when the ranges before it end alike.
proof fn lemma_listing_start<S: SymbolCode, V: View>(a: Seq<(S, S, V)>, b: Seq<(S, S, V)>, m: Map<S, V::V>, k: int)
    requires
        listed(a, m),
        listed(b, m),
        0 <= k < a.len(),
        k <= b.len(),
        k > 0 ==> k - 1 < b.len() && a[k - 1].1.code() == b[k - 1].1.code(),
    ensures
        k < b.len(),
        b[k].0.code() <= a[k].0.code(),
{
    let x = a[k].0;
    assert(covers(a[k].0, a[k].1, x));
    assert(m.contains_key(x));
    let j = choose|j: int| 0 <= j < b.len() && covers((#[trigger] b[j]).0, b[j].1, x);
    if j < k {
        assert(spans_sorted(a));
        assert(spans_sorted(b));
        lemma_spans_sorted_far(a, k - 1, k);
        if j < k - 1 {
            lemma_spans_sorted_far(b, j, k - 1);
            assert(b[k - 1].0.code() <= b[k - 1].1.code());
        }
        assert(false);
    }
    if j > k {
        assert(spans_sorted(b));
        lemma_spans_sorted_far(b, k, j);
        assert(b[k].0.code() <= b[k].1.code());
        assert(b[j].0.code() <= x.code());
    }
}

/// Range `k` of a coalesced listing of `m` ends no earlier than range `k` of
/// another listing that starts where it does.
proof fn lemma_listing_end<S: SymbolCode, V: View>(a: Seq<(S, S, V)>, b: Seq<(S, S, V)>, m: Map<S, V::V>, k: int)
    requires
        listed(a, m),
        listed(b, m),
        coalesced(a),
        0 <= k < a.len(),
        k < b.len(),
        a[k].0.code() == b[k].0.code(),
    ensures
        b[k].1.code() <= a[k].1.code(),
{
    assert(spans_sorted(a));
    assert(spans_sorted(b));
    if a[k].1.code() < b[k].1.code() {
        let d = b[k].1;
        assert(covers(b[k].0, b[k].1, d));
        lemma_listed_value(b, m, k, d);
        let j = choose|j: int| 0 <= j < a.len() && covers((#[trigger] a[j]).0, a[j].1, d);
        if j < k {
            lemma_spans_sorted_far(a, j, k);
        }
        assert(j > k);
        if j > k + 1 {
            lemma_spans_sorted_far(a, k + 1, j);
            assert(a[k + 1].0.code() <= a[k + 1].1.code());
        }
        let e = a[k + 1].0;
        assert(a[k].1.code() < e.code() <= d.code());
        assert(covers(b[k].0, b[k].1, e));
        lemma_listed_value(b, m, k, e);
        assert(covers(a[k + 1].0, a[k + 1].1, e));
        lemma_listed_value(a, m, k + 1, e);
        let d0 = a[k].0;
        assert(covers(a[k].0, a[k].1, d0));
        assert(covers(b[k].0, b[k].1, d0));
        lemma_listed_value(a, m, k, d0);
        lemma_listed_value(b, m, k, d0);
        assert(a[k].2@ == a[k + 1].2@);
        let c = choose|c: S| a[k].1.code() < #[trigger] c.code() < a[k + 1].0.code();
        assert(covers(b[k].0, b[k].1, c));
        lemma_listed_value(b, m, k, c);
        let j2 = choose|j2: int| 0 <= j2 < a.len() && covers((#[trigger] a[j2]).0, a[j2].1, c);
        if j2 < k {
            lemma_spans_sorted_far(a, j2, k);
        }
        if j2 > k + 1 {
            lemma_spans_sorted_far(a, k + 1, j2);
            assert(a[k + 1].0.code() <= a[k + 1].1.code());
        }
        assert(false);
    }
}

/// Two coalesced listings of one table hold the same ranges with the same
/// values, in the same order.
pub proof fn lemma_listing_unique<S: SymbolCode, V: View>(a: Seq<(S, S, V)>, b: Seq<(S, S, V)>, m: Map<S, V::V>)
    requires
        listed(a, m),
        listed(b, m),
        coalesced(a),
        coalesced(b),
    ensures
        a.len() == b.len(),
        forall|k: int| 0 <= k < a.len() ==> (#[trigger] a[k]).0 == b[k].0 && a[k].1 == b[k].1 && a[k].2@ == b[k].2@,
{
    lemma_listing_prefix(a, b, m, 0);
}

/// The listings agree from range `k` on, once they agree before it.
proof fn lemma_listing_prefix<S: SymbolCode, V: View>(a: Seq<(S, S, V)>, b: Seq<(S, S, V)>, m: Map<S, V::V>, k: int)
    requires
        listed(a, m),
        listed(b, m),
        coalesced(a),
        coalesced(b),
        0 <= k <= a.len(),
        k <= b.len(),
        k > 0 ==> a[k - 1].1.code() == b[k - 1].1.code(),
    ensures
        a.len() == b.len(),
        forall|j: int| k <= j < a.len() ==> (#[trigger] a[j]).0 == b[j].0 && a[j].1 == b[j].1 && a[j].2@ == b[j].2@,
    decreases a.len() + b.len() - 2 * k,
{
    if k < a.len() {
        lemma_listing_start(a, b, m, k);
        lemma_listing_start(b, a, m, k);
        lemma_listing_end(a, b, m, k);
        lemma_listing_end(b, a, m, k);
        S::lemma_code_injective(a[k].0, b[k].0);
        S::lemma_code_injective(a[k].1, b[k].1);
        let x = a[k].0;
        assert(covers(a[k].0, a[k].1, x));
        assert(covers(b[k].0, b[k].1, x));
        lemma_listed_value(a, m, k, x);
        lemma_listed_value(b, m, k, x);
        lemma_listing_prefix(a, b, m, k + 1);
    } else if k < b.len() {
        lemma_listing_start(b, a, m, k);
    }
}

} // verus!
