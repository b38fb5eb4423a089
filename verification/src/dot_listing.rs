use vstd::prelude::*;
use crate::dfa::Dfa;
use crate::symbol::{SymbolCode, listed, covers};
use crate::display::{Edge, range_chars, ranges_to, min_start, full_label, edges_from, edge_list, labelled_edges, dot_text};

verus! {

/// The `char`s that the ranges of `rs` leading to `to` hold.
pub open spec fn chars_to(rs: Seq<(char, char, usize)>, to: nat) -> Set<char> {
    Set::new(|c: char| exists|i: int| 0 <= i < rs.len() && covers((#[trigger] rs[i]).0, rs[i].1, c) && rs[i].2 == to)
}

/// Two edge lists join the same states in the same order, with labels of the
/// same text and the same least `char`.
pub open spec fn edges_agree(a: Seq<Edge>, b: Seq<Edge>) -> bool {
    &&& a.len() == b.len()
    &&& forall|i: int| 0 <= i < a.len() ==> (#[trigger] a[i]).0 == (#[trigger] b[i]).0 && a[i].1 == b[i].1
        && full_label(a[i].2) == full_label(b[i].2) && min_start(a[i].2) == min_start(b[i].2)
}

/// The ranges of `rs` leading to `to` hold the `char`s of `chars_to`, and
/// each is one of the ranges of `rs`.
pub proof fn lemma_ranges_to(rs: Seq<(char, char, usize)>, to: nat)
    ensures
        range_chars(ranges_to(rs, to)) == chars_to(rs, to),
        forall|k: int| 0 <= k < ranges_to(rs, to).len() ==> exists|i: int|
            0 <= i < rs.len() && #[trigger] ranges_to(rs, to)[k] == (rs[i].0, rs[i].1),
    decreases rs.len(),
{
    if rs.len() > 0 {
        let init = rs.drop_last();
        lemma_ranges_to(init, to);
        let last = rs.last();
        let tail: Seq<(char, char)> = if last.2 == to { seq![(last.0, last.1)] } else { Seq::empty() };
        let r = ranges_to(rs, to);
        assert(r == ranges_to(init, to) + tail);
        assert forall|c: char| range_chars(r).contains(c) <==> chars_to(rs, to).contains(c) by {
            if range_chars(r).contains(c) {
                let k = choose|k: int| 0 <= k < r.len() && covers((#[trigger] r[k]).0, r[k].1, c);
                if k < ranges_to(init, to).len() {
                    assert(r[k] == ranges_to(init, to)[k]);
                    assert(range_chars(ranges_to(init, to)).contains(c));
                    let i = choose|i: int| 0 <= i < init.len() && covers((#[trigger] init[i]).0, init[i].1, c) && init[i].2 == to;
                    assert(rs[i] == init[i]);
                } else {
                    assert(covers(rs[rs.len() - 1].0, rs[rs.len() - 1].1, c) && rs[rs.len() - 1].2 == to);
                }
            }
            if chars_to(rs, to).contains(c) {
                let i = choose|i: int| 0 <= i < rs.len() && covers((#[trigger] rs[i]).0, rs[i].1, c) && rs[i].2 == to;
                if i < init.len() {
                    assert(init[i] == rs[i]);
                    assert(chars_to(init, to).contains(c));
                    let k = choose|k: int| 0 <= k < ranges_to(init, to).len() && covers((#[trigger] ranges_to(init, to)[k]).0, ranges_to(init, to)[k].1, c);
                    assert(r[k] == ranges_to(init, to)[k]);
                } else {
                    let k = ranges_to(init, to).len() as int;
                    assert(r[k] == (last.0, last.1));
                }
            }
        }
        assert(range_chars(r) =~= chars_to(rs, to));
        assert forall|k: int| 0 <= k < r.len() implies exists|i: int| 0 <= i < rs.len() && #[trigger] r[k] == (rs[i].0, rs[i].1) by {
            if k < ranges_to(init, to).len() {
                assert(r[k] == ranges_to(init, to)[k]);
                let i = choose|i: int| 0 <= i < init.len() && #[trigger] ranges_to(init, to)[k] == (init[i].0, init[i].1);
                assert(rs[i] == init[i]);
            } else {
                assert(r[k] == (rs[rs.len() - 1].0, rs[rs.len() - 1].1));
            }
        }
    } else {
        assert(range_chars(ranges_to(rs, to)) =~= chars_to(rs, to));
    }
}

/// The least first `char` of nonempty ranges is the least `char` they hold.
pub proof fn lemma_min_start(r: Seq<(char, char)>)
    requires
        r.len() > 0,
        forall|k: int| 0 <= k < r.len() ==> (#[trigger] r[k]).0.code() <= r[k].1.code(),
    ensures
        range_chars(r).contains(min_start(r)),
        forall|c: char| #[trigger] range_chars(r).contains(c) ==> min_start(r).code() <= c.code(),
    decreases r.len(),
{
    let m = min_start(r);
    if r.len() == 1 {
        assert(covers(r[0].0, r[0].1, m));
        assert forall|c: char| #[trigger] range_chars(r).contains(c) implies m.code() <= c.code() by {
            let k = choose|k: int| 0 <= k < r.len() && covers((#[trigger] r[k]).0, r[k].1, c);
        }
    } else {
        let init = r.drop_last();
        assert forall|k: int| 0 <= k < init.len() implies (#[trigger] init[k]).0.code() <= init[k].1.code() by {
            assert(init[k] == r[k]);
        }
        lemma_min_start(init);
        let mi = min_start(init);
        let last = r[r.len() - 1];
        assert(covers(last.0, last.1, last.0));
        let ki = choose|k: int| 0 <= k < init.len() && covers((#[trigger] init[k]).0, init[k].1, mi);
        assert(init[ki] == r[ki]);
        assert(covers(r[ki].0, r[ki].1, mi));
        assert forall|c: char| #[trigger] range_chars(r).contains(c) implies m.code() <= c.code() by {
            let k = choose|k: int| 0 <= k < r.len() && covers((#[trigger] r[k]).0, r[k].1, c);
            if k < init.len() {
                assert(init[k] == r[k]);
                assert(range_chars(init).contains(c));
            }
        }
    }
}

/// Ranges that each are one of `rs`'s nonempty ranges are nonempty.
proof fn lemma_ranges_to_nonempty(rs: Seq<(char, char, usize)>, to: nat)
    requires
        forall|i: int| 0 <= i < rs.len() ==> (#[trigger] rs[i]).0.code() <= rs[i].1.code(),
    ensures
        forall|k: int| 0 <= k < ranges_to(rs, to).len() ==> (#[trigger] ranges_to(rs, to)[k]).0.code()
            <= ranges_to(rs, to)[k].1.code(),
{
    lemma_ranges_to(rs, to);
    assert forall|k: int| 0 <= k < ranges_to(rs, to).len() implies (#[trigger] ranges_to(rs, to)[k]).0.code()
        <= ranges_to(rs, to)[k].1.code() by {
        let i = choose|i: int| 0 <= i < rs.len() && #[trigger] ranges_to(rs, to)[k] == (rs[i].0, rs[i].1);
    }
}

/// Two listings of one table give each target ranges with the same `char`s,
/// the same label text and the same least `char`, and either both or neither
/// lead there.
proof fn lemma_listings_agree(a: Seq<(char, char, usize)>, b: Seq<(char, char, usize)>, m: Map<char, usize>, to: nat)
    requires
        listed(a, m),
        listed(b, m),
    ensures
        range_chars(ranges_to(a, to)) == range_chars(ranges_to(b, to)),
        ranges_to(a, to).len() > 0 <==> ranges_to(b, to).len() > 0,
        full_label(ranges_to(a, to)) == full_label(ranges_to(b, to)),
        ranges_to(a, to).len() > 0 ==> min_start(ranges_to(a, to)) == min_start(ranges_to(b, to)),
{
    lemma_ranges_to(a, to);
    lemma_ranges_to(b, to);
    lemma_chars_to_agree(a, b, m, to);
    let ra = ranges_to(a, to);
    let rb = ranges_to(b, to);
    lemma_ranges_to_nonempty(a, to);
    lemma_ranges_to_nonempty(b, to);
    if ra.len() > 0 {
        lemma_min_start(ra);
    }
    if rb.len() > 0 {
        lemma_min_start(rb);
    }
    if ra.len() > 0 && rb.len() > 0 {
        let x = min_start(ra);
        let y = min_start(rb);
        assert(x.code() <= y.code());
        assert(y.code() <= x.code());
        SymbolCode::lemma_code_injective(x, y);
    }
}

/// A `char` in a listed range maps to the range's target.
proof fn lemma_listed_at(rs: Seq<(char, char, usize)>, m: Map<char, usize>, i: int, c: char)
    requires
        listed(rs, m),
        0 <= i < rs.len(),
        covers(rs[i].0, rs[i].1, c),
    ensures
        m.contains_key(c),
        m[c] == rs[i].2,
{
    assert(forall|i2: int, c2: char|
        0 <= i2 < rs.len() && covers(rs[i2].0, rs[i2].1, c2) ==> #[trigger] m.contains_key(c2)
            && m[c2] == (#[trigger] rs[i2]).2@);
    assert(m.contains_key(c));
}

/// Two listings of one table lead to each target on the same `char`s.
proof fn lemma_chars_to_agree(a: Seq<(char, char, usize)>, b: Seq<(char, char, usize)>, m: Map<char, usize>, to: nat)
    requires
        listed(a, m),
        listed(b, m),
    ensures
        chars_to(a, to) == chars_to(b, to),
{
    assert forall|c: char| chars_to(a, to).contains(c) <==> chars_to(b, to).contains(c) by {
        if chars_to(a, to).contains(c) {
            let i = choose|i: int| 0 <= i < a.len() && covers((#[trigger] a[i]).0, a[i].1, c) && a[i].2 == to;
            lemma_listed_at(a, m, i, c);
            let j = choose|j: int| 0 <= j < b.len() && covers((#[trigger] b[j]).0, b[j].1, c);
            lemma_listed_at(b, m, j, c);
        }
        if chars_to(b, to).contains(c) {
            let i = choose|i: int| 0 <= i < b.len() && covers((#[trigger] b[i]).0, b[i].1, c) && b[i].2 == to;
            lemma_listed_at(b, m, i, c);
            let j = choose|j: int| 0 <= j < a.len() && covers((#[trigger] a[j]).0, a[j].1, c);
            lemma_listed_at(a, m, j, c);
        }
    }
    assert(chars_to(a, to) =~= chars_to(b, to));
}

/// Edge lists that agree piece by piece agree when joined.
proof fn lemma_edges_agree_concat(a1: Seq<Edge>, a2: Seq<Edge>, b1: Seq<Edge>, b2: Seq<Edge>)
    requires
        edges_agree(a1, a2),
        edges_agree(b1, b2),
    ensures
        edges_agree(a1 + b1, a2 + b2),
{
    assert forall|i: int| 0 <= i < (a1 + b1).len() implies (#[trigger] (a1 + b1)[i]).0 == (#[trigger] (a2 + b2)[i]).0
        && (a1 + b1)[i].1 == (a2 + b2)[i].1 && full_label((a1 + b1)[i].2) == full_label((a2 + b2)[i].2)
        && min_start((a1 + b1)[i].2) == min_start((a2 + b2)[i].2) by {
        if i < a1.len() {
            assert((a1 + b1)[i] == a1[i]);
            assert((a2 + b2)[i] == a2[i]);
        } else {
            assert((a1 + b1)[i] == b1[i - a1.len()]);
            assert((a2 + b2)[i] == b2[i - a1.len()]);
        }
    }
}

/// Two listings of one table give agreeing edges from a state.
proof fn lemma_edges_from_agree(a: Seq<(char, char, usize)>, b: Seq<(char, char, usize)>, m: Map<char, usize>, from: nat, to_count: nat)
    requires
        listed(a, m),
        listed(b, m),
    ensures
        edges_agree(edges_from(a, from, to_count), edges_from(b, from, to_count)),
    decreases to_count,
{
    if to_count > 0 {
        let to = (to_count - 1) as nat;
        lemma_edges_from_agree(a, b, m, from, to);
        lemma_listings_agree(a, b, m, to);
        let ta: Seq<Edge> = if ranges_to(a, to).len() > 0 { seq![(from, to, ranges_to(a, to))] } else { Seq::empty() };
        let tb: Seq<Edge> = if ranges_to(b, to).len() > 0 { seq![(from, to, ranges_to(b, to))] } else { Seq::empty() };
        assert(edges_agree(ta, tb));
        lemma_edges_agree_concat(edges_from(a, from, to), edges_from(b, from, to), ta, tb);
    }
}

/// Two listings of the tables of `dfa` give agreeing edge lists.
proof fn lemma_edge_list_agree(dfa: &Dfa<char>, a: Seq<Seq<(char, char, usize)>>, b: Seq<Seq<(char, char, usize)>>, count: nat, n: nat)
    requires
        count <= a.len(),
        a.len() == b.len(),
        forall|q: int| 0 <= q < a.len() ==> listed(#[trigger] a[q], dfa.table(q as nat)),
        forall|q: int| 0 <= q < b.len() ==> listed(#[trigger] b[q], dfa.table(q as nat)),
    ensures
        edges_agree(edge_list(a, count, n), edge_list(b, count, n)),
    decreases count,
{
    if count > 0 {
        let q = count - 1;
        lemma_edge_list_agree(dfa, a, b, (count - 1) as nat, n);
        assert(listed(a[q], dfa.table(q as nat)));
        assert(listed(b[q], dfa.table(q as nat)));
        lemma_edges_from_agree(a[q], b[q], dfa.table(q as nat), q as nat, n);
        lemma_edges_agree_concat(edge_list(a, (count - 1) as nat, n), edge_list(b, (count - 1) as nat, n),
            edges_from(a[q], q as nat, n), edges_from(b[q], q as nat, n));
    }
}

/// Agreeing edge lists give the same edge lines and legend.
proof fn lemma_labelled_edges_agree(a: Seq<Edge>, b: Seq<Edge>)
    requires
        edges_agree(a, b),
    ensures
        labelled_edges(a) == labelled_edges(b),
    decreases a.len(),
{
    if a.len() > 0 {
        let ia = a.drop_last();
        let ib = b.drop_last();
        assert forall|i: int| 0 <= i < ia.len() implies (#[trigger] ia[i]).0 == (#[trigger] ib[i]).0 && ia[i].1 == ib[i].1
            && full_label(ia[i].2) == full_label(ib[i].2) && min_start(ia[i].2) == min_start(ib[i].2) by {
            assert(ia[i] == a[i]);
            assert(ib[i] == b[i]);
        }
        lemma_labelled_edges_agree(ia, ib);
        assert(a.last() == a[a.len() - 1]);
        assert(b.last() == b[b.len() - 1]);
    }
}

/// The Graphviz text of `dfa` is the same from every listing of its tables as
/// increasing ranges.
pub proof fn lemma_dot_text_listing(
    dfa: &Dfa<char>,
    start: nat,
    accepting: Seq<bool>,
    a: Seq<Seq<(char, char, usize)>>,
    b: Seq<Seq<(char, char, usize)>>,
)
    requires
        a.len() == b.len(),
        forall|q: int| 0 <= q < a.len() ==> listed(#[trigger] a[q], dfa.table(q as nat)),
        forall|q: int| 0 <= q < b.len() ==> listed(#[trigger] b[q], dfa.table(q as nat)),
    ensures
        dot_text(start, accepting, a) == dot_text(start, accepting, b),
{
    lemma_edge_list_agree(dfa, a, b, a.len(), a.len());
    lemma_labelled_edges_agree(edge_list(a, a.len(), a.len()), edge_list(b, b.len(), b.len()));
}

} // verus!
