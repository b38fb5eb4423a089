use vstd::prelude::*;
use vstd::utf8::{valid_utf8, decode_utf8, encode_utf8, encode_utf8_valid_utf8, encode_utf8_decode_utf8};
use crate::dfa::Dfa;
use crate::symbol::Symbol;

verus! {

/// The two automata accept the same words.
pub open spec fn same_language<S: Symbol>(a: &Dfa<S>, b: &Dfa<S>) -> bool {
    forall|w: Seq<S>| #[trigger] a.accepts(w) == b.accepts(w)
}

/// Complementing twice gives back the words accepted at first.
pub proof fn lemma_complement_twice<S: Symbol>(a: &Dfa<S>, c: &Dfa<S>, cc: &Dfa<S>)
    requires
        forall|w: Seq<S>| #[trigger] c.accepts(w) == !a.accepts(w),
        forall|w: Seq<S>| #[trigger] cc.accepts(w) == !c.accepts(w),
    ensures
        same_language(cc, a),
{
    assert forall|w: Seq<S>| #[trigger] cc.accepts(w) == a.accepts(w) by {
        assert(c.accepts(w) == !a.accepts(w));
    }
}

/// The complement of a union accepts what the intersection of the
/// complements accepts.
pub proof fn lemma_complement_of_union<S: Symbol>(
    a: &Dfa<S>,
    b: &Dfa<S>,
    u: &Dfa<S>,
    not_u: &Dfa<S>,
    not_a: &Dfa<S>,
    not_b: &Dfa<S>,
    both_not: &Dfa<S>,
)
    requires
        forall|w: Seq<S>| #[trigger] u.accepts(w) == (a.accepts(w) || b.accepts(w)),
        forall|w: Seq<S>| #[trigger] not_u.accepts(w) == !u.accepts(w),
        forall|w: Seq<S>| #[trigger] not_a.accepts(w) == !a.accepts(w),
        forall|w: Seq<S>| #[trigger] not_b.accepts(w) == !b.accepts(w),
        forall|w: Seq<S>| #[trigger] both_not.accepts(w) == (not_a.accepts(w) && not_b.accepts(w)),
    ensures
        same_language(not_u, both_not),
{
    assert forall|w: Seq<S>| #[trigger] not_u.accepts(w) == both_not.accepts(w) by {
        assert(u.accepts(w) == (a.accepts(w) || b.accepts(w)));
        assert(not_a.accepts(w) == !a.accepts(w));
        assert(not_b.accepts(w) == !b.accepts(w));
    }
}

/// An automaton and its complement accept no word in common.
pub proof fn lemma_intersection_with_complement<S: Symbol>(a: &Dfa<S>, not_a: &Dfa<S>, both: &Dfa<S>)
    requires
        forall|w: Seq<S>| #[trigger] not_a.accepts(w) == !a.accepts(w),
        forall|w: Seq<S>| #[trigger] both.accepts(w) == (a.accepts(w) && not_a.accepts(w)),
    ensures
        forall|w: Seq<S>| !#[trigger] both.accepts(w),
{
    assert forall|w: Seq<S>| !#[trigger] both.accepts(w) by {
        assert(not_a.accepts(w) == !a.accepts(w));
    }
}

/// Union does not depend on the order of its operands.
pub proof fn lemma_union_commutes<S: Symbol>(a: &Dfa<S>, b: &Dfa<S>, ab: &Dfa<S>, ba: &Dfa<S>)
    requires
        forall|w: Seq<S>| #[trigger] ab.accepts(w) == (a.accepts(w) || b.accepts(w)),
        forall|w: Seq<S>| #[trigger] ba.accepts(w) == (b.accepts(w) || a.accepts(w)),
    ensures
        same_language(ab, ba),
{
    assert forall|w: Seq<S>| #[trigger] ab.accepts(w) == ba.accepts(w) by {
        assert(ab.accepts(w) == (a.accepts(w) || b.accepts(w)));
        assert(ba.accepts(w) == (b.accepts(w) || a.accepts(w)));
    }
}

/// An optional automaton accepts what the union of the empty word's
/// automaton and the automaton accepts.
pub proof fn lemma_optional_is_union_with_epsilon<S: Symbol>(a: &Dfa<S>, opt: &Dfa<S>, eps: &Dfa<S>, u: &Dfa<S>)
    requires
        forall|w: Seq<S>| #[trigger] opt.accepts(w) == (w.len() == 0 || a.accepts(w)),
        forall|w: Seq<S>| #[trigger] eps.accepts(w) <==> w.len() == 0,
        forall|w: Seq<S>| #[trigger] u.accepts(w) == (eps.accepts(w) || a.accepts(w)),
    ensures
        same_language(opt, u),
{
    assert forall|w: Seq<S>| #[trigger] opt.accepts(w) == u.accepts(w) by {
        assert(eps.accepts(w) <==> w.len() == 0);
        assert(u.accepts(w) == (eps.accepts(w) || a.accepts(w)));
    }
}

/// One or more repetitions of an automaton's words are one of its words
/// followed by the star of the automaton.
pub proof fn lemma_plus_is_concat_with_star<S: Symbol>(a: &Dfa<S>, plus: &Dfa<S>, star: &Dfa<S>, c: &Dfa<S>)
    requires
        forall|w: Seq<S>| #[trigger] plus.accepts(w) == exists|i: int|
            0 <= i <= w.len() && a.accepts(w.take(i)) && a.in_star(#[trigger] w.skip(i)),
        forall|w: Seq<S>| #[trigger] star.accepts(w) == a.in_star(w),
        forall|w: Seq<S>| #[trigger] c.accepts(w) == a.concat_accepts(star, w),
    ensures
        same_language(plus, c),
{
    assert forall|w: Seq<S>| #[trigger] plus.accepts(w) == c.accepts(w) by {
        if plus.accepts(w) {
            let i = choose|i: int| 0 <= i <= w.len() && a.accepts(w.take(i)) && a.in_star(#[trigger] w.skip(i));
            assert(star.accepts(w.skip(i)));
            assert(a.concat_accepts(star, w));
        }
        if c.accepts(w) {
            assert(a.concat_accepts(star, w));
            let i = choose|i: int| 0 <= i <= w.len() && a.accepts(w.take(i)) && star.accepts(#[trigger] w.skip(i));
            assert(a.in_star(w.skip(i)));
        }
    }
}

/// `w` is the concatenation of the words of `u`, each accepted by `a`.
pub open spec fn concatenation_of_accepted<S: Symbol>(a: &Dfa<S>, u: Seq<Seq<S>>, w: Seq<S>) -> bool {
    &&& u.flatten() == w
    &&& forall|j: int| 0 <= j < u.len() ==> a.accepts(#[trigger] u[j])
}

proof fn lemma_in_star_splits<S: Symbol>(a: &Dfa<S>, w: Seq<S>)
    requires
        a.in_star(w),
    ensures
        exists|u: Seq<Seq<S>>| concatenation_of_accepted(a, u, w),
    decreases w.len(),
{
    if w.len() == 0 {
        let u = Seq::<Seq<S>>::empty();
        assert(u.flatten() =~= w);
        assert(concatenation_of_accepted(a, u, w));
    } else {
        let i = choose|i: int| 0 <= i < w.len() && a.in_star(#[trigger] w.take(i)) && a.accepts(w.skip(i));
        lemma_in_star_splits(a, w.take(i));
        let u0 = choose|u: Seq<Seq<S>>| concatenation_of_accepted(a, u, w.take(i));
        let u = u0.push(w.skip(i));
        u0.lemma_flatten_and_flatten_alt_are_equivalent();
        u.lemma_flatten_and_flatten_alt_are_equivalent();
        assert(u.drop_last() =~= u0);
        assert(u.flatten() =~= w);
        assert forall|j: int| 0 <= j < u.len() implies a.accepts(#[trigger] u[j]) by {
            if j < u0.len() {
                assert(u[j] == u0[j]);
            }
        }
        assert(concatenation_of_accepted(a, u, w));
    }
}

proof fn lemma_concatenation_in_star<S: Symbol>(a: &Dfa<S>, u: Seq<Seq<S>>)
    requires
        forall|j: int| 0 <= j < u.len() ==> a.accepts(#[trigger] u[j]),
    ensures
        a.in_star(u.flatten()),
    decreases u.len(),
{
    if u.len() > 0 {
        let u0 = u.drop_last();
        let x = u.last();
        assert forall|j: int| 0 <= j < u0.len() implies a.accepts(#[trigger] u0[j]) by {
            assert(u0[j] == u[j]);
        }
        lemma_concatenation_in_star(a, u0);
        u0.lemma_flatten_and_flatten_alt_are_equivalent();
        u.lemma_flatten_and_flatten_alt_are_equivalent();
        let w = u.flatten();
        assert(w =~= u0.flatten() + x);
        assert(a.accepts(u[u.len() - 1]));
        if x.len() == 0 {
            assert(w =~= u0.flatten());
        } else {
            let i = u0.flatten().len() as int;
            assert(w.take(i) =~= u0.flatten());
            assert(w.skip(i) =~= x);
            assert(a.in_star(w.take(i)) && a.accepts(w.skip(i)));
        }
    } else {
        assert(u.flatten().len() == 0);
    }
}

/// The star of an automaton accepts exactly the concatenations of lists of
/// words that the automaton accepts.
pub proof fn lemma_star_is_concatenation_of_words<S: Symbol>(a: &Dfa<S>, star: &Dfa<S>)
    requires
        forall|w: Seq<S>| #[trigger] star.accepts(w) == a.in_star(w),
    ensures
        forall|w: Seq<S>| #[trigger] star.accepts(w) <==> exists|u: Seq<Seq<S>>| concatenation_of_accepted(a, u, w),
{
    assert forall|w: Seq<S>| #[trigger] star.accepts(w) <==> exists|u: Seq<Seq<S>>| concatenation_of_accepted(a, u, w) by {
        if star.accepts(w) {
            lemma_in_star_splits(a, w);
        }
        if exists|u: Seq<Seq<S>>| concatenation_of_accepted(a, u, w) {
            let u = choose|u: Seq<Seq<S>>| concatenation_of_accepted(a, u, w);
            lemma_concatenation_in_star(a, u);
        }
    }
}

proof fn lemma_in_star_append<S: Symbol>(a: &Dfa<S>, x: Seq<S>, y: Seq<S>)
    requires
        a.in_star(x),
        a.in_star(y),
    ensures
        a.in_star(x + y),
    decreases y.len(),
{
    if y.len() == 0 {
        assert(x + y =~= x);
    } else {
        let j = choose|j: int| 0 <= j < y.len() && a.in_star(#[trigger] y.take(j)) && a.accepts(y.skip(j));
        lemma_in_star_append(a, x, y.take(j));
        let w = x + y;
        let i = x.len() + j;
        assert(w.take(i) =~= x + y.take(j));
        assert(w.skip(i) =~= y.skip(j));
        assert(a.in_star(w.take(i)) && a.accepts(w.skip(i)));
    }
}

proof fn lemma_in_star_of_star<S: Symbol>(a: &Dfa<S>, star: &Dfa<S>, w: Seq<S>)
    requires
        forall|v: Seq<S>| #[trigger] star.accepts(v) == a.in_star(v),
        star.in_star(w),
    ensures
        a.in_star(w),
    decreases w.len(),
{
    if w.len() > 0 {
        let i = choose|i: int| 0 <= i < w.len() && star.in_star(#[trigger] w.take(i)) && star.accepts(w.skip(i));
        lemma_in_star_of_star(a, star, w.take(i));
        lemma_in_star_append(a, w.take(i), w.skip(i));
        assert(w.take(i) + w.skip(i) =~= w);
    }
}

/// Taking the star twice gives the words of the first star.
pub proof fn lemma_star_twice<S: Symbol>(a: &Dfa<S>, star: &Dfa<S>, star2: &Dfa<S>)
    requires
        forall|w: Seq<S>| #[trigger] star.accepts(w) == a.in_star(w),
        forall|w: Seq<S>| #[trigger] star2.accepts(w) == star.in_star(w),
    ensures
        same_language(star2, star),
{
    assert forall|w: Seq<S>| #[trigger] star2.accepts(w) == star.accepts(w) by {
        if star2.accepts(w) {
            lemma_in_star_of_star(a, star, w);
        }
        if star.accepts(w) && w.len() > 0 {
            assert(w.take(0).len() == 0);
            assert(star.in_star(w.take(0)));
            assert(w.skip(0) =~= w);
        }
    }
}

/// The star of an automaton that accepts nothing accepts the empty word
/// alone.
pub proof fn lemma_star_of_empty<S: Symbol>(e: &Dfa<S>, star: &Dfa<S>)
    requires
        forall|w: Seq<S>| !#[trigger] e.accepts(w),
        forall|w: Seq<S>| #[trigger] star.accepts(w) == e.in_star(w),
    ensures
        forall|w: Seq<S>| #[trigger] star.accepts(w) <==> w.len() == 0,
{
    assert forall|w: Seq<S>| #[trigger] star.accepts(w) <==> w.len() == 0 by {
        if w.len() > 0 && e.in_star(w) {
            let i = choose|i: int| 0 <= i < w.len() && e.in_star(#[trigger] w.take(i)) && e.accepts(w.skip(i));
        }
    }
}

/// The star of an automaton that accepts the empty word alone accepts the
/// empty word alone.
pub proof fn lemma_star_of_epsilon<S: Symbol>(eps: &Dfa<S>, star: &Dfa<S>)
    requires
        forall|w: Seq<S>| #[trigger] eps.accepts(w) <==> w.len() == 0,
        forall|w: Seq<S>| #[trigger] star.accepts(w) == eps.in_star(w),
    ensures
        forall|w: Seq<S>| #[trigger] star.accepts(w) <==> w.len() == 0,
{
    assert forall|w: Seq<S>| #[trigger] star.accepts(w) <==> w.len() == 0 by {
        if w.len() > 0 && eps.in_star(w) {
            let i = choose|i: int| 0 <= i < w.len() && eps.in_star(#[trigger] w.take(i)) && eps.accepts(w.skip(i));
            assert(w.skip(i).len() > 0);
        }
    }
}

/// The byte automaton of a `char` automaton accepts the UTF-8 encoding of a
/// word exactly when the `char` automaton accepts the word.
pub proof fn lemma_utf8_encoding(d: &Dfa<char>, bytes_dfa: &Dfa<u8>)
    requires
        forall|bytes: Seq<u8>| #[trigger] bytes_dfa.accepts(bytes) == (valid_utf8(bytes) && d.accepts(decode_utf8(bytes))),
    ensures
        forall|w: Seq<char>| #[trigger] bytes_dfa.accepts(encode_utf8(w)) == d.accepts(w),
{
    assert forall|w: Seq<char>| #[trigger] bytes_dfa.accepts(encode_utf8(w)) == d.accepts(w) by {
        encode_utf8_valid_utf8(w);
        encode_utf8_decode_utf8(w);
    }
}

/// Minimizing twice accepts what minimizing once accepts, which is what the
/// automaton accepts.
pub proof fn lemma_minimize_twice<S: Symbol>(a: &Dfa<S>, m: &Dfa<S>, mm: &Dfa<S>)
    requires
        forall|w: Seq<S>| #[trigger] m.accepts(w) == a.accepts(w),
        forall|w: Seq<S>| #[trigger] mm.accepts(w) == m.accepts(w),
        m.num_states() <= a.num_states(),
        mm.num_states() <= m.num_states(),
    ensures
        same_language(mm, a),
        mm.num_states() <= a.num_states(),
{
    assert forall|w: Seq<S>| #[trigger] mm.accepts(w) == a.accepts(w) by {
        assert(m.accepts(w) == a.accepts(w));
    }
}

/// Distinct indices hold distinct pairs, so a pair has one index.
proof fn lemma_pair_index(pairs: Seq<(nat, nat)>, x: nat, y: nat)
    requires
        forall|i: int, j: int| 0 <= i < j < pairs.len() ==> #[trigger] pairs[i] != #[trigger] pairs[j],
        x < pairs.len(),
        y < pairs.len(),
        pairs[x as int] == pairs[y as int],
    ensures
        x == y,
{
    if x < y {
        assert(pairs[x as int] != pairs[y as int]);
    } else if y < x {
        assert(pairs[y as int] != pairs[x as int]);
    }
}

/// In the union of two one-`char` automata over disjoint sets, every word
/// leads to the state of the start pair or of one of the pairs that a first
/// `char` leads to.
proof fn lemma_union_of_char_sets_runs(
    a: &Dfa<char>,
    b: &Dfa<char>,
    u: &Dfa<char>,
    pairs: Seq<(nat, nat)>,
    sa: Set<char>,
    sb: Set<char>,
    i1: nat,
    i2: nat,
    i3: nat,
    w: Seq<char>,
)
    requires
        u.wf(),
        a.one_char_shape(sa),
        b.one_char_shape(sb),
        a.is_product(b, false, u, pairs),
        pairs[i1 as int] == (2nat, 1nat),
        pairs[i2 as int] == (1nat, 2nat),
        pairs[i3 as int] == (1nat, 1nat),
        i1 < pairs.len(),
        i2 < pairs.len(),
        i3 < pairs.len(),
        forall|c: char| !(sa.contains(c) && sb.contains(c)),
    ensures
        u.run(0, w) == 0 || u.run(0, w) == i1 || u.run(0, w) == i2 || u.run(0, w) == i3,
    decreases w.len(),
{
    if w.len() > 0 {
        lemma_union_of_char_sets_runs(a, b, u, pairs, sa, sb, i1, i2, i3, w.drop_last());
        let p = u.run(0, w.drop_last());
        let c = w.last();
        let q = u.next(p, c);
        u.lemma_wf_bounds();
        assert(q < pairs.len());
        assert(pairs[q as int] == (a.next(pairs[p as int].0, c), b.next(pairs[p as int].1, c)));
        if pairs[q as int] == (2nat, 1nat) {
            lemma_pair_index(pairs, q, i1);
        } else if pairs[q as int] == (1nat, 2nat) {
            lemma_pair_index(pairs, q, i2);
        } else {
            lemma_pair_index(pairs, q, i3);
        }
    }
}

/// Minimizing the union of two one-`char` automata over disjoint sets, with
/// a `char` in each set and one in neither, leaves fewer states than the
/// union has: the two accepting pairs lead everywhere alike and merge.
pub proof fn lemma_minimized_union_of_char_sets_shrinks(
    a: &Dfa<char>,
    b: &Dfa<char>,
    u: &Dfa<char>,
    m: &Dfa<char>,
    sa: Set<char>,
    sb: Set<char>,
    ca: char,
    cb: char,
    cz: char,
)
    requires
        u.wf(),
        a.one_char_shape(sa),
        b.one_char_shape(sb),
        sa.contains(ca),
        sb.contains(cb),
        !sa.contains(cz),
        !sb.contains(cz),
        forall|c: char| !(sa.contains(c) && sb.contains(c)),
        exists|pairs: Seq<(nat, nat)>| #[trigger] a.is_product(b, false, u, pairs),
        forall|q: nat| q < m.num_states() ==> #[trigger] m.reaches(q),
        forall|w1: Seq<char>, w2: Seq<char>|
            #![trigger m.run(m.start_spec(), w1), m.run(m.start_spec(), w2)]
            u.accepting(u.run(u.start_spec(), w1)) == u.accepting(u.run(u.start_spec(), w2))
                && u.table(u.run(u.start_spec(), w1)) == u.table(u.run(u.start_spec(), w2))
                ==> m.run(m.start_spec(), w1) == m.run(m.start_spec(), w2),
    ensures
        m.num_states() < u.num_states(),
{
    let pairs = choose|pairs: Seq<(nat, nat)>| #[trigger] a.is_product(b, false, u, pairs);
    u.lemma_wf_bounds();
    let i1 = u.next(0, ca);
    let i2 = u.next(0, cb);
    let i3 = u.next(0, cz);
    assert(pairs[i1 as int] == (2nat, 1nat));
    assert(pairs[i2 as int] == (1nat, 2nat));
    assert(pairs[i3 as int] == (1nat, 1nat));
    assert(pairs[0] == (0nat, 0nat));
    assert(u.num_states() >= 4) by {
        assert(i1 != 0 && i2 != 0 && i3 != 0 && i1 != i2 && i1 != i3 && i2 != i3);
    }
    let wa = seq![ca];
    let wb = seq![cb];
    let wz = seq![cz];
    let w0 = Seq::<char>::empty();
    assert(wa.drop_last() =~= w0);
    assert(wb.drop_last() =~= w0);
    assert(wz.drop_last() =~= w0);
    assert(wa.last() == ca && wb.last() == cb && wz.last() == cz);
    assert(u.run(0, w0) == 0);
    assert(u.run(0, wa) == i1);
    assert(u.run(0, wb) == i2);
    assert(u.run(0, wz) == i3);
    assert(u.table(i1) =~= u.table(i2)) by {
        assert forall|c: char| u.table(i1).contains_key(c) <==> u.table(i2).contains_key(c) by {}
        assert forall|c: char| u.table(i1).contains_key(c) implies u.table(i1)[c] == u.table(i2)[c] by {
            let x = u.next(i1, c);
            let y = u.next(i2, c);
            assert(pairs[x as int] == (1nat, 1nat));
            assert(pairs[y as int] == (1nat, 1nat));
            lemma_pair_index(pairs, x, y);
        }
    }
    assert(u.accepting(i1) && u.accepting(i2));
    assert(m.run(m.start_spec(), wa) == m.run(m.start_spec(), wb));
    let m0 = m.run(m.start_spec(), w0);
    let m1 = m.run(m.start_spec(), wa);
    let m3 = m.run(m.start_spec(), wz);
    assert forall|q: nat| q < m.num_states() && #[trigger] m.reaches(q) implies q == m0 || q == m1 || q == m3 by {
        let w = choose|w: Seq<char>| #[trigger] m.run(m.start_spec(), w) == q;
        lemma_union_of_char_sets_runs(a, b, u, pairs, sa, sb, i1, i2, i3, w);
        let k = u.run(0, w);
        if k == 0 {
            assert(m.run(m.start_spec(), w) == m.run(m.start_spec(), w0));
        } else if k == i1 {
            assert(m.run(m.start_spec(), w) == m.run(m.start_spec(), wa));
        } else if k == i2 {
            assert(m.run(m.start_spec(), w) == m.run(m.start_spec(), wb));
        } else {
            assert(m.run(m.start_spec(), w) == m.run(m.start_spec(), wz));
        }
    }
    if m.num_states() >= 4 {
        assert(0 < m.num_states() && 1 < m.num_states() && 2 < m.num_states() && 3 < m.num_states());
        let z0: nat = 0;
        let z1: nat = 1;
        let z2: nat = 2;
        let z3: nat = 3;
        assert(m.reaches(z0) && m.reaches(z1) && m.reaches(z2) && m.reaches(z3));
        assert(z0 == m0 || z0 == m1 || z0 == m3);
        assert(z1 == m0 || z1 == m1 || z1 == m3);
        assert(z2 == m0 || z2 == m1 || z2 == m3);
        assert(z3 == m0 || z3 == m1 || z3 == m3);
    }
}

} // verus!
