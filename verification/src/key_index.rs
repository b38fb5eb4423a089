use vstd::prelude::*;
use indexmap::IndexMap;
use vstd::arithmetic::div_mod::lemma_fundamental_div_mod_converse;
use vstd::arithmetic::mul::lemma_mul_inequality;
use vstd::set_lib::{set_int_range, lemma_int_range, lemma_len_subset};

verus! {

#[verifier::external_type_specification]
#[verifier::external_body]
#[verifier::reject_recursive_types(K)]
#[verifier::reject_recursive_types(V)]
#[verifier::reject_recursive_types(S)]
pub struct ExIndexMap<K, V, S>(IndexMap<K, V, S>);

/// The entries of an `IndexMap` from keys (integer sequences) to indices, in
/// insertion order.
pub uninterp spec fn key_index_entries(m: IndexMap<Vec<usize>, usize>) -> Seq<(Seq<usize>, usize)>;

/// `IndexMap::new`: no entries.
#[verifier::external_body]
pub(crate) fn key_index_new() -> (m: IndexMap<Vec<usize>, usize>)
    ensures
        key_index_entries(m) == Seq::<(Seq<usize>, usize)>::empty(),
{
    IndexMap::new()
}

/// `IndexMap::len`: the number of entries.
#[verifier::external_body]
pub(crate) fn key_index_len(m: &IndexMap<Vec<usize>, usize>) -> (n: usize)
    ensures
        n == key_index_entries(*m).len(),
{
    m.len()
}

/// `IndexMap::insert`: a key not yet present is appended last with its value;
/// a present key keeps its place and takes the new value.
#[verifier::external_body]
pub(crate) fn key_index_insert(m: &mut IndexMap<Vec<usize>, usize>, key: Vec<usize>, value: usize)
    ensures
        (forall|i: int| 0 <= i < key_index_entries(*old(m)).len() ==> key_index_entries(*old(m))[i].0 != key@)
            ==> key_index_entries(*final(m)) == key_index_entries(*old(m)).push((key@, value)),
        forall|i: int| 0 <= i < key_index_entries(*old(m)).len() && key_index_entries(*old(m))[i].0 == key@
            ==> key_index_entries(*final(m)) == key_index_entries(*old(m)).update(i, (key@, value)),
{
    m.insert(key, value);
}

/// `IndexMap::get`: the value of the entry whose key equals `key`, if any.
#[verifier::external_body]
pub(crate) fn key_index_get(m: &IndexMap<Vec<usize>, usize>, key: &Vec<usize>) -> (r: Option<usize>)
    ensures
        r matches Some(v) ==> exists|i: int|
            0 <= i < key_index_entries(*m).len() && key_index_entries(*m)[i] == (key@, v),
        r is None ==> forall|i: int|
            0 <= i < key_index_entries(*m).len() ==> key_index_entries(*m)[i].0 != key@,
{
    m.get(key).copied()
}

/// `IndexMap::get_index`: the entry at position `i`, if there is one.
#[verifier::external_body]
pub(crate) fn key_index_get_index(m: &IndexMap<Vec<usize>, usize>, i: usize) -> (r: Option<(Vec<usize>, usize)>)
    ensures
        i < key_index_entries(*m).len() <==> r is Some,
        r matches Some(e) ==> e.0@ == key_index_entries(*m)[i as int].0 && e.1 == key_index_entries(*m)[i as int].1,
{
    m.get_index(i).map(|(k, v)| (k.clone(), *v))
}

/// The entries of `k` plus one, read as the digits of a number in base `base`,
/// least significant first.
pub open spec fn key_code(k: Seq<usize>, base: nat) -> nat
    decreases k.len(),
{
    if k.len() == 0 {
        0
    } else {
        ((k[0] + 1) + base * key_code(k.drop_first(), base)) as nat
    }
}

/// `base` to the power `len`.
pub open spec fn key_space(base: nat, len: nat) -> nat
    decreases len,
{
    if len == 0 {
        1
    } else {
        base * key_space(base, (len - 1) as nat)
    }
}

/// Key `k` has at most `max_len` entries, each below `bound`.
pub open spec fn key_bounded(k: Seq<usize>, bound: nat, max_len: nat) -> bool {
    k.len() <= max_len && forall|i: int| 0 <= i < k.len() ==> #[trigger] k[i] < bound
}

/// No two entries share a key.
pub open spec fn keys_distinct(entries: Seq<(Seq<usize>, usize)>) -> bool {
    forall|i: int, j: int| 0 <= i < j < entries.len() ==> #[trigger] entries[i].0 != #[trigger] entries[j].0
}

proof fn lemma_key_code_bound(k: Seq<usize>, bound: nat)
    requires
        forall|i: int| 0 <= i < k.len() ==> #[trigger] k[i] < bound,
    ensures
        key_code(k, bound + 1) < key_space(bound + 1, k.len()),
    decreases k.len(),
{
    if k.len() > 0 {
        let rest = k.drop_first();
        assert forall|i: int| 0 <= i < rest.len() implies #[trigger] rest[i] < bound by {
            assert(rest[i] == k[i + 1]);
        }
        lemma_key_code_bound(rest, bound);
        let r = key_code(rest, bound + 1) as int;
        let sp = key_space(bound + 1, rest.len()) as int;
        lemma_mul_inequality(r + 1, sp, (bound + 1) as int);
        assert((r + 1) * (bound + 1) == r * (bound + 1) + (bound + 1)) by (nonlinear_arith);
        assert(r * (bound + 1) == (bound + 1) * r) by (nonlinear_arith);
        assert(sp * (bound + 1) == (bound + 1) * sp) by (nonlinear_arith);
    }
}

proof fn lemma_key_space_monotone(base: nat, a: nat, b: nat)
    requires
        base >= 1,
        a <= b,
    ensures
        key_space(base, a) <= key_space(base, b),
    decreases b,
{
    if a < b {
        lemma_key_space_monotone(base, a, (b - 1) as nat);
        let sp = key_space(base, (b - 1) as nat) as int;
        lemma_mul_inequality(1, base as int, sp);
        assert(base * sp == base as int * sp) by (nonlinear_arith);
    }
}

proof fn lemma_key_code_injective(a: Seq<usize>, b: Seq<usize>, bound: nat)
    requires
        forall|i: int| 0 <= i < a.len() ==> #[trigger] a[i] < bound,
        forall|i: int| 0 <= i < b.len() ==> #[trigger] b[i] < bound,
        key_code(a, bound + 1) == key_code(b, bound + 1),
    ensures
        a == b,
    decreases a.len(),
{
    let base = bound + 1;
    if a.len() == 0 {
        if b.len() > 0 {
            assert(key_code(b, base) >= b[0] + 1) by (nonlinear_arith)
                requires
                    key_code(b, base) == (b[0] + 1) + base * key_code(b.drop_first(), base),
                    base >= 1;
        }
        assert(a =~= b);
    } else {
        if b.len() == 0 {
            assert(key_code(a, base) >= a[0] + 1) by (nonlinear_arith)
                requires
                    key_code(a, base) == (a[0] + 1) + base * key_code(a.drop_first(), base),
                    base >= 1;
        } else {
            let x = key_code(a, base) as int;
            let ra = key_code(a.drop_first(), base) as int;
            let rb = key_code(b.drop_first(), base) as int;
            assert(x == ra * base + (a[0] + 1)) by (nonlinear_arith)
                requires x == (a[0] + 1) + base * ra;
            assert(x == rb * base + (b[0] + 1)) by (nonlinear_arith)
                requires x == (b[0] + 1) + base * rb, x == key_code(b, base);
            lemma_fundamental_div_mod_converse(x, base as int, ra, a[0] + 1);
            lemma_fundamental_div_mod_converse(x, base as int, rb, b[0] + 1);
            let ta = a.drop_first();
            let tb = b.drop_first();
            assert forall|i: int| 0 <= i < ta.len() implies #[trigger] ta[i] < bound by {
                assert(ta[i] == a[i + 1]);
            }
            assert forall|i: int| 0 <= i < tb.len() implies #[trigger] tb[i] < bound by {
                assert(tb[i] == b[i + 1]);
            }
            lemma_key_code_injective(ta, tb, bound);
            assert(a =~= b) by {
                assert forall|i: int| 0 <= i < a.len() implies a[i] == b[i] by {
                    if i > 0 {
                        assert(a[i] == ta[i - 1]);
                        assert(b[i] == tb[i - 1]);
                    }
                }
            }
        }
    }
}

/// Entries with distinct keys, each of at most `max_len` integers below
/// `bound`, number at most `(bound + 1)` to the power `max_len`.
pub proof fn lemma_distinct_keys_bounded(entries: Seq<(Seq<usize>, usize)>, bound: nat, max_len: nat)
    requires
        keys_distinct(entries),
        forall|i: int| 0 <= i < entries.len() ==> key_bounded(#[trigger] entries[i].0, bound, max_len),
    ensures
        entries.len() <= key_space(bound + 1, max_len),
{
    let base = bound + 1;
    let space = key_space(base, max_len);
    let codes = Seq::new(entries.len(), |i: int| key_code(entries[i].0, base) as int);
    assert forall|i: int| 0 <= i < entries.len() implies 0 <= #[trigger] codes[i] < space by {
        let k = entries[i].0;
        assert(key_bounded(k, bound, max_len));
        lemma_key_code_bound(k, bound);
        lemma_key_space_monotone(base, k.len(), max_len);
    }
    assert(codes.no_duplicates()) by {
        assert forall|i: int, j: int| 0 <= i < codes.len() && 0 <= j < codes.len() && i != j
            implies codes[i] != codes[j] by {
            if codes[i] == codes[j] {
                assert(key_bounded(entries[i].0, bound, max_len));
                assert(key_bounded(entries[j].0, bound, max_len));
                lemma_key_code_injective(entries[i].0, entries[j].0, bound);
                if i < j {
                    assert(entries[i].0 != entries[j].0);
                } else {
                    assert(entries[j].0 != entries[i].0);
                }
            }
        }
    }
    codes.unique_seq_to_set();
    lemma_int_range(0, space as int);
    assert(codes.to_set().subset_of(set_int_range(0, space as int))) by {
        assert forall|x: int| codes.to_set().contains(x) implies set_int_range(0, space as int).contains(x) by {
            let i = choose|i: int| 0 <= i < codes.len() && codes[i] == x;
        }
    }
    lemma_len_subset(codes.to_set(), set_int_range(0, space as int));
}

/// Entries with distinct keys, each a pair of an integer below `n1` and one
/// below `n2`, number at most `n1 * n2`.
pub proof fn lemma_distinct_pairs_bounded(entries: Seq<(Seq<usize>, usize)>, n1: nat, n2: nat)
    requires
        keys_distinct(entries),
        forall|i: int| 0 <= i < entries.len() ==> (#[trigger] entries[i]).0.len() == 2 && entries[i].0[0] < n1
            && entries[i].0[1] < n2,
    ensures
        entries.len() <= n1 * n2,
{
    let space = (n1 * n2) as int;
    let codes = Seq::new(entries.len(), |i: int| entries[i].0[0] * n2 + entries[i].0[1]);
    assert forall|i: int| 0 <= i < entries.len() implies 0 <= #[trigger] codes[i] < space by {
        let a = entries[i].0[0] as int;
        let b = entries[i].0[1] as int;
        assert(entries[i].0.len() == 2 && a < n1 && b < n2);
        assert(0 <= a * n2 + b < n1 * n2) by (nonlinear_arith)
            requires 0 <= a < n1, 0 <= b < n2;
    }
    assert(codes.no_duplicates()) by {
        assert forall|i: int, j: int| 0 <= i < codes.len() && 0 <= j < codes.len() && i != j
            implies codes[i] != codes[j] by {
            if codes[i] == codes[j] {
                let ki = entries[i].0;
                let kj = entries[j].0;
                assert(ki.len() == 2 && ki[1] < n2);
                assert(kj.len() == 2 && kj[1] < n2);
                lemma_fundamental_div_mod_converse(codes[i], n2 as int, ki[0] as int, ki[1] as int);
                lemma_fundamental_div_mod_converse(codes[j], n2 as int, kj[0] as int, kj[1] as int);
                assert(ki =~= kj);
                if i < j {
                    assert(entries[i].0 != entries[j].0);
                } else {
                    assert(entries[j].0 != entries[i].0);
                }
            }
        }
    }
    codes.unique_seq_to_set();
    lemma_int_range(0, space);
    assert(codes.to_set().subset_of(set_int_range(0, space))) by {
        assert forall|x: int| codes.to_set().contains(x) implies set_int_range(0, space).contains(x) by {
            let i = choose|i: int| 0 <= i < codes.len() && codes[i] == x;
        }
    }
    lemma_len_subset(codes.to_set(), set_int_range(0, space));
}

} // verus!
