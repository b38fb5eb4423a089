use vstd::prelude::*;
use range_set_blaze::{RangeMapBlaze, SortedDisjointMap};
use crate::state::StateId;
use crate::state_id_set::StateIdSet;
use crate::symbol::{joined, listed, built_from, coalesced};

verus! {

/// A `RangeMapBlaze` from `char`s to states: the transitions of one state.
#[verifier::external_body]
pub struct CharTable {
    map: RangeMapBlaze<char, StateId>,
}

/// A `RangeMapBlaze` from `char`s to sets of states.
#[verifier::external_body]
pub struct CharSetTable {
    map: RangeMapBlaze<char, StateIdSet>,
}

/// The state (by index) that a `CharTable` gives each `char` it holds.
pub uninterp spec fn char_table(t: CharTable) -> Map<char, usize>;

/// The set of states (by its flags) that a `CharSetTable` gives each `char` it holds.
pub uninterp spec fn char_set_table(t: CharSetTable) -> Map<char, Seq<bool>>;

/// `RangeMapBlaze::universe_with`: every `char` maps to `v`.
#[verifier::external_body]
pub(crate) fn char_table_universe(v: StateId) -> (t: CharTable)
    ensures
        char_table(t) == Map::total(|c: char| v@),
{
    CharTable { map: RangeMapBlaze::universe_with(&v) }
}

/// Indexing a `RangeMapBlaze` (its `Index` impl) at a `char` that it holds:
/// the value there.
#[verifier::external_body]
pub(crate) fn char_table_get(t: &CharTable, c: char) -> (r: StateId)
    requires
        char_table(*t).contains_key(c),
    ensures
        r@ == char_table(*t)[c],
{
    t.map[c]
}

/// `RangeMapBlaze::clone`: a table with the same contents.
#[verifier::external_body]
pub(crate) fn char_table_clone(t: &CharTable) -> (r: CharTable)
    ensures
        char_table(r) == char_table(*t),
{
    CharTable { map: t.map.clone() }
}

/// `SortedDisjointMap::inner_join` of the `range_values` of two tables:
/// sorted disjoint ranges over the keys both hold, with both values.
#[verifier::external_body]
pub(crate) fn char_table_join(a: &CharTable, b: &CharTable) -> (r: Vec<(char, char, StateId, StateId)>)
    ensures
        joined(r@, char_table(*a), char_table(*b)),
{
    a.map.range_values().inner_join(b.map.range_values())
        .map(|(range, (x, y))| (*range.start(), *range.end(), *x, *y)).collect()
}

/// `RangeMapBlaze::from_iter` over inclusive ranges: later ranges override
/// earlier ones, and the table holds exactly the keys some range covers.
#[verifier::external_body]
pub(crate) fn char_table_from_ranges(rs: Vec<(char, char, StateId)>) -> (t: CharTable)
    ensures
        built_from(char_table(t), rs@),
{
    CharTable { map: RangeMapBlaze::from_iter(rs.into_iter().map(|(lo, hi, v)| (lo..=hi, v))) }
}

/// `RangeMapBlaze::range_values`: the table as sorted disjoint nonempty
/// ranges, touching ranges with equal values merged, as the iterator's
/// `SortedDisjointMap` marking promises.
#[verifier::external_body]
pub(crate) fn char_table_ranges(t: &CharTable) -> (r: Vec<(char, char, StateId)>)
    ensures
        listed(r@, char_table(*t)),
        coalesced(r@),
{
    t.map.range_values().map(|(range, v)| (*range.start(), *range.end(), *v)).collect()
}

/// `RangeMapBlaze::universe_with` over sets: every `char` maps to `s`.
#[verifier::external_body]
pub(crate) fn char_set_table_universe(s: StateIdSet) -> (t: CharSetTable)
    ensures
        char_set_table(t) == Map::total(|c: char| s@),
{
    CharSetTable { map: RangeMapBlaze::universe_with(&s) }
}

/// `RangeMapBlaze::from_iter` over inclusive ranges with set values: later
/// ranges override earlier ones.
#[verifier::external_body]
pub(crate) fn char_set_table_from_ranges(rs: Vec<(char, char, StateIdSet)>) -> (t: CharSetTable)
    ensures
        built_from(char_set_table(t), rs@),
{
    CharSetTable { map: RangeMapBlaze::from_iter(rs.into_iter().map(|(lo, hi, v)| (lo..=hi, v))) }
}

/// `SortedDisjointMap::inner_join` of a state table with a set table.
#[verifier::external_body]
pub(crate) fn char_table_join_set(a: &CharTable, b: &CharSetTable) -> (r: Vec<(char, char, StateId, StateIdSet)>)
    ensures
        joined(r@, char_table(*a), char_set_table(*b)),
{
    a.map.range_values().inner_join(b.map.range_values())
        .map(|(range, (x, y))| (*range.start(), *range.end(), *x, y.clone())).collect()
}

/// `RangeMapBlaze::range_values` of a set table: sorted disjoint nonempty
/// ranges, touching ranges with equal sets merged.
#[verifier::external_body]
pub(crate) fn char_set_table_ranges(t: &CharSetTable) -> (r: Vec<(char, char, StateIdSet)>)
    ensures
        listed(r@, char_set_table(*t)),
        coalesced(r@),
{
    t.map.range_values().map(|(range, v)| (*range.start(), *range.end(), v.clone())).collect()
}

} // verus!
