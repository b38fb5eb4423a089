use vstd::prelude::*;
use range_set_blaze::{RangeMapBlaze, SortedDisjointMap};
use crate::state::StateId;
use crate::state_id_set::StateIdSet;
use crate::symbol::{joined, listed, built_from, coalesced};

verus! {

/// A `RangeMapBlaze` from `u8`s to states: the transitions of one state.
#[verifier::external_body]
pub struct ByteTable {
    map: RangeMapBlaze<u8, StateId>,
}

/// A `RangeMapBlaze` from `u8`s to sets of states.
#[verifier::external_body]
pub struct ByteSetTable {
    map: RangeMapBlaze<u8, StateIdSet>,
}

/// The state (by index) that a `ByteTable` gives each `u8` it holds.
pub uninterp spec fn byte_table(t: ByteTable) -> Map<u8, usize>;

/// The set of states (by its flags) that a `ByteSetTable` gives each `u8` it holds.
pub uninterp spec fn byte_set_table(t: ByteSetTable) -> Map<u8, Seq<bool>>;

/// `RangeMapBlaze::universe_with`: every `u8` maps to `v`.
#[verifier::external_body]
pub(crate) fn byte_table_universe(v: StateId) -> (t: ByteTable)
    ensures
        byte_table(t) == Map::total(|c: u8| v@),
{
    ByteTable { map: RangeMapBlaze::universe_with(&v) }
}

/// Indexing a `RangeMapBlaze` (its `Index` impl) at a `u8` that it holds:
/// the value there.
#[verifier::external_body]
pub(crate) fn byte_table_get(t: &ByteTable, c: u8) -> (r: StateId)
    requires
        byte_table(*t).contains_key(c),
    ensures
        r@ == byte_table(*t)[c],
{
    t.map[c]
}

/// `RangeMapBlaze::clone`: a table with the same contents.
#[verifier::external_body]
pub(crate) fn byte_table_clone(t: &ByteTable) -> (r: ByteTable)
    ensures
        byte_table(r) == byte_table(*t),
{
    ByteTable { map: t.map.clone() }
}

/// `SortedDisjointMap::inner_join` of the `range_values` of two tables:
/// sorted disjoint ranges over the keys both hold, with both values.
#[verifier::external_body]
pub(crate) fn byte_table_join(a: &ByteTable, b: &ByteTable) -> (r: Vec<(u8, u8, StateId, StateId)>)
    ensures
        joined(r@, byte_table(*a), byte_table(*b)),
{
    a.map.range_values().inner_join(b.map.range_values())
        .map(|(range, (x, y))| (*range.start(), *range.end(), *x, *y)).collect()
}

/// `RangeMapBlaze::from_iter` over inclusive ranges: later ranges override
/// earlier ones, and the table holds exactly the keys some range covers.
#[verifier::external_body]
pub(crate) fn byte_table_from_ranges(rs: Vec<(u8, u8, StateId)>) -> (t: ByteTable)
    ensures
        built_from(byte_table(t), rs@),
{
    ByteTable { map: RangeMapBlaze::from_iter(rs.into_iter().map(|(lo, hi, v)| (lo..=hi, v))) }
}

/// `RangeMapBlaze::range_values`: the table as sorted disjoint nonempty
/// ranges, touching ranges with equal values merged, as the iterator's
/// `SortedDisjointMap` marking promises.
#[verifier::external_body]
pub(crate) fn byte_table_ranges(t: &ByteTable) -> (r: Vec<(u8, u8, StateId)>)
    ensures
        listed(r@, byte_table(*t)),
        coalesced(r@),
{
    t.map.range_values().map(|(range, v)| (*range.start(), *range.end(), *v)).collect()
}

/// `RangeMapBlaze::universe_with` over sets: every `u8` maps to `s`.
#[verifier::external_body]
pub(crate) fn byte_set_table_universe(s: StateIdSet) -> (t: ByteSetTable)
    ensures
        byte_set_table(t) == Map::total(|c: u8| s@),
{
    ByteSetTable { map: RangeMapBlaze::universe_with(&s) }
}

/// `RangeMapBlaze::from_iter` over inclusive ranges with set values: later
/// ranges override earlier ones.
#[verifier::external_body]
pub(crate) fn byte_set_table_from_ranges(rs: Vec<(u8, u8, StateIdSet)>) -> (t: ByteSetTable)
    ensures
        built_from(byte_set_table(t), rs@),
{
    ByteSetTable { map: RangeMapBlaze::from_iter(rs.into_iter().map(|(lo, hi, v)| (lo..=hi, v))) }
}

/// `SortedDisjointMap::inner_join` of a state table with a set table.
#[verifier::external_body]
pub(crate) fn byte_table_join_set(a: &ByteTable, b: &ByteSetTable) -> (r: Vec<(u8, u8, StateId, StateIdSet)>)
    ensures
        joined(r@, byte_table(*a), byte_set_table(*b)),
{
    a.map.range_values().inner_join(b.map.range_values())
        .map(|(range, (x, y))| (*range.start(), *range.end(), *x, y.clone())).collect()
}

/// `RangeMapBlaze::range_values` of a set table: sorted disjoint nonempty
/// ranges, touching ranges with equal sets merged.
#[verifier::external_body]
pub(crate) fn byte_set_table_ranges(t: &ByteSetTable) -> (r: Vec<(u8, u8, StateIdSet)>)
    ensures
        listed(r@, byte_set_table(*t)),
        coalesced(r@),
{
    t.map.range_values().map(|(range, v)| (*range.start(), *range.end(), v.clone())).collect()
}

} // verus!
