use vstd::prelude::*;
use range_set_blaze::RangeSetBlaze;
use std::ops::RangeInclusive;
use crate::symbol::SymbolCode;

verus! {

/// A `RangeSetBlaze` of `char`s.
#[verifier::external_body]
pub struct CharSet {
    set: RangeSetBlaze<char>,
}

/// The `char`s that a `CharSet` holds.
pub uninterp spec fn char_set_contents(s: CharSet) -> Set<char>;

/// `RangeSetBlaze::from_iter` over one inclusive range: the `char`s from its
/// start to its end, when the range has not been iterated to exhaustion.
#[verifier::external_body]
fn char_set_from_range(range: RangeInclusive<char>) -> (s: CharSet)
    ensures
        !range@.exhausted ==> char_set_contents(s) == Set::new(
            |c: char| range@.start.code() <= c.code() <= range@.end.code(),
        ),
{
    CharSet { set: RangeSetBlaze::from_iter([range]) }
}

/// `RangeSetBlaze::from_iter` over `char`s: exactly those `char`s.
#[verifier::external_body]
fn char_set_from_chars(chars: Vec<char>) -> (s: CharSet)
    ensures
        char_set_contents(s) == chars@.to_set(),
{
    CharSet { set: RangeSetBlaze::from_iter(chars) }
}

/// `RangeSetBlaze::ranges`: the set as nonempty inclusive ranges in
/// increasing order, each starting after the previous one ends.
#[verifier::external_body]
fn char_set_ranges(s: &CharSet) -> (r: Vec<(char, char)>)
    ensures
        forall|i: int| 0 <= i < r.len() ==> (#[trigger] r@[i]).0.code() <= r@[i].1.code(),
        forall|i: int| 0 <= i < r.len() - 1 ==> (#[trigger] r@[i]).1.code() < r@[i + 1].0.code(),
        forall|c: char| #[trigger] char_set_contents(*s).contains(c) <==> exists|i: int|
            0 <= i < r.len() && (#[trigger] r@[i]).0.code() <= c.code() <= r@[i].1.code(),
{
    s.set.ranges().map(|range| (*range.start(), *range.end())).collect()
}

impl CharSet {
    /// The `char`s of this set.
    pub closed spec fn contents(&self) -> Set<char> {
        char_set_contents(*self)
    }

    /// The set of the `char`s in `range`.
    pub fn from_range(range: RangeInclusive<char>) -> (s: CharSet)
        ensures
            !range@.exhausted ==> s.contents() == Set::new(
                |c: char| range@.start.code() <= c.code() <= range@.end.code(),
            ),
    {
        char_set_from_range(range)
    }

    /// The set of the given `char`s.
    pub fn from_chars(chars: Vec<char>) -> (s: CharSet)
        ensures
            s.contents() == chars@.to_set(),
    {
        char_set_from_chars(chars)
    }

    /// The set as nonempty inclusive ranges in increasing order.
    pub fn ranges(&self) -> (r: Vec<(char, char)>)
        ensures
            forall|i: int| 0 <= i < r.len() ==> (#[trigger] r@[i]).0.code() <= r@[i].1.code(),
            forall|i: int| 0 <= i < r.len() - 1 ==> (#[trigger] r@[i]).1.code() < r@[i + 1].0.code(),
            forall|c: char| #[trigger] self.contents().contains(c) <==> exists|i: int|
                0 <= i < r.len() && (#[trigger] r@[i]).0.code() <= c.code() <= r@[i].1.code(),
    {
        char_set_ranges(self)
    }
}

} // verus!
