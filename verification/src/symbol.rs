use vstd::prelude::*;
use crate::state::StateId;
use crate::state_id_set::StateIdSet;
use crate::char_table::{
    CharTable, CharSetTable, char_table, char_set_table, char_table_universe, char_table_get,
    char_table_clone, char_table_join, char_table_from_ranges, char_table_ranges,
    char_set_table_universe, char_set_table_from_ranges, char_table_join_set,
    char_set_table_ranges,
};
use crate::byte_table::{
    ByteTable, ByteSetTable, byte_table, byte_set_table, byte_table_universe, byte_table_get,
    byte_table_clone, byte_table_join, byte_table_from_ranges, byte_table_ranges,
    byte_set_table_universe, byte_set_table_from_ranges, byte_table_join_set,
    byte_set_table_ranges,
};

verus! {

/// Symbol `c` lies in the inclusive range `lo..=hi`.
pub open spec fn covers<S: SymbolCode>(lo: S, hi: S, c: S) -> bool {
    lo.code() <= c.code() <= hi.code()
}

/// `rs` lists the table `m` as nonempty ranges in increasing order, each
/// starting after the previous one ends, and each symbol of a range maps to
/// the range's value; the ranges cover exactly the domain of `m`.
pub open spec fn listed<S: SymbolCode, V: View>(rs: Seq<(S, S, V)>, m: Map<S, V::V>) -> bool {
    &&& forall|i: int| 0 <= i < rs.len() ==> (#[trigger] rs[i]).0.code() <= rs[i].1.code()
    &&& forall|i: int| 0 <= i < rs.len() - 1 ==> (#[trigger] rs[i]).1.code() < rs[i + 1].0.code()
    &&& forall|i: int, c: S|
        0 <= i < rs.len() && covers(rs[i].0, rs[i].1, c) ==> #[trigger] m.contains_key(c)
            && m[c] == (#[trigger] rs[i]).2@
    &&& forall|c: S|
        #[trigger] m.contains_key(c) ==> exists|i: int|
            0 <= i < rs.len() && covers((#[trigger] rs[i]).0, rs[i].1, c)
}

/// Neighbouring ranges of `rs` that carry equal values have a symbol between
/// them: ranges that touch with equal values are merged into one.
pub open spec fn coalesced<S: SymbolCode, V: View>(rs: Seq<(S, S, V)>) -> bool {
    forall|i: int|
        0 <= i < rs.len() - 1 && (#[trigger] rs[i]).2@ == rs[i + 1].2@ ==> exists|c: S|
            rs[i].1.code() < #[trigger] c.code() < rs[i + 1].0.code()
}

/// `rs` lists, as nonempty increasing disjoint ranges, the symbols on which
/// both `ma` and `mb` are defined, each range with the values of both tables
/// there.
pub open spec fn joined<S: SymbolCode, A: View, B: View>(
    rs: Seq<(S, S, A, B)>,
    ma: Map<S, A::V>,
    mb: Map<S, B::V>,
) -> bool {
    &&& forall|i: int| 0 <= i < rs.len() ==> (#[trigger] rs[i]).0.code() <= rs[i].1.code()
    &&& forall|i: int| 0 <= i < rs.len() - 1 ==> (#[trigger] rs[i]).1.code() < rs[i + 1].0.code()
    &&& forall|i: int, c: S|
        0 <= i < rs.len() && covers(rs[i].0, rs[i].1, c) ==> #[trigger] ma.contains_key(c)
            && mb.contains_key(c) && ma[c] == (#[trigger] rs[i]).2@ && mb[c] == rs[i].3@
    &&& forall|c: S|
        #[trigger] ma.contains_key(c) && mb.contains_key(c) ==> exists|i: int|
            0 <= i < rs.len() && covers((#[trigger] rs[i]).0, rs[i].1, c)
}

/// The value that the last range of `rs` holding `c` gives it, if any range does.
pub open spec fn range_lookup<S: SymbolCode, V: View>(rs: Seq<(S, S, V)>, c: S) -> Option<V::V>
    decreases rs.len(),
{
    if rs.len() == 0 {
        None
    } else if covers(rs.last().0, rs.last().1, c) {
        Some(rs.last().2@)
    } else {
        range_lookup(rs.drop_last(), c)
    }
}

/// The table `m` holds what `rs` lists, later ranges overriding earlier ones.
pub open spec fn built_from<S: SymbolCode, V: View>(m: Map<S, V::V>, rs: Seq<(S, S, V)>) -> bool {
    forall|c: S|
        #![trigger m.contains_key(c)]
        #![trigger range_lookup(rs, c)]
        (m.contains_key(c) <==> range_lookup(rs, c) is Some) && (m.contains_key(c) ==> m[c]
            == range_lookup(rs, c).unwrap())
}

/// Symbols ordered by an integer code, as range tables order them.
pub trait SymbolCode: Copy + Sized {
    spec fn code(self) -> int;

    proof fn lemma_code_injective(a: Self, b: Self)
        ensures
            a.code() == b.code() ==> a == b,
    ;

    proof fn lemma_code_bounded(a: Self)
        ensures
            0 <= a.code() <= 0x10FFFF,
    ;

    /// The code of this symbol as a machine integer.
    fn to_code(&self) -> (r: usize)
        ensures
            r as int == self.code(),
    ;
}

/// An alphabet of symbols that a `Dfa` reads, with the range tables that map
/// its symbols to states and to sets of states.
pub trait Symbol: SymbolCode {
    /// A table from symbols to states.
    type Table;

    /// A table from symbols to sets of states.
    type SetTable;

    spec fn table_view(t: Self::Table) -> Map<Self, usize>;

    spec fn set_table_view(t: Self::SetTable) -> Map<Self, Seq<bool>>;

    fn universe(v: StateId) -> (t: Self::Table)
        ensures
            Self::table_view(t) == Map::total(|c: Self| v@),
    ;

    fn get(t: &Self::Table, c: Self) -> (r: StateId)
        requires
            Self::table_view(*t).contains_key(c),
        ensures
            r@ == Self::table_view(*t)[c],
    ;

    fn clone_table(t: &Self::Table) -> (r: Self::Table)
        ensures
            Self::table_view(r) == Self::table_view(*t),
    ;

    fn join(a: &Self::Table, b: &Self::Table) -> (r: Vec<(Self, Self, StateId, StateId)>)
        ensures
            joined(r@, Self::table_view(*a), Self::table_view(*b)),
    ;

    fn from_ranges(rs: Vec<(Self, Self, StateId)>) -> (t: Self::Table)
        ensures
            built_from(Self::table_view(t), rs@),
    ;

    fn ranges(t: &Self::Table) -> (r: Vec<(Self, Self, StateId)>)
        ensures
            listed(r@, Self::table_view(*t)),
            coalesced(r@),
    ;

    fn set_universe(s: StateIdSet) -> (t: Self::SetTable)
        ensures
            Self::set_table_view(t) == Map::total(|c: Self| s@),
    ;

    fn set_from_ranges(rs: Vec<(Self, Self, StateIdSet)>) -> (t: Self::SetTable)
        ensures
            built_from(Self::set_table_view(t), rs@),
    ;

    fn join_set(a: &Self::Table, b: &Self::SetTable) -> (r: Vec<(Self, Self, StateId, StateIdSet)>)
        ensures
            joined(r@, Self::table_view(*a), Self::set_table_view(*b)),
    ;

    fn set_ranges(t: &Self::SetTable) -> (r: Vec<(Self, Self, StateIdSet)>)
        ensures
            listed(r@, Self::set_table_view(*t)),
            coalesced(r@),
    ;
}

impl SymbolCode for char {
    open spec fn code(self) -> int {
        self as int
    }

    proof fn lemma_code_injective(a: char, b: char) {
    }

    proof fn lemma_code_bounded(a: char) {
        lemma_char_fits(a);
    }

    fn to_code(&self) -> (r: usize) {
        let c: char = *self;
        proof {
            lemma_char_fits(c);
        }
        let v = c as u32;
        v as usize
    }
}

proof fn lemma_char_fits(c: char)
    ensures
        0 <= c.code() <= 0x10FFFF,
        c.code() == (c as u32) as int,
{
}

impl Symbol for char {
    type Table = CharTable;

    type SetTable = CharSetTable;

    open spec fn table_view(t: CharTable) -> Map<char, usize> {
        char_table(t)
    }

    open spec fn set_table_view(t: CharSetTable) -> Map<char, Seq<bool>> {
        char_set_table(t)
    }

    fn universe(v: StateId) -> (t: CharTable) {
        char_table_universe(v)
    }

    fn get(t: &CharTable, c: char) -> (r: StateId) {
        char_table_get(t, c)
    }

    fn clone_table(t: &CharTable) -> (r: CharTable) {
        char_table_clone(t)
    }

    fn join(a: &CharTable, b: &CharTable) -> (r: Vec<(char, char, StateId, StateId)>) {
        char_table_join(a, b)
    }

    fn from_ranges(rs: Vec<(char, char, StateId)>) -> (t: CharTable) {
        char_table_from_ranges(rs)
    }

    fn ranges(t: &CharTable) -> (r: Vec<(char, char, StateId)>) {
        char_table_ranges(t)
    }

    fn set_universe(s: StateIdSet) -> (t: CharSetTable) {
        char_set_table_universe(s)
    }

    fn set_from_ranges(rs: Vec<(char, char, StateIdSet)>) -> (t: CharSetTable) {
        char_set_table_from_ranges(rs)
    }

    fn join_set(a: &CharTable, b: &CharSetTable) -> (r: Vec<(char, char, StateId, StateIdSet)>) {
        char_table_join_set(a, b)
    }

    fn set_ranges(t: &CharSetTable) -> (r: Vec<(char, char, StateIdSet)>) {
        char_set_table_ranges(t)
    }
}

impl SymbolCode for u8 {
    open spec fn code(self) -> int {
        self as int
    }

    proof fn lemma_code_injective(a: u8, b: u8) {
    }

    proof fn lemma_code_bounded(a: u8) {
    }

    fn to_code(&self) -> (r: usize) {
        *self as usize
    }
}

impl Symbol for u8 {
    type Table = ByteTable;

    type SetTable = ByteSetTable;

    open spec fn table_view(t: ByteTable) -> Map<u8, usize> {
        byte_table(t)
    }

    open spec fn set_table_view(t: ByteSetTable) -> Map<u8, Seq<bool>> {
        byte_set_table(t)
    }

    fn universe(v: StateId) -> (t: ByteTable) {
        byte_table_universe(v)
    }

    fn get(t: &ByteTable, c: u8) -> (r: StateId) {
        byte_table_get(t, c)
    }

    fn clone_table(t: &ByteTable) -> (r: ByteTable) {
        byte_table_clone(t)
    }

    fn join(a: &ByteTable, b: &ByteTable) -> (r: Vec<(u8, u8, StateId, StateId)>) {
        byte_table_join(a, b)
    }

    fn from_ranges(rs: Vec<(u8, u8, StateId)>) -> (t: ByteTable) {
        byte_table_from_ranges(rs)
    }

    fn ranges(t: &ByteTable) -> (r: Vec<(u8, u8, StateId)>) {
        byte_table_ranges(t)
    }

    fn set_universe(s: StateIdSet) -> (t: ByteSetTable) {
        byte_set_table_universe(s)
    }

    fn set_from_ranges(rs: Vec<(u8, u8, StateIdSet)>) -> (t: ByteSetTable) {
        byte_set_table_from_ranges(rs)
    }

    fn join_set(a: &ByteTable, b: &ByteSetTable) -> (r: Vec<(u8, u8, StateId, StateIdSet)>) {
        byte_table_join_set(a, b)
    }

    fn set_ranges(t: &ByteSetTable) -> (r: Vec<(u8, u8, StateIdSet)>) {
        byte_set_table_ranges(t)
    }
}

} // verus!
