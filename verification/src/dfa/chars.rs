use vstd::prelude::*;
use std::ops::RangeInclusive;
use crate::state::{StateId, StateKind};
use crate::symbol::{Symbol, SymbolCode, covers, range_lookup};
use crate::char_set::CharSet;
use super::{Dfa, table_total};

verus! {

/// Whether `c` has the Unicode `XID_Start` property, as the tables of
/// `unicode_ident` give it.
pub uninterp spec fn xid_start_property(c: char) -> bool;

/// Whether `c` has the Unicode `XID_Continue` property, as the tables of
/// `unicode_ident` give it.
pub uninterp spec fn xid_continue_property(c: char) -> bool;

/// `unicode_ident::is_xid_start`.
#[verifier::external_body]
fn is_xid_start(c: char) -> (r: bool)
    ensures
        r == xid_start_property(c),
{
    unicode_ident::is_xid_start(c)
}

/// `unicode_ident::is_xid_continue`.
#[verifier::external_body]
fn is_xid_continue(c: char) -> (r: bool)
    ensures
        r == xid_continue_property(c),
{
    unicode_ident::is_xid_continue(c)
}

/// `char::from_u32`: the `char` with code `u`, when `u` is a Unicode scalar
/// value (at most `0x10FFFF` and not a surrogate).
#[verifier::external_body]
pub(crate) fn char_from_u32(u: u32) -> (r: Option<char>)
    ensures
        r is Some <==> (u <= 0x10FFFF && !(0xD800 <= u <= 0xDFFF)),
        r matches Some(c) ==> c as u32 == u,
{
    char::from_u32(u)
}

/// The code of a `char` is a Unicode scalar value.
pub proof fn lemma_char_code(c: char)
    ensures
        0 <= c.code() <= 0x10FFFF,
        !(0xD800 <= c.code() <= 0xDFFF),
        c.code() == (c as u32) as int,
{
}

/// Some range among the first `k` of `ranges` holds `c`.
pub open spec fn char_ranges_hold(ranges: Seq<(char, char)>, k: int, c: char) -> bool {
    exists|j: int| 0 <= j < k && covers((#[trigger] ranges[j]).0, ranges[j].1, c)
}

impl Dfa<char> {
    #[verifier::spinoff_prover]
    proof fn lemma_char_set_lookup(out: Seq<(char, char, StateId)>, ranges: Seq<(char, char)>, dead: usize, accept: usize, k: int, c: char)
        requires
            0 <= k <= ranges.len(),
            out.len() == k + 1,
            out[0].0 == '\0',
            out[0].1 == '\u{10FFFF}',
            out[0].2@ == dead,
            forall|j: int| 0 <= j < k ==> (#[trigger] out[j + 1]).0 == ranges[j].0 && out[j + 1].1 == ranges[j].1 && out[j + 1].2@ == accept,
        ensures
            range_lookup(out, c) == Some(if char_ranges_hold(ranges, k, c) { accept } else { dead }),
        decreases k,
    {
        if k == 0 {
            assert(out.drop_last().len() == 0);
            assert(('\0' as int) == 0);
            assert(('\u{10FFFF}' as int) == 0x10FFFF);
            assert(0 <= c as int <= 0x10FFFF);
            assert(covers(out[0].0, out[0].1, c));
            assert(out.last() == out[0]);
            assert(range_lookup(out, c) == Some(out[0].2@));
            assert(!char_ranges_hold(ranges, k, c));
        } else {
            let shorter = out.drop_last();
            assert forall|j: int| 0 <= j < k - 1 implies (#[trigger] shorter[j + 1]).0 == ranges[j].0
                && shorter[j + 1].1 == ranges[j].1 && shorter[j + 1].2@ == accept by {
                assert(shorter[j + 1] == out[j + 1]);
            }
            Self::lemma_char_set_lookup(shorter, ranges, dead, accept, k - 1, c);
            assert(out.last() == out[k]);
            if covers(ranges[k - 1].0, ranges[k - 1].1, c) {
                assert(char_ranges_hold(ranges, k, c));
            } else {
                assert(char_ranges_hold(ranges, k, c) == char_ranges_hold(ranges, k - 1, c)) by {
                    if char_ranges_hold(ranges, k, c) {
                        let j = choose|j: int| 0 <= j < k && covers((#[trigger] ranges[j]).0, ranges[j].1, c);
                        assert(j < k - 1);
                    }
                }
            }
        }
    }

    proof fn lemma_three_state_run(dfa: &Self, w: Seq<char>)
        requires
            dfa.wf(),
            dfa.num_states() == 3,
            forall|c: char| #[trigger] dfa.table(0)[c] == 1 || dfa.table(0)[c] == 2,
            forall|c: char| #[trigger] dfa.table(1)[c] == 1,
            forall|c: char| #[trigger] dfa.table(2)[c] == 1,
            w.len() >= 1,
        ensures
            dfa.run(0, w) == (if w.len() == 1 { dfa.table(0)[w[0]] as nat } else { 1 }),
        decreases w.len(),
    {
        let p = w.drop_last();
        if w.len() == 1 {
            assert(p.len() == 0);
            assert(dfa.run(0, p) == 0);
            assert(w.last() == w[0]);
        } else {
            Self::lemma_three_state_run(dfa, p);
            let q = dfa.run(0, p);
            assert(q == 1 || q == 2);
            if q == 1 {
                assert(dfa.table(1)[w.last()] == 1);
            } else {
                assert(dfa.table(2)[w.last()] == 1);
            }
            assert(dfa.run(0, w) == dfa.next(q, w.last()));
        }
    }

    /// The three states of a one-`char` automaton over `set`: the start, state
    /// 0, leads on a `char` of `set` to the accepting state 2 and on any other
    /// to state 1; states 1 and 2 lead to state 1 on every `char`; only state 2
    /// accepts.
    pub open spec fn one_char_shape(&self, set: Set<char>) -> bool {
        &&& self.num_states() == 3
        &&& self.start_spec() == 0
        &&& !self.accepting(0) && !self.accepting(1) && self.accepting(2)
        &&& forall|c: char| #[trigger] self.next(0, c) == if set.contains(c) { 2nat } else { 1nat }
        &&& forall|c: char| #[trigger] self.next(1, c) == 1
        &&& forall|c: char| #[trigger] self.next(2, c) == 1
    }

    /// The automaton accepting the one-`char` words whose `char` is in `accept_set`.
    pub fn from_char_set(accept_set: CharSet) -> (dfa: Self)
        ensures
            dfa.wf(),
            dfa.num_states() == 3,
            dfa.one_char_shape(accept_set.contents()),
            forall|w: Seq<char>| #[trigger] dfa.accepts(w) == (w.len() == 1 && accept_set.contents().contains(w[0])),
    {
        let mut dfa = Self::new(StateKind::Rejecting);
        let dead = dfa.new_state(StateKind::Rejecting);
        let accept = dfa.new_state(StateKind::Accepting);
        dfa.set_transitions(accept, char::universe(dead));
        let ranges = accept_set.ranges();
        let mut out: Vec<(char, char, StateId)> = Vec::new();
        out.push(('\0', '\u{10FFFF}', dead));
        let mut i: usize = 0;
        while i < ranges.len()
            invariant
                i <= ranges.len(),
                out@.len() == i + 1,
                out@[0].0 == '\0',
                out@[0].1 == '\u{10FFFF}',
                out@[0].2 == dead,
                forall|j: int| 0 <= j < i ==> (#[trigger] out@[j + 1]).0 == ranges@[j].0 && out@[j + 1].1 == ranges@[j].1 && out@[j + 1].2 == accept,
            decreases ranges.len() - i,
        {
            let ghost old_out = out@;
            out.push((ranges[i].0, ranges[i].1, accept));
            proof {
                assert forall|j: int| 0 <= j < i + 1 implies (#[trigger] out@[j + 1]).0 == ranges@[j].0 && out@[j + 1].1 == ranges@[j].1 && out@[j + 1].2 == accept by {
                    if j < i {
                        assert(out@[j + 1] == old_out[j + 1]);
                    }
                }
            }
            i += 1;
        }
        let ghost out_seq = out@;
        let table = char::from_ranges(out);
        proof {
            let m = char::table_view(table);
            assert forall|c: char| #[trigger] m.contains_key(c) && m[c] == (if accept_set.contents().contains(c) { 2usize } else { 1usize }) by {
                Self::lemma_char_set_lookup(out_seq, ranges@, dead@, accept@, ranges@.len() as int, c);
                if accept_set.contents().contains(c) {
                    let j = choose|j: int| 0 <= j < ranges@.len() && (#[trigger] ranges@[j]).0.code() <= c.code() <= ranges@[j].1.code();
                    assert(covers(ranges@[j].0, ranges@[j].1, c));
                } else {
                    if char_ranges_hold(ranges@, ranges@.len() as int, c) {
                        let j = choose|j: int| 0 <= j < ranges@.len() && covers((#[trigger] ranges@[j]).0, ranges@[j].1, c);
                        assert(ranges@[j].0.code() <= c.code() <= ranges@[j].1.code());
                    }
                }
            }
            assert forall|c: char| #[trigger] m[c] < 3 by {
                assert(m.contains_key(c));
            }
            assert forall|c: char| #[trigger] m.contains_key(c) by {
            }
            assert(table_total(m, 3));
        }
        let start = dfa.start;
        dfa.set_transitions(start, table);
        proof {
            assert forall|c: char| #[trigger] dfa.table(1)[c] == 1 by {
                assert(Map::total(|c: char| dead@)[c] == dead@);
            }
            assert forall|c: char| #[trigger] dfa.table(2)[c] == 1 by {
                assert(Map::total(|c: char| dead@)[c] == dead@);
            }
            assert forall|c: char| #[trigger] dfa.table(0)[c] == 1 || dfa.table(0)[c] == 2 by {
                assert(char::table_view(table).contains_key(c));
            }
            assert(!dfa.accepting(0));
            assert(!dfa.accepting(1));
            assert(dfa.accepting(2));
            assert forall|c: char| #[trigger] dfa.next(0, c) == if accept_set.contents().contains(c) { 2nat } else { 1nat } by {
                assert(char::table_view(table).contains_key(c));
            }
            assert(dfa.one_char_shape(accept_set.contents()));
            assert forall|w: Seq<char>| #[trigger] dfa.accepts(w) == (w.len() == 1 && accept_set.contents().contains(w[0])) by {
                if w.len() >= 1 {
                    Self::lemma_three_state_run(&dfa, w);
                    if w.len() == 1 {
                        assert(char::table_view(table).contains_key(w[0]));
                    }
                }
            }
        }
        dfa
    }

    /// The automaton accepting the one-`char` words whose `char` is in `range`.
    pub fn from_char_range(range: RangeInclusive<char>) -> (dfa: Self)
        ensures
            dfa.wf(),
            dfa.num_states() == 3,
            !range@.exhausted ==> dfa.one_char_shape(Set::new(|c: char| range@.start.code() <= c.code() <= range@.end.code())),
            !range@.exhausted ==> forall|w: Seq<char>| #[trigger] dfa.accepts(w) == (w.len() == 1
                && range@.start.code() <= w[0].code() <= range@.end.code()),
    {
        let ghost r = range@;
        let set = CharSet::from_range(range);
        let dfa = Self::from_char_set(set);
        proof {
            if !r.exhausted {
                assert forall|w: Seq<char>| #[trigger] dfa.accepts(w) == (w.len() == 1
                    && r.start.code() <= w[0].code() <= r.end.code()) by {
                    if w.len() == 1 {
                        assert(set.contents().contains(w[0]) == (r.start.code() <= w[0].code() <= r.end.code()));
                    }
                }
            }
        }
        dfa
    }

    /// The automaton accepting the word made of `ch` alone.
    pub fn from_char(ch: char) -> (dfa: Self)
        ensures
            dfa.wf(),
            dfa.num_states() == 3,
            forall|w: Seq<char>| #[trigger] dfa.accepts(w) == (w == seq![ch]),
    {
        let dfa = Self::from_char_range(ch..=ch);
        assert forall|w: Seq<char>| #[trigger] dfa.accepts(w) == (w == seq![ch]) by {
            if w.len() == 1 {
                if w[0] == ch {
                    assert(w =~= seq![ch]);
                }
                SymbolCode::lemma_code_injective(w[0], ch);
            }
        }
        dfa
    }

    /// The set of the `char`s on which `predicate` holds, each `char` asked once.
    #[verifier::spinoff_prover]
    fn char_set_from_predicate(predicate: impl Fn(char) -> bool) -> (s: CharSet)
        requires
            forall|c: char| call_requires(predicate, (c,)),
        ensures
            forall|c: char| s.contents().contains(c) ==> call_ensures(predicate, (c,), true),
            forall|c: char| !s.contents().contains(c) ==> call_ensures(predicate, (c,), false),
    {
        let mut chars: Vec<char> = Vec::new();
        let mut u: u32 = 0;
        assert forall|d: char| d.code() >= 0 by {
            lemma_char_code(d);
        }
        while u <= 0x10FFFF
            invariant
                u <= 0x110000,
                forall|c: char| call_requires(predicate, (c,)),
                forall|k: int| 0 <= k < chars.len() ==> (#[trigger] chars@[k]).code() < u
                    && call_ensures(predicate, (chars@[k],), true),
                forall|c: char| #![trigger chars@.contains(c)] c.code() < u ==> chars@.contains(c) || call_ensures(predicate, (c,), false),
            decreases 0x110000 - u,
        {
            let ghost old_chars = chars@;
            let found = char_from_u32(u);
            if let Some(ch) = found {
                if predicate(ch) {
                    chars.push(ch);
                }
            }
            proof {
                assert forall|c: char| c.code() < u + 1 && !chars@.contains(c) implies call_ensures(predicate, (c,), false) by {
                    lemma_char_code(c);
                    if c.code() == u {
                        assert(found is Some);
                        let ch = found->0;
                        assert(ch as u32 == u);
                        lemma_char_code(ch);
                        SymbolCode::lemma_code_injective(c, ch);
                        assert(c == ch);
                        if chars@.len() > old_chars.len() {
                            assert(chars@[chars@.len() - 1] == ch);
                        }
                    } else {
                        assert(!old_chars.contains(c)) by {
                            if old_chars.contains(c) {
                                let k = choose|k: int| 0 <= k < old_chars.len() && old_chars[k] == c;
                                assert(chars@[k] == c);
                            }
                        }
                    }
                }
                assert forall|k: int| 0 <= k < chars.len() implies (#[trigger] chars@[k]).code() < u + 1
                    && call_ensures(predicate, (chars@[k],), true) by {
                    if k < old_chars.len() {
                        assert(chars@[k] == old_chars[k]);
                    } else {
                        lemma_char_code(chars@[k]);
                    }
                }
            }
            u += 1;
        }
        let s = CharSet::from_chars(chars);
        proof {
            assert forall|c: char| !s.contents().contains(c) implies call_ensures(predicate, (c,), false) by {
                lemma_char_code(c);
            }
            assert forall|c: char| s.contents().contains(c) implies call_ensures(predicate, (c,), true) by {
                let k = choose|k: int| 0 <= k < chars.len() && chars@[k] == c;
            }
        }
        s
    }

    /// The automaton accepting the one-`char` words on whose `char`
    /// `predicate` holds.
    pub fn from_chars_where(predicate: impl Fn(char) -> bool) -> (dfa: Self)
        requires
            forall|c: char| call_requires(predicate, (c,)),
        ensures
            dfa.wf(),
            dfa.num_states() == 3,
            forall|w: Seq<char>| #[trigger] dfa.accepts(w) ==> w.len() == 1 && call_ensures(predicate, (w[0],), true),
            forall|c: char| !dfa.accepts(seq![c]) ==> call_ensures(predicate, (c,), false),
    {
        let set = Self::char_set_from_predicate(predicate);
        let dfa = Self::from_char_set(set);
        assert forall|c: char| !dfa.accepts(seq![c]) implies call_ensures(predicate, (c,), false) by {
            assert(seq![c][0] == c);
        }
        dfa
    }

    /// The automaton accepting the one-`char` words whose `char` has the
    /// Unicode `XID_Start` property.
    pub fn xid_start() -> (dfa: Self)
        ensures
            dfa.wf(),
            dfa.num_states() == 3,
            forall|w: Seq<char>| #[trigger] dfa.accepts(w) == (w.len() == 1 && xid_start_property(w[0])),
    {
        let dfa = Self::from_chars_where(is_xid_start);
        assert forall|w: Seq<char>| #[trigger] dfa.accepts(w) == (w.len() == 1 && xid_start_property(w[0])) by {
            if w.len() == 1 {
                assert(w =~= seq![w[0]]);
            }
        }
        dfa
    }

    /// The automaton accepting the one-`char` words whose `char` has the
    /// Unicode `XID_Continue` property.
    pub fn xid_continue() -> (dfa: Self)
        ensures
            dfa.wf(),
            dfa.num_states() == 3,
            forall|w: Seq<char>| #[trigger] dfa.accepts(w) == (w.len() == 1 && xid_continue_property(w[0])),
    {
        let dfa = Self::from_chars_where(is_xid_continue);
        assert forall|w: Seq<char>| #[trigger] dfa.accepts(w) == (w.len() == 1 && xid_continue_property(w[0])) by {
            if w.len() == 1 {
                assert(w =~= seq![w[0]]);
            }
        }
        dfa
    }

    /// The automaton accepting the word `s` alone.
    pub fn string(s: &str) -> (dfa: Self)
        ensures
            dfa.wf(),
            forall|w: Seq<char>| #[trigger] dfa.accepts(w) == (w == s@),
    {
        broadcast use vstd::string::group_string_axioms;
        let mut dfa = Self::epsilon();
        proof {
            assert forall|w: Seq<char>| #[trigger] dfa.accepts(w) == (w == s@.take(0)) by {
                if w.len() == 0 {
                    assert(w =~= s@.take(0));
                }
            }
        }
        for ch in iter: s.chars()
            invariant
                dfa.wf(),
                iter.seq() == s@,
                forall|w: Seq<char>| #[trigger] dfa.accepts(w) == (w == s@.take(iter.index())),
        {
            let ghost prefix = s@.take(iter.index());
            let single = Self::from_char(ch);
            let next = dfa.concat(&single);
            proof {
                assert(ch == s@[iter.index()]);
                let target = s@.take(iter.index() + 1);
                assert(target =~= prefix.push(ch));
                assert forall|w: Seq<char>| #[trigger] next.accepts(w) == (w == target) by {
                    if next.accepts(w) {
                        let i = choose|i: int| 0 <= i <= w.len() && dfa.accepts(w.take(i)) && single.accepts(#[trigger] w.skip(i));
                        assert(w.take(i) == prefix);
                        assert(w.skip(i) == seq![ch]);
                        assert(w =~= w.take(i) + w.skip(i));
                        assert(prefix + seq![ch] =~= prefix.push(ch));
                    }
                    if w == target {
                        let i = prefix.len() as int;
                        assert(w.take(i) =~= prefix);
                        assert(w.skip(i) =~= seq![ch]);
                        assert(dfa.accepts(w.take(i)));
                        assert(single.accepts(w.skip(i)));
                        assert(dfa.concat_accepts(&single, w));
                    }
                }
            }
            dfa = next;
        }
        proof {
            assert(s@.take(s@.len() as int) =~= s@);
        }
        dfa
    }

    /// Whether the automaton accepts the `char`s of `input`.
    pub fn is_match(&self, input: &str) -> (r: bool)
        requires
            self.wf(),
        ensures
            r == self.accepts(input@),
    {
        broadcast use vstd::string::group_string_axioms;
        let mut state = self.start;
        for ch in iter: input.chars()
            invariant
                self.wf(),
                iter.seq() == input@,
                state@ == self.run(self.start_spec(), input@.take(iter.index())),
                state@ < self.num_states(),
        {
            let ghost prefix = input@.take(iter.index());
            proof {
                assert(ch == input@[iter.index()]);
            }
            state = self.step(state, ch);
            proof {
                self.lemma_run_push(self.start_spec(), prefix, ch);
                assert(input@.take(iter.index() + 1) =~= prefix.push(ch));
            }
        }
        assert(input@.take(input@.len() as int) =~= input@);
        self.is_accepting(state)
    }
}

} // verus!
