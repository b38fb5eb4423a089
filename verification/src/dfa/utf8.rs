use vstd::prelude::*;
use indexmap::IndexMap;
use crate::state::{StateId, StateKind};
use crate::symbol::{Symbol, covers, listed, range_lookup};
use crate::key_index::{
    key_index_new, key_index_insert, key_index_get, key_index_get_index, key_index_entries, keys_distinct,
    key_bounded, key_space, lemma_distinct_keys_bounded,
};
use vstd::utf8::{valid_utf8, decode_utf8};
use super::{Dfa, table_total};
use super::chars::lemma_char_code;
use super::decode::{
    lemma_lead_range_start,
    DecodeState, DecodeStep, decode_step, decode_step_spec, decode_wf, lead_range_spec,
    lead_byte_codepoint_range, lemma_decode_wf_step,
};

verus! {

/// The integers that stand for a decoder state in a key: a tag (0 ready, 1
/// pending, 2 reject) and the fields of a pending state.
pub open spec fn decode_fields(d: DecodeState) -> Seq<usize> {
    match d {
        DecodeState::Ready => seq![0usize, 0usize, 0usize, 0usize, 0usize, 0usize],
        DecodeState::Pending { code_point_prefix, remaining, min_code_point, next_cont_min, next_cont_max } => seq![
            1usize,
            code_point_prefix as usize,
            remaining as usize,
            min_code_point as usize,
            next_cont_min as usize,
            next_cont_max as usize,
        ],
        DecodeState::Reject => seq![2usize, 0usize, 0usize, 0usize, 0usize, 0usize],
    }
}

/// The key of the pair of a state `q` and a decoder state `d`.
pub open spec fn product_key(p: (nat, DecodeState)) -> Seq<usize> {
    seq![p.0 as usize] + decode_fields(p.1)
}

/// The pair of a state and a decoder state that a key stands for.
pub open spec fn key_product(k: Seq<usize>) -> (nat, DecodeState) {
    (
        k[0] as nat,
        if k[1] == 0 {
            DecodeState::Ready
        } else if k[1] == 1 {
            DecodeState::Pending {
                code_point_prefix: k[2] as u32,
                remaining: k[3] as u8,
                min_code_point: k[4] as u32,
                next_cont_min: k[5] as u8,
                next_cont_max: k[6] as u8,
            }
        } else {
            DecodeState::Reject
        },
    )
}

/// Pairs whose state lies at the sink, or whose decoder rejects, are written
/// as the sink at a character boundary.
pub open spec fn canon(sink: Option<nat>, p: (nat, DecodeState)) -> (nat, DecodeState) {
    match sink {
        Some(s) => if p.0 == s || p.1 is Reject {
            (s, DecodeState::Ready)
        } else {
            p
        },
        None => p,
    }
}

/// How a byte can start or continue a UTF-8 sequence.
#[derive(Clone, Copy, PartialEq, Eq, Debug, Structural)]
pub enum ByteClass {
    Ascii,
    ContLow,
    ContMid,
    ContHigh,
    Lead2,
    Lead3E0,
    Lead3E1Ec,
    Lead3Ed,
    Lead3EeEf,
    Lead4F0,
    Lead4F1F3,
    Lead4F4,
    Invalid,
}

/// The byte ranges of each class, in increasing order.
pub open spec fn byte_class_table() -> Seq<(u8, u8, ByteClass)> {
    seq![
        (0x00u8, 0x7Fu8, ByteClass::Ascii),
        (0x80u8, 0x8Fu8, ByteClass::ContLow),
        (0x90u8, 0x9Fu8, ByteClass::ContMid),
        (0xA0u8, 0xBFu8, ByteClass::ContHigh),
        (0xC0u8, 0xC1u8, ByteClass::Invalid),
        (0xC2u8, 0xDFu8, ByteClass::Lead2),
        (0xE0u8, 0xE0u8, ByteClass::Lead3E0),
        (0xE1u8, 0xECu8, ByteClass::Lead3E1Ec),
        (0xEDu8, 0xEDu8, ByteClass::Lead3Ed),
        (0xEEu8, 0xEFu8, ByteClass::Lead3EeEf),
        (0xF0u8, 0xF0u8, ByteClass::Lead4F0),
        (0xF1u8, 0xF3u8, ByteClass::Lead4F1F3),
        (0xF4u8, 0xF4u8, ByteClass::Lead4F4),
        (0xF5u8, 0xFFu8, ByteClass::Invalid),
    ]
}

/// The byte ranges of each class, in increasing order.
fn byte_classes() -> (v: Vec<(u8, u8, ByteClass)>)
    ensures
        v@ == byte_class_table(),
{
    let v = vec![
        (0x00u8, 0x7Fu8, ByteClass::Ascii),
        (0x80u8, 0x8Fu8, ByteClass::ContLow),
        (0x90u8, 0x9Fu8, ByteClass::ContMid),
        (0xA0u8, 0xBFu8, ByteClass::ContHigh),
        (0xC0u8, 0xC1u8, ByteClass::Invalid),
        (0xC2u8, 0xDFu8, ByteClass::Lead2),
        (0xE0u8, 0xE0u8, ByteClass::Lead3E0),
        (0xE1u8, 0xECu8, ByteClass::Lead3E1Ec),
        (0xEDu8, 0xEDu8, ByteClass::Lead3Ed),
        (0xEEu8, 0xEFu8, ByteClass::Lead3EeEf),
        (0xF0u8, 0xF0u8, ByteClass::Lead4F0),
        (0xF1u8, 0xF3u8, ByteClass::Lead4F1F3),
        (0xF4u8, 0xF4u8, ByteClass::Lead4F4),
        (0xF5u8, 0xFFu8, ByteClass::Invalid),
    ];
    assert(v@ =~= byte_class_table());
    v
}

/// The class is one of the lead-byte classes.
pub open spec fn is_lead_class(c: ByteClass) -> bool {
    c is Lead2 || c is Lead3E0 || c is Lead3E1Ec || c is Lead3Ed || c is Lead3EeEf || c is Lead4F0 || c is Lead4F1F3
        || c is Lead4F4
}

/// The class is one of the continuation-byte classes.
pub open spec fn is_cont_class(c: ByteClass) -> bool {
    c is ContLow || c is ContMid || c is ContHigh
}

/// The first byte of class range `k`, or 256 past the last.
pub open spec fn class_start(k: int) -> int {
    if 0 <= k < byte_class_table().len() {
        byte_class_table()[k].0 as int
    } else {
        256
    }
}

/// The class ranges follow each other from 0 to 255, and each class lies
/// where UTF-8 puts bytes of that kind.
proof fn lemma_class_table(k: int)
    requires
        0 <= k < byte_class_table().len(),
    ensures
        class_start(0) == 0,
        class_start(k + 1) == byte_class_table()[k].1 + 1,
        byte_class_table()[k].0 as int == class_start(k),
        byte_class_table()[k].0 <= byte_class_table()[k].1,
        byte_class_table()[k].2 is Ascii ==> byte_class_table()[k].0 == 0 && byte_class_table()[k].1 == 0x7F,
        is_lead_class(byte_class_table()[k].2) ==> 0xC2 <= byte_class_table()[k].0 && byte_class_table()[k].1 <= 0xF4,
        is_cont_class(byte_class_table()[k].2) ==> 0x80 <= byte_class_table()[k].0 && byte_class_table()[k].1 <= 0xBF,
        byte_class_table()[k].2 is Invalid ==> (byte_class_table()[k].0 == 0xC0 && byte_class_table()[k].1 == 0xC1) || (
        byte_class_table()[k].0 == 0xF5 && byte_class_table()[k].1 == 0xFF),
        !(byte_class_table()[k].2 is Ascii) && !is_lead_class(byte_class_table()[k].2) && !is_cont_class(byte_class_table()[k].2)
            ==> byte_class_table()[k].2 is Invalid,
{
    let t = byte_class_table();
    assert(t.len() == 14);
}

/// `e2` keeps the entries of `e1` and may add more.
pub open spec fn extends(e2: Seq<(Seq<usize>, usize)>, e1: Seq<(Seq<usize>, usize)>) -> bool {
    &&& e2.len() >= e1.len()
    &&& forall|i: int| 0 <= i < e1.len() ==> #[trigger] e2[i] == e1[i]
}

/// The ranges of `out` are nonempty.
pub open spec fn nonempty_ranges(out: Seq<(u8, u8, StateId)>) -> bool {
    forall|k: int| 0 <= k < out.len() ==> (#[trigger] out[k]).0 <= out[k].1
}

/// The view of an optional state.
pub open spec fn sink_view(sink: Option<StateId>) -> Option<nat> {
    match sink {
        Some(s) => Some(s@ as nat),
        None => None,
    }
}

proof fn lemma_key_product(p: (nat, DecodeState))
    requires
        p.0 <= usize::MAX,
    ensures
        key_product(product_key(p)) == p,
        product_key(p).len() == 7,
{
    let k = product_key(p);
    assert(k[0] == p.0 as usize);
    match p.1 {
        DecodeState::Pending { code_point_prefix, remaining, min_code_point, next_cont_min, next_cont_max } => {
            assert(k[2] == code_point_prefix as usize);
            assert(k[3] == remaining as usize);
            assert(k[4] == min_code_point as usize);
            assert(k[5] == next_cont_min as usize);
            assert(k[6] == next_cont_max as usize);
        },
        _ => {},
    }
}

/// Whether every range of `ranges` leads to `target`.
fn all_lead_to(ranges: &Vec<(char, char, StateId)>, target: usize) -> (r: bool)
    ensures
        r == forall|j: int| 0 <= j < ranges@.len() ==> (#[trigger] ranges@[j]).2@ == target,
{
    let mut k: usize = 0;
    while k < ranges.len()
        invariant
            k <= ranges@.len(),
            forall|j: int| 0 <= j < k ==> (#[trigger] ranges@[j]).2@ == target,
        decreases ranges@.len() - k,
    {
        if ranges[k].2.id() != target {
            return false;
        }
        k += 1;
    }
    true
}

impl Dfa<char> {
    /// `bd` has one state per entry of `entries`, in order; each entry is the
    /// key of a pair of a state of this automaton and a well-formed decoder
    /// state, written in canonical form, and a state of `bd` accepts exactly
    /// when its decoder is at a boundary in an accepting state.
    pub open spec fn product_registry(&self, bd: &Dfa<u8>, entries: Seq<(Seq<usize>, usize)>, sink: Option<nat>) -> bool {
        &&& bd.wf()
        &&& bd.num_states() == entries.len()
        &&& keys_distinct(entries)
        &&& forall|i: int| 0 <= i < entries.len() ==> (#[trigger] entries[i]).1 == i
        &&& forall|i: int| 0 <= i < entries.len() ==> (#[trigger] entries[i]).0 == product_key(key_product(entries[i].0))
        &&& forall|i: int| 0 <= i < entries.len() ==> key_product((#[trigger] entries[i]).0).0 < self.num_states()
        &&& forall|i: int| 0 <= i < entries.len() ==> decode_wf(key_product((#[trigger] entries[i]).0).1)
        &&& forall|i: int| 0 <= i < entries.len() ==> canon(sink, key_product((#[trigger] entries[i]).0)) == key_product(entries[i].0)
        &&& forall|i: int| 0 <= i < entries.len() ==> #[trigger] bd.accepting(i as nat) == (key_product(entries[i].0).1 is Ready
            && self.accepting(key_product(entries[i].0).0))
        &&& forall|i: int| 0 <= i < entries.len() ==> key_bounded((#[trigger] entries[i]).0, self.num_states() + 0x10001, 7)
    }

    /// The first rejecting state whose transitions all lead back to itself, or
    /// `None` when no state is such a sink.
    fn find_reject_sink(&self) -> (sink: Option<StateId>)
        requires
            self.wf(),
        ensures
            sink matches Some(s) ==> self.is_sink(s@ as nat),
            sink matches Some(s) ==> forall|q: nat| q < s@ ==> !#[trigger] self.is_sink(q),
            sink is None ==> forall|q: nat| q < self.num_states() ==> !#[trigger] self.is_sink(q),
    {
        let mut state_index: usize = 0;
        while state_index < self.transitions.len()
            invariant
                self.wf(),
                state_index <= self.num_states(),
                forall|q: nat| q < state_index ==> !#[trigger] self.is_sink(q),
            decreases self.num_states() - state_index,
        {
            if self.is_reject_sink(state_index) {
                return Some(StateId::from_id(state_index));
            }
            state_index += 1;
        }
        None
    }

    /// Whether state `state_index` rejects and all its transitions lead back to it.
    fn is_reject_sink(&self, state_index: usize) -> (r: bool)
        requires
            self.wf(),
            state_index < self.num_states(),
        ensures
            r == self.is_sink(state_index as nat),
    {
        let ghost q = state_index as nat;
        if self.is_accepting(StateId::from_id(state_index)) {
            return false;
        }
        let ranges = char::ranges(&self.transitions[state_index]);
        if all_lead_to(&ranges, state_index) {
            proof {
                self.lemma_all_back_sink(q, ranges@);
            }
            true
        } else {
            proof {
                let j = choose|j: int| 0 <= j < ranges@.len() && (#[trigger] ranges@[j]).2@ != state_index;
                self.lemma_range_target(q, ranges@, j);
            }
            false
        }
    }

    /// A rejecting state whose listed ranges all lead back to it is a sink.
    proof fn lemma_all_back_sink(&self, q: nat, ranges: Seq<(char, char, StateId)>)
        requires
            self.wf(),
            q < self.num_states(),
            !self.accepting(q),
            listed(ranges, self.table(q)),
            forall|j: int| 0 <= j < ranges.len() ==> (#[trigger] ranges[j]).2@ == q,
        ensures
            self.is_sink(q),
    {
        assert(table_total(self.table(q), self.num_states()));
        assert forall|c: char| #[trigger] self.next(q, c) == q by {
            assert(self.table(q).contains_key(c));
            let j = choose|j: int| 0 <= j < ranges.len() && covers((#[trigger] ranges[j]).0, ranges[j].1, c);
        }
    }

    /// The first symbol of a listed range of `q` leads to the range's target.
    proof fn lemma_range_target(&self, q: nat, ranges: Seq<(char, char, StateId)>, j: int)
        requires
            self.wf(),
            q < self.num_states(),
            listed(ranges, self.table(q)),
            0 <= j < ranges.len(),
        ensures
            self.next(q, ranges[j].0) == ranges[j].2@,
    {
        let c = ranges[j].0;
        assert(covers(ranges[j].0, ranges[j].1, c));
        assert(self.table(q).contains_key(c));
    }

    /// Whether a character whose encoding starts with `lead` can lead from
    /// `state` anywhere but the sink; always, when there is no sink.
    #[verifier::rlimit(60)]
    fn can_transition_on_lead_byte(&self, sink: Option<StateId>, state: StateId, lead: u8) -> (r: bool)
        requires
            self.wf(),
            state@ < self.num_states(),
        ensures
            r == (sink is None || (lead_range_spec(lead) is Some && exists|c: char|
                lead_range_spec(lead).unwrap().0 <= (c as u32) <= lead_range_spec(lead).unwrap().1
                    && #[trigger] self.next(state@ as nat, c) != sink.unwrap()@)),
    {
        let reject_sink = match sink {
            None => {
                return true;
            },
            Some(s) => s,
        };
        let (codepoint_start, codepoint_end) = match lead_byte_codepoint_range(lead) {
            None => {
                return false;
            },
            Some(range) => range,
        };
        let ghost q = state@ as nat;
        let ranges = char::ranges(&self.transitions[state.id()]);
        let mut k: usize = 0;
        while k < ranges.len()
            invariant
                self.wf(),
                q == state@ as nat,
                q < self.num_states(),
                listed(ranges@, self.table(q)),
                k <= ranges@.len(),
                sink == Some(reject_sink),
                lead_range_spec(lead) == Some((codepoint_start, codepoint_end)),
                forall|j: int| 0 <= j < k ==> (#[trigger] ranges@[j]).2@ == reject_sink@ || (ranges@[j].1 as u32)
                    < codepoint_start || codepoint_end < (ranges@[j].0 as u32),
            decreases ranges@.len() - k,
        {
            let (range_lo, range_hi, next_state) = ranges[k];
            if next_state.id() != reject_sink.id() {
                let range_start = range_lo as u32;
                let range_end = range_hi as u32;
                if !(range_end < codepoint_start || codepoint_end < range_start) {
                    proof {
                        self.lemma_range_meets(q, ranges@, k as int, reject_sink@, lead);
                    }
                    return true;
                }
            }
            k += 1;
        }
        proof {
            self.lemma_ranges_avoid(q, ranges@, reject_sink@, codepoint_start, codepoint_end);
        }
        false
    }

    /// A range of `q` that leads elsewhere than `s` and meets the code points
    /// of `lead` holds such a code point that leads from `q` elsewhere than `s`.
    proof fn lemma_range_meets(&self, q: nat, ranges: Seq<(char, char, StateId)>, k: int, s: usize, lead: u8) -> (c: char)
        requires
            self.wf(),
            q < self.num_states(),
            listed(ranges, self.table(q)),
            0 <= k < ranges.len(),
            ranges[k].2@ != s,
            lead_range_spec(lead) is Some,
            !((ranges[k].1 as u32) < lead_range_spec(lead).unwrap().0 || lead_range_spec(lead).unwrap().1
                < (ranges[k].0 as u32)),
        ensures
            lead_range_spec(lead).unwrap().0 <= (c as u32) <= lead_range_spec(lead).unwrap().1,
            self.next(q, c) != s,
    {
        let (lo, hi) = lead_range_spec(lead).unwrap();
        lemma_lead_range_start(lead);
        lemma_char_code(ranges[k].0);
        lemma_char_code(ranges[k].1);
        let c = if lo <= (ranges[k].0 as u32) {
            ranges[k].0
        } else {
            lo as char
        };
        lemma_char_code(c);
        assert((c as u32) == lo || c == ranges[k].0);
        assert(covers(ranges[k].0, ranges[k].1, c));
        assert(self.table(q).contains_key(c));
        assert(self.table(q)[c] == ranges[k].2@);
        c
    }

    /// When every range of `q` that meets `lo..=hi` leads to `s`, every
    /// character with a code in `lo..=hi` leads from `q` to `s`.
    proof fn lemma_ranges_avoid(&self, q: nat, ranges: Seq<(char, char, StateId)>, s: usize, lo: u32, hi: u32)
        requires
            self.wf(),
            q < self.num_states(),
            listed(ranges, self.table(q)),
            forall|j: int| 0 <= j < ranges.len() ==> (#[trigger] ranges[j]).2@ == s || (ranges[j].1 as u32)
                < lo || hi < (ranges[j].0 as u32),
        ensures
            forall|c: char| lo <= (c as u32) <= hi ==> #[trigger] self.next(q, c) == s,
    {
        assert(table_total(self.table(q), self.num_states()));
        assert forall|c: char| lo <= (c as u32) <= hi implies #[trigger] self.next(q, c) == s by {
            assert(self.table(q).contains_key(c));
            let j = choose|j: int| 0 <= j < ranges.len() && covers((#[trigger] ranges[j]).0, ranges[j].1, c);
            assert(self.table(q)[c] == ranges[j].2@);
            lemma_char_code(c);
            lemma_char_code(ranges[j].0);
            lemma_char_code(ranges[j].1);
        }
    }

    /// The state of `bd` for the pair of `state` and `decode_state`, added when
    /// the pair is new: it accepts when the decoder is at a boundary and
    /// `state` accepts.
    fn product_state(
        &self,
        bd: &mut Dfa<u8>,
        product_to_state: &mut IndexMap<Vec<usize>, usize>,
        sink: Ghost<Option<nat>>,
        state: StateId,
        decode_state: DecodeState,
    ) -> (id: StateId)
        requires
            self.wf(),
            self.product_registry(old(bd), key_index_entries(*old(product_to_state)), sink@),
            state@ < self.num_states(),
            decode_wf(decode_state),
            canon(sink@, (state@ as nat, decode_state)) == (state@ as nat, decode_state),
        ensures
            self.product_registry(final(bd), key_index_entries(*final(product_to_state)), sink@),
            key_index_entries(*final(product_to_state)).len() >= key_index_entries(*old(product_to_state)).len(),
            forall|i: int|
                0 <= i < key_index_entries(*old(product_to_state)).len() ==> #[trigger] key_index_entries(
                    *final(product_to_state),
                )[i] == key_index_entries(*old(product_to_state))[i],
            forall|q: nat| q < old(bd).num_states() ==> #[trigger] final(bd).table(q) == old(bd).table(q),
            final(bd).start_spec() == old(bd).start_spec(),
            id@ < key_index_entries(*final(product_to_state)).len(),
            key_product(key_index_entries(*final(product_to_state))[id@ as int].0) == (state@ as nat, decode_state),
    {
        let ghost p = (state@ as nat, decode_state);
        let ghost entries0 = key_index_entries(*product_to_state);
        proof {
            lemma_key_product(p);
        }
        let key = product_key_of(state, decode_state);
        match key_index_get(product_to_state, &key) {
            Some(existing) => {
                proof {
                    let i = choose|i: int| 0 <= i < entries0.len() && entries0[i] == (key@, existing);
                    assert(entries0[i].1 == i);
                }
                StateId::from_id(existing)
            },
            None => {
                let kind = if decode_state == DecodeState::Ready && self.is_accepting(state) {
                    StateKind::Accepting
                } else {
                    StateKind::Rejecting
                };
                let ghost bd0 = *bd;
                let new_state = bd.new_state(kind);
                key_index_insert(product_to_state, key, new_state.id());
                proof {
                    let entries = key_index_entries(*product_to_state);
                    assert(entries == entries0.push((key@, new_state@)));
                    assert(new_state@ == entries0.len());
                    let n = self.num_states();
                    assert(key_bounded(key@, n + 0x10001, 7)) by {
                        assert forall|j: int| 0 <= j < key@.len() implies #[trigger] key@[j] < n + 0x10001 by {
                            if j == 0 {
                            } else {
                                assert(key@[j] == decode_fields(decode_state)[j - 1]);
                            }
                        }
                    }
                    assert forall|i: int| 0 <= i < entries.len() implies #[trigger] bd.accepting(i as nat) == (key_product(
                        entries[i].0,
                    ).1 is Ready && self.accepting(key_product(entries[i].0).0)) by {
                        if i < entries0.len() {
                            assert(entries[i] == entries0[i]);
                            assert(bd.accepting(i as nat) == bd0.accepting(i as nat));
                        }
                    }
                    assert forall|i: int, j: int| 0 <= i < j < entries.len() implies #[trigger] entries[i].0
                        != #[trigger] entries[j].0 by {
                        assert(entries[i] == entries0[i]);
                        if j < entries0.len() {
                            assert(entries[j] == entries0[j]);
                        }
                    }
                    assert forall|i: int| 0 <= i < entries.len() implies {
                        &&& (#[trigger] entries[i]).1 == i
                        &&& entries[i].0 == product_key(key_product(entries[i].0))
                        &&& key_product(entries[i].0).0 < n
                        &&& decode_wf(key_product(entries[i].0).1)
                        &&& canon(sink@, key_product(entries[i].0)) == key_product(entries[i].0)
                        &&& key_bounded(entries[i].0, n + 0x10001, 7)
                    } by {
                        if i < entries0.len() {
                            assert(entries[i] == entries0[i]);
                        }
                    }
                }
                new_state
            },
        }
    }

    /// State `t` of the product stands for the pair that byte `b` leads `cur` to.
    pub open spec fn good_target(&self, entries: Seq<(Seq<usize>, usize)>, cur: (nat, DecodeState), b: u8, t: usize) -> bool {
        &&& t < entries.len()
        &&& self.stands_for(key_product(entries[t as int].0), self.step_product(cur.0, cur.1, b))
    }

    /// Every byte below `done` gets from `out` a state that stands for the
    /// pair that the byte leads `cur` to.
    pub open spec fn out_good(&self, out: Seq<(u8, u8, StateId)>, entries: Seq<(Seq<usize>, usize)>, cur: (nat, DecodeState), done: int) -> bool {
        forall|b: u8|
            (b as int) < done ==> #[trigger] range_lookup(out, b) is Some && self.good_target(
                entries,
                cur,
                b,
                range_lookup(out, b).unwrap(),
            )
    }

    proof fn lemma_out_good_extends(
        &self,
        out: Seq<(u8, u8, StateId)>,
        e1: Seq<(Seq<usize>, usize)>,
        e2: Seq<(Seq<usize>, usize)>,
        cur: (nat, DecodeState),
        done: int,
    )
        requires
            self.out_good(out, e1, cur, done),
            extends(e2, e1),
        ensures
            self.out_good(out, e2, cur, done),
    {
        assert forall|b: u8| (b as int) < done implies #[trigger] range_lookup(out, b) is Some && self.good_target(
            e2,
            cur,
            b,
            range_lookup(out, b).unwrap(),
        ) by {
            assert(e2[range_lookup(out, b).unwrap() as int] == e1[range_lookup(out, b).unwrap() as int]);
        }
    }

    /// A pair stands for itself in canonical form when `sink` is a sink.
    proof fn lemma_canon_stands(&self, sink: Option<nat>, p: (nat, DecodeState))
        requires
            sink matches Some(s) ==> self.is_sink(s),
        ensures
            self.stands_for(canon(sink, p), p),
            canon(sink, canon(sink, p)) == canon(sink, p),
    {
        if let Some(s) = sink {
            if p.0 == s || p.1 is Reject {
                self.lemma_sink_dead(s, DecodeState::Ready);
                if p.0 == s {
                    self.lemma_sink_dead(s, p.1);
                } else {
                    self.lemma_reject_dead(p.0);
                }
            }
        }
    }

    /// Standing for is transitive.
    proof fn lemma_stands_trans(&self, a: (nat, DecodeState), b: (nat, DecodeState), c: (nat, DecodeState))
        requires
            self.stands_for(a, b),
            self.stands_for(b, c),
        ensures
            self.stands_for(a, c),
    {
    }

    /// The transitions of the pair `cur` on the bytes `lo..=hi`, one byte at a
    /// time; when `check_lead` holds, the bytes are lead bytes, and those whose
    /// code points all lead to the sink go to `reject_target`.
    fn byte_transitions(
        &self,
        bd: &mut Dfa<u8>,
        product_to_state: &mut IndexMap<Vec<usize>, usize>,
        sink: Option<StateId>,
        state: StateId,
        decode_state: DecodeState,
        lo: u8,
        hi: u8,
        check_lead: bool,
        reject_target: StateId,
        out: &mut Vec<(u8, u8, StateId)>,
    )
        requires
            self.wf(),
            self.product_registry(old(bd), key_index_entries(*old(product_to_state)), sink_view(sink)),
            sink matches Some(s) ==> self.is_sink(s@ as nat),
            state@ < self.num_states(),
            decode_wf(decode_state),
            lo <= hi,
            check_lead ==> decode_state is Ready && 0xC2 <= lo && hi <= 0xF4,
            reject_target@ < key_index_entries(*old(product_to_state)).len(),
            self.dead(key_product(key_index_entries(*old(product_to_state))[reject_target@ as int].0).0,
                key_product(key_index_entries(*old(product_to_state))[reject_target@ as int].0).1),
            nonempty_ranges(old(out)@),
            self.out_good(old(out)@, key_index_entries(*old(product_to_state)), (state@ as nat, decode_state), lo as int),
        ensures
            self.product_registry(final(bd), key_index_entries(*final(product_to_state)), sink_view(sink)),
            extends(key_index_entries(*final(product_to_state)), key_index_entries(*old(product_to_state))),
            forall|q: nat| q < old(bd).num_states() ==> #[trigger] final(bd).table(q) == old(bd).table(q),
            final(bd).start_spec() == old(bd).start_spec(),
            nonempty_ranges(final(out)@),
            self.out_good(final(out)@, key_index_entries(*final(product_to_state)), (state@ as nat, decode_state), hi + 1),
    {
        let ghost cur = (state@ as nat, decode_state);
        let ghost sv = sink_view(sink);
        let ghost entries_start = key_index_entries(*product_to_state);
        let mut next_byte: u16 = lo as u16;
        while next_byte <= hi as u16
            invariant
                self.wf(),
                self.product_registry(bd, key_index_entries(*product_to_state), sv),
                sv == sink_view(sink),
                sink matches Some(s) ==> self.is_sink(s@ as nat),
                state@ < self.num_states(),
                cur == (state@ as nat, decode_state),
                decode_wf(decode_state),
                lo <= next_byte <= hi + 1,
                check_lead ==> decode_state is Ready && 0xC2 <= lo && hi <= 0xF4,
                extends(key_index_entries(*product_to_state), entries_start),
                reject_target@ < entries_start.len(),
                self.dead(key_product(entries_start[reject_target@ as int].0).0,
                    key_product(entries_start[reject_target@ as int].0).1),
                forall|q: nat| q < old(bd).num_states() ==> #[trigger] bd.table(q) == old(bd).table(q),
                bd.start_spec() == old(bd).start_spec(),
                old(bd).num_states() == entries_start.len(),
                nonempty_ranges(out@),
                self.out_good(out@, key_index_entries(*product_to_state), cur, next_byte as int),
            decreases hi + 1 - next_byte,
        {
            let byte = next_byte as u8;
            let ghost entries0 = key_index_entries(*product_to_state);
            let ghost out0 = out@;
            if check_lead && !self.can_transition_on_lead_byte(sink, state, byte) {
                proof {
                    let s = sink.unwrap()@ as nat;
                    self.lemma_lead_dead(state@ as nat, s, byte);
                    assert(entries0[reject_target@ as int] == entries_start[reject_target@ as int]);
                }
                push_transition(out, byte, byte, reject_target);
                proof {
                    assert forall|b: u8| (b as int) < next_byte + 1 implies #[trigger] range_lookup(out@, b) is Some
                        && self.good_target(entries0, cur, b, range_lookup(out@, b).unwrap()) by {
                        if b != byte {
                            assert(range_lookup(out@, b) == range_lookup(out0, b));
                        }
                    }
                }
            } else {
                let step = decode_step(decode_state, byte);
                let (raw_state, raw_decode) = match step {
                    DecodeStep::Pending(next_decode_state) => (state, next_decode_state),
                    DecodeStep::Complete(ch) => (self.step(state, ch), DecodeState::Ready),
                    DecodeStep::Reject => (self.start, DecodeState::Reject),
                };
                let (next_state, next_decode) = Self::canonical_product(sink, raw_state, raw_decode);
                proof {
                    lemma_decode_wf_step(decode_state, byte);
                    let raw = (raw_state@ as nat, raw_decode);
                    self.lemma_canon_stands(sv, raw);
                    if step is Reject {
                        self.lemma_reject_dead(raw_state@ as nat);
                        self.lemma_reject_dead(state@ as nat);
                    }
                    assert(self.stands_for(raw, self.step_product(cur.0, cur.1, byte)));
                    self.lemma_stands_trans(canon(sv, raw), raw, self.step_product(cur.0, cur.1, byte));
                    if let Some(s) = sink {
                        assert(s@ < self.num_states());
                    }
                }
                let target = self.product_state(bd, product_to_state, Ghost(sv), next_state, next_decode);
                let ghost entries1 = key_index_entries(*product_to_state);
                proof {
                    self.lemma_out_good_extends(out0, entries0, entries1, cur, next_byte as int);
                }
                push_transition(out, byte, byte, target);
                proof {
                    assert forall|b: u8| (b as int) < next_byte + 1 implies #[trigger] range_lookup(out@, b) is Some
                        && self.good_target(entries1, cur, b, range_lookup(out@, b).unwrap()) by {
                        if b != byte {
                            assert(range_lookup(out@, b) == range_lookup(out0, b));
                        }
                    }
                }
            }
            next_byte = next_byte + 1;
        }
    }

    /// The transitions of `state`, at a character boundary, on the ASCII
    /// bytes: each range of its transitions, cut to the ASCII bytes, leads to
    /// the pair of its next state and a boundary.
    #[verifier::rlimit(80)]
    fn ascii_transitions(
        &self,
        bd: &mut Dfa<u8>,
        product_to_state: &mut IndexMap<Vec<usize>, usize>,
        sink: Option<StateId>,
        state: StateId,
        out: &mut Vec<(u8, u8, StateId)>,
    )
        requires
            self.wf(),
            self.product_registry(old(bd), key_index_entries(*old(product_to_state)), sink_view(sink)),
            sink matches Some(s) ==> self.is_sink(s@ as nat),
            state@ < self.num_states(),
            nonempty_ranges(old(out)@),
        ensures
            self.product_registry(final(bd), key_index_entries(*final(product_to_state)), sink_view(sink)),
            extends(key_index_entries(*final(product_to_state)), key_index_entries(*old(product_to_state))),
            forall|q: nat| q < old(bd).num_states() ==> #[trigger] final(bd).table(q) == old(bd).table(q),
            final(bd).start_spec() == old(bd).start_spec(),
            nonempty_ranges(final(out)@),
            self.out_good(final(out)@, key_index_entries(*final(product_to_state)), (state@ as nat, DecodeState::Ready), 0x80),
    {
        let ghost cur = (state@ as nat, DecodeState::Ready);
        let ghost sv = sink_view(sink);
        let ghost q = state@ as nat;
        let ghost entries_start = key_index_entries(*product_to_state);
        let ranges = char::ranges(&self.transitions[state.id()]);
        proof {
            assert(table_total(self.table(q), self.num_states()));
        }
        let mut k: usize = 0;
        while k < ranges.len()
            invariant
                self.wf(),
                self.product_registry(bd, key_index_entries(*product_to_state), sv),
                sv == sink_view(sink),
                sink matches Some(s) ==> self.is_sink(s@ as nat),
                q == state@,
                q < self.num_states(),
                cur == (q, DecodeState::Ready),
                listed(ranges@, self.table(q)),
                table_total(self.table(q), self.num_states()),
                k <= ranges@.len(),
                extends(key_index_entries(*product_to_state), entries_start),
                forall|p: nat| p < old(bd).num_states() ==> #[trigger] bd.table(p) == old(bd).table(p),
                bd.start_spec() == old(bd).start_spec(),
                old(bd).num_states() == entries_start.len(),
                nonempty_ranges(out@),
                forall|b: u8|
                    b <= 0x7F && (exists|j: int| 0 <= j < k && covers((#[trigger] ranges@[j]).0, ranges@[j].1, (b as u32) as char))
                        ==> #[trigger] range_lookup(out@, b) is Some && self.good_target(
                        key_index_entries(*product_to_state),
                        cur,
                        b,
                        range_lookup(out@, b).unwrap(),
                    ),
            decreases ranges@.len() - k,
        {
            let (range_lo, range_hi, next_char_state) = ranges[k];
            let start = range_lo as u32;
            let range_end = range_hi as u32;
            let end = if range_end < 0x7F {
                range_end
            } else {
                0x7F
            };
            let ghost entries0 = key_index_entries(*product_to_state);
            let ghost out0 = out@;
            if start <= end {
                proof {
                    let lo = ranges@[k as int].0;
                    assert(covers(lo, lo, lo));
                    assert(covers(ranges@[k as int].0, ranges@[k as int].1, lo));
                    assert(self.table(q).contains_key(lo));
                    assert(next_char_state@ < self.num_states());
                    if let Some(s) = sink {
                        assert(s@ < self.num_states());
                    }
                }
                let target = self.product_state(bd, product_to_state, Ghost(sv), next_char_state, DecodeState::Ready);
                let ghost entries1 = key_index_entries(*product_to_state);
                push_transition(out, start as u8, end as u8, target);
                proof {
                    assert forall|b: u8|
                        b <= 0x7F && (exists|j: int| 0 <= j < k + 1 && covers((#[trigger] ranges@[j]).0, ranges@[j].1, (b as u32) as char))
                            implies #[trigger] range_lookup(out@, b) is Some && self.good_target(
                            entries1,
                            cur,
                            b,
                            range_lookup(out@, b).unwrap(),
                        ) by {
                        let c = (b as u32) as char;
                        lemma_char_code(c);
                        lemma_char_code(range_lo);
                        lemma_char_code(range_hi);
                        if start <= b <= end {
                            assert(covers(range_lo, range_hi, c));
                            assert(ranges@[k as int] == (range_lo, range_hi, next_char_state));
                            assert(self.table(q).contains_key(c));
                            assert(self.table(q)[c] == next_char_state@);
                            assert(decode_step_spec(DecodeState::Ready, b) == DecodeStep::Complete(c));
                        } else {
                            assert(range_lookup(out@, b) == range_lookup(out0, b));
                            let j = choose|j: int| 0 <= j < k + 1 && covers((#[trigger] ranges@[j]).0, ranges@[j].1, c);
                            assert(j != k);
                            assert(entries1[range_lookup(out0, b).unwrap() as int] == entries0[range_lookup(out0, b).unwrap() as int]);
                        }
                    }
                }
            } else {
                proof {
                    assert forall|b: u8|
                        b <= 0x7F && (exists|j: int| 0 <= j < k + 1 && covers((#[trigger] ranges@[j]).0, ranges@[j].1, (b as u32) as char))
                            implies #[trigger] range_lookup(out@, b) is Some && self.good_target(
                            entries0,
                            cur,
                            b,
                            range_lookup(out@, b).unwrap(),
                        ) by {
                        let c = (b as u32) as char;
                        lemma_char_code(c);
                        lemma_char_code(range_lo);
                        lemma_char_code(range_hi);
                        assert(ranges@[k as int] == (range_lo, range_hi, next_char_state));
                        let j = choose|j: int| 0 <= j < k + 1 && covers((#[trigger] ranges@[j]).0, ranges@[j].1, c);
                        assert(j != k);
                    }
                }
            }
            k += 1;
        }
        proof {
            self.lemma_ascii_covered(q, ranges@, out@, key_index_entries(*product_to_state), cur);
        }
    }

    proof fn lemma_ascii_covered(
        &self,
        q: nat,
        ranges: Seq<(char, char, StateId)>,
        out: Seq<(u8, u8, StateId)>,
        entries: Seq<(Seq<usize>, usize)>,
        cur: (nat, DecodeState),
    )
        requires
            listed(ranges, self.table(q)),
            table_total(self.table(q), self.num_states()),
            forall|b: u8|
                b <= 0x7F && (exists|j: int| 0 <= j < ranges.len() && covers((#[trigger] ranges[j]).0, ranges[j].1, (b as u32) as char))
                    ==> #[trigger] range_lookup(out, b) is Some && self.good_target(entries, cur, b, range_lookup(out, b).unwrap()),
        ensures
            self.out_good(out, entries, cur, 0x80),
    {
        assert forall|b: u8| (b as int) < 0x80 implies #[trigger] range_lookup(out, b) is Some && self.good_target(
            entries,
            cur,
            b,
            range_lookup(out, b).unwrap(),
        ) by {
            let c = (b as u32) as char;
            assert(self.table(q).contains_key(c));
            let j = choose|j: int| 0 <= j < ranges.len() && covers((#[trigger] ranges[j]).0, ranges[j].1, c);
        }
    }

    /// After pushing `lo..=hi` to a target that is good for each of those bytes,
    /// the bytes up to `hi` are good.
    proof fn lemma_push_good(
        &self,
        out0: Seq<(u8, u8, StateId)>,
        out: Seq<(u8, u8, StateId)>,
        entries: Seq<(Seq<usize>, usize)>,
        cur: (nat, DecodeState),
        lo: u8,
        hi: u8,
        t: StateId,
    )
        requires
            self.out_good(out0, entries, cur, lo as int),
            forall|b: u8| #[trigger] range_lookup(out, b) == if lo <= b <= hi {
                Some(t@)
            } else {
                range_lookup(out0, b)
            },
            forall|b: u8| lo <= b <= hi ==> #[trigger] self.good_target(entries, cur, b, t@),
        ensures
            self.out_good(out, entries, cur, hi + 1),
    {
        assert forall|b: u8| (b as int) < hi + 1 implies #[trigger] range_lookup(out, b) is Some && self.good_target(
            entries,
            cur,
            b,
            range_lookup(out, b).unwrap(),
        ) by {
            if lo <= b <= hi {
                assert(self.good_target(entries, cur, b, t@));
            }
        }
    }

    /// The transitions of the pair of `state` and `decode_state` on every
    /// byte, class by class.
    #[verifier::rlimit(80)]
    fn product_transitions(
        &self,
        bd: &mut Dfa<u8>,
        product_to_state: &mut IndexMap<Vec<usize>, usize>,
        sink: Option<StateId>,
        state: StateId,
        decode_state: DecodeState,
        reject_target: StateId,
    ) -> (out: Vec<(u8, u8, StateId)>)
        requires
            self.wf(),
            self.product_registry(old(bd), key_index_entries(*old(product_to_state)), sink_view(sink)),
            sink matches Some(s) ==> self.is_sink(s@ as nat),
            state@ < self.num_states(),
            decode_wf(decode_state),
            canon(sink_view(sink), (state@ as nat, decode_state)) == (state@ as nat, decode_state),
            reject_target@ < key_index_entries(*old(product_to_state)).len(),
            self.dead(key_product(key_index_entries(*old(product_to_state))[reject_target@ as int].0).0,
                key_product(key_index_entries(*old(product_to_state))[reject_target@ as int].0).1),
        ensures
            self.product_registry(final(bd), key_index_entries(*final(product_to_state)), sink_view(sink)),
            extends(key_index_entries(*final(product_to_state)), key_index_entries(*old(product_to_state))),
            forall|q: nat| q < old(bd).num_states() ==> #[trigger] final(bd).table(q) == old(bd).table(q),
            final(bd).start_spec() == old(bd).start_spec(),
            self.out_good(out@, key_index_entries(*final(product_to_state)), (state@ as nat, decode_state), 256),
    {
        let ghost cur = (state@ as nat, decode_state);
        let ghost sv = sink_view(sink);
        let ghost entries_start = key_index_entries(*product_to_state);
        let classes = byte_classes();
        let mut out: Vec<(u8, u8, StateId)> = Vec::new();
        let mut k: usize = 0;
        while k < classes.len()
            invariant
                self.wf(),
                self.product_registry(bd, key_index_entries(*product_to_state), sv),
                sv == sink_view(sink),
                sink matches Some(s) ==> self.is_sink(s@ as nat),
                state@ < self.num_states(),
                cur == (state@ as nat, decode_state),
                decode_wf(decode_state),
                canon(sv, cur) == cur,
                classes@ == byte_class_table(),
                k <= classes@.len(),
                extends(key_index_entries(*product_to_state), entries_start),
                reject_target@ < entries_start.len(),
                self.dead(key_product(entries_start[reject_target@ as int].0).0,
                    key_product(entries_start[reject_target@ as int].0).1),
                forall|q: nat| q < old(bd).num_states() ==> #[trigger] bd.table(q) == old(bd).table(q),
                bd.start_spec() == old(bd).start_spec(),
                old(bd).num_states() == entries_start.len(),
                nonempty_ranges(out@),
                self.out_good(out@, key_index_entries(*product_to_state), cur, class_start(k as int)),
            decreases classes@.len() - k,
        {
            let (lo, hi, class) = classes[k];
            proof {
                lemma_class_table(k as int);
            }
            let (cur_state, cur_decode) = Self::canonical_product(sink, state, decode_state);
            let ghost entries0 = key_index_entries(*product_to_state);
            let ghost out0 = out@;
            proof {
                assert(entries0[reject_target@ as int] == entries_start[reject_target@ as int]);
            }
            let reject_all = match cur_decode {
                DecodeState::Reject => true,
                DecodeState::Ready => match class {
                    ByteClass::ContLow | ByteClass::ContMid | ByteClass::ContHigh | ByteClass::Invalid => true,
                    _ => false,
                },
                DecodeState::Pending { .. } => match class {
                    ByteClass::ContLow | ByteClass::ContMid | ByteClass::ContHigh => false,
                    _ => true,
                },
            };
            if reject_all {
                push_transition(&mut out, lo, hi, reject_target);
                proof {
                    assert forall|b: u8| lo <= b <= hi implies #[trigger] self.good_target(entries0, cur, b, reject_target@) by {
                        assert(decode_step_spec(decode_state, b) is Reject);
                        self.lemma_reject_dead(state@ as nat);
                    }
                    self.lemma_push_good(out0, out@, entries0, cur, lo, hi, reject_target);
                }
            } else if cur_decode == DecodeState::Ready && class == ByteClass::Ascii {
                self.ascii_transitions(bd, product_to_state, sink, cur_state, &mut out);
            } else {
                self.byte_transitions(bd, product_to_state, sink, cur_state, cur_decode, lo, hi,
                    cur_decode == DecodeState::Ready, reject_target, &mut out);
            }
            k += 1;
        }
        out
    }

    /// Reading bytes from a state of the product accepts exactly when its pair
    /// accepts them.
    proof fn lemma_utf8_run(&self, bd: &Dfa<u8>, entries: Seq<(Seq<usize>, usize)>, i: nat, bs: Seq<u8>)
        requires
            bd.wf(),
            bd.num_states() == entries.len(),
            i < entries.len(),
            forall|j: int| 0 <= j < entries.len() ==> #[trigger] bd.accepting(j as nat) == (key_product(entries[j].0).1 is Ready
                && self.accepting(key_product(entries[j].0).0)),
            forall|j: nat, c: u8| j < entries.len() ==> self.good_target(entries, key_product(entries[j as int].0), c, #[trigger] bd.table(j)[c]),
        ensures
            bd.accepting(bd.run(i, bs)) == self.decoded_accepts(key_product(entries[i as int].0).0, key_product(entries[i as int].0).1, bs),
        decreases bs.len(),
    {
        let p = key_product(entries[i as int].0);
        if bs.len() == 0 {
            let j = i as int;
            assert(bd.accepting(j as nat) == (key_product(entries[j].0).1 is Ready && self.accepting(key_product(entries[j].0).0)));
        } else {
            let c = bs[0];
            let rest = bs.drop_first();
            assert(bs =~= seq![c] + rest);
            bd.lemma_run_prepend(i, c, rest);
            assert(self.good_target(entries, p, c, bd.table(i)[c]));
            let j = bd.next(i, c);
            self.lemma_utf8_run(bd, entries, j, rest);
            self.lemma_decoded_step(p.0, p.1, bs);
            let pj = key_product(entries[j as int].0);
            let st = self.step_product(p.0, p.1, c);
            if pj != st {
                assert(!self.decoded_accepts(pj.0, pj.1, rest));
                assert(!self.decoded_accepts(st.0, st.1, rest));
            }
        }
    }

    /// The automaton over bytes that accepts exactly the valid UTF-8 encodings
    /// of the words that this automaton accepts.
    pub fn to_utf8_dfa(&self) -> (dfa: Dfa<u8>)
        requires
            self.wf(),
        ensures
            dfa.wf(),
            forall|bytes: Seq<u8>| #[trigger] dfa.accepts(bytes) == (valid_utf8(bytes) && self.accepts(decode_utf8(bytes))),
    {
        // Each state stands for a state of this automaton together with a
        // UTF-8 decoder state; after a lead byte whose code points all lead to
        // a rejecting sink, the byte automaton goes straight to the sink.
        let start_kind = self.state_kind(self.start);
        let mut utf8_dfa = Dfa::<u8>::new(start_kind);
        let mut product_to_state = key_index_new();
        let reject_sink = self.find_reject_sink();
        let ghost sv = sink_view(reject_sink);
        let ghost n = self.num_states();
        let (start_state, start_decode) = Self::canonical_product(reject_sink, self.start, DecodeState::Ready);
        let start_key = product_key_of(start_state, start_decode);
        key_index_insert(&mut product_to_state, start_key, utf8_dfa.start_state().id());
        let ghost start_pair = (self.start_spec(), DecodeState::Ready);
        proof {
            let entries = key_index_entries(product_to_state);
            assert(entries == seq![(start_key@, 0usize)]);
            lemma_key_product(start_pair);
            assert(key_bounded(start_key@, n + 0x10001, 7)) by {
                assert forall|j: int| 0 <= j < start_key@.len() implies #[trigger] start_key@[j] < n + 0x10001 by {
                    if j > 0 {
                        assert(start_key@[j] == decode_fields(DecodeState::Ready)[j - 1]);
                    }
                }
            }
            assert(utf8_dfa.accepting(0) == self.accepting(self.start_spec()));
            assert(self.product_registry(&utf8_dfa, entries, sv));
            lemma_distinct_keys_bounded(entries, n + 0x10001, 7);
        }
        let ghost space = key_space((n + 0x10001 + 1) as nat, 7);
        let mut cursor: usize = 0;
        loop
            invariant
                self.wf(),
                n == self.num_states(),
                sv == sink_view(reject_sink),
                reject_sink matches Some(s) ==> self.is_sink(s@ as nat),
                self.product_registry(&utf8_dfa, key_index_entries(product_to_state), sv),
                utf8_dfa.start_spec() == 0,
                key_index_entries(product_to_state).len() >= 1,
                key_product(key_index_entries(product_to_state)[0].0) == start_pair,
                start_pair == (self.start_spec(), DecodeState::Ready),
                cursor <= key_index_entries(product_to_state).len(),
                key_index_entries(product_to_state).len() <= space,
                space == key_space((n + 0x10001 + 1) as nat, 7),
                forall|j: nat, c: u8|
                    j < cursor ==> self.good_target(
                        key_index_entries(product_to_state),
                        key_product(key_index_entries(product_to_state)[j as int].0),
                        c,
                        #[trigger] utf8_dfa.table(j)[c],
                    ),
            ensures
                self.product_registry(&utf8_dfa, key_index_entries(product_to_state), sv),
                utf8_dfa.start_spec() == 0,
                key_product(key_index_entries(product_to_state)[0].0) == start_pair,
                forall|j: nat, c: u8|
                    j < key_index_entries(product_to_state).len() ==> self.good_target(
                        key_index_entries(product_to_state),
                        key_product(key_index_entries(product_to_state)[j as int].0),
                        c,
                        #[trigger] utf8_dfa.table(j)[c],
                    ),
            decreases space - cursor,
        {
            let ghost entries0 = key_index_entries(product_to_state);
            let entry = key_index_get_index(&product_to_state, cursor);
            let (key, state_id) = match entry {
                Some(e) => e,
                None => {
                    break;
                },
            };
            proof {
                assert(entries0[cursor as int].1 == cursor);
                lemma_key_product(key_product(entries0[cursor as int].0));
                assert(key@ == product_key(key_product(key@)));
            }
            let (state, decode_state) = product_of_key(&key);
            let ghost cur = (state@ as nat, decode_state);
            let (reject_state, reject_decode) = Self::canonical_product(reject_sink, self.start, DecodeState::Reject);
            proof {
                self.lemma_canon_stands(sv, (self.start_spec(), DecodeState::Reject));
                self.lemma_reject_dead(self.start_spec());
                if let Some(s) = reject_sink {
                    assert(s@ < n);
                }
            }
            let reject_target = self.product_state(&mut utf8_dfa, &mut product_to_state, Ghost(sv), reject_state, reject_decode);
            let ghost entries1 = key_index_entries(product_to_state);
            let ghost bd1 = utf8_dfa;
            let out = self.product_transitions(&mut utf8_dfa, &mut product_to_state, reject_sink, state, decode_state, reject_target);
            let ghost entries2 = key_index_entries(product_to_state);
            let ghost out_seq = out@;
            let table = u8::from_ranges(out);
            proof {
                let m = u8::table_view(table);
                assert forall|c: u8| #[trigger] m.contains_key(c) by {
                    assert(range_lookup(out_seq, c) is Some);
                }
                assert forall|c: u8| #[trigger] m[c] < utf8_dfa.num_states() by {
                    assert(range_lookup(out_seq, c) is Some);
                }
            }
            let ghost bd2 = utf8_dfa;
            utf8_dfa.set_transitions(StateId::from_id(state_id), table);
            proof {
                let entries = key_index_entries(product_to_state);
                assert(entries == entries2);
                assert(entries2[cursor as int] == entries0[cursor as int]);
                assert forall|j: nat, c: u8| j < cursor + 1 implies self.good_target(
                    entries,
                    key_product(entries[j as int].0),
                    c,
                    #[trigger] utf8_dfa.table(j)[c],
                ) by {
                    if j < cursor {
                        assert(utf8_dfa.table(j) == bd2.table(j));
                        assert(bd2.table(j) == bd1.table(j));
                        assert(entries[j as int] == entries0[j as int]);
                        let t = utf8_dfa.table(j)[c];
                        assert(self.good_target(entries0, key_product(entries0[j as int].0), c, t));
                        assert(entries[t as int] == entries0[t as int]);
                    } else {
                        assert(range_lookup(out_seq, c) is Some);
                    }
                }
                lemma_distinct_keys_bounded(entries, n + 0x10001, 7);
            }
            cursor += 1;
        }
        proof {
            let entries = key_index_entries(product_to_state);
            assert forall|bytes: Seq<u8>| #[trigger] utf8_dfa.accepts(bytes) == (valid_utf8(bytes) && self.accepts(
                decode_utf8(bytes),
            )) by {
                self.lemma_utf8_run(&utf8_dfa, entries, 0, bytes);
                self.lemma_decoded_utf8(self.start_spec(), bytes);
            }
        }
        utf8_dfa
    }

    /// Writes the pair of `state` and `decode_state` in canonical form.
    fn canonical_product(sink: Option<StateId>, state: StateId, decode_state: DecodeState) -> (r: (StateId, DecodeState))
        ensures
            (r.0@ as nat, r.1) == canon(sink_view(sink), (state@ as nat, decode_state)),
    {
        match sink {
            Some(reject_sink) => {
                if state.id() == reject_sink.id() || decode_state == DecodeState::Reject {
                    (reject_sink, DecodeState::Ready)
                } else {
                    (state, decode_state)
                }
            },
            None => (state, decode_state),
        }
    }
}

/// The key of the pair of `state` and `decode_state`.
fn product_key_of(state: StateId, decode_state: DecodeState) -> (k: Vec<usize>)
    ensures
        k@ == product_key((state@ as nat, decode_state)),
{
    let fields: (usize, usize, usize, usize, usize, usize) = match decode_state {
        DecodeState::Ready => (0, 0, 0, 0, 0, 0),
        DecodeState::Pending { code_point_prefix, remaining, min_code_point, next_cont_min, next_cont_max } => (
            1,
            code_point_prefix as usize,
            remaining as usize,
            min_code_point as usize,
            next_cont_min as usize,
            next_cont_max as usize,
        ),
        DecodeState::Reject => (2, 0, 0, 0, 0, 0),
    };
    let mut k: Vec<usize> = Vec::new();
    k.push(state.id());
    k.push(fields.0);
    k.push(fields.1);
    k.push(fields.2);
    k.push(fields.3);
    k.push(fields.4);
    k.push(fields.5);
    assert(k@ =~= product_key((state@ as nat, decode_state)));
    k
}

/// The pair of a state and a decoder state that a key of the product stands for.
fn product_of_key(key: &Vec<usize>) -> (r: (StateId, DecodeState))
    requires
        key@.len() == 7,
    ensures
        (r.0@ as nat, r.1) == key_product(key@),
{
    let tag = key[1];
    let decode_state = if tag == 0 {
        DecodeState::Ready
    } else if tag == 1 {
        DecodeState::Pending {
            code_point_prefix: key[2] as u32,
            remaining: key[3] as u8,
            min_code_point: key[4] as u32,
            next_cont_min: key[5] as u8,
            next_cont_max: key[6] as u8,
        }
    } else {
        DecodeState::Reject
    };
    (StateId::from_id(key[0]), decode_state)
}

/// Extends the byte ranges `out` with `lo..=hi` leading to `target`, merging
/// it into the last range when that range ends just before and leads to the
/// same state.
fn push_transition(out: &mut Vec<(u8, u8, StateId)>, lo: u8, hi: u8, target: StateId)
    requires
        lo <= hi,
        forall|k: int| 0 <= k < old(out)@.len() ==> (#[trigger] old(out)@[k]).0 <= old(out)@[k].1,
    ensures
        forall|k: int| 0 <= k < final(out)@.len() ==> (#[trigger] final(out)@[k]).0 <= final(out)@[k].1,
        forall|b: u8| #[trigger] range_lookup(final(out)@, b) == if lo <= b <= hi {
            Some(target@)
        } else {
            range_lookup(old(out)@, b)
        },
{
    let len = out.len();
    if len > 0 {
        let (previous_lo, previous_hi, previous_target) = out[len - 1];
        if previous_target.id() == target.id() && lo == previous_hi.saturating_add(1) {
            let ghost before = out@;
            out.set(len - 1, (previous_lo, hi, previous_target));
            proof {
                assert(before[len - 1].0 <= before[len - 1].1);
                assert forall|k: int| 0 <= k < out@.len() implies (#[trigger] out@[k]).0 <= out@[k].1 by {
                    if k < len - 1 {
                        assert(out@[k] == before[k]);
                    }
                }
                assert(out@.drop_last() =~= before.drop_last());
                assert(hi >= previous_hi && lo <= previous_hi + 1);
                assert(out@.last() == (previous_lo, hi, previous_target));
                assert(before.last() == (previous_lo, previous_hi, previous_target));
                assert forall|b: u8| #[trigger] range_lookup(out@, b) == if lo <= b <= hi {
                    Some(target@)
                } else {
                    range_lookup(before, b)
                } by {
                    if previous_lo <= b <= hi {
                        assert(covers(out@.last().0, out@.last().1, b));
                        assert(range_lookup(out@, b) == Some(previous_target@));
                        if !(lo <= b <= hi) {
                            assert(covers(before.last().0, before.last().1, b));
                        }
                    } else {
                        assert(!covers(out@.last().0, out@.last().1, b));
                        assert(!covers(before.last().0, before.last().1, b));
                        assert(range_lookup(out@, b) == range_lookup(out@.drop_last(), b));
                        assert(range_lookup(before, b) == range_lookup(before.drop_last(), b));
                    }
                }
            }
            return;
        }
    }
    let ghost before = out@;
    out.push((lo, hi, target));
    proof {
        assert(out@.drop_last() =~= before);
        assert forall|k: int| 0 <= k < out@.len() implies (#[trigger] out@[k]).0 <= out@[k].1 by {
            if k < before.len() {
                assert(out@[k] == before[k]);
            }
        }
    }
}

} // verus!
