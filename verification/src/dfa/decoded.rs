use vstd::prelude::*;
use vstd::utf8::{valid_utf8, decode_utf8, valid_first_scalar, decode_first_scalar, pop_first_scalar};
use super::Dfa;
use super::decode::{
    DecodeState, DecodeStep, decode_step_spec, lemma_width_1, lemma_width_2, lemma_width_3, lemma_width_4,
    lead_range_spec, lemma_lead_range_2, lemma_lead_range_3, lemma_lead_range_4,
};

verus! {

impl Dfa<char> {
    /// Reading the bytes `rest` with the decoder at `d`, from state `q` of this
    /// automaton, which steps on each character that the decoder completes,
    /// the decoder ends at a character boundary in an accepting state.
    pub open spec fn decoded_accepts(&self, q: nat, d: DecodeState, rest: Seq<u8>) -> bool
        decreases rest.len(),
    {
        if rest.len() == 0 {
            d is Ready && self.accepting(q)
        } else {
            match decode_step_spec(d, rest[0]) {
                DecodeStep::Pending(d2) => self.decoded_accepts(q, d2, rest.drop_first()),
                DecodeStep::Complete(c) => self.decoded_accepts(self.next(q, c), DecodeState::Ready, rest.drop_first()),
                DecodeStep::Reject => false,
            }
        }
    }

    /// The state and decoder after byte `b` from `(q, d)`: the decoder's step,
    /// with the automaton stepping on a completed character.
    pub open spec fn step_product(&self, q: nat, d: DecodeState, b: u8) -> (nat, DecodeState) {
        match decode_step_spec(d, b) {
            DecodeStep::Pending(d2) => (q, d2),
            DecodeStep::Complete(c) => (self.next(q, c), DecodeState::Ready),
            DecodeStep::Reject => (q, DecodeState::Reject),
        }
    }

    /// No bytes lead from `(q, d)` to acceptance.
    pub open spec fn dead(&self, q: nat, d: DecodeState) -> bool {
        forall|rest: Seq<u8>| !#[trigger] self.decoded_accepts(q, d, rest)
    }

    /// `p1` can stand for `p2`: they are the same, or both dead.
    pub open spec fn stands_for(&self, p1: (nat, DecodeState), p2: (nat, DecodeState)) -> bool {
        p1 == p2 || (self.dead(p1.0, p1.1) && self.dead(p2.0, p2.1))
    }

    /// A rejecting state that every character leads back to.
    pub open spec fn is_sink(&self, s: nat) -> bool {
        &&& s < self.num_states()
        &&& !self.accepting(s)
        &&& forall|c: char| #[trigger] self.next(s, c) == s
    }

    /// Reading a byte moves to the stepped state and decoder.
    pub proof fn lemma_decoded_step(&self, q: nat, d: DecodeState, bs: Seq<u8>)
        requires
            bs.len() > 0,
        ensures
            self.decoded_accepts(q, d, bs) == self.decoded_accepts(
                self.step_product(q, d, bs[0]).0,
                self.step_product(q, d, bs[0]).1,
                bs.drop_first(),
            ),
    {
        if decode_step_spec(d, bs[0]) is Reject {
            self.lemma_reject_dead(q);
            assert(!self.decoded_accepts(q, DecodeState::Reject, bs.drop_first()));
        }
    }

    /// A rejecting decoder never accepts.
    pub proof fn lemma_reject_dead(&self, q: nat)
        ensures
            self.dead(q, DecodeState::Reject),
    {
        assert forall|rest: Seq<u8>| !#[trigger] self.decoded_accepts(q, DecodeState::Reject, rest) by {
        }
    }

    /// From a sink nothing is accepted, whatever the decoder.
    pub proof fn lemma_sink_dead(&self, s: nat, d: DecodeState)
        requires
            self.is_sink(s),
        ensures
            self.dead(s, d),
    {
        assert forall|rest: Seq<u8>| !#[trigger] self.decoded_accepts(s, d, rest) by {
            self.lemma_sink_rejects(s, d, rest);
        }
    }

    proof fn lemma_sink_rejects(&self, s: nat, d: DecodeState, rest: Seq<u8>)
        requires
            self.is_sink(s),
        ensures
            !self.decoded_accepts(s, d, rest),
        decreases rest.len(),
    {
        if rest.len() > 0 {
            match decode_step_spec(d, rest[0]) {
                DecodeStep::Pending(d2) => self.lemma_sink_rejects(s, d2, rest.drop_first()),
                DecodeStep::Complete(c) => {
                    assert(self.next(s, c) == s);
                    self.lemma_sink_rejects(s, DecodeState::Ready, rest.drop_first());
                },
                DecodeStep::Reject => {},
            }
        }
    }

    /// After a lead byte whose every code point leads from `q` to the sink `s`,
    /// nothing is accepted.
    #[verifier::rlimit(40)]
    pub proof fn lemma_lead_dead(&self, q: nat, s: nat, b: u8)
        requires
            self.is_sink(s),
            0xC2 <= b <= 0xF4,
            lead_range_spec(b) is Some,
            forall|c: char|
                lead_range_spec(b).unwrap().0 <= (c as u32) <= lead_range_spec(b).unwrap().1
                    ==> #[trigger] self.next(q, c) == s,
        ensures
            self.dead(self.step_product(q, DecodeState::Ready, b).0, self.step_product(q, DecodeState::Ready, b).1),
    {
        let d1 = decode_step_spec(DecodeState::Ready, b)->Pending_0;
        assert(self.step_product(q, DecodeState::Ready, b) == (q, d1));
        self.lemma_sink_dead(s, DecodeState::Ready);
        assert forall|rest: Seq<u8>| !#[trigger] self.decoded_accepts(q, d1, rest) by {
            if rest.len() > 0 {
                let b1 = rest[0];
                let r1 = rest.drop_first();
                if decode_step_spec(d1, b1) is Complete {
                    lemma_lead_range_2(b, b1);
                    let c = decode_step_spec(d1, b1)->Complete_0;
                    assert(self.decoded_accepts(q, d1, rest) == self.decoded_accepts(self.next(q, c), DecodeState::Ready, r1));
                    assert(self.next(q, c) == s);
                    assert(!self.decoded_accepts(s, DecodeState::Ready, r1));
                } else if decode_step_spec(d1, b1) is Pending {
                    let d2 = decode_step_spec(d1, b1)->Pending_0;
                    assert(self.decoded_accepts(q, d1, rest) == self.decoded_accepts(q, d2, r1));
                    if r1.len() > 0 {
                        let b2 = r1[0];
                        let r2 = r1.drop_first();
                        if decode_step_spec(d2, b2) is Complete {
                            lemma_lead_range_3(b, b1, b2);
                            let c = decode_step_spec(d2, b2)->Complete_0;
                            assert(self.decoded_accepts(q, d2, r1) == self.decoded_accepts(self.next(q, c), DecodeState::Ready, r2));
                            assert(self.next(q, c) == s);
                            assert(!self.decoded_accepts(s, DecodeState::Ready, r2));
                        } else if decode_step_spec(d2, b2) is Pending {
                            let d3 = decode_step_spec(d2, b2)->Pending_0;
                            assert(self.decoded_accepts(q, d2, r1) == self.decoded_accepts(q, d3, r2));
                            if r2.len() > 0 {
                                let b3 = r2[0];
                                let r3 = r2.drop_first();
                                if decode_step_spec(d3, b3) is Complete {
                                    lemma_lead_range_4(b, b1, b2, b3);
                                    let c = decode_step_spec(d3, b3)->Complete_0;
                                    assert(self.decoded_accepts(q, d3, r2) == self.decoded_accepts(self.next(q, c), DecodeState::Ready, r3));
                                    assert(self.next(q, c) == s);
                                    assert(!self.decoded_accepts(s, DecodeState::Ready, r3));
                                }
                            }
                        }
                    }
                }
            }
        }
    }

    proof fn lemma_first_width_2(&self, q: nat, bs: Seq<u8>)
        requires
            bs.len() > 0,
            0xC0 <= bs[0] <= 0xDF,
        ensures
            valid_first_scalar(bs) ==> self.decoded_accepts(q, DecodeState::Ready, bs) == self.decoded_accepts(
                self.next(q, decode_first_scalar(bs) as char),
                DecodeState::Ready,
                pop_first_scalar(bs),
            ),
            !valid_first_scalar(bs) ==> !self.decoded_accepts(q, DecodeState::Ready, bs),
    {
        let b0 = bs[0];
        let r1 = bs.drop_first();
        if bs.len() >= 2 && 0x80 <= bs[1] <= 0xBF {
            lemma_width_2(b0, bs[1]);
        }
        if b0 >= 0xC2 {
            let d1 = decode_step_spec(DecodeState::Ready, b0)->Pending_0;
            assert(self.decoded_accepts(q, DecodeState::Ready, bs) == self.decoded_accepts(q, d1, r1));
            if bs.len() >= 2 {
                let b1 = bs[1];
                assert(r1[0] == b1);
                let r2 = r1.drop_first();
                if 0x80 <= b1 <= 0xBF {
                    let cp = (((b0 & 0x1F) as u32) << 6) | ((b1 & 0x3F) as u32);
                    assert(decode_step_spec(d1, b1) == DecodeStep::Complete(cp as char));
                    assert(decode_first_scalar(bs) == cp);
                    assert(pop_first_scalar(bs) =~= r2);
                } else {
                    assert(decode_step_spec(d1, b1) == DecodeStep::Reject);
                }
            }
        }
    }

    proof fn lemma_first_width_3(&self, q: nat, bs: Seq<u8>)
        requires
            bs.len() > 0,
            0xE0 <= bs[0] <= 0xEF,
        ensures
            valid_first_scalar(bs) ==> self.decoded_accepts(q, DecodeState::Ready, bs) == self.decoded_accepts(
                self.next(q, decode_first_scalar(bs) as char),
                DecodeState::Ready,
                pop_first_scalar(bs),
            ),
            !valid_first_scalar(bs) ==> !self.decoded_accepts(q, DecodeState::Ready, bs),
    {
        let b0 = bs[0];
        let r1 = bs.drop_first();
        let d1 = decode_step_spec(DecodeState::Ready, b0)->Pending_0;
        assert(self.decoded_accepts(q, DecodeState::Ready, bs) == self.decoded_accepts(q, d1, r1));
        if bs.len() >= 2 {
            let b1 = bs[1];
            assert(r1[0] == b1);
            let r2 = r1.drop_first();
            if decode_step_spec(d1, b1) is Pending {
                let d2 = decode_step_spec(d1, b1)->Pending_0;
                assert(self.decoded_accepts(q, d1, r1) == self.decoded_accepts(q, d2, r2));
                if bs.len() >= 3 {
                    let b2 = bs[2];
                    assert(r2[0] == b2);
                    let r3 = r2.drop_first();
                    if 0x80 <= b2 <= 0xBF {
                        lemma_width_3(b0, b1, b2);
                        let cp = (((b0 & 0x0F) as u32) << 12) | (((b1 & 0x3F) as u32) << 6) | ((b2 & 0x3F) as u32);
                        assert(decode_first_scalar(bs) == cp);
                        assert(pop_first_scalar(bs) =~= r3);
                    } else {
                        assert(decode_step_spec(d2, b2) == DecodeStep::Reject);
                    }
                }
            } else {
                assert(decode_step_spec(d1, b1) == DecodeStep::Reject);
                if bs.len() >= 3 && 0x80 <= b1 <= 0xBF && 0x80 <= bs[2] <= 0xBF {
                    lemma_width_3(b0, b1, bs[2]);
                }
            }
        }
    }

    proof fn lemma_first_width_4(&self, q: nat, bs: Seq<u8>)
        requires
            bs.len() > 0,
            0xF0 <= bs[0] <= 0xF7,
        ensures
            valid_first_scalar(bs) ==> self.decoded_accepts(q, DecodeState::Ready, bs) == self.decoded_accepts(
                self.next(q, decode_first_scalar(bs) as char),
                DecodeState::Ready,
                pop_first_scalar(bs),
            ),
            !valid_first_scalar(bs) ==> !self.decoded_accepts(q, DecodeState::Ready, bs),
    {
        let b0 = bs[0];
        let r1 = bs.drop_first();
        if bs.len() >= 4 && 0x80 <= bs[1] <= 0xBF && 0x80 <= bs[2] <= 0xBF && 0x80 <= bs[3] <= 0xBF {
            lemma_width_4(b0, bs[1], bs[2], bs[3]);
        }
        if b0 <= 0xF4 {
            let d1 = decode_step_spec(DecodeState::Ready, b0)->Pending_0;
            assert(self.decoded_accepts(q, DecodeState::Ready, bs) == self.decoded_accepts(q, d1, r1));
            if bs.len() >= 2 {
                let b1 = bs[1];
                assert(r1[0] == b1);
                let r2 = r1.drop_first();
                if decode_step_spec(d1, b1) is Pending {
                    let d2 = decode_step_spec(d1, b1)->Pending_0;
                    assert(self.decoded_accepts(q, d1, r1) == self.decoded_accepts(q, d2, r2));
                    if bs.len() >= 3 {
                        let b2 = bs[2];
                        assert(r2[0] == b2);
                        let r3 = r2.drop_first();
                        if 0x80 <= b2 <= 0xBF {
                            let d3 = decode_step_spec(d2, b2)->Pending_0;
                            assert(self.decoded_accepts(q, d2, r2) == self.decoded_accepts(q, d3, r3));
                            if bs.len() >= 4 {
                                let b3 = bs[3];
                                assert(r3[0] == b3);
                                let r4 = r3.drop_first();
                                if 0x80 <= b3 <= 0xBF {
                                    let cp = (((b0 & 0x07) as u32) << 18) | (((b1 & 0x3F) as u32) << 12) | (((b2
                                        & 0x3F) as u32) << 6) | ((b3 & 0x3F) as u32);
                                    assert(decode_first_scalar(bs) == cp);
                                    assert(pop_first_scalar(bs) =~= r4);
                                } else {
                                    assert(decode_step_spec(d3, b3) == DecodeStep::Reject);
                                }
                            }
                        } else {
                            assert(decode_step_spec(d2, b2) == DecodeStep::Reject);
                        }
                    }
                } else {
                    assert(decode_step_spec(d1, b1) == DecodeStep::Reject);
                }
            }
        }
    }

    /// From a character boundary, the decoder reads the first scalar of `bs`
    /// and steps on it when `bs` starts with a valid encoding, and rejects
    /// otherwise.
    proof fn lemma_first_scalar(&self, q: nat, bs: Seq<u8>)
        requires
            bs.len() > 0,
        ensures
            valid_first_scalar(bs) ==> self.decoded_accepts(q, DecodeState::Ready, bs) == self.decoded_accepts(
                self.next(q, decode_first_scalar(bs) as char),
                DecodeState::Ready,
                pop_first_scalar(bs),
            ),
            !valid_first_scalar(bs) ==> !self.decoded_accepts(q, DecodeState::Ready, bs),
    {
        let b0 = bs[0];
        if b0 <= 0x7F {
            lemma_width_1(b0);
            assert(pop_first_scalar(bs) =~= bs.drop_first());
        } else if b0 < 0xC0 || b0 > 0xF7 {
        } else if b0 <= 0xDF {
            self.lemma_first_width_2(q, bs);
        } else if b0 <= 0xEF {
            self.lemma_first_width_3(q, bs);
        } else {
            self.lemma_first_width_4(q, bs);
        }
    }

    /// From a character boundary, the decoder accepts exactly the valid UTF-8
    /// encodings of the words that this automaton accepts from `q`.
    pub proof fn lemma_decoded_utf8(&self, q: nat, bs: Seq<u8>)
        ensures
            self.decoded_accepts(q, DecodeState::Ready, bs) == (valid_utf8(bs) && self.accepting(
                self.run(q, decode_utf8(bs)),
            )),
        decreases bs.len(),
    {
        if bs.len() > 0 {
            self.lemma_first_scalar(q, bs);
            if valid_first_scalar(bs) {
                let c = decode_first_scalar(bs) as char;
                let rest = pop_first_scalar(bs);
                assert(rest.len() < bs.len());
                self.lemma_decoded_utf8(self.next(q, c), rest);
                if valid_utf8(rest) {
                    assert(decode_utf8(bs) == seq![c] + decode_utf8(rest));
                    self.lemma_run_prepend(q, c, decode_utf8(rest));
                }
            }
        }
    }
}

} // verus!
