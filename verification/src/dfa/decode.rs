use vstd::prelude::*;
use super::chars::char_from_u32;
use vstd::utf8::{is_scalar, encode_scalar, has_width_2_encoding, has_width_3_encoding, has_width_4_encoding};

verus! {

/// Where a UTF-8 decoder stands between two bytes.
#[derive(Clone, Copy, PartialEq, Eq, Debug, Structural)]
pub enum DecodeState {
    /// At a character boundary.
    Ready,
    /// Inside a multi-byte sequence: the bits read so far, the number of
    /// continuation bytes still to come, the least code point that the
    /// sequence may encode, and the range that the next byte must lie in.
    Pending {
        code_point_prefix: u32,
        remaining: u8,
        min_code_point: u32,
        next_cont_min: u8,
        next_cont_max: u8,
    },
    /// The bytes read are not the start of valid UTF-8.
    Reject,
}

/// What one byte does to a decoder.
#[derive(Clone, Copy, PartialEq, Eq, Debug)]
pub enum DecodeStep {
    Pending(DecodeState),
    Complete(char),
    Reject,
}

/// A pending state after a lead byte whose payload is `prefix`.
pub open spec fn pending(prefix: u32, remaining: u8, min: u32, cont_min: u8, cont_max: u8) -> DecodeStep {
    DecodeStep::Pending(
        DecodeState::Pending {
            code_point_prefix: prefix,
            remaining: remaining,
            min_code_point: min,
            next_cont_min: cont_min,
            next_cont_max: cont_max,
        },
    )
}

/// The decoder's step on `byte` from `state`.
pub open spec fn decode_step_spec(state: DecodeState, byte: u8) -> DecodeStep {
    match state {
        DecodeState::Reject => DecodeStep::Reject,
        DecodeState::Ready => {
            if byte <= 0x7F {
                DecodeStep::Complete((byte as u32) as char)
            } else if 0xC2 <= byte <= 0xDF {
                pending((byte & 0x1F) as u32, 1, 0x80, 0x80, 0xBF)
            } else if byte == 0xE0 {
                pending((byte & 0x0F) as u32, 2, 0x800, 0xA0, 0xBF)
            } else if (0xE1 <= byte <= 0xEC) || (0xEE <= byte <= 0xEF) {
                pending((byte & 0x0F) as u32, 2, 0x800, 0x80, 0xBF)
            } else if byte == 0xED {
                pending((byte & 0x0F) as u32, 2, 0x800, 0x80, 0x9F)
            } else if byte == 0xF0 {
                pending((byte & 0x07) as u32, 3, 0x10000, 0x90, 0xBF)
            } else if 0xF1 <= byte <= 0xF3 {
                pending((byte & 0x07) as u32, 3, 0x10000, 0x80, 0xBF)
            } else if byte == 0xF4 {
                pending((byte & 0x07) as u32, 3, 0x10000, 0x80, 0x8F)
            } else {
                DecodeStep::Reject
            }
        },
        DecodeState::Pending {
            code_point_prefix,
            remaining,
            min_code_point,
            next_cont_min,
            next_cont_max,
        } => {
            if byte < next_cont_min || byte > next_cont_max {
                DecodeStep::Reject
            } else {
                let next_prefix = (code_point_prefix << 6) | ((byte & 0x3F) as u32);
                if remaining > 1 {
                    pending(next_prefix, (remaining - 1) as u8, min_code_point, 0x80, 0xBF)
                } else if next_prefix < min_code_point || next_prefix > 0x10FFFF || (0xD800 <= next_prefix
                    <= 0xDFFF) {
                    DecodeStep::Reject
                } else {
                    DecodeStep::Complete(next_prefix as char)
                }
            }
        },
    }
}

/// The decoder's step on `byte` from `state`.
pub fn decode_step(state: DecodeState, byte: u8) -> (r: DecodeStep)
    ensures
        r == decode_step_spec(state, byte),
{
    match state {
        DecodeState::Reject => DecodeStep::Reject,
        DecodeState::Ready => {
            if byte <= 0x7F {
                DecodeStep::Complete(byte as char)
            } else if 0xC2 <= byte && byte <= 0xDF {
                DecodeStep::Pending(
                    DecodeState::Pending {
                        code_point_prefix: (byte & 0x1F) as u32,
                        remaining: 1,
                        min_code_point: 0x80,
                        next_cont_min: 0x80,
                        next_cont_max: 0xBF,
                    },
                )
            } else if byte == 0xE0 {
                DecodeStep::Pending(
                    DecodeState::Pending {
                        code_point_prefix: (byte & 0x0F) as u32,
                        remaining: 2,
                        min_code_point: 0x800,
                        next_cont_min: 0xA0,
                        next_cont_max: 0xBF,
                    },
                )
            } else if (0xE1 <= byte && byte <= 0xEC) || (0xEE <= byte && byte <= 0xEF) {
                DecodeStep::Pending(
                    DecodeState::Pending {
                        code_point_prefix: (byte & 0x0F) as u32,
                        remaining: 2,
                        min_code_point: 0x800,
                        next_cont_min: 0x80,
                        next_cont_max: 0xBF,
                    },
                )
            } else if byte == 0xED {
                DecodeStep::Pending(
                    DecodeState::Pending {
                        code_point_prefix: (byte & 0x0F) as u32,
                        remaining: 2,
                        min_code_point: 0x800,
                        next_cont_min: 0x80,
                        next_cont_max: 0x9F,
                    },
                )
            } else if byte == 0xF0 {
                DecodeStep::Pending(
                    DecodeState::Pending {
                        code_point_prefix: (byte & 0x07) as u32,
                        remaining: 3,
                        min_code_point: 0x10000,
                        next_cont_min: 0x90,
                        next_cont_max: 0xBF,
                    },
                )
            } else if 0xF1 <= byte && byte <= 0xF3 {
                DecodeStep::Pending(
                    DecodeState::Pending {
                        code_point_prefix: (byte & 0x07) as u32,
                        remaining: 3,
                        min_code_point: 0x10000,
                        next_cont_min: 0x80,
                        next_cont_max: 0xBF,
                    },
                )
            } else if byte == 0xF4 {
                DecodeStep::Pending(
                    DecodeState::Pending {
                        code_point_prefix: (byte & 0x07) as u32,
                        remaining: 3,
                        min_code_point: 0x10000,
                        next_cont_min: 0x80,
                        next_cont_max: 0x8F,
                    },
                )
            } else {
                DecodeStep::Reject
            }
        },
        DecodeState::Pending {
            code_point_prefix,
            remaining,
            min_code_point,
            next_cont_min,
            next_cont_max,
        } => {
            if byte < next_cont_min || byte > next_cont_max {
                return DecodeStep::Reject;
            }
            let next_prefix = (code_point_prefix << 6) | ((byte & 0x3F) as u32);
            if remaining > 1 {
                DecodeStep::Pending(
                    DecodeState::Pending {
                        code_point_prefix: next_prefix,
                        remaining: remaining - 1,
                        min_code_point,
                        next_cont_min: 0x80,
                        next_cont_max: 0xBF,
                    },
                )
            } else if (next_prefix < min_code_point) || (next_prefix > 0x10FFFF) || (0xD800 <= next_prefix
                && next_prefix <= 0xDFFF) {
                DecodeStep::Reject
            } else {
                match char_from_u32(next_prefix) {
                    Some(ch) => {
                        proof {
                            vstd::utf8::char_u32_cast(ch, next_prefix);
                        }
                        DecodeStep::Complete(ch)
                    },
                    None => DecodeStep::Reject,
                }
            }
        },
    }
}

/// Two-byte sequences: the decoder's code point is the one UTF-8 gives, and
/// it is not overlong exactly for the leads that the decoder takes.
pub proof fn lemma_width_2(b0: u8, b1: u8)
    by (bit_vector)
    requires
        0xC0 <= b0 <= 0xDF,
        0x80 <= b1 <= 0xBF,
    ensures
        (((b0 & 0x1F) as u32) << 6) | ((b1 & 0x3F) as u32) <= 0x7FF,
        (b0 >= 0xC2) == ((((b0 & 0x1F) as u32) << 6) | ((b1 & 0x3F) as u32) >= 0x80),
{
}

/// Three-byte sequences: the decoder's code point is the one UTF-8 gives; the
/// bounds on the first continuation byte after `E0` and `ED` are those that
/// rule out overlong encodings and surrogates.
pub proof fn lemma_width_3(b0: u8, b1: u8, b2: u8)
    by (bit_vector)
    requires
        0xE0 <= b0 <= 0xEF,
        0x80 <= b1 <= 0xBF,
        0x80 <= b2 <= 0xBF,
    ensures
        (((((b0 & 0x0F) as u32) << 6) | ((b1 & 0x3F) as u32)) << 6) | ((b2 & 0x3F) as u32)
            == (((b0 & 0x0F) as u32) << 12) | (((b1 & 0x3F) as u32) << 6) | ((b2 & 0x3F) as u32),
        (((b0 & 0x0F) as u32) << 12) | (((b1 & 0x3F) as u32) << 6) | ((b2 & 0x3F) as u32) <= 0xFFFF,
        b0 == 0xE0 ==> ((b1 >= 0xA0) == ((((b0 & 0x0F) as u32) << 12) | (((b1 & 0x3F) as u32) << 6)
            | ((b2 & 0x3F) as u32) >= 0x800)),
        b0 != 0xE0 ==> (((b0 & 0x0F) as u32) << 12) | (((b1 & 0x3F) as u32) << 6) | ((b2 & 0x3F) as u32)
            >= 0x800,
        b0 == 0xED ==> ((b1 >= 0xA0) == (0xD800 <= (((b0 & 0x0F) as u32) << 12) | (((b1 & 0x3F) as u32)
            << 6) | ((b2 & 0x3F) as u32))),
        b0 == 0xED ==> (((b0 & 0x0F) as u32) << 12) | (((b1 & 0x3F) as u32) << 6) | ((b2 & 0x3F) as u32)
            <= 0xDFFF,
        b0 != 0xED ==> !(0xD800 <= (((b0 & 0x0F) as u32) << 12) | (((b1 & 0x3F) as u32) << 6) | ((b2
            & 0x3F) as u32) <= 0xDFFF),
{
}

/// Four-byte sequences: the decoder's code point is the one UTF-8 gives; the
/// bounds on the first continuation byte after `F0` and `F4` are those that
/// keep the code point in `0x10000..=0x10FFFF`, and leads above `F4` leave it.
pub proof fn lemma_width_4(b0: u8, b1: u8, b2: u8, b3: u8)
    by (bit_vector)
    requires
        0xF0 <= b0 <= 0xF7,
        0x80 <= b1 <= 0xBF,
        0x80 <= b2 <= 0xBF,
        0x80 <= b3 <= 0xBF,
    ensures
        (((((((b0 & 0x07) as u32) << 6) | ((b1 & 0x3F) as u32)) << 6) | ((b2 & 0x3F) as u32)) << 6) | ((b3
            & 0x3F) as u32) == (((b0 & 0x07) as u32) << 18) | (((b1 & 0x3F) as u32) << 12) | (((b2 & 0x3F)
            as u32) << 6) | ((b3 & 0x3F) as u32),
        b0 == 0xF0 ==> ((b1 >= 0x90) == ((((b0 & 0x07) as u32) << 18) | (((b1 & 0x3F) as u32) << 12) | (((b2
            & 0x3F) as u32) << 6) | ((b3 & 0x3F) as u32) >= 0x10000)),
        b0 == 0xF0 ==> (((b0 & 0x07) as u32) << 18) | (((b1 & 0x3F) as u32) << 12) | (((b2 & 0x3F) as u32)
            << 6) | ((b3 & 0x3F) as u32) <= 0x10FFFF,
        0xF1 <= b0 <= 0xF3 ==> 0x10000 <= (((b0 & 0x07) as u32) << 18) | (((b1 & 0x3F) as u32) << 12) | (((b2
            & 0x3F) as u32) << 6) | ((b3 & 0x3F) as u32) <= 0x10FFFF,
        b0 == 0xF4 ==> ((b1 <= 0x8F) == ((((b0 & 0x07) as u32) << 18) | (((b1 & 0x3F) as u32) << 12) | (((b2
            & 0x3F) as u32) << 6) | ((b3 & 0x3F) as u32) <= 0x10FFFF)),
        b0 == 0xF4 ==> (((b0 & 0x07) as u32) << 18) | (((b1 & 0x3F) as u32) << 12) | (((b2 & 0x3F) as u32)
            << 6) | ((b3 & 0x3F) as u32) >= 0x10000,
        b0 >= 0xF5 ==> (((b0 & 0x07) as u32) << 18) | (((b1 & 0x3F) as u32) << 12) | (((b2 & 0x3F) as u32)
            << 6) | ((b3 & 0x3F) as u32) > 0x10FFFF,
{
}

/// The code points that a sequence starting with the lead byte `b` can encode.
pub open spec fn lead_range_spec(b: u8) -> Option<(u32, u32)> {
    if 0xC2 <= b <= 0xDF {
        Some((((b & 0x1F) as u32) << 6, (((b & 0x1F) as u32) << 6) | 0x3F))
    } else if b == 0xE0 {
        Some((0x800, 0xFFF))
    } else if (0xE1 <= b <= 0xEC) || (0xEE <= b <= 0xEF) {
        Some((((b & 0x0F) as u32) << 12, (((b & 0x0F) as u32) << 12) | 0xFFF))
    } else if b == 0xED {
        Some((0xD000, 0xD7FF))
    } else if b == 0xF0 {
        Some((0x10000, 0x3FFFF))
    } else if 0xF1 <= b <= 0xF3 {
        Some((((b & 0x07) as u32) << 18, (((b & 0x07) as u32) << 18) | 0x3FFFF))
    } else if b == 0xF4 {
        Some((0x100000, 0x10FFFF))
    } else {
        None
    }
}

/// The code points that a sequence starting with the lead byte `lead` can
/// encode, or `None` when `lead` starts no multi-byte sequence.
pub fn lead_byte_codepoint_range(lead: u8) -> (r: Option<(u32, u32)>)
    ensures
        r == lead_range_spec(lead),
{
    if 0xC2 <= lead && lead <= 0xDF {
        let prefix = (lead & 0x1F) as u32;
        let min = prefix << 6;
        Some((min, min | 0x3F))
    } else if lead == 0xE0 {
        Some((0x800, 0xFFF))
    } else if 0xE1 <= lead && lead <= 0xEC {
        let prefix = (lead & 0x0F) as u32;
        let min = prefix << 12;
        Some((min, min | 0xFFF))
    } else if lead == 0xED {
        Some((0xD000, 0xD7FF))
    } else if 0xEE <= lead && lead <= 0xEF {
        let prefix = (lead & 0x0F) as u32;
        let min = prefix << 12;
        Some((min, min | 0xFFF))
    } else if lead == 0xF0 {
        Some((0x10000, 0x3FFFF))
    } else if 0xF1 <= lead && lead <= 0xF3 {
        let prefix = (lead & 0x07) as u32;
        let min = prefix << 18;
        Some((min, min | 0x3FFFF))
    } else if lead == 0xF4 {
        Some((0x100000, 0x10FFFF))
    } else {
        None
    }
}

/// A scalar value that UTF-8 writes in two or more bytes lies in the range of
/// code points of the byte that its encoding starts with.
pub proof fn lemma_lead_range_holds_its_scalars(v: u32)
    requires
        is_scalar(v),
        v >= 0x80,
    ensures
        lead_range_spec(encode_scalar(v)[0]) is Some,
        lead_range_spec(encode_scalar(v)[0]).unwrap().0 <= v <= lead_range_spec(encode_scalar(v)[0]).unwrap().1,
{
    let b = encode_scalar(v)[0];
    if has_width_2_encoding(v) {
        assert(b == 0xC0 | ((v >> 6) & 0x1F) as u8);
        assert(0x80 <= v <= 0x7FF ==> {
            let b2 = 0xC0 | ((v >> 6) & 0x1F) as u8;
            &&& 0xC2 <= b2 <= 0xDF
            &&& ((b2 & 0x1F) as u32) << 6 <= v
            &&& v <= (((b2 & 0x1F) as u32) << 6) | 0x3F
        }) by (bit_vector);
    } else if has_width_3_encoding(v) {
        assert(b == 0xE0 | ((v >> 12) & 0x0F) as u8);
        assert(0x800 <= v <= 0xFFFF && !(0xD800 <= v <= 0xDFFF) ==> {
            let b3 = 0xE0 | ((v >> 12) & 0x0F) as u8;
            &&& (v <= 0xFFF ==> b3 == 0xE0)
            &&& (0xD000 <= v <= 0xD7FF ==> b3 == 0xED)
            &&& (0x1000 <= v && !(0xD000 <= v <= 0xDFFF) ==> ((0xE1 <= b3 <= 0xEC) || (0xEE <= b3 <= 0xEF))
                && ((b3 & 0x0F) as u32) << 12 <= v && v <= (((b3 & 0x0F) as u32) << 12) | 0xFFF)
        }) by (bit_vector);
    } else {
        assert(has_width_4_encoding(v));
        assert(b == 0xF0 | ((v >> 18) & 0x7) as u8);
        assert(0x10000 <= v <= 0x10FFFF ==> {
            let b4 = 0xF0 | ((v >> 18) & 0x7) as u8;
            &&& (v <= 0x3FFFF ==> b4 == 0xF0)
            &&& (0x100000 <= v ==> b4 == 0xF4)
            &&& (0x40000 <= v < 0x100000 ==> 0xF1 <= b4 <= 0xF3 && ((b4 & 0x07) as u32) << 18 <= v
                && v <= (((b4 & 0x07) as u32) << 18) | 0x3FFFF)
        }) by (bit_vector);
    }
}

/// Every code point in the range of a lead byte is a scalar value that UTF-8
/// writes in two or more bytes, starting with that byte.
pub proof fn lemma_lead_range_scalars_start_with_it(b: u8, v: u32)
    requires
        lead_range_spec(b) is Some,
        lead_range_spec(b).unwrap().0 <= v <= lead_range_spec(b).unwrap().1,
    ensures
        is_scalar(v),
        v >= 0x80,
        encode_scalar(v)[0] == b,
{
    if 0xC2 <= b <= 0xDF {
        assert(0xC2 <= b <= 0xDF && ((b & 0x1F) as u32) << 6 <= v && v <= (((b & 0x1F) as u32) << 6) | 0x3F ==> {
            &&& 0x80 <= v <= 0x7FF
            &&& 0xC0 | ((v >> 6) & 0x1F) as u8 == b
        }) by (bit_vector);
    } else if b == 0xE0 {
        assert(0x800 <= v <= 0xFFF ==> 0xE0 | ((v >> 12) & 0x0F) as u8 == 0xE0) by (bit_vector);
    } else if (0xE1 <= b <= 0xEC) || (0xEE <= b <= 0xEF) {
        assert(((0xE1 <= b <= 0xEC) || (0xEE <= b <= 0xEF)) && ((b & 0x0F) as u32) << 12 <= v
            && v <= (((b & 0x0F) as u32) << 12) | 0xFFF ==> {
            &&& 0x1000 <= v <= 0xFFFF
            &&& !(0xD000 <= v <= 0xDFFF)
            &&& 0xE0 | ((v >> 12) & 0x0F) as u8 == b
        }) by (bit_vector);
    } else if b == 0xED {
        assert(0xD000 <= v <= 0xD7FF ==> 0xE0 | ((v >> 12) & 0x0F) as u8 == 0xED) by (bit_vector);
    } else if b == 0xF0 {
        assert(0x10000 <= v <= 0x3FFFF ==> 0xF0 | ((v >> 18) & 0x7) as u8 == 0xF0) by (bit_vector);
    } else if 0xF1 <= b <= 0xF3 {
        assert(0xF1 <= b <= 0xF3 && ((b & 0x07) as u32) << 18 <= v && v <= (((b & 0x07) as u32) << 18) | 0x3FFFF ==> {
            &&& 0x40000 <= v <= 0xFFFFF
            &&& 0xF0 | ((v >> 18) & 0x7) as u8 == b
        }) by (bit_vector);
    } else {
        assert(b == 0xF4);
        assert(0x100000 <= v <= 0x10FFFF ==> 0xF0 | ((v >> 18) & 0x7) as u8 == 0xF4) by (bit_vector);
    }
}

/// A pending decoder expects continuation bytes, at most three more, and a
/// payload that fits what those bytes complete.
pub open spec fn decode_wf(d: DecodeState) -> bool {
    match d {
        DecodeState::Pending { code_point_prefix, remaining, min_code_point, next_cont_min, next_cont_max } => {
            &&& ((remaining == 1 && code_point_prefix < 0x8000) || (remaining == 2 && code_point_prefix < 0x200)
                || (remaining == 3 && code_point_prefix < 0x8))
            &&& min_code_point <= 0x10000
            &&& 0x80 <= next_cont_min
            &&& next_cont_max <= 0xBF
        },
        _ => true,
    }
}

/// The range of a lead byte is nonempty and starts at a Unicode scalar value.
pub proof fn lemma_lead_range_start(b: u8)
    requires
        lead_range_spec(b) is Some,
    ensures
        lead_range_spec(b).unwrap().0 <= lead_range_spec(b).unwrap().1,
        lead_range_spec(b).unwrap().0 <= 0x10FFFF,
        !(0xD800 <= lead_range_spec(b).unwrap().0 <= 0xDFFF),
{
    if 0xC2 <= b <= 0xDF {
        assert((((b & 0x1F) as u32) << 6) <= 0x7C0 && (((b & 0x1F) as u32) << 6) <= ((((b & 0x1F) as u32)
            << 6) | 0x3F)) by (bit_vector);
    } else if (0xE1 <= b <= 0xEC) || (0xEE <= b <= 0xEF) {
        assert(((0xE1 <= b <= 0xEC) || (0xEE <= b <= 0xEF)) ==> ((((b & 0x0F) as u32) << 12) <= 0xF000
            && !(0xD800 <= (((b & 0x0F) as u32) << 12) <= 0xDFFF) && (((b & 0x0F) as u32) << 12) <= ((((b
            & 0x0F) as u32) << 12) | 0xFFF))) by (bit_vector);
    } else if 0xF1 <= b <= 0xF3 {
        assert((0xF1 <= b <= 0xF3) ==> ((((b & 0x07) as u32) << 18) <= 0xC0000 && 0x40000 <= (((b & 0x07)
            as u32) << 18) && (((b & 0x07) as u32) << 18) <= ((((b & 0x07) as u32) << 18) | 0x3FFFF)))
            by (bit_vector);
    }
}

/// Code points completed after a two-byte lead lie in its range.
pub proof fn lemma_lead_range_2(b0: u8, b1: u8)
    by (bit_vector)
    requires
        0xC2 <= b0 <= 0xDF,
        0x80 <= b1 <= 0xBF,
    ensures
        ((b0 & 0x1F) as u32) << 6 <= (((b0 & 0x1F) as u32) << 6) | ((b1 & 0x3F) as u32) <= (((b0 & 0x1F)
            as u32) << 6) | 0x3F,
{
}

/// Code points completed after a three-byte lead lie in its range.
pub proof fn lemma_lead_range_3(b0: u8, b1: u8, b2: u8)
    by (bit_vector)
    requires
        0xE0 <= b0 <= 0xEF,
        0x80 <= b1 <= 0xBF,
        0x80 <= b2 <= 0xBF,
        b0 == 0xE0 ==> b1 >= 0xA0,
        b0 == 0xED ==> b1 <= 0x9F,
    ensures
        b0 == 0xE0 ==> 0x800 <= (((((b0 & 0x0F) as u32) << 6) | ((b1 & 0x3F) as u32)) << 6) | ((b2 & 0x3F)
            as u32) <= 0xFFF,
        b0 == 0xED ==> 0xD000 <= (((((b0 & 0x0F) as u32) << 6) | ((b1 & 0x3F) as u32)) << 6) | ((b2 & 0x3F)
            as u32) <= 0xD7FF,
        ((b0 & 0x0F) as u32) << 12 <= (((((b0 & 0x0F) as u32) << 6) | ((b1 & 0x3F) as u32)) << 6) | ((b2
            & 0x3F) as u32) <= (((b0 & 0x0F) as u32) << 12) | 0xFFF,
{
}

/// Code points completed after a four-byte lead lie in its range.
pub proof fn lemma_lead_range_4(b0: u8, b1: u8, b2: u8, b3: u8)
    by (bit_vector)
    requires
        0xF0 <= b0 <= 0xF4,
        0x80 <= b1 <= 0xBF,
        0x80 <= b2 <= 0xBF,
        0x80 <= b3 <= 0xBF,
        b0 == 0xF0 ==> b1 >= 0x90,
        b0 == 0xF4 ==> b1 <= 0x8F,
    ensures
        b0 == 0xF0 ==> 0x10000 <= (((((((b0 & 0x07) as u32) << 6) | ((b1 & 0x3F) as u32)) << 6) | ((b2
            & 0x3F) as u32)) << 6) | ((b3 & 0x3F) as u32) <= 0x3FFFF,
        b0 == 0xF4 ==> 0x100000 <= (((((((b0 & 0x07) as u32) << 6) | ((b1 & 0x3F) as u32)) << 6) | ((b2
            & 0x3F) as u32)) << 6) | ((b3 & 0x3F) as u32) <= 0x10FFFF,
        ((b0 & 0x07) as u32) << 18 <= (((((((b0 & 0x07) as u32) << 6) | ((b1 & 0x3F) as u32)) << 6) | ((b2
            & 0x3F) as u32)) << 6) | ((b3 & 0x3F) as u32) <= (((b0 & 0x07) as u32) << 18) | 0x3FFFF,
{
}

/// A pending decoder stays well formed on the next byte.
pub proof fn lemma_decode_wf_step(d: DecodeState, byte: u8)
    requires
        decode_wf(d),
    ensures
        decode_step_spec(d, byte) matches DecodeStep::Pending(d2) ==> decode_wf(d2),
{
    match d {
        DecodeState::Pending { code_point_prefix, remaining, .. } => {
            let p = code_point_prefix;
            assert(p < 0x200 ==> ((p << 6) | ((byte & 0x3F) as u32)) < 0x8000) by (bit_vector);
            assert(p < 0x8 ==> ((p << 6) | ((byte & 0x3F) as u32)) < 0x200) by (bit_vector);
        },
        DecodeState::Ready => {
            assert(((byte & 0x1F) as u32) < 0x8000 && ((byte & 0x0F) as u32) < 0x200 && ((byte & 0x07) as u32) < 0x8)
                by (bit_vector);
        },
        DecodeState::Reject => {},
    }
}

/// A one-byte sequence encodes the byte itself.
pub proof fn lemma_width_1(b0: u8)
    by (bit_vector)
    requires
        b0 <= 0x7F,
    ensures
        (b0 & 0x7F) as u32 == b0 as u32,
{
}

} // verus!
