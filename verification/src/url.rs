//! Percent-encoding and -decoding of query and form data.
//!
//! `encode_percent` escapes every byte outside `[0-9A-Za-z]` as `%XY`
//! with uppercase hex digits; `decode_percent` is total over its input:
//! it maps `+` to space, `%XY` (hex case-insensitive) to the byte it
//! names, and passes a malformed escape (a `%` not followed by two
//! hex digits) through literally rather than failing.

use vstd::prelude::*;

verus! {

/// Bytes that encode as themselves: ASCII digits and letters.
pub open spec fn is_unreserved(b: u8) -> bool {
    (48 <= b && b <= 57) || (65 <= b && b <= 90) || (97 <= b && b <= 122)
}

/// The uppercase hex digit for a value below 16.
pub open spec fn hex_digit(d: u8) -> u8
    recommends
        d < 16,
{
    if d < 10 {
        (d + 48) as u8
    } else {
        (d + 55) as u8
    }
}

/// The wire form of one byte: itself if unreserved, else `%` and two hex digits.
pub open spec fn encode_byte(b: u8) -> Seq<u8> {
    if is_unreserved(b) {
        seq![b]
    } else {
        seq![37u8, hex_digit((b >> 4) & 0x0F), hex_digit(b & 0x0F)]
    }
}

/// The percent-encoding of a whole byte sequence.
pub open spec fn encode_spec(s: Seq<u8>) -> Seq<u8>
    decreases s.len(),
{
    if s.len() == 0 {
        Seq::empty()
    } else {
        encode_spec(s.drop_last()) + encode_byte(s.last())
    }
}

pub open spec fn is_digit(b: u8) -> bool {
    48 <= b && b <= 57
}

pub open spec fn is_hex_upper(b: u8) -> bool {
    65 <= b && b <= 70
}

pub open spec fn is_hex_lower(b: u8) -> bool {
    97 <= b && b <= 102
}

pub open spec fn is_hex(b: u8) -> bool {
    is_digit(b) || is_hex_upper(b) || is_hex_lower(b)
}

/// Numeric value of a hex digit byte.
pub open spec fn hex_value(b: u8) -> u8
    recommends
        is_hex(b),
{
    if is_digit(b) {
        (b - 48) as u8
    } else if is_hex_upper(b) {
        (b - 55) as u8
    } else {
        (b - 87) as u8
    }
}

/// The decoder runs a little state machine over the input.  Its state
/// is a flag (0: plain, 1: saw `%`, 2: saw `%` and one hex digit)
/// together with the raw byte of that first digit.
pub open spec fn pending_of(st: (int, u8)) -> Seq<u8> {
    if st.0 == 1 {
        seq![37u8]
    } else if st.0 == 2 {
        seq![37u8, st.1]
    } else {
        Seq::empty()
    }
}

pub open spec fn step_state(st: (int, u8), x: u8) -> (int, u8) {
    if x == 37 {
        (1int, 0u8)
    } else if is_hex(x) && st.0 == 1 {
        (2int, x)
    } else {
        (0int, 0u8)
    }
}

/// What one input byte makes the decoder emit, given the state before
/// it.  A byte that cannot continue a begun escape first flushes the
/// escape's bytes literally: a `%` not followed by two hex digits
/// passes through unchanged.
pub open spec fn step_out(st: (int, u8), x: u8) -> Seq<u8> {
    if x == 37 {
        pending_of(st)
    } else if is_hex(x) && st.0 == 1 {
        Seq::empty()
    } else if is_hex(x) && st.0 == 2 {
        seq![(hex_value(st.1) * 16 + hex_value(x)) as u8]
    } else if x == 43 {
        pending_of(st) + seq![32u8]
    } else {
        pending_of(st) + seq![x]
    }
}

/// Decoder state after consuming a whole byte sequence.
pub open spec fn state_after(s: Seq<u8>) -> (int, u8)
    decreases s.len(),
{
    if s.len() == 0 {
        (0int, 0u8)
    } else {
        step_state(state_after(s.drop_last()), s.last())
    }
}

/// What the decoder has emitted after consuming `s`, an unfinished
/// escape at the end not yet flushed.
pub open spec fn decode_partial(s: Seq<u8>) -> Seq<u8>
    decreases s.len(),
{
    if s.len() == 0 {
        Seq::empty()
    } else {
        decode_partial(s.drop_last()) + step_out(state_after(s.drop_last()), s.last())
    }
}

/// The percent-decoding of a whole byte sequence; an escape left
/// unfinished at the end passes through literally.
pub open spec fn decode_spec(s: Seq<u8>) -> Seq<u8> {
    decode_partial(s) + pending_of(state_after(s))
}

/// Escapes every byte outside `[0-9A-Za-z]` as `%` and two uppercase hex digits.
pub fn encode_percent(s: &[u8]) -> (r: Vec<u8>)
    ensures
        r@ == encode_spec(s@),
{
    let mut result: Vec<u8> = Vec::new();
    let mut i: usize = 0;
    while i < s.len()
        invariant
            i <= s@.len(),
            result@ == encode_spec(s@.take(i as int)),
        decreases s@.len() - i,
    {
        let x = s[i];
        if (48 <= x && x <= 57) || (65 <= x && x <= 90) || (97 <= x && x <= 122) {
            result.push(x);
        } else {
            let msb = (x >> 4) & 0x0F;
            let lsb = x & 0x0F;
            proof {
                assert((x >> 4) & 0x0F < 16 && x & 0x0F < 16) by (bit_vector);
            }
            result.push(37);
            result.push(if msb < 10 { msb + 48 } else { msb + 55 });
            result.push(if lsb < 10 { lsb + 48 } else { lsb + 55 });
        }
        proof {
            assert(s@.take(i + 1).drop_last() =~= s@.take(i as int));
            assert(s@.take(i + 1).last() == s@[i as int]);
        }
        i = i + 1;
    }
    proof {
        assert(s@.take(s@.len() as int) =~= s@);
    }
    result
}

/// Maps `+` to space and `%XY` to the byte it names; every other
/// byte, and every malformed escape (`%` not followed by two hex
/// digits), passes through unchanged.
pub fn decode_percent(s: &[u8]) -> (r: Vec<u8>)
    ensures
        r@ == decode_spec(s@),
{
    let mut result: Vec<u8> = Vec::new();
    let mut flag: u8 = 0;
    let mut hex1: u8 = 0;
    let mut i: usize = 0;
    while i < s.len()
        invariant
            i <= s@.len(),
            result@ == decode_partial(s@.take(i as int)),
            (flag as int, hex1) == state_after(s@.take(i as int)),
            flag <= 2,
            flag == 2 ==> is_hex(hex1),
            flag != 2 ==> hex1 == 0,
        decreases s@.len() - i,
    {
        let x = s[i];
        proof {
            assert(s@.take(i + 1).drop_last() =~= s@.take(i as int));
            assert(s@.take(i + 1).last() == s@[i as int]);
        }
        if x == 37 {
            if flag == 1 {
                result.push(37);
            } else if flag == 2 {
                result.push(37);
                result.push(hex1);
            }
            flag = 1;
            hex1 = 0;
        } else if (48 <= x && x <= 57) || (65 <= x && x <= 70) || (97 <= x && x <= 102) {
            if flag == 1 {
                flag = 2;
                hex1 = x;
            } else if flag == 2 {
                let v1 = if hex1 <= 57 {
                    hex1 - 48
                } else if hex1 <= 70 {
                    hex1 - 55
                } else {
                    hex1 - 87
                };
                let v2 = if x <= 57 {
                    x - 48
                } else if x <= 70 {
                    x - 55
                } else {
                    x - 87
                };
                result.push(v1 * 16 + v2);
                flag = 0;
                hex1 = 0;
            } else {
                result.push(x);
            }
        } else if x == 43 {
            if flag == 1 {
                result.push(37);
            } else if flag == 2 {
                result.push(37);
                result.push(hex1);
            }
            result.push(32);
            flag = 0;
            hex1 = 0;
        } else {
            if flag == 1 {
                result.push(37);
            } else if flag == 2 {
                result.push(37);
                result.push(hex1);
            }
            result.push(x);
            flag = 0;
            hex1 = 0;
        }
        i = i + 1;
    }
    proof {
        assert(s@.take(s@.len() as int) =~= s@);
    }
    if flag == 1 {
        result.push(37);
    } else if flag == 2 {
        result.push(37);
        result.push(hex1);
    }
    proof {
        assert(result@ =~= decode_spec(s@));
    }
    result
}

proof fn lemma_hex_value_of_digit(d: u8)
    requires
        d < 16,
    ensures
        is_hex(hex_digit(d)),
        !(hex_digit(d) == 43) && !(hex_digit(d) == 37),
        hex_value(hex_digit(d)) == d,
{
}

/// Decoding undoes encoding: every byte sequence survives the round
/// trip, and the decoder never ends inside an escape it began there.
pub proof fn lemma_decode_encode_round_trip(x: Seq<u8>)
    ensures
        decode_spec(encode_spec(x)) == x,
        decode_partial(encode_spec(x)) == x,
        state_after(encode_spec(x)) == (0int, 0u8),
    decreases x.len(),
{
    if x.len() == 0 {
        assert(decode_partial(encode_spec(x)) =~= x);
        assert(decode_spec(encode_spec(x)) =~= x);
    } else {
        let x1 = x.drop_last();
        let c = x.last();
        lemma_decode_encode_round_trip(x1);
        let e1 = encode_spec(x1);
        if is_unreserved(c) {
            let e = e1 + seq![c];
            assert(encode_spec(x) == e);
            assert(e.drop_last() =~= e1);
            assert(e.last() == c);
            assert(step_out((0int, 0u8), c) =~= seq![c]);
            assert(decode_partial(e) =~= x);
            assert(decode_spec(e) =~= x);
        } else {
            let hi = (c >> 4) & 0x0F;
            let lo = c & 0x0F;
            assert((c >> 4) & 0x0F < 16 && c & 0x0F < 16) by (bit_vector);
            assert(((c >> 4) & 0x0F) * 16 + (c & 0x0F) == c) by (bit_vector);
            lemma_hex_value_of_digit(hi);
            lemma_hex_value_of_digit(lo);
            let h1 = hex_digit(hi);
            let h2 = hex_digit(lo);
            let a1 = e1 + seq![37u8];
            let a2 = a1 + seq![h1];
            let a3 = a2 + seq![h2];
            assert(encode_spec(x) =~= a3);
            assert(a1.drop_last() =~= e1);
            assert(a2.drop_last() =~= a1);
            assert(a3.drop_last() =~= a2);
            assert(state_after(a1) == (1int, 0u8));
            assert(decode_partial(a1) =~= x1);
            assert(state_after(a2) == (2int, h1));
            assert(decode_partial(a2) =~= x1);
            assert(state_after(a3) == (0int, 0u8));
            assert(step_out((2int, h1), h2) =~= seq![c]);
            assert(decode_partial(a3) =~= x);
            assert(decode_spec(encode_spec(x)) =~= x);
        }
    }
}

} // verus!
