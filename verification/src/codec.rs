//! Percent-encoding of the editor screen's path parameter.
//!
//! The landing screen passes the chosen directory to the editor screen
//! through the screen's address, percent-encoded, and the editor screen
//! decodes it.  The codec works on the path's bytes: a byte in the
//! unreserved set stands for itself, every other byte becomes `%` and
//! two uppercase hex digits.  Decoding accepts both digit cases and
//! rejects a `%` not followed by two hex digits.

use vstd::prelude::*;

verus! {

/// Bytes that stand for themselves in the encoded form: letters,
/// digits, and `- _ . ~ ! * ' ( )`.
pub open spec fn is_unreserved(b: u8) -> bool {
    ||| 0x41 <= b <= 0x5a
    ||| 0x61 <= b <= 0x7a
    ||| 0x30 <= b <= 0x39
    ||| b == 0x2d
    ||| b == 0x5f
    ||| b == 0x2e
    ||| b == 0x7e
    ||| b == 0x21
    ||| b == 0x2a
    ||| b == 0x27
    ||| b == 0x28
    ||| b == 0x29
}

/// The hex digit byte for a value under 16: `0`-`9`, then `A`-`F`.
pub open spec fn hex_digit(n: u8) -> u8 {
    if n < 10 {
        (0x30 + n) as u8
    } else {
        (0x37 + n) as u8
    }
}

/// Whether `b` is a hex digit byte, either case.
pub open spec fn is_hex(b: u8) -> bool {
    (0x30 <= b <= 0x39) || (0x41 <= b <= 0x46) || (0x61 <= b <= 0x66)
}

/// The value of a hex digit byte, either case.
pub open spec fn hex_value(b: u8) -> u8 {
    if 0x30 <= b <= 0x39 {
        (b - 0x30) as u8
    } else if 0x41 <= b <= 0x46 {
        (b - 0x37) as u8
    } else {
        (b - 0x57) as u8
    }
}

/// The byte a `%` escape with digits `hi` and `lo` stands for.
pub open spec fn byte_of_hex(hi: u8, lo: u8) -> u8 {
    (hex_value(hi) * 16 + hex_value(lo)) as u8
}

/// The encoded form of one byte.
pub open spec fn encoded_byte(b: u8) -> Seq<u8> {
    if is_unreserved(b) {
        seq![b]
    } else {
        seq![0x25u8, hex_digit(b / 16), hex_digit(b % 16)]
    }
}

/// The encoded form of a byte string.
pub open spec fn encode_spec(s: Seq<u8>) -> Seq<u8>
    decreases s.len(),
{
    if s.len() == 0 {
        Seq::empty()
    } else {
        encoded_byte(s[0]) + encode_spec(s.skip(1))
    }
}

/// What decoding yields; `None` on a malformed input.
pub open spec fn decode_spec(s: Seq<u8>) -> Option<Seq<u8>>
    decreases s.len(),
{
    if s.len() == 0 {
        Some(Seq::empty())
    } else if s[0] == 0x25 {
        if s.len() >= 3 && is_hex(s[1]) && is_hex(s[2]) {
            match decode_spec(s.skip(3)) {
                Some(r) => Some(seq![byte_of_hex(s[1], s[2])] + r),
                None => None,
            }
        } else {
            None
        }
    } else {
        match decode_spec(s.skip(1)) {
            Some(r) => Some(seq![s[0]] + r),
            None => None,
        }
    }
}

/// Encoding distributes over concatenation.
pub proof fn lemma_encode_concat(x: Seq<u8>, y: Seq<u8>)
    ensures
        encode_spec(x + y) == encode_spec(x) + encode_spec(y),
    decreases x.len(),
{
    if x.len() == 0 {
        assert(x + y =~= y);
        assert(Seq::<u8>::empty() + encode_spec(y) =~= encode_spec(y));
    } else {
        assert((x + y)[0] == x[0]);
        assert((x + y).skip(1) =~= x.skip(1) + y);
        lemma_encode_concat(x.skip(1), y);
        assert(encoded_byte(x[0]) + (encode_spec(x.skip(1)) + encode_spec(y)) =~= (encoded_byte(
            x[0],
        ) + encode_spec(x.skip(1))) + encode_spec(y));
    }
}

/// The encoded form of a single byte.
pub proof fn lemma_encode_one(b: u8)
    ensures
        encode_spec(seq![b]) == encoded_byte(b),
{
    assert(seq![b].skip(1) =~= Seq::<u8>::empty());
    assert(encode_spec(seq![b].skip(1)) =~= Seq::<u8>::empty());
    assert(encoded_byte(b) + encode_spec(seq![b].skip(1)) =~= encoded_byte(b));
}

/// Round trip: decoding an encoded byte string yields it back exactly.
pub proof fn lemma_decode_encode(s: Seq<u8>)
    ensures
        decode_spec(encode_spec(s)) == Some(s),
    decreases s.len(),
{
    if s.len() == 0 {
    } else {
        let b = s[0];
        lemma_decode_encode(s.skip(1));
        let rest = encode_spec(s.skip(1));
        assert(seq![b] + s.skip(1) =~= s);
        if is_unreserved(b) {
            assert(encode_spec(s) == seq![b] + rest);
            assert((seq![b] + rest)[0] == b);
            assert(b != 0x25);
            assert((seq![b] + rest).skip(1) =~= rest);
        } else {
            let hi = hex_digit(b / 16);
            let lo = hex_digit(b % 16);
            let e = seq![0x25u8, hi, lo];
            assert(encode_spec(s) == e + rest);
            let t = e + rest;
            assert(t[0] == 0x25 && t[1] == hi && t[2] == lo);
            assert(t.len() >= 3);
            assert(b / 16 < 16 && b % 16 < 16);
            assert(is_hex(hi) && is_hex(lo));
            assert(hex_value(hi) == b / 16 && hex_value(lo) == b % 16);
            assert(byte_of_hex(hi, lo) == b) by {
                assert((b / 16) * 16 + b % 16 == b);
            }
            assert(t.skip(3) =~= rest);
        }
    }
}

/// Whether `b` stands for itself in the encoded form.
fn is_unreserved_byte(b: u8) -> (r: bool)
    ensures
        r == is_unreserved(b),
{
    (b >= 0x41 && b <= 0x5a) || (b >= 0x61 && b <= 0x7a) || (b >= 0x30 && b <= 0x39) || b == 0x2d
        || b == 0x5f || b == 0x2e || b == 0x7e || b == 0x21 || b == 0x2a || b == 0x27 || b == 0x28
        || b == 0x29
}

/// Whether `b` is a hex digit byte.
fn is_hex_byte(b: u8) -> (r: bool)
    ensures
        r == is_hex(b),
{
    (b >= 0x30 && b <= 0x39) || (b >= 0x41 && b <= 0x46) || (b >= 0x61 && b <= 0x66)
}

/// The hex digit byte for a value under 16.
fn hex_digit_byte(n: u8) -> (r: u8)
    requires
        n < 16,
    ensures
        r == hex_digit(n),
{
    if n < 10 {
        0x30 + n
    } else {
        0x37 + n
    }
}

/// The value of a hex digit byte.
fn hex_value_byte(b: u8) -> (r: u8)
    requires
        is_hex(b),
    ensures
        r == hex_value(b),
        r < 16,
{
    if b <= 0x39 {
        b - 0x30
    } else if b <= 0x46 {
        b - 0x37
    } else {
        b - 0x57
    }
}

/// Percent-encodes a byte string.
pub fn encode_component(bytes: &Vec<u8>) -> (r: Vec<u8>)
    ensures
        r@ == encode_spec(bytes@),
{
    let mut out: Vec<u8> = Vec::new();
    let mut i: usize = 0;
    while i < bytes.len()
        invariant
            i <= bytes@.len(),
            out@ == encode_spec(bytes@.take(i as int)),
        decreases bytes@.len() - i,
    {
        let b = bytes[i];
        if is_unreserved_byte(b) {
            out.push(b);
        } else {
            out.push(0x25);
            out.push(hex_digit_byte(b / 16));
            out.push(hex_digit_byte(b % 16));
        }
        proof {
            assert(bytes@.take(i + 1) =~= bytes@.take(i as int) + seq![b]);
            lemma_encode_concat(bytes@.take(i as int), seq![b]);
            lemma_encode_one(b);
            assert(out@ =~= encode_spec(bytes@.take(i as int)) + encoded_byte(b));
        }
        i = i + 1;
    }
    proof {
        assert(bytes@.take(bytes@.len() as int) =~= bytes@);
    }
    out
}

/// Decodes a percent-encoded byte string; `None` exactly when the
/// input is malformed, and then no partial output is returned.
pub fn decode_component(bytes: &Vec<u8>) -> (r: Option<Vec<u8>>)
    ensures
        match (r, decode_spec(bytes@)) {
            (Some(v), Some(d)) => v@ == d,
            (None, None) => true,
            _ => false,
        },
{
    let mut out: Vec<u8> = Vec::new();
    let mut i: usize = 0;
    proof {
        assert(bytes@.skip(0) =~= bytes@);
        match decode_spec(bytes@) {
            Some(rest) => {
                assert(out@ + rest =~= rest);
            },
            None => {},
        }
    }
    while i < bytes.len()
        invariant
            i <= bytes@.len(),
            decode_spec(bytes@) == match decode_spec(bytes@.skip(i as int)) {
                Some(rest) => Some(out@ + rest),
                None => None::<Seq<u8>>,
            },
        decreases bytes@.len() - i,
    {
        let ghost out0 = out@;
        let b = bytes[i];
        proof {
            assert(bytes@.skip(i as int)[0] == b);
        }
        if b == 0x25 {
            if bytes.len() - i < 3 {
                proof {
                    assert(bytes@.skip(i as int).len() < 3);
                    assert(decode_spec(bytes@.skip(i as int)) is None);
                }
                return None;
            }
            let h1 = bytes[i + 1];
            let h2 = bytes[i + 2];
            proof {
                assert(bytes@.skip(i as int)[1] == h1 && bytes@.skip(i as int)[2] == h2);
            }
            if !is_hex_byte(h1) || !is_hex_byte(h2) {
                proof {
                    assert(decode_spec(bytes@.skip(i as int)) is None);
                }
                return None;
            }
            let v = hex_value_byte(h1) * 16 + hex_value_byte(h2);
            out.push(v);
            proof {
                assert(v == byte_of_hex(h1, h2));
                assert(bytes@.skip(i as int).skip(3) =~= bytes@.skip(i + 3));
                match decode_spec(bytes@.skip(i + 3)) {
                    Some(rest) => {
                        assert(decode_spec(bytes@.skip(i as int)) == Some(seq![v] + rest));
                        assert(out0 + (seq![v] + rest) =~= out@ + rest);
                    },
                    None => {
                        assert(decode_spec(bytes@.skip(i as int)) is None);
                    },
                }
            }
            i = i + 3;
        } else {
            out.push(b);
            proof {
                assert(bytes@.skip(i as int).skip(1) =~= bytes@.skip(i + 1));
                match decode_spec(bytes@.skip(i + 1)) {
                    Some(rest) => {
                        assert(decode_spec(bytes@.skip(i as int)) == Some(seq![b] + rest));
                        assert(out0 + (seq![b] + rest) =~= out@ + rest);
                    },
                    None => {
                        assert(decode_spec(bytes@.skip(i as int)) is None);
                    },
                }
            }
            i = i + 1;
        }
    }
    proof {
        assert(bytes@.skip(bytes@.len() as int) =~= Seq::<u8>::empty());
        assert(out@ + Seq::<u8>::empty() =~= out@);
    }
    Some(out)
}

} // verus!
