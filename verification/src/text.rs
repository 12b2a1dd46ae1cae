//! Small text helpers: ASCII strings and lowercase hex spellings.
use vstd::prelude::*;

verus! {

/// Bytes below 0x80 are ASCII: valid UTF-8, one character per byte.
pub proof fn lemma_ascii_bytes_utf8(b: Seq<u8>)
    requires
        forall|i: int| 0 <= i < b.len() ==> b[i] < 0x80,
    ensures
        vstd::utf8::valid_utf8(b),
        vstd::utf8::decode_utf8(b).len() == b.len(),
        forall|i: int| 0 <= i < b.len() ==> vstd::utf8::decode_utf8(b)[i] == b[i] as char,
    decreases b.len(),
{
    if b.len() > 0 {
        let x: u8 = b[0];
        assert(x & 0x7f == x) by (bit_vector)
            requires
                x < 0x80,
        ;
        assert(vstd::utf8::is_leading_byte_width_1(b[0]));
        assert(vstd::utf8::length_of_first_codepoint(b) == 1);
        assert(vstd::utf8::decode_first_codepoint(b) == b[0] as u32);
        assert(vstd::utf8::valid_first_scalar(b));
        assert(vstd::utf8::pop_first_scalar(b) =~= b.skip(1));
        lemma_ascii_bytes_utf8(b.skip(1));
        assert(vstd::utf8::valid_utf8(b));
        assert forall|i: int| 0 <= i < b.len() implies vstd::utf8::decode_utf8(b)[i] == b[i]
            as char by {
            if i > 0 {
                assert(vstd::utf8::decode_utf8(b)[i] == vstd::utf8::decode_utf8(b.skip(1))[i
                    - 1]);
                assert(b.skip(1)[i - 1] == b[i]);
            }
        }
    }
}

/// A string of ASCII bytes, one character per byte.
pub(crate) fn ascii_string(bytes: Vec<u8>) -> (r: String)
    requires
        forall|i: int| 0 <= i < bytes@.len() ==> bytes@[i] < 0x80,
    ensures
        r@.len() == bytes@.len(),
        forall|i: int| 0 <= i < bytes@.len() ==> r@[i] == bytes@[i] as char,
{
    proof {
        lemma_ascii_bytes_utf8(bytes@);
    }
    let ghost bv = bytes@;
    match crate::bencode::utf8_to_string(bytes) {
        Some(s) => s,
        None => {
            proof {
                assert(false);
            }
            String::new()
        },
    }
}

/// The lowercase hex digit of a nibble.
pub open spec fn hex_char(n: u8) -> char
    recommends
        n < 16,
{
    if n < 10 {
        ((0x30 + n) as u8) as char
    } else {
        ((0x57 + n) as u8) as char
    }
}

/// The lowercase hex spelling of a byte string, two digits per byte, high
/// nibble first.
pub open spec fn hex_of_bytes(b: Seq<u8>) -> Seq<char> {
    Seq::new(
        (b.len() * 2) as nat,
        |i: int|
            if i % 2 == 0 {
                hex_char(b[i / 2] >> 4)
            } else {
                hex_char(b[i / 2] & 0xf)
            },
    )
}

/// The lowercase hex spelling of a byte string.
#[verifier::loop_isolation(false)]
pub fn hex_string(bytes: &[u8]) -> (r: String)
    ensures
        r@ == hex_of_bytes(bytes@),
{
    let mut out: Vec<u8> = Vec::new();
    let len = bytes.len();
    let mut i: usize = 0;
    while i < len
        invariant
            0 <= i <= len,
            out@.len() == 2 * i,
            forall|j: int| 0 <= j < out@.len() ==> out@[j] < 0x80,
            forall|j: int|
                0 <= j < out@.len() ==> (#[trigger] out@[j]) as char == hex_of_bytes(bytes@)[j],
        decreases len - i,
    {
        proof {
            let bb: u8 = bytes@[i as int];
            assert(bb >> 4 < 16 && bb & 0xf < 16) by (bit_vector);
        }
        let hi = bytes[i] >> 4;
        let lo = bytes[i] & 0xf;
        let code_hi: u8 = if hi < 10 {
            0x30 + hi
        } else {
            0x57 + hi
        };
        let code_lo: u8 = if lo < 10 {
            0x30 + lo
        } else {
            0x57 + lo
        };
        proof {
            assert(code_hi as char == hex_char(bytes@[i as int] >> 4));
            assert(code_lo as char == hex_char(bytes@[i as int] & 0xf));
            assert(hex_of_bytes(bytes@)[2 * i as int] == hex_char(bytes@[i as int] >> 4));
            assert(hex_of_bytes(bytes@)[2 * i + 1 as int] == hex_char(bytes@[i as int] & 0xf));
        }
        out.push(code_hi);
        out.push(code_lo);
        i = i + 1;
    }
    let r = ascii_string(out);
    proof {
        assert(r@ =~= hex_of_bytes(bytes@));
    }
    r
}


/// The decimal spelling of a non-negative number.
pub open spec fn dec_chars(n: int) -> Seq<char>
    recommends
        n >= 0,
{
    Seq::new(
        crate::bencode::spec_digits(n).len(),
        |i: int| crate::bencode::spec_digits(n)[i] as char,
    )
}

/// The decimal spelling of a number.
pub fn dec_string(n: u64) -> (r: String)
    ensures
        r@ == dec_chars(n as int),
{
    let mut out: Vec<u8> = Vec::new();
    crate::bencode::push_digits(&mut out, n);
    proof {
        crate::bencode::lemma_spec_digits_digits(n as int);
        assert(out@ =~= crate::bencode::spec_digits(n as int));
    }
    let r = ascii_string(out);
    proof {
        assert(r@ =~= dec_chars(n as int));
    }
    r
}

} // verus!
