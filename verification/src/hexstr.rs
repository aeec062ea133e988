//! Lowercase hex encoding of byte strings, as used for authentication tags.
//!
//! The exact meaning of both directions is pinned by the spec functions
//! here; the executable codec is the `hex` crate behind trusted wrappers,
//! and the round-trip law `unhex_of(hex_of(b)) == b` is proved of the
//! specs, so a tag a client computes always decodes back to its MAC.

use vstd::prelude::*;

verus! {

/// The lowercase hex digit of a value below 16.
pub open spec fn hex_digit(v: nat) -> u8 {
    if v < 10 {
        (48 + v) as u8  // '0'..'9'
    } else {
        (87 + v) as u8  // 'a'..'f'
    }
}

/// Lowercase hex of a byte string: two digits per byte, high nibble first.
pub open spec fn hex_of(b: Seq<u8>) -> Seq<u8>
    decreases b.len(),
{
    if b.len() == 0 {
        Seq::empty()
    } else {
        seq![hex_digit(b[0] as nat / 16), hex_digit(b[0] as nat % 16)] + hex_of(b.skip(1))
    }
}

/// Is `c` a hex digit in either case?
pub open spec fn is_hex_char(c: u8) -> bool {
    (48 <= c <= 57) || (97 <= c <= 102) || (65 <= c <= 70)
}

/// The value of a hex digit in either case.
pub open spec fn hex_val(c: u8) -> nat {
    if 48 <= c <= 57 {
        (c - 48) as nat
    } else if 97 <= c <= 102 {
        (c - 87) as nat
    } else {
        (c - 55) as nat
    }
}

/// A well-formed hex string: even length, hex digits throughout.
pub open spec fn valid_hex(s: Seq<u8>) -> bool {
    s.len() % 2 == 0 && forall|i: int| 0 <= i < s.len() ==> is_hex_char(#[trigger] s[i])
}

/// The bytes a well-formed hex string denotes, pair by pair.
pub open spec fn unhex_of(s: Seq<u8>) -> Seq<u8>
    decreases s.len(),
{
    if s.len() < 2 {
        Seq::empty()
    } else {
        seq![(hex_val(s[0]) * 16 + hex_val(s[1])) as u8] + unhex_of(s.skip(2))
    }
}

/// Decoding yields one byte per digit pair: half the input length.
pub proof fn lemma_hex_len(s: Seq<u8>)
    ensures
        unhex_of(s).len() == s.len() / 2,
    decreases s.len(),
{
    if s.len() >= 2 {
        lemma_hex_len(s.skip(2));
        assert(s.skip(2).len() == s.len() - 2);
        assert((s.len() - 2) / 2 == s.len() / 2 - 1) by {
            vstd::arithmetic::div_mod::lemma_fundamental_div_mod(s.len() as int, 2);
            vstd::arithmetic::div_mod::lemma_fundamental_div_mod(s.len() as int - 2, 2);
        }
    }
}

/// Encoding then decoding a byte string gives it back.
pub proof fn lemma_unhex_hex(b: Seq<u8>)
    ensures
        hex_of(b).len() == 2 * b.len(),
        valid_hex(hex_of(b)),
        unhex_of(hex_of(b)) == b,
    decreases b.len(),
{
    if b.len() == 0 {
        assert(unhex_of(hex_of(b)) =~= b);
    } else {
        lemma_unhex_hex(b.skip(1));
        let h = hex_of(b);
        let d0 = hex_digit(b[0] as nat / 16);
        let d1 = hex_digit(b[0] as nat % 16);
        assert(h == seq![d0, d1] + hex_of(b.skip(1)));
        assert(h.len() == 2 + 2 * b.skip(1).len());
        assert forall|i: int| 0 <= i < h.len() implies is_hex_char(#[trigger] h[i]) by {
            if i >= 2 {
                assert(h[i] == hex_of(b.skip(1))[i - 2]);
            }
        }
        assert(h.skip(2) =~= hex_of(b.skip(1)));
        assert(hex_val(d0) == b[0] as nat / 16 && hex_val(d1) == b[0] as nat % 16);
        assert((b[0] as nat / 16) * 16 + b[0] as nat % 16 == b[0] as nat) by {
            vstd::arithmetic::div_mod::lemma_fundamental_div_mod(b[0] as int, 16);
        }
        assert(unhex_of(h) =~= seq![b[0]] + unhex_of(h.skip(2)));
        assert(unhex_of(h) =~= b);
    }
}

/// Encode bytes as lowercase hex.
///
/// Relies on `hex::encode`: lowercase hex, two digits per byte, high
/// nibble first, a function of the input alone.
#[verifier::external_body]
pub fn hex_encode(b: &Vec<u8>) -> (r: Vec<u8>)
    ensures
        r@ == hex_of(b@),
{
    hex::encode(b.as_slice()).into_bytes()
}

/// Decode a hex string to bytes.
///
/// Relies on `hex::decode`: succeeds exactly on even-length input made of
/// hex digits of either case, and yields the denoted bytes pair by pair.
#[verifier::external_body]
pub fn hex_decode(s: &Vec<u8>) -> (r: Option<Vec<u8>>)
    ensures
        r is Some <==> valid_hex(s@),
        r is Some ==> r->Some_0@ == unhex_of(s@),
{
    hex::decode(s.as_slice()).ok()
}

} // verus!
