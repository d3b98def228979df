//! The standard base64 alphabet and the canonical 44-character encoding of
//! a 32-byte key, with the bit-level facts the codec proofs rest on.
use vstd::prelude::*;
use vstd::utf8::char_u32_cast;

verus! {

/// The alphabet character for a 6-bit value.
pub open spec fn b64_char_of(v: u8) -> char
    recommends
        v < 64,
{
    if v < 26 {
        ((v + 65) as u8) as char
    } else if v < 52 {
        ((v + 71) as u8) as char
    } else if v < 62 {
        ((v - 4) as u8) as char
    } else if v == 62 {
        '+'
    } else {
        '/'
    }
}

/// Whether `c` is in the standard base64 alphabet.
pub open spec fn is_b64_char(c: char) -> bool {
    let u = c as u32;
    (65 <= u <= 90) || (97 <= u <= 122) || (48 <= u <= 57) || c == '+' || c == '/'
}

/// The 6-bit value of an alphabet character.
pub open spec fn b64_val_of(c: char) -> u8 {
    let u = c as u32;
    if 65 <= u <= 90 {
        (u - 65) as u8
    } else if 97 <= u <= 122 {
        (u - 71) as u8
    } else if 48 <= u <= 57 {
        (u + 4) as u8
    } else if c == '+' {
        62
    } else {
        63
    }
}

pub proof fn lemma_b64_char_val(v: u8)
    requires
        v < 64,
    ensures
        is_b64_char(b64_char_of(v)),
        b64_val_of(b64_char_of(v)) == v,
{
}

pub proof fn lemma_b64_val_char(c: char)
    requires
        is_b64_char(c),
    ensures
        b64_val_of(c) < 64,
        b64_char_of(b64_val_of(c)) == c,
{
    let u = c as u32;
    let v = b64_val_of(c);
    let c2 = b64_char_of(v);
    assert(c2 as u32 == u);
    char_u32_cast(c, u);
    char_u32_cast(c2, u);
}

/// The character at position `i` of the canonical encoding of `k`.
pub open spec fn key_b64_char(k: Seq<u8>, i: int) -> char
    recommends
        k.len() == 32,
        0 <= i < 44,
{
    if i == 43 {
        '='
    } else if i == 40 {
        b64_char_of(k[30] >> 2)
    } else if i == 41 {
        b64_char_of(((k[30] & 3) << 4) | (k[31] >> 4))
    } else if i == 42 {
        b64_char_of((k[31] & 15) << 2)
    } else {
        let g = i / 4;
        let j = i % 4;
        if j == 0 {
            b64_char_of(k[3 * g] >> 2)
        } else if j == 1 {
            b64_char_of(((k[3 * g] & 3) << 4) | (k[3 * g + 1] >> 4))
        } else if j == 2 {
            b64_char_of(((k[3 * g + 1] & 15) << 2) | (k[3 * g + 2] >> 6))
        } else {
            b64_char_of(k[3 * g + 2] & 63)
        }
    }
}

/// The canonical base64 text of a 32-byte key: 43 alphabet characters and
/// one trailing padding `=`.
pub open spec fn spec_key_b64(k: Seq<u8>) -> Seq<char>
    recommends
        k.len() == 32,
{
    Seq::new(44, |i: int| key_b64_char(k, i))
}

/// The four 6-bit values cut from three bytes recover those bytes.
pub proof fn lemma_b64_bytes_to_vals(b0: u8, b1: u8, b2: u8)
    ensures
        b0 >> 2 < 64,
        ((b0 & 3) << 4) | (b1 >> 4) < 64,
        ((b1 & 15) << 2) | (b2 >> 6) < 64,
        b2 & 63 < 64,
        ((b0 >> 2) << 2) | ((((b0 & 3) << 4) | (b1 >> 4)) >> 4) == b0,
        (((((b0 & 3) << 4) | (b1 >> 4)) & 15) << 4) | ((((b1 & 15) << 2) | (b2 >> 6)) >> 2) == b1,
        (((((b1 & 15) << 2) | (b2 >> 6)) & 3) << 6) | (b2 & 63) == b2,
{
    assert(b0 >> 2 < 64 && ((b0 & 3) << 4) | (b1 >> 4) < 64 && ((b1 & 15) << 2) | (b2 >> 6) < 64
        && b2 & 63 < 64) by (bit_vector);
    assert(((b0 >> 2) << 2) | ((((b0 & 3) << 4) | (b1 >> 4)) >> 4) == b0) by (bit_vector);
    assert((((((b0 & 3) << 4) | (b1 >> 4)) & 15) << 4) | ((((b1 & 15) << 2) | (b2 >> 6)) >> 2)
        == b1) by (bit_vector);
    assert((((((b1 & 15) << 2) | (b2 >> 6)) & 3) << 6) | (b2 & 63) == b2) by (bit_vector);
}

/// Three bytes built from four 6-bit values cut back into those values.
pub proof fn lemma_b64_vals_to_bytes(v0: u8, v1: u8, v2: u8, v3: u8)
    requires
        v0 < 64,
        v1 < 64,
        v2 < 64,
        v3 < 64,
    ensures
        ((v0 << 2) | (v1 >> 4)) >> 2 == v0,
        ((((v0 << 2) | (v1 >> 4)) & 3) << 4) | ((((v1 & 15) << 4) | (v2 >> 2)) >> 4) == v1,
        (((((v1 & 15) << 4) | (v2 >> 2)) & 15) << 2) | ((((v2 & 3) << 6) | v3) >> 6) == v2,
        (((v2 & 3) << 6) | v3) & 63 == v3,
{
    assert(((v0 << 2) | (v1 >> 4)) >> 2 == v0) by (bit_vector)
        requires
            v0 < 64,
            v1 < 64,
    ;
    assert(((((v0 << 2) | (v1 >> 4)) & 3) << 4) | ((((v1 & 15) << 4) | (v2 >> 2)) >> 4) == v1)
        by (bit_vector)
        requires
            v1 < 64,
            v2 < 64,
    ;
    assert((((((v1 & 15) << 4) | (v2 >> 2)) & 15) << 2) | ((((v2 & 3) << 6) | v3) >> 6) == v2)
        by (bit_vector)
        requires
            v2 < 64,
            v3 < 64,
    ;
    assert((((v2 & 3) << 6) | v3) & 63 == v3) by (bit_vector)
        requires
            v3 < 64,
    ;
}

/// The padding-adjacent value cut from a byte's low nibble: a 6-bit value
/// whose low two bits are clear.
pub proof fn lemma_b64_pad_val(x: u8)
    ensures
        (x & 15) << 2 < 64,
        ((x & 15) << 2) & 3 == 0,
{
    assert((x & 15) << 2 < 64 && ((x & 15) << 2) & 3 == 0) by (bit_vector);
}

/// The last byte rebuilt from the 41st and 42nd values cuts back to the
/// 42nd value when that value's low two bits are clear.
pub proof fn lemma_b64_pad_recover(v1: u8, v2: u8)
    requires
        v1 < 64,
        v2 < 64,
        v2 & 3 == 0,
    ensures
        ((((v1 & 15) << 4) | (v2 >> 2)) & 15) << 2 == v2,
{
    assert(((((v1 & 15) << 4) | (v2 >> 2)) & 15) << 2 == v2) by (bit_vector)
        requires
            v1 < 64,
            v2 < 64,
            v2 & 3 == 0,
    ;
}

/// Two final byte pairs with equal 41st and 42nd encoded values share their
/// last byte.
pub proof fn lemma_b64_last_byte(a0: u8, a1: u8, b0: u8, b1: u8)
    requires
        (a1 & 15) << 2 == (b1 & 15) << 2,
        ((a0 & 3) << 4) | (a1 >> 4) == ((b0 & 3) << 4) | (b1 >> 4),
    ensures
        a1 == b1,
{
    assert(a1 == b1) by (bit_vector)
        requires
            (a1 & 15) << 2 == (b1 & 15) << 2,
            ((a0 & 3) << 4) | (a1 >> 4) == ((b0 & 3) << 4) | (b1 >> 4),
    ;
}

/// Exec alphabet lookup mirroring `b64_char_of`.
pub(crate) fn b64_char_exec(v: u8) -> (c: char)
    requires
        v < 64,
    ensures
        c == b64_char_of(v),
{
    if v < 26 {
        ((v + 65) as u8) as char
    } else if v < 52 {
        ((v + 71) as u8) as char
    } else if v < 62 {
        ((v - 4) as u8) as char
    } else if v == 62 {
        '+'
    } else {
        '/'
    }
}

/// Exec alphabet value lookup mirroring `b64_val_of`.
pub(crate) fn b64_val_exec(c: char) -> (r: Option<u8>)
    ensures
        r matches Some(v) ==> is_b64_char(c) && v == b64_val_of(c) && v < 64,
        r is None ==> !is_b64_char(c),
{
    let u = c as u32;
    if 65 <= u && u <= 90 {
        proof {
            lemma_b64_val_char(c);
        }
        Some((u - 65) as u8)
    } else if 97 <= u && u <= 122 {
        proof {
            lemma_b64_val_char(c);
        }
        Some((u - 71) as u8)
    } else if 48 <= u && u <= 57 {
        proof {
            lemma_b64_val_char(c);
        }
        Some((u + 4) as u8)
    } else if c == '+' {
        Some(62)
    } else if c == '/' {
        Some(63)
    } else {
        None
    }
}

} // verus!
