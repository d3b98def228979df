//! Key material: an opaque 32-byte value with a canonical base64 text form,
//! random generation, and Curve25519 public-key derivation.
use vstd::prelude::*;

use crate::b64::{
    b64_char_exec, b64_char_of, b64_val_exec, b64_val_of, is_b64_char, key_b64_char,
    lemma_b64_bytes_to_vals, lemma_b64_char_val, lemma_b64_last_byte, lemma_b64_pad_recover,
    lemma_b64_pad_val, lemma_b64_val_char, lemma_b64_vals_to_bytes, spec_key_b64,
};
use crate::text::{chars_to_string, str_chars};
use crate::WgError;

verus! {

/// A private, public or preshared key: exactly 32 raw bytes.
#[derive(Debug, PartialEq, Eq)]
pub struct Key {
    bytes: Vec<u8>,
}

impl View for Key {
    type V = Seq<u8>;

    closed spec fn view(&self) -> Seq<u8> {
        self.bytes@
    }
}

/// What a Curve25519 base-point multiplication makes of a 32-byte private
/// key; it depends on the key's bytes alone.
pub uninterp spec fn x25519_public_of(k: Seq<u8>) -> Seq<u8>;

impl Key {
    /// The raw form is exactly 32 bytes.
    pub open spec fn wf(&self) -> bool {
        self@.len() == 32
    }

    /// Wraps raw bytes; rejects any length other than 32.
    pub fn from_bytes(bytes: Vec<u8>) -> (r: Result<Key, WgError>)
        ensures
            bytes@.len() == 32 ==> (r matches Ok(k) && k@ == bytes@ && k.wf()),
            bytes@.len() != 32 ==> (r matches Err(e) && e == WgError::InvalidKeyFormat),
    {
        if bytes.len() == 32 {
            Ok(Key { bytes })
        } else {
            Err(WgError::InvalidKeyFormat)
        }
    }

    /// The raw bytes.
    pub fn bytes(&self) -> (r: &Vec<u8>)
        ensures
            r@ == self@,
    {
        &self.bytes
    }

    /// A value equal to this one.
    pub fn duplicate(&self) -> (r: Key)
        ensures
            r@ == self@,
    {
        let mut out: Vec<u8> = Vec::new();
        let mut i: usize = 0;
        while i < self.bytes.len()
            invariant
                i <= self@.len(),
                out@ == self@.subrange(0, i as int),
            decreases self@.len() - i,
        {
            out.push(self.bytes[i]);
            proof {
                assert(out@ =~= self@.subrange(0, i + 1));
            }
            i += 1;
        }
        proof {
            assert(self@.subrange(0, self@.len() as int) =~= self@);
        }
        Key { bytes: out }
    }

    /// Whether the two keys hold the same bytes.
    pub fn equals(&self, other: &Key) -> (r: bool)
        ensures
            r == (self@ == other@),
    {
        if self.bytes.len() != other.bytes.len() {
            proof {
                assert(self@ != other@);
            }
            return false;
        }
        let mut i: usize = 0;
        while i < self.bytes.len()
            invariant
                i <= self@.len(),
                self@.len() == other@.len(),
                forall|j: int| 0 <= j < i ==> self@[j] == other@[j],
            decreases self@.len() - i,
        {
            if self.bytes[i] != other.bytes[i] {
                proof {
                    assert(self@ != other@);
                }
                return false;
            }
            i += 1;
        }
        proof {
            assert(self@ =~= other@);
        }
        true
    }

    /// The canonical 44-character base64 text of this key.
    pub fn encode_base64(&self) -> (r: String)
        requires
            self.wf(),
        ensures
            r@ == spec_key_b64(self@),
    {
        let k = &self.bytes;
        let mut out: Vec<char> = Vec::new();
        let mut g: usize = 0;
        while g < 10
            invariant
                g <= 10,
                k@.len() == 32,
                k@ == self@,
                out@.len() == 4 * g,
                forall|i: int| 0 <= i < 4 * g ==> out@[i] == key_b64_char(k@, i),
            decreases 10 - g,
        {
            let b0 = k[3 * g];
            let b1 = k[3 * g + 1];
            let b2 = k[3 * g + 2];
            proof {
                lemma_b64_bytes_to_vals(b0, b1, b2);
            }
            out.push(b64_char_exec(b0 >> 2));
            out.push(b64_char_exec(((b0 & 3) << 4) | (b1 >> 4)));
            out.push(b64_char_exec(((b1 & 15) << 2) | (b2 >> 6)));
            out.push(b64_char_exec(b2 & 63));
            proof {
                let i = 4 * g as int;
                assert(i / 4 == g && i % 4 == 0);
                assert((i + 1) / 4 == g && (i + 1) % 4 == 1);
                assert((i + 2) / 4 == g && (i + 2) % 4 == 2);
                assert((i + 3) / 4 == g && (i + 3) % 4 == 3);
            }
            g += 1;
        }
        let b30 = k[30];
        let b31 = k[31];
        proof {
            lemma_b64_bytes_to_vals(b30, b31, 0);
            assert((b31 & 15) << 2 < 64) by (bit_vector);
        }
        out.push(b64_char_exec(b30 >> 2));
        out.push(b64_char_exec(((b30 & 3) << 4) | (b31 >> 4)));
        out.push(b64_char_exec((b31 & 15) << 2));
        out.push('=');
        proof {
            assert(out@ =~= spec_key_b64(self@));
        }
        chars_to_string(&out)
    }

    /// Decodes the canonical base64 text of a key; `Ok` exactly on the
    /// encoding of some 32-byte value, `InvalidKeyFormat` otherwise.
    pub fn decode_base64(s: &str) -> (r: Result<Key, WgError>)
        ensures
            r matches Ok(k) ==> k.wf() && s@ == spec_key_b64(k@),
            r matches Err(e) ==> e == WgError::InvalidKeyFormat && (forall|b: Seq<u8>|
                b.len() == 32 ==> s@ != spec_key_b64(b)),
    {
        let cs = str_chars(s);
        let n = cs.len();
        if n != 44 {
            return Err(WgError::InvalidKeyFormat);
        }
        if cs[43] != '=' {
            return Err(WgError::InvalidKeyFormat);
        }
        let mut vals: Vec<u8> = Vec::new();
        let mut i: usize = 0;
        while i < 43
            invariant
                i <= 43,
                cs@ == s@,
                cs@.len() == 44,
                vals@.len() == i,
                forall|j: int|
                    0 <= j < i ==> is_b64_char(#[trigger] cs@[j]) && vals@[j] == b64_val_of(cs@[j])
                        && vals@[j] < 64,
            decreases 43 - i,
        {
            match b64_val_exec(cs[i]) {
                Some(v) => {
                    vals.push(v);
                    i += 1;
                },
                None => {
                    proof {
                        assert forall|b: Seq<u8>| b.len() == 32 implies s@ != spec_key_b64(b) by {
                            if s@ == spec_key_b64(b) {
                                lemma_key_b64_shape(b);
                                assert(is_b64_char(s@[i as int]));
                            }
                        }
                    }
                    return Err(WgError::InvalidKeyFormat);
                },
            }
        }
        if vals[42] & 3 != 0 {
            proof {
                assert forall|b: Seq<u8>| b.len() == 32 implies s@ != spec_key_b64(b) by {
                    if s@ == spec_key_b64(b) {
                        let w = (b[31] & 15) << 2;
                        lemma_b64_pad_val(b[31]);
                        lemma_b64_char_val(w);
                        assert(s@[42] == b64_char_of(w));
                        assert(vals@[42] == w);
                    }
                }
            }
            return Err(WgError::InvalidKeyFormat);
        }
        proof {
            assert forall|j: int| 0 <= j < 43 implies vals@[j] < 64 by {
                assert(is_b64_char(cs@[j]));
            }
        }
        let mut bytes: Vec<u8> = Vec::new();
        let mut g: usize = 0;
        while g < 10
            invariant
                g <= 10,
                vals@.len() == 43,
                forall|j: int| 0 <= j < 43 ==> #[trigger] vals@[j] < 64,
                bytes@.len() == 3 * g,
                forall|t: int|
                    0 <= t < g ==> #[trigger] bytes@[3 * t] == (vals@[4 * t] << 2) | (vals@[4 * t
                        + 1] >> 4) && bytes@[3 * t + 1] == ((vals@[4 * t + 1] & 15) << 4) | (vals@[4
                        * t + 2] >> 2) && bytes@[3 * t + 2] == ((vals@[4 * t + 2] & 3) << 6)
                        | vals@[4 * t + 3],
            decreases 10 - g,
        {
            let v0 = vals[4 * g];
            let v1 = vals[4 * g + 1];
            let v2 = vals[4 * g + 2];
            let v3 = vals[4 * g + 3];
            let ghost oldb = bytes@;
            bytes.push((v0 << 2) | (v1 >> 4));
            bytes.push(((v1 & 15) << 4) | (v2 >> 2));
            bytes.push(((v2 & 3) << 6) | v3);
            proof {
                assert(bytes@ =~= oldb + seq![
                    (v0 << 2) | (v1 >> 4),
                    ((v1 & 15) << 4) | (v2 >> 2),
                    ((v2 & 3) << 6) | v3,
                ]);
                assert(forall|t: int| 0 <= t < g ==> #[trigger] bytes@[3 * t] == oldb[3 * t]
                    && bytes@[3 * t + 1] == oldb[3 * t + 1] && bytes@[3 * t + 2] == oldb[3 * t
                    + 2]);
                assert(bytes@[3 * g as int] == (vals@[4 * g as int] << 2) | (vals@[4 * g as int + 1]
                    >> 4));
                assert(bytes@[3 * g as int + 1] == ((vals@[4 * g as int + 1] & 15) << 4) | (vals@[4
                    * g as int + 2] >> 2));
                assert(bytes@[3 * g as int + 2] == ((vals@[4 * g as int + 2] & 3) << 6) | vals@[4
                    * g as int + 3]);
            }
            g += 1;
        }
        let v40 = vals[40];
        let v41 = vals[41];
        let v42 = vals[42];
        bytes.push((v40 << 2) | (v41 >> 4));
        bytes.push(((v41 & 15) << 4) | (v42 >> 2));
        proof {
            assert(s@ =~= spec_key_b64(bytes@)) by {
                assert forall|i: int| 0 <= i < 44 implies s@[i] == key_b64_char(bytes@, i) by {
                    if i < 40 {
                        let g = i / 4;
                        let w0 = vals@[4 * g];
                        let w1 = vals@[4 * g + 1];
                        let w2 = vals@[4 * g + 2];
                        let w3 = vals@[4 * g + 3];
                        lemma_b64_vals_to_bytes(w0, w1, w2, w3);
                        lemma_b64_val_char(cs@[4 * g]);
                        lemma_b64_val_char(cs@[4 * g + 1]);
                        lemma_b64_val_char(cs@[4 * g + 2]);
                        lemma_b64_val_char(cs@[4 * g + 3]);
                        assert(0 <= g < 10 && 0 <= i % 4 < 4);
                        assert(bytes@[3 * g] == (w0 << 2) | (w1 >> 4));
                        assert(bytes@[3 * g + 1] == ((w1 & 15) << 4) | (w2 >> 2));
                        assert(bytes@[3 * g + 2] == ((w2 & 3) << 6) | w3);
                    } else if i == 40 || i == 41 || i == 42 {
                        lemma_b64_vals_to_bytes(v40, v41, v42, 0);
                        lemma_b64_val_char(cs@[40]);
                        lemma_b64_val_char(cs@[41]);
                        lemma_b64_val_char(cs@[42]);
                        assert(bytes@[30] == (v40 << 2) | (v41 >> 4));
                        assert(bytes@[31] == ((v41 & 15) << 4) | (v42 >> 2));
                        lemma_b64_pad_recover(v41, v42);
                    }
                }
            }
        }
        Ok(Key { bytes })
    }
}

/// The canonical encoding of any 32-byte value is 44 characters long: 43
/// alphabet characters, then the padding `=`. A string of another length,
/// with a character outside the alphabet, or without the padding is
/// therefore no encoding, and `decode_base64` rejects it.
pub proof fn lemma_key_b64_shape(k: Seq<u8>)
    requires
        k.len() == 32,
    ensures
        spec_key_b64(k).len() == 44,
        forall|i: int| 0 <= i < 43 ==> is_b64_char(#[trigger] spec_key_b64(k)[i]),
        spec_key_b64(k)[43] == '=',
{
    assert forall|i: int| 0 <= i < 43 implies is_b64_char(#[trigger] spec_key_b64(k)[i]) by {
        if i < 40 {
            let g = i / 4;
            assert(0 <= g < 10 && 0 <= i % 4 < 4);
            lemma_b64_bytes_to_vals(k[3 * g], k[3 * g + 1], k[3 * g + 2]);
            lemma_b64_char_val(k[3 * g] >> 2);
            lemma_b64_char_val(((k[3 * g] & 3) << 4) | (k[3 * g + 1] >> 4));
            lemma_b64_char_val(((k[3 * g + 1] & 15) << 2) | (k[3 * g + 2] >> 6));
            lemma_b64_char_val(k[3 * g + 2] & 63);
        } else {
            lemma_b64_bytes_to_vals(k[30], k[31], 0);
            lemma_b64_char_val(k[30] >> 2);
            lemma_b64_char_val(((k[30] & 3) << 4) | (k[31] >> 4));
            lemma_b64_pad_val(k[31]);
            lemma_b64_char_val((k[31] & 15) << 2);
        }
    }
}

/// The canonical encoding names its key uniquely, so decoding the encoding
/// of a 32-byte value yields exactly that value back.
pub proof fn lemma_base64_round_trip(a: Seq<u8>, b: Seq<u8>)
    requires
        a.len() == 32,
        b.len() == 32,
        spec_key_b64(a) == spec_key_b64(b),
    ensures
        a == b,
{
    assert forall|j: int| 0 <= j < 32 implies a[j] == b[j] by {
        if j < 30 {
            let g = j / 3;
            assert(0 <= g < 10 && 0 <= j % 3 < 3 && j == 3 * g + j % 3);
            let a0 = a[3 * g];
            let a1 = a[3 * g + 1];
            let a2 = a[3 * g + 2];
            let b0 = b[3 * g];
            let b1 = b[3 * g + 1];
            let b2 = b[3 * g + 2];
            lemma_b64_bytes_to_vals(a0, a1, a2);
            lemma_b64_bytes_to_vals(b0, b1, b2);
            lemma_b64_char_val(a0 >> 2);
            lemma_b64_char_val(((a0 & 3) << 4) | (a1 >> 4));
            lemma_b64_char_val(((a1 & 15) << 2) | (a2 >> 6));
            lemma_b64_char_val(a2 & 63);
            lemma_b64_char_val(b0 >> 2);
            lemma_b64_char_val(((b0 & 3) << 4) | (b1 >> 4));
            lemma_b64_char_val(((b1 & 15) << 2) | (b2 >> 6));
            lemma_b64_char_val(b2 & 63);
            assert((4 * g) / 4 == g && (4 * g) % 4 == 0);
            assert((4 * g + 1) / 4 == g && (4 * g + 1) % 4 == 1);
            assert((4 * g + 2) / 4 == g && (4 * g + 2) % 4 == 2);
            assert((4 * g + 3) / 4 == g && (4 * g + 3) % 4 == 3);
            assert(spec_key_b64(a)[4 * g] == b64_char_of(a0 >> 2));
            assert(spec_key_b64(b)[4 * g] == b64_char_of(b0 >> 2));
            assert(spec_key_b64(a)[4 * g + 1] == b64_char_of(((a0 & 3) << 4) | (a1 >> 4)));
            assert(spec_key_b64(b)[4 * g + 1] == b64_char_of(((b0 & 3) << 4) | (b1 >> 4)));
            assert(spec_key_b64(a)[4 * g + 2] == b64_char_of(((a1 & 15) << 2) | (a2 >> 6)));
            assert(spec_key_b64(b)[4 * g + 2] == b64_char_of(((b1 & 15) << 2) | (b2 >> 6)));
            assert(spec_key_b64(a)[4 * g + 3] == b64_char_of(a2 & 63));
            assert(spec_key_b64(b)[4 * g + 3] == b64_char_of(b2 & 63));
            assert(a0 >> 2 == b0 >> 2) by {
                assert(spec_key_b64(a)[4 * g] == spec_key_b64(b)[4 * g]);
            }
            assert(((a0 & 3) << 4) | (a1 >> 4) == ((b0 & 3) << 4) | (b1 >> 4)) by {
                assert(spec_key_b64(a)[4 * g + 1] == spec_key_b64(b)[4 * g + 1]);
            }
            assert(((a1 & 15) << 2) | (a2 >> 6) == ((b1 & 15) << 2) | (b2 >> 6)) by {
                assert(spec_key_b64(a)[4 * g + 2] == spec_key_b64(b)[4 * g + 2]);
            }
            assert(a2 & 63 == b2 & 63) by {
                assert(spec_key_b64(a)[4 * g + 3] == spec_key_b64(b)[4 * g + 3]);
            }
            assert(a0 == b0 && a1 == b1 && a2 == b2);
        } else {
            let a0 = a[30];
            let a1 = a[31];
            let b0 = b[30];
            let b1 = b[31];
            lemma_b64_bytes_to_vals(a0, a1, 0);
            lemma_b64_bytes_to_vals(b0, b1, 0);
            lemma_b64_char_val(a0 >> 2);
            lemma_b64_char_val(((a0 & 3) << 4) | (a1 >> 4));
            lemma_b64_char_val(b0 >> 2);
            lemma_b64_char_val(((b0 & 3) << 4) | (b1 >> 4));
            lemma_b64_pad_val(a1);
            lemma_b64_pad_val(b1);
            lemma_b64_char_val((a1 & 15) << 2);
            lemma_b64_char_val((b1 & 15) << 2);
            assert(spec_key_b64(a)[40] == b64_char_of(a0 >> 2));
            assert(spec_key_b64(b)[40] == b64_char_of(b0 >> 2));
            assert(spec_key_b64(a)[41] == b64_char_of(((a0 & 3) << 4) | (a1 >> 4)));
            assert(spec_key_b64(b)[41] == b64_char_of(((b0 & 3) << 4) | (b1 >> 4)));
            assert(spec_key_b64(a)[42] == b64_char_of((a1 & 15) << 2));
            assert(spec_key_b64(b)[42] == b64_char_of((b1 & 15) << 2));
            assert(a0 >> 2 == b0 >> 2) by {
                assert(spec_key_b64(a)[40] == spec_key_b64(b)[40]);
            }
            assert(((a0 & 3) << 4) | (a1 >> 4) == ((b0 & 3) << 4) | (b1 >> 4)) by {
                assert(spec_key_b64(a)[41] == spec_key_b64(b)[41]);
            }
            assert((a1 & 15) << 2 == (b1 & 15) << 2) by {
                assert(spec_key_b64(a)[42] == spec_key_b64(b)[42]);
            }
            assert(a0 == b0);
            lemma_b64_last_byte(a0, a1, b0, b1);
        }
    }
    assert(a =~= b);
}

/// Public-key derivation depends on the private key's bytes alone, so two
/// derivations from one key give one result.
pub proof fn lemma_derive_public_deterministic(a: Seq<u8>, b: Seq<u8>)
    requires
        a == b,
    ensures
        x25519_public_of(a) == x25519_public_of(b),
{
}

/// Decoding one base64 text gives one key, so the derived public key's
/// encoding is a function of the input text alone: two calls of
/// `get_public_key` on equal texts return equal results.
pub proof fn lemma_get_public_key_deterministic(a: Seq<u8>, b: Seq<u8>)
    requires
        a.len() == 32,
        b.len() == 32,
        spec_key_b64(a) == spec_key_b64(b),
    ensures
        spec_key_b64(x25519_public_of(a)) == spec_key_b64(x25519_public_of(b)),
{
    lemma_base64_round_trip(a, b);
}

/// Decodes a base64 private key, derives its public key, and returns that
/// key's base64 text; `InvalidKeyFormat` exactly when the input encodes no
/// 32-byte value. The result is pinned by the input text alone.
pub fn get_public_key(s: &str) -> (r: Result<String, WgError>)
    ensures
        r matches Ok(t) ==> (exists|k: Seq<u8>|
            k.len() == 32 && s@ == #[trigger] spec_key_b64(k) && t@ == spec_key_b64(
                x25519_public_of(k),
            )),
        r matches Ok(t) ==> forall|k: Seq<u8>|
            k.len() == 32 && s@ == #[trigger] spec_key_b64(k) ==> t@ == spec_key_b64(
                x25519_public_of(k),
            ),
        r matches Err(e) ==> e == WgError::InvalidKeyFormat && (forall|b: Seq<u8>|
            b.len() == 32 ==> s@ != spec_key_b64(b)),
{
    match Key::decode_base64(s) {
        Ok(key) => {
            let t = derive_public(&key).encode_base64();
            proof {
                assert forall|k: Seq<u8>|
                    k.len() == 32 && s@ == #[trigger] spec_key_b64(k) implies t@ == spec_key_b64(
                    x25519_public_of(k),
                ) by {
                    lemma_base64_round_trip(key@, k);
                }
            }
            Ok(t)
        },
        Err(e) => Err(e),
    }
}

/// Relies on `wireguard_control::Key::generate_private`: 32 random bytes
/// with Curve25519 clamping (low three bits of the first byte cleared, the
/// top bit of the last byte cleared and its bit 6 set).
#[verifier::external_body]
pub fn generate_private() -> (r: Key)
    ensures
        r.wf(),
        r@[0] % 8 == 0,
        64 <= r@[31] < 128,
{
    let k = wireguard_control::Key::generate_private();
    Key { bytes: k.0.to_vec() }
}

/// Relies on `wireguard_control::Key::generate_preshared`: 32 random bytes.
#[verifier::external_body]
pub fn generate_preshared() -> (r: Key)
    ensures
        r.wf(),
{
    let k = wireguard_control::Key::generate_preshared();
    Key { bytes: k.0.to_vec() }
}

/// Relies on `wireguard_control::Key::get_public`: Curve25519 base-point
/// multiplication, a pure function of the 32 key bytes returning 32 bytes.
#[verifier::external_body]
pub fn derive_public(private: &Key) -> (r: Key)
    requires
        private.wf(),
    ensures
        r.wf(),
        r@ == x25519_public_of(private@),
{
    let mut arr = [0u8; 32];
    arr.copy_from_slice(private.bytes.as_slice());
    let pk = wireguard_control::Key(arr).get_public();
    Key { bytes: pk.0.to_vec() }
}

} // verus!
