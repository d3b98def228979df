use wireguardex::key::{derive_public, generate_preshared, generate_private, get_public_key, Key};
use wireguardex::WgError;

#[test]
fn base64_round_trip_generated() {
    let k = generate_preshared();
    let text = k.encode_base64();
    let back = Key::decode_base64(&text).unwrap();
    assert_eq!(back.bytes(), k.bytes());
}

#[test]
fn base64_round_trip_private() {
    let k = generate_private();
    let text = k.encode_base64();
    assert_eq!(text.len(), 44);
    let back = Key::decode_base64(&text).unwrap();
    assert_eq!(back.bytes(), k.bytes());
}

#[test]
fn encode_zero_key_exact() {
    let k = Key::from_bytes(vec![0u8; 32]).unwrap();
    assert_eq!(
        k.encode_base64(),
        "AAAAAAAAAAAAAAAAAAAAAAAAAAAAAAAAAAAAAAAAAAA="
    );
}

#[test]
fn encode_known_vector() {
    let mut bytes = Vec::new();
    for i in 0..32u8 {
        bytes.push(i);
    }
    let k = Key::from_bytes(bytes).unwrap();
    let text = k.encode_base64();
    assert_eq!(text, "AAECAwQFBgcICQoLDA0ODxAREhMUFRYXGBkaGxwdHh8=");
    let back = Key::decode_base64(&text).unwrap();
    assert_eq!(back.bytes(), k.bytes());
}

#[test]
fn base64_round_trip_many() {
    for _ in 0..100 {
        let k = generate_preshared();
        let back = Key::decode_base64(&k.encode_base64()).unwrap();
        assert_eq!(back.bytes(), k.bytes());
    }
}

#[test]
fn decode_rejects_wrong_length() {
    assert_eq!(Key::decode_base64("abc"), Err(WgError::InvalidKeyFormat));
    assert_eq!(Key::decode_base64(""), Err(WgError::InvalidKeyFormat));
    // 45 characters.
    assert_eq!(
        Key::decode_base64("AAAAAAAAAAAAAAAAAAAAAAAAAAAAAAAAAAAAAAAAAAA=A"),
        Err(WgError::InvalidKeyFormat)
    );
}

#[test]
fn decode_rejects_invalid_alphabet() {
    // 44 characters, but one is outside the base64 alphabet.
    assert_eq!(
        Key::decode_base64("AAAAAAAAAAAAAAAAAAAA!AAAAAAAAAAAAAAAAAAAAAA="),
        Err(WgError::InvalidKeyFormat)
    );
}

#[test]
fn decode_rejects_missing_padding() {
    assert_eq!(
        Key::decode_base64("AAAAAAAAAAAAAAAAAAAAAAAAAAAAAAAAAAAAAAAAAAAA"),
        Err(WgError::InvalidKeyFormat)
    );
}

#[test]
fn decode_rejects_noncanonical_tail() {
    // The 43rd character carries the last four data bits followed by two
    // zero bits; 'B' sets one of those two bits.
    assert_eq!(
        Key::decode_base64("AAAAAAAAAAAAAAAAAAAAAAAAAAAAAAAAAAAAAAAAAAB="),
        Err(WgError::InvalidKeyFormat)
    );
}

#[test]
fn from_bytes_rejects_wrong_length() {
    assert!(Key::from_bytes(vec![0u8; 31]).is_err());
    assert!(Key::from_bytes(vec![0u8; 33]).is_err());
    assert!(Key::from_bytes(vec![0u8; 32]).is_ok());
}

#[test]
fn generated_private_keys_are_clamped() {
    for _ in 0..32 {
        let k = generate_private();
        let b = k.bytes();
        assert_eq!(b.len(), 32);
        assert_eq!(b[0] % 8, 0);
        assert!(b[31] >= 64 && b[31] < 128);
    }
}

#[test]
fn generated_keys_differ() {
    let a = generate_preshared();
    let b = generate_preshared();
    assert_ne!(a.bytes(), b.bytes());
    let c = generate_private();
    let d = generate_private();
    assert_ne!(c.bytes(), d.bytes());
}

#[test]
fn derive_public_is_deterministic() {
    let k = generate_private();
    let p1 = derive_public(&k);
    let p2 = derive_public(&k);
    assert_eq!(p1.bytes(), p2.bytes());
    assert_ne!(p1.bytes(), k.bytes());
}

#[test]
fn get_public_key_deterministic_and_exact() {
    let first = get_public_key("SGb+ojrRNDuMePufwtIYhXzA//k6wF3R21tEBgKlzlM=").unwrap();
    let second = get_public_key("SGb+ojrRNDuMePufwtIYhXzA//k6wF3R21tEBgKlzlM=").unwrap();
    assert_eq!(first, second);
    assert_eq!(first, "DD5yKRfzExcV5+kDnTroDgCU15latdMjiQ59j1hEuk8=");
    let generated = generate_private().encode_base64();
    assert_eq!(get_public_key(&generated), get_public_key(&generated));
}

#[test]
fn get_public_key_rejects_bad_input() {
    assert_eq!(get_public_key("not a key"), Err(WgError::InvalidKeyFormat));
    assert_eq!(get_public_key(""), Err(WgError::InvalidKeyFormat));
}

#[test]
fn derive_public_known_vector() {
    let private = Key::decode_base64("SGb+ojrRNDuMePufwtIYhXzA//k6wF3R21tEBgKlzlM=").unwrap();
    let public = derive_public(&private);
    assert_eq!(
        public.encode_base64(),
        "DD5yKRfzExcV5+kDnTroDgCU15latdMjiQ59j1hEuk8="
    );
}
