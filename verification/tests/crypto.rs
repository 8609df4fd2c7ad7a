use diary_store::crypto::{encrypt_then_decrypt, generate_key, Crypto, CryptoError};
use diary_store::envelope::{encode_envelope, parse_envelope};

#[test]
fn test_encrypt_decrypt() {
    let crypto = Crypto::new(generate_key());
    let original = "This is a secret message";
    let encrypted = crypto.encrypt(original).unwrap();
    let decrypted = crypto.decrypt(&encrypted).unwrap();
    assert_eq!(original, decrypted);
}

#[test]
fn round_trip_assorted_plaintexts() {
    let crypto = Crypto::new(generate_key());
    let cases = vec![
        "",
        "a",
        "hello world",
        "line\nbreaks\tand\ttabs",
        "unicode: \u{00e9}\u{00e8} \u{4e16}\u{754c} \u{1f512}",
        "{\"nonce\":[1,2],\"ciphertext\":[3]}",
    ];
    for case in cases {
        let env = crypto.encrypt(case).unwrap();
        assert_eq!(crypto.decrypt(&env).unwrap(), case);
        assert_eq!(encrypt_then_decrypt(&crypto, case).unwrap(), case);
    }
}

#[test]
fn nonce_freshness_thousand_envelopes() {
    let crypto = Crypto::new(generate_key());
    let mut seen = std::collections::HashSet::new();
    for _ in 0..1000 {
        let env = crypto.encrypt("same input").unwrap();
        assert!(seen.insert(env), "an envelope repeated");
    }
    assert_eq!(seen.len(), 1000);
}

#[test]
fn tamper_detection_every_bit() {
    let crypto = Crypto::new(generate_key());
    let env = crypto.encrypt("attack at dawn").unwrap();
    let (nonce, ct) = parse_envelope(&env).unwrap();
    for byte in 0..ct.len() {
        for bit in 0..8 {
            let mut tampered = ct.clone();
            tampered[byte] ^= 1u8 << bit;
            let tampered_env = encode_envelope(&nonce, &tampered);
            assert!(
                crypto.decrypt(&tampered_env).is_err(),
                "a flipped bit went unnoticed"
            );
        }
    }
}

#[test]
fn decrypt_error_kinds() {
    let crypto = Crypto::new(generate_key());
    // not an envelope at all
    assert_eq!(
        crypto.decrypt("hello"),
        Err(CryptoError::MalformedEnvelope)
    );
    assert_eq!(
        crypto.decrypt("{\"nonce\":[1,2,\"ciphertext\":[3]}"),
        Err(CryptoError::MalformedEnvelope)
    );
    // a syntactically fine envelope whose nonce is not 12 bytes
    let bad_nonce = encode_envelope(&vec![1, 2, 3], &vec![9; 20]);
    assert_eq!(crypto.decrypt(&bad_nonce), Err(CryptoError::WrongNonceLength));
    // authentication failure under the wrong key
    let env = crypto.encrypt("secret").unwrap();
    let other = Crypto::new(generate_key());
    assert_eq!(
        other.decrypt(&env),
        Err(CryptoError::AuthenticationFailed)
    );
}

#[test]
fn envelope_text_is_exact() {
    let env = encode_envelope(&vec![0, 7, 255], &vec![128, 9]);
    assert_eq!(env, "{\"nonce\":[0,7,255],\"ciphertext\":[128,9]}");
    let (n, c) = parse_envelope(&env).unwrap();
    assert_eq!(n, vec![0, 7, 255]);
    assert_eq!(c, vec![128, 9]);
}

#[test]
fn envelope_parser_rejects_junk() {
    assert!(parse_envelope("").is_none());
    assert!(parse_envelope("{\"nonce\":[01],\"ciphertext\":[2]}").is_none());
    assert!(parse_envelope("{\"nonce\":[256],\"ciphertext\":[2]}").is_none());
    assert!(parse_envelope("{\"nonce\":[1],\"ciphertext\":[2]} ").is_none());
    assert!(parse_envelope("{\"nonce\":[1],\"ciphertext\":[2]").is_none());
    assert!(parse_envelope("{\"nonce\":[1, 2],\"ciphertext\":[3]}").is_none());
    // the empty lists are within the grammar
    assert_eq!(
        parse_envelope("{\"nonce\":[],\"ciphertext\":[]}"),
        Some((vec![], vec![]))
    );
}

#[test]
fn envelope_matches_standard_json() {
    // the envelope is plain JSON: a general parser agrees with ours
    let crypto = Crypto::new(generate_key());
    let env = crypto.encrypt("body text").unwrap();
    let v: serde_json::Value = serde_json::from_str(&env).unwrap();
    let nonce = v["nonce"].as_array().unwrap();
    let ct = v["ciphertext"].as_array().unwrap();
    assert_eq!(nonce.len(), 12);
    assert_eq!(ct.len(), "body text".len() + 16);
    let (n2, c2) = parse_envelope(&env).unwrap();
    assert_eq!(n2.len(), nonce.len());
    assert_eq!(c2.len(), ct.len());
    for (i, b) in n2.iter().enumerate() {
        assert_eq!(u64::from(*b), nonce[i].as_u64().unwrap());
    }
    for (i, b) in c2.iter().enumerate() {
        assert_eq!(u64::from(*b), ct[i].as_u64().unwrap());
    }
}
