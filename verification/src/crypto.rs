//! The envelope cipher: AES-256-GCM over entry bodies.
//!
//! `encrypt` seals a UTF-8 string under the vault key with a fresh 96-bit
//! nonce and writes the result as a self-describing envelope (see
//! [`crate::envelope`]); `decrypt` parses the envelope and opens it. The
//! round trip is captured by [`decrypt_spec`]: `encrypt` ensures that
//! decrypting its output yields exactly the input.

use aes_gcm::aead::{Aead, AeadCore, KeyInit, OsRng};
use aes_gcm::{Aes256Gcm, Key, Nonce};
use rand::Rng;
use secrecy::{ExposeSecret, Secret};
use vstd::prelude::*;

verus! {

use crate::envelope::{encode_envelope, parse_envelope, parse_envelope_spec};
use vstd::utf8::{decode_utf8, encode_utf8, valid_utf8};

/// What AES-256-GCM sealing returns: a function of key, nonce and plaintext
/// alone (ciphertext with the authentication tag appended).
pub uninterp spec fn seal_of(key: Seq<u8>, nonce: Seq<u8>, pt: Seq<u8>) -> Seq<u8>;

/// What AES-256-GCM opening returns: a function of key, nonce and ciphertext
/// alone; `None` when authentication fails.
pub uninterp spec fn aead_open(key: Seq<u8>, nonce: Seq<u8>, ct: Seq<u8>) -> Option<Seq<u8>>;

/// The vault key in memory: a `secrecy` container that zeroises the bytes on
/// drop and refuses casual copying. Opaque to the verifier; its contents are
/// named by [`secret_key_bytes`].
#[verifier::external_body]
pub struct SecretKey {
    inner: Secret<[u8; 32]>,
}

/// The key bytes held inside a [`SecretKey`].
pub uninterp spec fn secret_key_bytes(s: SecretKey) -> Seq<u8>;

/// Relies on secrecy::Secret::new: takes custody of the key, which is
/// zeroised on drop.
#[verifier::external_body]
fn wrap_key(k: [u8; 32]) -> (r: SecretKey)
    ensures
        secret_key_bytes(r) == k@,
{
    SecretKey { inner: Secret::new(k) }
}

/// Relies on secrecy::Secret::expose_secret: a borrowed view of the wrapped
/// key.
#[verifier::external_body]
fn expose_key(s: &SecretKey) -> (r: &[u8; 32])
    ensures
        r@ == secret_key_bytes(*s),
{
    s.inner.expose_secret()
}

/// Relies on rand::thread_rng (a cryptographically secure RNG) to sample a
/// fresh 256-bit key.
#[verifier::external_body]
pub fn generate_key() -> (r: [u8; 32])
    ensures
        r@.len() == 32,
{
    let mut key = [0u8; 32];
    rand::thread_rng().fill(&mut key);
    key
}

/// Relies on aes_gcm's generate_nonce with the operating-system RNG: 12
/// random bytes.
#[verifier::external_body]
fn gen_nonce() -> (r: Vec<u8>)
    ensures
        r@.len() == 12,
{
    Aes256Gcm::generate_nonce(&mut OsRng).to_vec()
}

/// Relies on aes_gcm::Aes256Gcm::encrypt: sealing is a function of key, nonce
/// and plaintext alone; the 16-byte tag is appended to the ciphertext;
/// opening the result under the same key and nonce gives back the plaintext;
/// it fails only for plaintexts longer than 2^36 bytes.
#[verifier::external_body]
fn aes_seal(key: &[u8; 32], nonce: &Vec<u8>, pt: &Vec<u8>) -> (r: Option<Vec<u8>>)
    requires
        nonce@.len() == 12,
    ensures
        r matches Some(ct) ==> ct@ == seal_of(key@, nonce@, pt@),
        r matches Some(ct) ==> ct@.len() == pt@.len() + 16,
        r matches Some(ct) ==> aead_open(key@, nonce@, ct@) == Some(pt@),
        pt@.len() <= 0x10_0000_0000 ==> r is Some,
{
    let cipher = Aes256Gcm::new(Key::<Aes256Gcm>::from_slice(key));
    match cipher.encrypt(Nonce::from_slice(nonce.as_slice()), pt.as_slice()) {
        Ok(ct) => Some(ct),
        Err(_) => None,
    }
}

/// Relies on aes_gcm::Aes256Gcm::decrypt: opening is a function of key, nonce
/// and ciphertext alone, and fails exactly when authentication fails.
#[verifier::external_body]
fn aes_open(key: &[u8; 32], nonce: &Vec<u8>, ct: &Vec<u8>) -> (r: Option<Vec<u8>>)
    requires
        nonce@.len() == 12,
    ensures
        (r is Some) == (aead_open(key@, nonce@, ct@) is Some),
        r matches Some(p) ==> aead_open(key@, nonce@, ct@) == Some(p@),
{
    let cipher = Aes256Gcm::new(Key::<Aes256Gcm>::from_slice(key));
    match cipher.decrypt(Nonce::from_slice(nonce.as_slice()), ct.as_slice()) {
        Ok(p) => Some(p),
        Err(_) => None,
    }
}

/// Relies on String::from_utf8: succeeds exactly on valid UTF-8 and returns
/// the decoded characters.
#[verifier::external_body]
fn bytes_to_string(b: Vec<u8>) -> (r: Option<String>)
    ensures
        (r is Some) == valid_utf8(b@),
        r matches Some(s) ==> s@ == decode_utf8(b@),
{
    match String::from_utf8(b) {
        Ok(s) => Some(s),
        Err(_) => None,
    }
}

/// Why a call into the cipher failed.
#[derive(Clone, Copy, Debug, PartialEq, Eq, Structural)]
pub enum CryptoError {
    /// The envelope is not well-formed envelope text.
    MalformedEnvelope,
    /// The envelope's nonce list does not hold exactly 12 bytes.
    WrongNonceLength,
    /// Authentication failed while opening the ciphertext.
    AuthenticationFailed,
    /// The opened plaintext is not valid UTF-8.
    InvalidPlaintext,
    /// Sealing failed (the plaintext exceeds the cipher's length limit).
    SealFailure,
}

impl CryptoError {
    /// The description [`CryptoError::message`] returns for each failure.
    pub open spec fn message_view(&self) -> Seq<char> {
        match self {
            CryptoError::MalformedEnvelope => "malformed ciphertext envelope"@,
            CryptoError::WrongNonceLength => "envelope nonce must hold 12 bytes"@,
            CryptoError::AuthenticationFailed => "decryption failed"@,
            CryptoError::InvalidPlaintext => "decrypted body is not UTF-8"@,
            CryptoError::SealFailure => "encryption failed"@,
        }
    }

    /// A short description of the failure.
    pub fn message(&self) -> (r: &'static str)
        ensures
            r@ == self.message_view(),
    {
        match self {
            CryptoError::MalformedEnvelope => "malformed ciphertext envelope",
            CryptoError::WrongNonceLength => "envelope nonce must hold 12 bytes",
            CryptoError::AuthenticationFailed => "decryption failed",
            CryptoError::InvalidPlaintext => "decrypted body is not UTF-8",
            CryptoError::SealFailure => "encryption failed",
        }
    }
}

/// What decrypting an envelope under `key` yields: parse the envelope, check
/// the nonce length, open the ciphertext, decode the plaintext as UTF-8.
pub open spec fn decrypt_spec(key: Seq<u8>, env: Seq<char>) -> Option<Seq<char>> {
    match parse_envelope_spec(env) {
        None => None,
        Some((n, c)) => if n.len() != 12 {
            None
        } else {
            match aead_open(key, n, c) {
                None => None,
                Some(p) => if valid_utf8(p) {
                    Some(decode_utf8(p))
                } else {
                    None
                },
            }
        },
    }
}

/// The envelope cipher, holding a shared read-only view of the vault key.
pub struct Crypto {
    key: SecretKey,
}

impl Crypto {
    /// The key bytes this cipher seals and opens with.
    pub closed spec fn key_view(&self) -> Seq<u8> {
        secret_key_bytes(self.key)
    }

    /// Take custody of a 256-bit key. The vault's file handling (loading a
    /// persisted key, or persisting a freshly generated one) belongs to the
    /// caller; see [`generate_key`].
    pub fn new(key: [u8; 32]) -> (r: Self)
        ensures
            r.key_view() == key@,
    {
        Crypto { key: wrap_key(key) }
    }

    /// Seal `data` under the vault key with a fresh random nonce and wrap the
    /// result in an envelope. Decrypting the envelope gives back `data`.
    pub fn encrypt(&self, data: &str) -> (r: Result<String, CryptoError>)
        ensures
            r matches Ok(env) ==> decrypt_spec(self.key_view(), env@) == Some(data@),
            r matches Ok(env) ==> (parse_envelope_spec(env@) matches Some(p) && p.0.len() == 12
                && p.1.len() == encode_utf8(data@).len() + 16),
            r matches Err(e) ==> e == CryptoError::SealFailure,
            encode_utf8(data@).len() <= 0x10_0000_0000 ==> r is Ok,
    {
        let bytes = data.as_bytes_vec();
        let nonce = gen_nonce();
        match aes_seal(expose_key(&self.key), &nonce, &bytes) {
            None => Err(CryptoError::SealFailure),
            Some(ct) => {
                let env = encode_envelope(&nonce, &ct);
                proof {
                    broadcast use vstd::utf8::encode_utf8_valid_utf8;
                    broadcast use vstd::utf8::encode_utf8_decode_utf8;

                    assert(decrypt_spec(self.key_view(), env@) == Some(data@));
                }
                Ok(env)
            },
        }
    }

    /// Open an envelope produced by [`Crypto::encrypt`]. Fails, and names the
    /// stage that failed, on a malformed envelope, a wrong-length nonce, an
    /// authentication failure, or a non-UTF-8 plaintext; the plaintext is
    /// never substituted on failure.
    pub fn decrypt(&self, env: &str) -> (r: Result<String, CryptoError>)
        ensures
            (r is Ok) == (decrypt_spec(self.key_view(), env@) is Some),
            r matches Ok(p) ==> decrypt_spec(self.key_view(), env@) == Some(p@),
            parse_envelope_spec(env@) is None ==> (r matches Err(e) && e
                == CryptoError::MalformedEnvelope),
            (parse_envelope_spec(env@) matches Some(pr) && pr.0.len() != 12) ==> (r matches Err(e)
                && e == CryptoError::WrongNonceLength),
            (parse_envelope_spec(env@) matches Some(pr) && pr.0.len() == 12 && aead_open(
                self.key_view(),
                pr.0,
                pr.1,
            ) is None) ==> (r matches Err(e) && e == CryptoError::AuthenticationFailed),
            ({
                &&& parse_envelope_spec(env@) matches Some(pr)
                &&& pr.0.len() == 12
                &&& aead_open(self.key_view(), pr.0, pr.1) matches Some(p)
                &&& !valid_utf8(p)
            }) ==> (r matches Err(e) && e == CryptoError::InvalidPlaintext),
    {
        match parse_envelope(env) {
            None => Err(CryptoError::MalformedEnvelope),
            Some((nonce, ct)) => {
                if nonce.len() != 12 {
                    return Err(CryptoError::WrongNonceLength);
                }
                match aes_open(expose_key(&self.key), &nonce, &ct) {
                    None => Err(CryptoError::AuthenticationFailed),
                    Some(pt) => match bytes_to_string(pt) {
                        None => Err(CryptoError::InvalidPlaintext),
                        Some(s) => Ok(s),
                    },
                }
            },
        }
    }
}

/// Round trip: whenever `encrypt` succeeds on `data`, `decrypt` succeeds on
/// its output and gives back exactly `data`.
pub fn encrypt_then_decrypt(crypto: &Crypto, data: &str) -> (r: Option<String>)
    ensures
        r matches Some(p) ==> p@ == data@,
        encode_utf8(data@).len() <= 0x10_0000_0000 ==> r is Some,
{
    match crypto.encrypt(data) {
        Err(_) => None,
        Ok(env) => match crypto.decrypt(env.as_str()) {
            Err(_) => {
                proof {
                    assert(false);
                }
                None
            },
            Ok(p) => Some(p),
        },
    }
}

} // verus!
