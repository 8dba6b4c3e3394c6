//! The authenticated-encryption overlay. Keys and values are sealed with
//! Deoxys-II-256 (32-byte key, 15-byte nonce, empty associated data) before
//! they reach the buffer and trie layers, and opened again on the way out;
//! an authentication failure on the way out reads as absence.
use vstd::prelude::*;
use deoxys::aead::Aead;
use deoxys::aead::KeyInit;

verus! {

/// The ciphertext the cipher produces: Deoxys-II is deterministic, so it is
/// a function of key, nonce and plaintext alone.
pub uninterp spec fn seal_of(key: Seq<u8>, nonce: Seq<u8>, plaintext: Seq<u8>) -> Seq<u8>;

/// What opening a ciphertext yields: the plaintext, or nothing when
/// authentication fails; a function of key, nonce and ciphertext alone.
pub uninterp spec fn open_of(key: Seq<u8>, nonce: Seq<u8>, ciphertext: Seq<u8>) -> Option<Seq<u8>>;

/// Relies on deoxys::DeoxysII256 through aead::Aead::encrypt: a
/// deterministic AEAD, so with empty associated data the ciphertext depends
/// on key, nonce and plaintext alone; encrypting into a vector cannot fail
/// (deoxys's DeoxysMode::encrypt_inout has no error path); and decrypting
/// the result under the same key and nonce gives the plaintext back.
#[verifier::external_body]
pub fn aead_seal(key: &[u8], nonce: &[u8], plaintext: &[u8]) -> (r: Vec<u8>)
    requires
        key@.len() == 32,
        nonce@.len() == 15,
    ensures
        r@ == seal_of(key@, nonce@, plaintext@),
        open_of(key@, nonce@, r@) == Some(plaintext@),
{
    let k: [u8; 32] = key.try_into().expect("key length was checked");
    let n: [u8; 15] = nonce.try_into().expect("nonce length was checked");
    let cipher = deoxys::DeoxysII256::new(&k.into());
    cipher.encrypt(&n.into(), plaintext).expect("deoxys encryption is infallible")
}

/// Relies on deoxys::DeoxysII256 through aead::Aead::decrypt: opening is a
/// function of key, nonce and ciphertext alone, and fails exactly when the
/// authentication tag does not verify.
#[verifier::external_body]
pub fn aead_open(key: &[u8], nonce: &[u8], ciphertext: &[u8]) -> (r: Option<Vec<u8>>)
    requires
        key@.len() == 32,
        nonce@.len() == 15,
    ensures
        r.deep_view() == open_of(key@, nonce@, ciphertext@),
{
    let k: [u8; 32] = key.try_into().expect("key length was checked");
    let n: [u8; 15] = nonce.try_into().expect("nonce length was checked");
    let cipher = deoxys::DeoxysII256::new(&k.into());
    cipher.decrypt(&n.into(), ciphertext).ok()
}

/// Relies on zeroize::Zeroize for Vec<u8>: every byte, including spare
/// capacity, is overwritten with zeroes and the vector is cleared.
#[verifier::external_body]
pub fn wipe(buf: &mut Vec<u8>)
    ensures
        final(buf)@.len() == 0,
{
    zeroize::Zeroize::zeroize(buf);
}

} // verus!
