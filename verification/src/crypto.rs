use vstd::prelude::*;

use chacha20::cipher::StreamCipher;
use chacha20::ChaCha20;
use chacha20::KeyIvInit;
use sha2::Digest;

verus! {

/// What SHA-256 returns for an input; a function of the input bytes alone.
pub uninterp spec fn spec_sha256(data: Seq<u8>) -> Seq<u8>;

/// What the ChaCha20 keystream holds for a key and nonce, up to a length;
/// a function of its arguments alone.
pub uninterp spec fn spec_chacha20_keystream(key: Seq<u8>, nonce: Seq<u8>, len: nat) -> Seq<u8>;

/// Relies on sha2::Sha256 (FIPS 180-4): the digest depends on the input
/// bytes alone and is 32 bytes long.
#[verifier::external_body]
pub(crate) fn sha256_bytes(data: &Vec<u8>) -> (r: Vec<u8>)
    ensures
        r@ == spec_sha256(data@),
        r@.len() == 32,
{
    sha2::Sha256::digest(data.as_slice()).to_vec()
}

/// Relies on chacha20::ChaCha20 (RFC 8439): the keystream depends on the key
/// and nonce alone. `write_keystream` panics only past the end of the
/// keystream, which lies far beyond the lengths admitted here.
#[verifier::external_body]
pub(crate) fn chacha20_keystream(key: &Vec<u8>, nonce: &Vec<u8>, len: usize) -> (r: Vec<u8>)
    requires
        key@.len() == 32,
        nonce@.len() == 12,
        len <= 0xffff_ffff,
    ensures
        r@ == spec_chacha20_keystream(key@, nonce@, len as nat),
        r@.len() == len,
{
    let k: [u8; 32] = key.as_slice().try_into().expect("key length checked");
    let n: [u8; 12] = nonce.as_slice().try_into().expect("nonce length checked");
    let mut cipher = ChaCha20::new(&k.into(), &n.into());
    let mut buf = vec![0u8; len];
    cipher.write_keystream(&mut buf);
    buf
}

/// Relies on rand::random: a draw from the thread-local generator; nothing is
/// promised of the value.
#[verifier::external_body]
pub(crate) fn random_u64() -> u64 {
    rand::random::<u64>()
}

/// Relies on String::from_utf8: returns a string exactly when the bytes are
/// valid UTF-8, and then the string decodes those bytes.
#[verifier::external_body]
pub(crate) fn string_from_utf8(v: Vec<u8>) -> (r: Option<String>)
    ensures
        r is Some <==> vstd::utf8::valid_utf8(v@),
        r is Some ==> r.unwrap()@ == vstd::utf8::decode_utf8(v@),
{
    match String::from_utf8(v) {
        Ok(s) => Some(s),
        Err(_) => None,
    }
}

} // verus!
