//! The AES-128 single-block primitive, provided by OpenSSL.
use vstd::prelude::*;
use openssl::symm::{Cipher, Crypter, Mode};

verus! {

/// The AES-128 encryption of one 16-byte block under a 16-byte key.
pub uninterp spec fn aes_encrypt_block_of(key: Seq<u8>, block: Seq<u8>) -> Seq<u8>;

/// The AES-128 decryption of one 16-byte block under a 16-byte key.
pub uninterp spec fn aes_decrypt_block_of(key: Seq<u8>, block: Seq<u8>) -> Seq<u8>;

/// Under `key` the primitive maps 16-byte blocks to 16-byte blocks, and
/// decryption and encryption undo each other: true of every 16-byte AES key,
/// and what each call of the block functions below reports for its block.
pub open spec fn block_cipher_permutes(key: Seq<u8>) -> bool {
    &&& key.len() == 16
    &&& forall|b: Seq<u8>| #[trigger] aes_encrypt_block_of(key, b).len() == 16 || b.len() != 16
    &&& forall|b: Seq<u8>| #[trigger] aes_decrypt_block_of(key, b).len() == 16 || b.len() != 16
    &&& forall|b: Seq<u8>|
        b.len() == 16 ==> aes_decrypt_block_of(key, #[trigger] aes_encrypt_block_of(key, b)) == b
    &&& forall|b: Seq<u8>|
        b.len() == 16 ==> aes_encrypt_block_of(key, #[trigger] aes_decrypt_block_of(key, b)) == b
}

/// Relies on openssl's `Crypter` with AES-128-ECB and padding off: encrypts
/// exactly one block, which AES decryption turns back into the input.
#[verifier::external_body]
pub(crate) fn encrypt_block(key: &[u8], block: &[u8]) -> (r: Vec<u8>)
    requires
        key@.len() == 16,
        block@.len() == 16,
    ensures
        r@ == aes_encrypt_block_of(key@, block@),
        r@.len() == 16,
        aes_decrypt_block_of(key@, r@) == block@,
{
    let mut c = Crypter::new(Cipher::aes_128_ecb(), Mode::Encrypt, key, None).unwrap();
    c.pad(false);
    let mut out = vec![0u8; 32];
    let n = c.update(block, &mut out).unwrap();
    let m = c.finalize(&mut out[n..]).unwrap();
    out.truncate(n + m);
    out
}

/// Relies on openssl's `Crypter` with AES-128-ECB and padding off: decrypts
/// exactly one block, which AES encryption turns back into the input.
#[verifier::external_body]
pub(crate) fn decrypt_block(key: &[u8], block: &[u8]) -> (r: Vec<u8>)
    requires
        key@.len() == 16,
        block@.len() == 16,
    ensures
        r@ == aes_decrypt_block_of(key@, block@),
        r@.len() == 16,
        aes_encrypt_block_of(key@, r@) == block@,
{
    let mut c = Crypter::new(Cipher::aes_128_ecb(), Mode::Decrypt, key, None).unwrap();
    c.pad(false);
    let mut out = vec![0u8; 32];
    let n = c.update(block, &mut out).unwrap();
    let m = c.finalize(&mut out[n..]).unwrap();
    out.truncate(n + m);
    out
}

} // verus!
