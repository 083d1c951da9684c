//! ECB and CBC modes over the AES-128 block primitive, with PKCS#7 padding.
use vstd::prelude::*;
use crate::bytes::{append_bytes, copy_range, fixed_xor, xor_seq};
use crate::padding::{pad_to_block, padded, pkcs7_unpadding, strip_result, PaddingError};
use crate::primitive::{aes_decrypt_block_of, aes_encrypt_block_of, decrypt_block, encrypt_block};

verus! {

/// Why a mode operation failed.
#[derive(Clone, Copy, Debug, PartialEq, Eq, Structural)]
pub enum ModeError {
    /// The ciphertext is not a whole number of blocks.
    InvalidLength,
    /// An IV was given whose length is not one block.
    InvalidIvLength,
    /// The decrypted data does not end in valid padding.
    Padding(PaddingError),
}

/// Block `i` of `s`: bytes `16 * i .. 16 * i + 16`.
pub open spec fn block_at(s: Seq<u8>, i: int) -> Seq<u8> {
    s.subrange(16 * i, 16 * i + 16)
}

/// The concatenation of `f(0), f(1), ..., f(n - 1)`.
pub open spec fn join_blocks(n: nat, f: spec_fn(int) -> Seq<u8>) -> Seq<u8>
    decreases n,
{
    if n == 0 {
        Seq::empty()
    } else {
        join_blocks((n - 1) as nat, f) + f(n - 1)
    }
}

/// The blocks of `s`, one by one.
pub open spec fn blocks_of(s: Seq<u8>) -> spec_fn(int) -> Seq<u8> {
    |i: int| block_at(s, i)
}

/// The IV that is used: the given one, or sixteen zero bytes.
pub open spec fn iv_or_zero(iv: Option<Seq<u8>>) -> Seq<u8> {
    match iv {
        Some(v) => v,
        None => Seq::new(16, |_i: int| 0u8),
    }
}

/// An optional IV, seen as a sequence.
pub open spec fn iv_view(iv: Option<&[u8]>) -> Option<Seq<u8>> {
    match iv {
        Some(v) => Some(v@),
        None => None,
    }
}

/// A given IV whose length is not one block.
pub open spec fn iv_is_bad(iv: Option<Seq<u8>>) -> bool {
    match iv {
        Some(v) => v.len() != 16,
        None => false,
    }
}

/// What a mode result holds, with the vector seen as a sequence.
pub open spec fn mode_result_view(r: Result<Vec<u8>, ModeError>) -> Result<Seq<u8>, ModeError> {
    match r {
        Ok(v) => Ok(v@),
        Err(e) => Err(e),
    }
}

/// Stripping padding, with its failure reported as a mode error.
pub open spec fn strip_in_mode(raw: Seq<u8>) -> Result<Seq<u8>, ModeError> {
    match strip_result(raw, 16) {
        Ok(p) => Ok(p),
        Err(e) => Err(ModeError::Padding(e)),
    }
}

/// ECB: each block encrypted on its own.
pub open spec fn ecb_encrypt_fn(key: Seq<u8>, q: Seq<u8>) -> spec_fn(int) -> Seq<u8> {
    |i: int| aes_encrypt_block_of(key, block_at(q, i))
}

/// ECB: each block decrypted on its own.
pub open spec fn ecb_decrypt_fn(key: Seq<u8>, c: Seq<u8>) -> spec_fn(int) -> Seq<u8> {
    |i: int| aes_decrypt_block_of(key, block_at(c, i))
}

/// The ECB encryption of `p` padded to whole blocks.
pub open spec fn ecb_encrypt(key: Seq<u8>, p: Seq<u8>) -> Seq<u8> {
    let q = padded(p, 16);
    join_blocks(q.len() / 16, ecb_encrypt_fn(key, q))
}

/// The ECB decryption of whole blocks, padding still on.
pub open spec fn ecb_decrypt_raw(key: Seq<u8>, c: Seq<u8>) -> Seq<u8> {
    join_blocks(c.len() / 16, ecb_decrypt_fn(key, c))
}

/// ECB decryption: rejects a partial block, then strips the padding.
pub open spec fn ecb_decrypt(key: Seq<u8>, c: Seq<u8>) -> Result<Seq<u8>, ModeError> {
    if c.len() % 16 != 0 {
        Err(ModeError::InvalidLength)
    } else {
        strip_in_mode(ecb_decrypt_raw(key, c))
    }
}

/// CBC: ciphertext block `i` of the padded plaintext `q`, chained from `iv`.
pub open spec fn cbc_block(key: Seq<u8>, iv: Seq<u8>, q: Seq<u8>, i: nat) -> Seq<u8>
    decreases i,
{
    let prev = if i == 0 {
        iv
    } else {
        cbc_block(key, iv, q, (i - 1) as nat)
    };
    aes_encrypt_block_of(key, xor_seq(block_at(q, i as int), prev))
}

/// CBC: the ciphertext blocks, one by one.
pub open spec fn cbc_encrypt_fn(key: Seq<u8>, iv: Seq<u8>, q: Seq<u8>) -> spec_fn(int) -> Seq<u8> {
    |i: int| cbc_block(key, iv, q, i as nat)
}

/// The block that plaintext block `i` is chained to: the IV, or ciphertext block `i - 1`.
pub open spec fn cbc_prev(iv: Seq<u8>, c: Seq<u8>, i: int) -> Seq<u8> {
    if i == 0 {
        iv
    } else {
        block_at(c, i - 1)
    }
}

/// CBC: each block decrypted, then XOR-ed with the ciphertext block before it.
pub open spec fn cbc_decrypt_fn(key: Seq<u8>, iv: Seq<u8>, c: Seq<u8>) -> spec_fn(int) -> Seq<u8> {
    |i: int| xor_seq(aes_decrypt_block_of(key, block_at(c, i)), cbc_prev(iv, c, i))
}

/// The CBC encryption of `p` padded to whole blocks.
pub open spec fn cbc_encrypt(key: Seq<u8>, iv: Seq<u8>, p: Seq<u8>) -> Seq<u8> {
    let q = padded(p, 16);
    join_blocks(q.len() / 16, cbc_encrypt_fn(key, iv, q))
}

/// The CBC decryption of whole blocks, padding still on.
pub open spec fn cbc_decrypt_raw(key: Seq<u8>, iv: Seq<u8>, c: Seq<u8>) -> Seq<u8> {
    join_blocks(c.len() / 16, cbc_decrypt_fn(key, iv, c))
}

/// CBC encryption with an optional IV.
pub open spec fn cbc_encrypt_result(key: Seq<u8>, iv: Option<Seq<u8>>, p: Seq<u8>) -> Result<Seq<u8>, ModeError> {
    if iv_is_bad(iv) {
        Err(ModeError::InvalidIvLength)
    } else {
        Ok(cbc_encrypt(key, iv_or_zero(iv), p))
    }
}

/// CBC decryption with an optional IV: rejects a bad IV, then a partial
/// block, then strips the padding.
pub open spec fn cbc_decrypt_result(key: Seq<u8>, iv: Option<Seq<u8>>, c: Seq<u8>) -> Result<Seq<u8>, ModeError> {
    if iv_is_bad(iv) {
        Err(ModeError::InvalidIvLength)
    } else if c.len() % 16 != 0 {
        Err(ModeError::InvalidLength)
    } else {
        strip_in_mode(cbc_decrypt_raw(key, iv_or_zero(iv), c))
    }
}

fn zero_block() -> (r: Vec<u8>)
    ensures
        r@ == iv_or_zero(None),
{
    let mut r: Vec<u8> = Vec::new();
    let mut i: usize = 0;
    while i < 16
        invariant
            i <= 16,
            r@ == Seq::new(i as nat, |_j: int| 0u8),
        decreases 16 - i,
    {
        r.push(0u8);
        i = i + 1;
        assert(r@ =~= Seq::new(i as nat, |_j: int| 0u8));
    }
    r
}

fn mode_strip(raw: &[u8]) -> (r: Result<Vec<u8>, ModeError>)
    ensures
        mode_result_view(r) == strip_in_mode(raw@),
{
    match pkcs7_unpadding(raw, 16) {
        Ok(v) => Ok(v),
        Err(e) => Err(ModeError::Padding(e)),
    }
}

/// ECB encryption: pads to whole blocks and encrypts each block on its own.
pub fn encrypt_aes_ecb(plaintext: &[u8], key: &[u8]) -> (r: Vec<u8>)
    requires
        key@.len() == 16,
        plaintext@.len() + 16 <= usize::MAX,
    ensures
        r@ == ecb_encrypt(key@, plaintext@),
        r@.len() % 16 == 0,
        r@.len() > plaintext@.len(),
{
    let q = pad_to_block(plaintext, 16);
    proof {
        crate::padding::lemma_pad_strip(plaintext@, 16);
    }
    let n = q.len() / 16;
    let mut out: Vec<u8> = Vec::new();
    let mut i: usize = 0;
    while i < n
        invariant
            q@ == padded(plaintext@, 16),
            key@.len() == 16,
            n == q@.len() / 16,
            q@.len() == 16 * n,
            i <= n,
            16 * n <= usize::MAX,
            out@.len() == 16 * i,
            out@ == join_blocks(i as nat, ecb_encrypt_fn(key@, q@)),
        decreases n - i,
    {
        let b = copy_range(&q, 16 * i, 16 * i + 16);
        let e = encrypt_block(key, &b);
        append_bytes(&mut out, &e);
        i = i + 1;
    }
    out
}

/// ECB decryption: rejects a partial block, decrypts each block on its own,
/// then strips the padding.
pub fn decrypt_aes_ecb(ciphertext: &[u8], key: &[u8]) -> (r: Result<Vec<u8>, ModeError>)
    requires
        key@.len() == 16,
    ensures
        mode_result_view(r) == ecb_decrypt(key@, ciphertext@),
{
    if ciphertext.len() % 16 != 0 {
        return Err(ModeError::InvalidLength);
    }
    let n = ciphertext.len() / 16;
    let mut out: Vec<u8> = Vec::new();
    let mut i: usize = 0;
    while i < n
        invariant
            key@.len() == 16,
            n == ciphertext@.len() / 16,
            ciphertext@.len() == 16 * n,
            i <= n,
            16 * n <= usize::MAX,
            out@.len() == 16 * i,
            out@ == join_blocks(i as nat, ecb_decrypt_fn(key@, ciphertext@)),
        decreases n - i,
    {
        let b = copy_range(ciphertext, 16 * i, 16 * i + 16);
        let d = decrypt_block(key, &b);
        append_bytes(&mut out, &d);
        i = i + 1;
    }
    mode_strip(&out)
}

/// CBC encryption: pads to whole blocks; each block is XOR-ed with the
/// ciphertext block before it (the IV for the first) and then encrypted.
/// Without an IV, sixteen zero bytes are used.
pub fn encrypt_aes_cbc(plaintext: &[u8], key: &[u8], iv: Option<&[u8]>) -> (r: Result<Vec<u8>, ModeError>)
    requires
        key@.len() == 16,
        plaintext@.len() + 16 <= usize::MAX,
    ensures
        mode_result_view(r) == cbc_encrypt_result(key@, iv_view(iv), plaintext@),
{
    let mut prev = match iv {
        Some(v) => {
            if v.len() != 16 {
                return Err(ModeError::InvalidIvLength);
            }
            copy_range(v, 0, 16)
        },
        None => zero_block(),
    };
    let ghost ivs = iv_or_zero(iv_view(iv));
    assert(prev@ =~= ivs);
    let q = pad_to_block(plaintext, 16);
    proof {
        crate::padding::lemma_pad_strip(plaintext@, 16);
    }
    let n = q.len() / 16;
    let mut out: Vec<u8> = Vec::new();
    let mut i: usize = 0;
    while i < n
        invariant
            q@ == padded(plaintext@, 16),
            key@.len() == 16,
            n == q@.len() / 16,
            q@.len() == 16 * n,
            i <= n,
            16 * n <= usize::MAX,
            prev@.len() == 16,
            prev@ == (if i == 0 { ivs } else { cbc_block(key@, ivs, q@, (i - 1) as nat) }),
            out@.len() == 16 * i,
            out@ == join_blocks(i as nat, cbc_encrypt_fn(key@, ivs, q@)),
        decreases n - i,
    {
        let b = copy_range(&q, 16 * i, 16 * i + 16);
        let x = fixed_xor(&b, &prev);
        let e = encrypt_block(key, &x);
        append_bytes(&mut out, &e);
        prev = e;
        i = i + 1;
    }
    Ok(out)
}

/// CBC decryption: each block is decrypted and XOR-ed with the ciphertext
/// block before it (the IV for the first); then the padding is stripped.
/// Without an IV, sixteen zero bytes are used.
pub fn decrypt_aes_cbc(ciphertext: &[u8], key: &[u8], iv: Option<&[u8]>) -> (r: Result<Vec<u8>, ModeError>)
    requires
        key@.len() == 16,
    ensures
        mode_result_view(r) == cbc_decrypt_result(key@, iv_view(iv), ciphertext@),
{
    let first = match iv {
        Some(v) => {
            if v.len() != 16 {
                return Err(ModeError::InvalidIvLength);
            }
            copy_range(v, 0, 16)
        },
        None => zero_block(),
    };
    let ghost ivs = iv_or_zero(iv_view(iv));
    assert(first@ =~= ivs);
    if ciphertext.len() % 16 != 0 {
        return Err(ModeError::InvalidLength);
    }
    let n = ciphertext.len() / 16;
    let mut out: Vec<u8> = Vec::new();
    let mut prev = first;
    let mut i: usize = 0;
    while i < n
        invariant
            key@.len() == 16,
            n == ciphertext@.len() / 16,
            ciphertext@.len() == 16 * n,
            i <= n,
            16 * n <= usize::MAX,
            prev@.len() == 16,
            prev@ == cbc_prev(ivs, ciphertext@, i as int),
            out@.len() == 16 * i,
            out@ == join_blocks(i as nat, cbc_decrypt_fn(key@, ivs, ciphertext@)),
        decreases n - i,
    {
        let b = copy_range(ciphertext, 16 * i, 16 * i + 16);
        let d = decrypt_block(key, &b);
        let x = fixed_xor(&d, &prev);
        append_bytes(&mut out, &x);
        prev = b;
        i = i + 1;
    }
    mode_strip(&out)
}

} // verus!
