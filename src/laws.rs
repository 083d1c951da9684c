//! What the modes guarantee together: round trips and how a change in one
//! block spreads.
use vstd::prelude::*;
use crate::bytes::{lemma_xor_twice, xor_seq};
use crate::modes::{
    block_at, blocks_of, cbc_block, cbc_decrypt_fn, cbc_decrypt_raw, cbc_decrypt_result, cbc_encrypt,
    cbc_encrypt_fn, cbc_encrypt_result, cbc_prev, ecb_decrypt, ecb_decrypt_fn, ecb_encrypt, ecb_encrypt_fn, iv_is_bad,
    iv_or_zero, join_blocks, ModeError,
};
use crate::detect::{chunk, has_repeated_chunk};
use crate::padding::{lemma_pad_strip, padded};
use crate::primitive::{aes_decrypt_block_of, aes_encrypt_block_of, block_cipher_permutes};

verus! {

/// The blocks of a concatenation of 16-byte pieces are those pieces.
pub proof fn lemma_join_blocks(n: nat, f: spec_fn(int) -> Seq<u8>)
    requires
        forall|j: int| 0 <= j < n ==> #[trigger] f(j).len() == 16,
    ensures
        join_blocks(n, f).len() == 16 * n,
        forall|i: int| 0 <= i < n ==> #[trigger] block_at(join_blocks(n, f), i) == f(i),
    decreases n,
{
    if n > 0 {
        lemma_join_blocks((n - 1) as nat, f);
        let prev = join_blocks((n - 1) as nat, f);
        assert forall|i: int| 0 <= i < n implies #[trigger] block_at(join_blocks(n, f), i) == f(i) by {
            if i < n - 1 {
                assert(block_at(join_blocks(n, f), i) =~= block_at(prev, i));
            } else {
                assert(block_at(join_blocks(n, f), i) =~= f(i));
            }
        }
    }
}

/// Joining pieces that agree gives the same sequence.
pub proof fn lemma_join_agree(n: nat, f: spec_fn(int) -> Seq<u8>, g: spec_fn(int) -> Seq<u8>)
    requires
        forall|j: int| 0 <= j < n ==> #[trigger] f(j) == g(j),
    ensures
        join_blocks(n, f) == join_blocks(n, g),
    decreases n,
{
    if n > 0 {
        lemma_join_agree((n - 1) as nat, f, g);
    }
}

/// A whole number of blocks is the concatenation of its blocks.
pub proof fn lemma_join_own_blocks(s: Seq<u8>, n: nat)
    requires
        s.len() == 16 * n,
    ensures
        join_blocks(n, blocks_of(s)) == s,
{
    let f = blocks_of(s);
    lemma_join_blocks(n, f);
    let t = join_blocks(n, f);
    assert forall|k: int| 0 <= k < s.len() implies t[k] == s[k] by {
        let i = k / 16;
        assert(block_at(t, i) == f(i));
        assert(block_at(t, i)[k - 16 * i] == t[k]);
    }
    assert(t =~= s);
}

/// ECB decryption undoes ECB encryption, for every plaintext.
pub proof fn lemma_ecb_round_trip(key: Seq<u8>, p: Seq<u8>)
    requires
        block_cipher_permutes(key),
    ensures
        ecb_decrypt(key, ecb_encrypt(key, p)) == Ok::<Seq<u8>, ModeError>(p),
{
    let q = padded(p, 16);
    lemma_pad_strip(p, 16);
    let n = q.len() / 16;
    let c = ecb_encrypt(key, p);
    assert forall|j: int| 0 <= j < n implies #[trigger] ecb_encrypt_fn(key, q)(j).len() == 16 by {
        assert(block_at(q, j).len() == 16);
    }
    lemma_join_blocks(n, ecb_encrypt_fn(key, q));
    assert(c.len() / 16 == n);
    assert forall|j: int| 0 <= j < n implies #[trigger] ecb_decrypt_fn(key, c)(j) == blocks_of(q)(j) by {
        assert(block_at(c, j) == aes_encrypt_block_of(key, block_at(q, j)));
        assert(block_at(q, j).len() == 16);
    }
    lemma_join_agree(n, ecb_decrypt_fn(key, c), blocks_of(q));
    lemma_join_own_blocks(q, n);
}

/// Every CBC ciphertext block is one block long.
pub proof fn lemma_cbc_block_len(key: Seq<u8>, iv: Seq<u8>, q: Seq<u8>, i: nat)
    requires
        block_cipher_permutes(key),
        iv.len() == 16,
        16 * i + 16 <= q.len(),
    ensures
        cbc_block(key, iv, q, i).len() == 16,
    decreases i,
{
    if i > 0 {
        lemma_cbc_block_len(key, iv, q, (i - 1) as nat);
    }
    let prev = if i == 0 { iv } else { cbc_block(key, iv, q, (i - 1) as nat) };
    assert(xor_seq(block_at(q, i as int), prev).len() == 16);
}

/// CBC decryption undoes CBC encryption, for every plaintext, with a given
/// IV of one block or with the zero IV.
pub proof fn lemma_cbc_round_trip(key: Seq<u8>, iv: Option<Seq<u8>>, p: Seq<u8>)
    requires
        block_cipher_permutes(key),
        !iv_is_bad(iv),
    ensures
        cbc_encrypt_result(key, iv, p) == Ok::<Seq<u8>, ModeError>(cbc_encrypt(key, iv_or_zero(iv), p)),
        cbc_decrypt_result(key, iv, cbc_encrypt(key, iv_or_zero(iv), p)) == Ok::<Seq<u8>, ModeError>(p),
{
    let v = iv_or_zero(iv);
    let q = padded(p, 16);
    lemma_pad_strip(p, 16);
    let n = q.len() / 16;
    let c = cbc_encrypt(key, v, p);
    assert forall|j: int| 0 <= j < n implies #[trigger] cbc_encrypt_fn(key, v, q)(j).len() == 16 by {
        lemma_cbc_block_len(key, v, q, j as nat);
    }
    lemma_join_blocks(n, cbc_encrypt_fn(key, v, q));
    assert(c.len() / 16 == n);
    assert forall|j: int| 0 <= j < n implies #[trigger] cbc_decrypt_fn(key, v, c)(j) == blocks_of(q)(j) by {
        let prev = if j == 0 { v } else { cbc_block(key, v, q, (j - 1) as nat) };
        if j > 0 {
            assert(block_at(c, j - 1) == cbc_encrypt_fn(key, v, q)(j - 1));
            lemma_cbc_block_len(key, v, q, (j - 1) as nat);
        }
        assert(cbc_prev(v, c, j) == prev);
        assert(block_at(c, j) == cbc_block(key, v, q, j as nat));
        assert(xor_seq(block_at(q, j), prev).len() == 16);
        lemma_xor_twice(block_at(q, j), prev);
    }
    lemma_join_agree(n, cbc_decrypt_fn(key, v, c), blocks_of(q));
    lemma_join_own_blocks(q, n);
}

/// `a` and `b` have the same length and differ at most inside block `i`.
pub open spec fn agree_outside_block(a: Seq<u8>, b: Seq<u8>, i: int) -> bool {
    &&& a.len() == b.len()
    &&& forall|k: int| 0 <= k < a.len() && !(16 * i <= k < 16 * i + 16) ==> a[k] == b[k]
}

/// `a` and `b` differ somewhere inside block `i`.
pub open spec fn differ_in_block(a: Seq<u8>, b: Seq<u8>, i: int) -> bool {
    exists|k: int| 16 * i <= k < 16 * i + 16 && 0 <= k < a.len() && k < b.len() && a[k] != b[k]
}

proof fn lemma_xor_injective(a: Seq<u8>, b1: Seq<u8>, b2: Seq<u8>)
    requires
        a.len() == b1.len(),
        a.len() == b2.len(),
        b1 != b2,
    ensures
        xor_seq(a, b1) != xor_seq(a, b2),
        xor_seq(b1, a) != xor_seq(b2, a),
{
    if forall|t: int| 0 <= t < a.len() ==> b1[t] == b2[t] {
        assert(b1 =~= b2);
    }
    let t = choose|t: int| 0 <= t < a.len() && b1[t] != b2[t];
    let x = a[t];
    let y1 = b1[t];
    let y2 = b2[t];
    assert((x ^ y1) != (x ^ y2) && (y1 ^ x) != (y2 ^ x)) by (bit_vector)
        requires
            y1 != y2,
    ;
    assert(xor_seq(a, b1)[t] != xor_seq(a, b2)[t]);
    assert(xor_seq(b1, a)[t] != xor_seq(b2, a)[t]);
}

proof fn lemma_blocks_agree(a: Seq<u8>, b: Seq<u8>, i: int, j: int)
    requires
        agree_outside_block(a, b, i),
        j != i,
        0 <= j,
        16 * j + 16 <= a.len(),
    ensures
        block_at(a, j) == block_at(b, j),
{
    assert(block_at(a, j) =~= block_at(b, j));
}

proof fn lemma_padded_agree(pt1: Seq<u8>, pt2: Seq<u8>, i: int)
    requires
        agree_outside_block(pt1, pt2, i),
    ensures
        agree_outside_block(padded(pt1, 16), padded(pt2, 16), i),
        differ_in_block(pt1, pt2, i) ==> padded(pt1, 16).len() >= 16 * i + 16 && block_at(
            padded(pt1, 16),
            i,
        ) != block_at(padded(pt2, 16), i),
{
    lemma_pad_strip(pt1, 16);
    let q1 = padded(pt1, 16);
    let q2 = padded(pt2, 16);
    assert forall|k: int| 0 <= k < q1.len() && !(16 * i <= k < 16 * i + 16) implies q1[k] == q2[k] by {
        if k >= pt1.len() {
        }
    }
    if differ_in_block(pt1, pt2, i) {
        let k = choose|k: int| 16 * i <= k < 16 * i + 16 && 0 <= k < pt1.len() && k < pt2.len() && pt1[k] != pt2[k];
        assert(q1.len() >= 16 * i + 16) by {
            vstd::arithmetic::div_mod::lemma_fundamental_div_mod(q1.len() as int, 16);
        }
        assert(block_at(q1, i)[k - 16 * i] != block_at(q2, i)[k - 16 * i]);
    }
}

/// Under ECB, plaintexts that differ only inside block `i` give ciphertexts
/// that differ only inside block `i`; and if they do differ there, so do
/// the ciphertext blocks.
pub proof fn lemma_ecb_change_stays_in_block(key: Seq<u8>, pt1: Seq<u8>, pt2: Seq<u8>, i: int)
    requires
        block_cipher_permutes(key),
        agree_outside_block(pt1, pt2, i),
    ensures
        ecb_encrypt(key, pt1).len() == ecb_encrypt(key, pt2).len(),
        forall|j: int|
            0 <= j < ecb_encrypt(key, pt1).len() / 16 && j != i ==> #[trigger] block_at(ecb_encrypt(key, pt1), j)
                == block_at(ecb_encrypt(key, pt2), j),
        differ_in_block(pt1, pt2, i) ==> block_at(ecb_encrypt(key, pt1), i) != block_at(
            ecb_encrypt(key, pt2),
            i,
        ),
{
    let q1 = padded(pt1, 16);
    let q2 = padded(pt2, 16);
    lemma_pad_strip(pt1, 16);
    lemma_padded_agree(pt1, pt2, i);
    let n = q1.len() / 16;
    assert forall|j: int| 0 <= j < n implies #[trigger] ecb_encrypt_fn(key, q1)(j).len() == 16 by {
        assert(block_at(q1, j).len() == 16);
    }
    assert forall|j: int| 0 <= j < n implies #[trigger] ecb_encrypt_fn(key, q2)(j).len() == 16 by {
        assert(block_at(q2, j).len() == 16);
    }
    lemma_join_blocks(n, ecb_encrypt_fn(key, q1));
    lemma_join_blocks(n, ecb_encrypt_fn(key, q2));
    let c1 = ecb_encrypt(key, pt1);
    let c2 = ecb_encrypt(key, pt2);
    assert(c1.len() / 16 == n);
    assert forall|j: int| 0 <= j < c1.len() / 16 && j != i implies #[trigger] block_at(c1, j) == block_at(c2, j) by {
        lemma_blocks_agree(q1, q2, i, j);
        assert(block_at(c1, j) == ecb_encrypt_fn(key, q1)(j));
        assert(block_at(c2, j) == ecb_encrypt_fn(key, q2)(j));
    }
    if differ_in_block(pt1, pt2, i) {
        assert(0 <= i < n);
        assert(block_at(c1, i) == aes_encrypt_block_of(key, block_at(q1, i)));
        assert(block_at(c2, i) == aes_encrypt_block_of(key, block_at(q2, i)));
        assert(block_at(q1, i).len() == 16 && block_at(q2, i).len() == 16);
    }
}

proof fn lemma_cbc_prefix_equal(key: Seq<u8>, iv: Seq<u8>, q1: Seq<u8>, q2: Seq<u8>, i: int, j: nat)
    requires
        agree_outside_block(q1, q2, i),
        j < i,
        16 * j + 16 <= q1.len(),
    ensures
        cbc_block(key, iv, q1, j) == cbc_block(key, iv, q2, j),
    decreases j,
{
    if j > 0 {
        lemma_cbc_prefix_equal(key, iv, q1, q2, i, (j - 1) as nat);
    }
    lemma_blocks_agree(q1, q2, i, j as int);
}

proof fn lemma_cbc_suffix_differs(key: Seq<u8>, iv: Seq<u8>, q1: Seq<u8>, q2: Seq<u8>, i: int, j: nat)
    requires
        block_cipher_permutes(key),
        iv.len() == 16,
        agree_outside_block(q1, q2, i),
        0 <= i <= j,
        16 * j + 16 <= q1.len(),
        block_at(q1, i) != block_at(q2, i),
    ensures
        cbc_block(key, iv, q1, j) != cbc_block(key, iv, q2, j),
    decreases j,
{
    let prev1 = if j == 0 { iv } else { cbc_block(key, iv, q1, (j - 1) as nat) };
    let prev2 = if j == 0 { iv } else { cbc_block(key, iv, q2, (j - 1) as nat) };
    if j > 0 {
        lemma_cbc_block_len(key, iv, q1, (j - 1) as nat);
        lemma_cbc_block_len(key, iv, q2, (j - 1) as nat);
    }
    let x1 = xor_seq(block_at(q1, j as int), prev1);
    let x2 = xor_seq(block_at(q2, j as int), prev2);
    if j == i {
        if j > 0 {
            lemma_cbc_prefix_equal(key, iv, q1, q2, i, (j - 1) as nat);
        }
        lemma_xor_injective(prev1, block_at(q1, j as int), block_at(q2, j as int));
    } else {
        lemma_cbc_suffix_differs(key, iv, q1, q2, i, (j - 1) as nat);
        lemma_blocks_agree(q1, q2, i, j as int);
        lemma_xor_injective(block_at(q1, j as int), prev1, prev2);
    }
    assert(x1.len() == 16 && x2.len() == 16);
    assert(aes_decrypt_block_of(key, aes_encrypt_block_of(key, x1)) == x1);
    assert(aes_decrypt_block_of(key, aes_encrypt_block_of(key, x2)) == x2);
}

/// Under CBC, changing plaintext block `i` leaves the ciphertext blocks
/// before it alone and changes ciphertext block `i` and every block after it.
pub proof fn lemma_cbc_change_spreads(key: Seq<u8>, iv: Seq<u8>, pt1: Seq<u8>, pt2: Seq<u8>, i: int)
    requires
        block_cipher_permutes(key),
        iv.len() == 16,
        agree_outside_block(pt1, pt2, i),
        differ_in_block(pt1, pt2, i),
    ensures
        cbc_encrypt(key, iv, pt1).len() == cbc_encrypt(key, iv, pt2).len(),
        forall|j: int| 0 <= j < i ==> #[trigger] block_at(cbc_encrypt(key, iv, pt1), j) == block_at(
            cbc_encrypt(key, iv, pt2),
            j,
        ),
        forall|j: int|
            i <= j < cbc_encrypt(key, iv, pt1).len() / 16 ==> #[trigger] block_at(cbc_encrypt(key, iv, pt1), j)
                != block_at(cbc_encrypt(key, iv, pt2), j),
{
    let q1 = padded(pt1, 16);
    let q2 = padded(pt2, 16);
    lemma_pad_strip(pt1, 16);
    lemma_padded_agree(pt1, pt2, i);
    let n = q1.len() / 16;
    assert forall|j: int| 0 <= j < n implies #[trigger] cbc_encrypt_fn(key, iv, q1)(j).len() == 16 by {
        lemma_cbc_block_len(key, iv, q1, j as nat);
    }
    assert forall|j: int| 0 <= j < n implies #[trigger] cbc_encrypt_fn(key, iv, q2)(j).len() == 16 by {
        lemma_cbc_block_len(key, iv, q2, j as nat);
    }
    lemma_join_blocks(n, cbc_encrypt_fn(key, iv, q1));
    lemma_join_blocks(n, cbc_encrypt_fn(key, iv, q2));
    let c1 = cbc_encrypt(key, iv, pt1);
    let c2 = cbc_encrypt(key, iv, pt2);
    assert(c1.len() / 16 == n);
    assert forall|j: int| 0 <= j < i implies #[trigger] block_at(c1, j) == block_at(c2, j) by {
        assert(block_at(c1, j) == cbc_encrypt_fn(key, iv, q1)(j));
        assert(block_at(c2, j) == cbc_encrypt_fn(key, iv, q2)(j));
        lemma_cbc_prefix_equal(key, iv, q1, q2, i, j as nat);
    }
    assert forall|j: int| i <= j < c1.len() / 16 implies #[trigger] block_at(c1, j) != block_at(c2, j) by {
        assert(block_at(c1, j) == cbc_encrypt_fn(key, iv, q1)(j));
        assert(block_at(c2, j) == cbc_encrypt_fn(key, iv, q2)(j));
        lemma_cbc_suffix_differs(key, iv, q1, q2, i, j as nat);
    }
}

/// Under CBC decryption, ciphertexts that differ only inside block `i`
/// decrypt to blocks that differ at most in blocks `i` and `i + 1`; and if
/// they do differ there, both of those blocks differ.
pub proof fn lemma_cbc_decrypt_locality(key: Seq<u8>, iv: Seq<u8>, c1: Seq<u8>, c2: Seq<u8>, i: int)
    requires
        block_cipher_permutes(key),
        iv.len() == 16,
        c1.len() % 16 == 0,
        agree_outside_block(c1, c2, i),
    ensures
        cbc_decrypt_raw(key, iv, c1).len() == c1.len(),
        cbc_decrypt_raw(key, iv, c2).len() == c2.len(),
        forall|j: int|
            0 <= j < c1.len() / 16 && j != i && j != i + 1 ==> #[trigger] block_at(
                cbc_decrypt_raw(key, iv, c1),
                j,
            ) == block_at(cbc_decrypt_raw(key, iv, c2), j),
        differ_in_block(c1, c2, i) ==> block_at(cbc_decrypt_raw(key, iv, c1), i) != block_at(
            cbc_decrypt_raw(key, iv, c2),
            i,
        ),
        differ_in_block(c1, c2, i) && i + 1 < c1.len() / 16 ==> block_at(
            cbc_decrypt_raw(key, iv, c1),
            i + 1,
        ) != block_at(cbc_decrypt_raw(key, iv, c2), i + 1),
{
    let n = c1.len() / 16;
    assert forall|j: int| 0 <= j < n implies #[trigger] cbc_decrypt_fn(key, iv, c1)(j).len() == 16 by {
        assert(block_at(c1, j).len() == 16);
    }
    assert forall|j: int| 0 <= j < n implies #[trigger] cbc_decrypt_fn(key, iv, c2)(j).len() == 16 by {
        assert(block_at(c2, j).len() == 16);
    }
    lemma_join_blocks(n, cbc_decrypt_fn(key, iv, c1));
    lemma_join_blocks(n, cbc_decrypt_fn(key, iv, c2));
    let r1 = cbc_decrypt_raw(key, iv, c1);
    let r2 = cbc_decrypt_raw(key, iv, c2);
    assert forall|j: int| 0 <= j < n && j != i && j != i + 1 implies #[trigger] block_at(r1, j) == block_at(r2, j) by {
        assert(block_at(r1, j) == cbc_decrypt_fn(key, iv, c1)(j));
        assert(block_at(r2, j) == cbc_decrypt_fn(key, iv, c2)(j));
        lemma_blocks_agree(c1, c2, i, j);
        if j > 0 {
            lemma_blocks_agree(c1, c2, i, j - 1);
        }
    }
    if differ_in_block(c1, c2, i) {
        let k = choose|k: int| 16 * i <= k < 16 * i + 16 && 0 <= k < c1.len() && k < c2.len() && c1[k] != c2[k];
        assert(c1.len() >= 16 * i + 16);
        assert(block_at(c1, i)[k - 16 * i] != block_at(c2, i)[k - 16 * i]);
        let b1 = block_at(c1, i);
        let b2 = block_at(c2, i);
        let d1 = aes_decrypt_block_of(key, b1);
        let d2 = aes_decrypt_block_of(key, b2);
        assert(aes_encrypt_block_of(key, d1) == b1);
        assert(aes_encrypt_block_of(key, d2) == b2);
        assert(block_at(r1, i) == cbc_decrypt_fn(key, iv, c1)(i));
        assert(block_at(r2, i) == cbc_decrypt_fn(key, iv, c2)(i));
        if i > 0 {
            lemma_blocks_agree(c1, c2, i, i - 1);
        }
        lemma_xor_injective(cbc_prev(iv, c1, i), d1, d2);
        if i + 1 < n {
            assert(block_at(r1, i + 1) == cbc_decrypt_fn(key, iv, c1)(i + 1));
            assert(block_at(r2, i + 1) == cbc_decrypt_fn(key, iv, c2)(i + 1));
            lemma_blocks_agree(c1, c2, i, i + 1);
            lemma_xor_injective(aes_decrypt_block_of(key, block_at(c1, i + 1)), b1, b2);
        }
    }
}

/// Under ECB with any key, two equal whole plaintext blocks give two equal
/// ciphertext blocks, so the ciphertext has a repeated 16-byte chunk.
pub proof fn lemma_ecb_repeats_blocks(key: Seq<u8>, p: Seq<u8>, j1: int, j2: int)
    requires
        block_cipher_permutes(key),
        0 <= j1 < j2,
        16 * j2 + 16 <= p.len(),
        block_at(p, j1) == block_at(p, j2),
    ensures
        block_at(ecb_encrypt(key, p), j1) == block_at(ecb_encrypt(key, p), j2),
        has_repeated_chunk(ecb_encrypt(key, p), 16),
{
    let q = padded(p, 16);
    lemma_pad_strip(p, 16);
    let n = q.len() / 16;
    assert forall|j: int| 0 <= j < n implies #[trigger] ecb_encrypt_fn(key, q)(j).len() == 16 by {
        assert(block_at(q, j).len() == 16);
    }
    lemma_join_blocks(n, ecb_encrypt_fn(key, q));
    let c = ecb_encrypt(key, p);
    assert(block_at(q, j1) =~= block_at(p, j1));
    assert(block_at(q, j2) =~= block_at(p, j2));
    assert(block_at(c, j1) == ecb_encrypt_fn(key, q)(j1));
    assert(block_at(c, j2) == ecb_encrypt_fn(key, q)(j2));
    assert(chunk(c, 16, j1 as nat) == block_at(c, j1));
    assert(chunk(c, 16, j2 as nat) == block_at(c, j2));
    assert(j2 as nat * 16 < c.len());
}

} // verus!
