//! Breaking XOR ciphers: Hamming distance, single-byte keys scored by
//! letter frequency, and repeating keys found through their length.
use vstd::prelude::*;

verus! {

/// `buf` XOR-ed with `key` repeated over its whole length.
pub open spec fn repeating_xor(buf: Seq<u8>, key: Seq<u8>) -> Seq<u8> {
    Seq::new(buf.len(), |i: int| buf[i] ^ key[i % (key.len() as int)])
}

/// XORs `hex_arr` with `key_hex` repeated over its whole length.
pub fn repeating_key_xor(hex_arr: &[u8], key_hex: &[u8]) -> (r: Vec<u8>)
    requires
        key_hex@.len() > 0,
    ensures
        r@ == repeating_xor(hex_arr@, key_hex@),
{
    let mut r: Vec<u8> = Vec::new();
    let mut i: usize = 0;
    while i < hex_arr.len()
        invariant
            key_hex@.len() > 0,
            i <= hex_arr@.len(),
            r@ == repeating_xor(hex_arr@, key_hex@).take(i as int),
        decreases hex_arr@.len() - i,
    {
        r.push(hex_arr[i] ^ key_hex[i % key_hex.len()]);
        i = i + 1;
        assert(r@ =~= repeating_xor(hex_arr@, key_hex@).take(i as int));
    }
    assert(r@ =~= repeating_xor(hex_arr@, key_hex@));
    r
}

/// Bit `b` of `x`, as 0 or 1.
pub open spec fn bit(x: u8, b: u8) -> nat {
    ((x >> b) & 1) as nat
}

/// The number of one bits in `x`.
pub open spec fn popcount(x: u8) -> nat {
    bit(x, 0) + bit(x, 1) + bit(x, 2) + bit(x, 3) + bit(x, 4) + bit(x, 5) + bit(x, 6) + bit(x, 7)
}

/// The number of bit positions in which `a` and `b` differ, over their
/// common length.
pub open spec fn hamming(a: Seq<u8>, b: Seq<u8>) -> nat
    decreases a.len(),
{
    if a.len() == 0 || b.len() == 0 {
        0
    } else {
        hamming(a.drop_last(), b.drop_last()) + popcount(a.last() ^ b.last())
    }
}

fn bit_of(x: u8, b: u8) -> (r: u8)
    requires
        b < 8,
    ensures
        r == (x >> b) & 1,
        r <= 1,
{
    let r = (x >> b) & 1;
    assert(r <= 1) by (bit_vector)
        requires
            r == (x >> b) & 1,
    ;
    r
}

fn count_ones(x: u8) -> (r: u32)
    ensures
        r == popcount(x),
        r <= 8,
{
    let s: u8 = bit_of(x, 0) + bit_of(x, 1) + bit_of(x, 2) + bit_of(x, 3) + bit_of(x, 4) + bit_of(
        x,
        5,
    ) + bit_of(x, 6) + bit_of(x, 7);
    s as u32
}

/// The two buffers have different lengths.
#[derive(Clone, Copy, Debug, PartialEq, Eq, Structural)]
pub struct LengthMismatch;

/// The number of differing bits between two buffers of equal length.
pub fn hamming_distance(buf1: &[u8], buf2: &[u8]) -> (r: Result<u32, LengthMismatch>)
    requires
        buf1@.len() == buf2@.len() ==> 8 * buf1@.len() <= u32::MAX,
    ensures
        match r {
            Ok(d) => buf1@.len() == buf2@.len() && d == hamming(buf1@, buf2@),
            Err(_) => buf1@.len() != buf2@.len(),
        },
{
    if buf1.len() != buf2.len() {
        return Err(LengthMismatch);
    }
    let mut d: u32 = 0;
    let mut i: usize = 0;
    while i < buf1.len()
        invariant
            buf1@.len() == buf2@.len(),
            8 * buf1@.len() <= u32::MAX,
            i <= buf1@.len(),
            d <= 8 * i,
            d == hamming(buf1@.take(i as int), buf2@.take(i as int)),
        decreases buf1@.len() - i,
    {
        let c = count_ones(buf1[i] ^ buf2[i]);
        proof {
            assert(buf1@.take(i + 1).drop_last() =~= buf1@.take(i as int));
            assert(buf2@.take(i + 1).drop_last() =~= buf2@.take(i as int));
        }
        d = d + c;
        i = i + 1;
    }
    assert(buf1@.take(i as int) =~= buf1@);
    assert(buf2@.take(i as int) =~= buf2@);
    Ok(d)
}

/// A byte that counts towards an English-looking text: an ASCII letter
/// (65..=90, 97..=122) or one of `. ,;:'"` (46, 32, 44, 59, 58, 39, 34).
pub open spec fn is_scored_byte(x: u8) -> bool {
    (65 <= x <= 90) || (97 <= x <= 122) || x == 46 || x == 32 || x == 44 || x == 59
        || x == 58 || x == 39 || x == 34
}

/// How many bytes of `s` XOR-ed with `k` count towards English.
pub open spec fn score(s: Seq<u8>, k: u8) -> nat
    decreases s.len(),
{
    if s.len() == 0 {
        0
    } else {
        score(s.drop_last(), k) + if is_scored_byte(s.last() ^ k) {
            1nat
        } else {
            0nat
        }
    }
}

/// `k` is the candidate in `20..=125` with the highest score on `s`, the
/// smallest such when several share it.
pub open spec fn is_best_key_byte(s: Seq<u8>, k: u8) -> bool {
    &&& 20 <= k <= 125
    &&& forall|c: u8| 20 <= c <= 125 ==> score(s, c) <= score(s, k)
    &&& forall|c: u8| 20 <= c < k ==> score(s, c) < score(s, k)
}

fn is_english_byte(x: u8) -> (r: bool)
    ensures
        r == is_scored_byte(x),
{
    (65 <= x && x <= 90) || (97 <= x && x <= 122) || x == 46 || x == 32 || x == 44
        || x == 59 || x == 58 || x == 39 || x == 34
}

/// The score of `buf` XOR-ed with `k`.
pub fn score_key_byte(buf: &[u8], k: u8) -> (r: usize)
    ensures
        r == score(buf@, k),
{
    let mut r: usize = 0;
    let mut i: usize = 0;
    while i < buf.len()
        invariant
            i <= buf@.len(),
            r <= i,
            r == score(buf@.take(i as int), k),
        decreases buf@.len() - i,
    {
        proof {
            assert(buf@.take(i + 1).drop_last() =~= buf@.take(i as int));
        }
        if is_english_byte(buf[i] ^ k) {
            r = r + 1;
        }
        i = i + 1;
    }
    assert(buf@.take(i as int) =~= buf@);
    r
}

/// Finds the single-byte key in `20..=125` under which the buffer reads most
/// like English, with its score; ties go to the smallest key.
pub fn decode_single_byte_xor_cipher(decoded_buf: &[u8]) -> (r: (u8, usize))
    ensures
        is_best_key_byte(decoded_buf@, r.0),
        r.1 == score(decoded_buf@, r.0),
{
    let mut best: u8 = 20;
    let mut best_score = score_key_byte(decoded_buf, 20);
    let mut c: u8 = 21;
    while c <= 125
        invariant
            21 <= c <= 126,
            20 <= best < c,
            best_score == score(decoded_buf@, best),
            forall|d: u8| 20 <= d < c ==> score(decoded_buf@, d) <= best_score,
            forall|d: u8| 20 <= d < best ==> score(decoded_buf@, d) < best_score,
        decreases 126 - c,
    {
        let s = score_key_byte(decoded_buf, c);
        if s > best_score {
            best = c;
            best_score = s;
        }
        c = c + 1;
    }
    (best, best_score)
}

/// The bit distance between the chunks `j - 1` and `j` of length `k` of `buf`.
pub open spec fn pair_distance(buf: Seq<u8>, k: nat, j: nat) -> nat {
    let k = k as int;
    let j = j as int;
    hamming(buf.subrange((j - 1) * k, j * k), buf.subrange(j * k, (j + 1) * k))
}

/// The summed bit distance between consecutive chunks of length `k`, over
/// the first `m` chunks.
pub open spec fn total_distance(buf: Seq<u8>, k: nat, m: nat) -> nat
    decreases m,
{
    if m <= 1 {
        0
    } else {
        total_distance(buf, k, (m - 1) as nat) + pair_distance(buf, k, (m - 1) as nat)
    }
}

/// The number of pairs of consecutive whole chunks of length `k`.
pub open spec fn pair_count(buf: Seq<u8>, k: nat) -> nat {
    if k > 0 && buf.len() / k >= 1 {
        (buf.len() / k - 1) as nat
    } else {
        0
    }
}

/// The summed bit distance between consecutive whole chunks of length `k`.
pub open spec fn keysize_total(buf: Seq<u8>, k: nat) -> nat {
    total_distance(buf, k, buf.len() / k)
}

/// The key length `k` has at least one pair of consecutive whole chunks.
pub open spec fn has_samples(buf: Seq<u8>, k: nat) -> bool {
    2 * k <= buf.len()
}

/// The average distance per pair and per byte for key length `a`,
/// `keysize_total(a) / (a * pair_count(a))`, is below that for `b`.
pub open spec fn scores_below(buf: Seq<u8>, a: nat, b: nat) -> bool {
    keysize_total(buf, a) * (b * pair_count(buf, b)) < keysize_total(buf, b) * (a * pair_count(buf, a))
}

/// `k` is the key length in `2..=40` with samples whose normalised average
/// distance is lowest, the smallest such when several share it.
pub open spec fn is_best_keysize(buf: Seq<u8>, k: nat) -> bool {
    &&& 2 <= k <= 40
    &&& has_samples(buf, k)
    &&& forall|c: nat| 2 <= c <= 40 && has_samples(buf, c) ==> !scores_below(buf, c, k)
    &&& forall|c: nat| 2 <= c < k && has_samples(buf, c) ==> scores_below(buf, k, c)
}

proof fn lemma_hamming_bound(a: Seq<u8>, b: Seq<u8>)
    ensures
        hamming(a, b) <= 8 * a.len(),
    decreases a.len(),
{
    if a.len() > 0 && b.len() > 0 {
        lemma_hamming_bound(a.drop_last(), b.drop_last());
        let x = a.last() ^ b.last();
        assert forall|i: u8| #[trigger] ((x >> i) & 1) <= 1 by {
            assert(((x >> i) & 1) <= 1) by (bit_vector);
        }
    }
}

/// Sums the distances between consecutive whole chunks of length `k`:
/// returns that sum and `k` times the number of pairs.
fn keysize_sample(buf: &[u8], k: usize) -> (r: (u64, u64))
    requires
        2 <= k <= 40,
        8 * buf@.len() <= u64::MAX,
        has_samples(buf@, k as nat),
    ensures
        r.0 == keysize_total(buf@, k as nat),
        r.1 == k * pair_count(buf@, k as nat),
        r.0 <= 8 * buf@.len(),
        0 < r.1 <= buf@.len(),
{
    let n = buf.len();
    let mut t: u64 = 0;
    let ghost mut pairs: nat = 0;
    let mut pos: usize = k;
    assert(pos == (pairs + 1) * k) by (nonlinear_arith)
        requires
            pairs == 0,
            pos == k,
    ;
    while k <= n - pos
        invariant
            n == buf@.len(),
            8 * n <= u64::MAX,
            2 <= k <= 40,
            pos == (pairs + 1) * k,
            k <= pos <= n,
            t == total_distance(buf@, k as nat, pairs + 1),
            t <= 8 * pos,
        decreases n - pos,
    {
        let a = vstd::slice::slice_subrange(buf, pos - k, pos);
        let b = vstd::slice::slice_subrange(buf, pos, pos + k);
        let d = hamming_distance(a, b);
        match d {
            Ok(d) => {
                proof {
                    lemma_hamming_bound(a@, b@);
                    assert((pairs + 1 - 1) * k == pos - k) by (nonlinear_arith)
                        requires
                            pos == (pairs + 1) * k,
                    ;
                    assert((pairs + 1 + 1) * k == pos + k) by (nonlinear_arith)
                        requires
                            pos == (pairs + 1) * k,
                    ;
                }
                t = t + d as u64;
                pos = pos + k;
                proof {
                    pairs = pairs + 1;
                }
            },
            Err(_) => {
                assert(false);
            },
        }
    }
    proof {
        vstd::arithmetic::div_mod::lemma_fundamental_div_mod_converse(
            n as int,
            k as int,
            (pairs + 1) as int,
            n - pos,
        );
        assert(pos - k == k * pairs) by (nonlinear_arith)
            requires
                pos == (pairs + 1) * k,
        ;
        assert(pairs >= 1) by (nonlinear_arith)
            requires
                pos == (pairs + 1) * k,
                2 * k <= n,
                n < pos + k,
                k > 0,
        ;
    }
    (t, (pos - k) as u64)
}

proof fn lemma_pairs_positive(buf: Seq<u8>, c: nat)
    requires
        2 <= c,
        has_samples(buf, c),
    ensures
        c * pair_count(buf, c) > 0,
{
    vstd::arithmetic::div_mod::lemma_fundamental_div_mod(buf.len() as int, c as int);
    let q = buf.len() / c;
    assert(q >= 2) by (nonlinear_arith)
        requires
            buf.len() == c * q + buf.len() % c,
            buf.len() % c < c,
            2 * c <= buf.len(),
            c > 0,
    ;
    assert(c * (q - 1) > 0) by (nonlinear_arith)
        requires
            q >= 2,
            c > 0,
    ;
}

proof fn lemma_below_trans(tk: int, dk: int, tb: int, db: int, tc: int, dc: int)
    requires
        dk > 0,
        db > 0,
        dc > 0,
        tk * db < tb * dk,
        tb * dc <= tc * db,
    ensures
        tk * dc < tc * dk,
{
    assert(tk * db * dc < tb * dk * dc) by (nonlinear_arith)
        requires
            tk * db < tb * dk,
            dc > 0,
    ;
    assert(tb * dc * dk <= tc * db * dk) by (nonlinear_arith)
        requires
            tb * dc <= tc * db,
            dk > 0,
    ;
    assert(tk * dc * db < tc * dk * db) by (nonlinear_arith)
        requires
            tk * db * dc < tb * dk * dc,
            tb * dc * dk <= tc * db * dk,
    ;
    assert(tk * dc < tc * dk) by (nonlinear_arith)
        requires
            tk * dc * db < tc * dk * db,
            db > 0,
    ;
}

/// Whether the sample `(t1, d1)` averages strictly below `(t2, d2)`.
fn sample_below(t1: u64, d1: u64, t2: u64, d2: u64) -> (r: bool)
    ensures
        r == (t1 * d2 < t2 * d1),
{
    proof {
        assert(t1 * d2 <= u64::MAX * u64::MAX) by (nonlinear_arith);
        assert(t2 * d1 <= u64::MAX * u64::MAX) by (nonlinear_arith);
    }
    (t1 as u128) * (d2 as u128) < (t2 as u128) * (d1 as u128)
}

/// Finds the likeliest length, in `2..=40`, of the repeating key of `buf`:
/// the one whose consecutive whole chunks differ in fewest bits per byte on
/// average; ties go to the smallest, and lengths without two whole chunks
/// are never chosen.
pub fn infer_keysize(buf: &[u8]) -> (r: usize)
    requires
        buf@.len() >= 4,
        8 * buf@.len() <= u64::MAX,
    ensures
        is_best_keysize(buf@, r as nat),
{
    let (t2, d2) = keysize_sample(buf, 2);
    let mut best: usize = 2;
    let mut best_t = t2;
    let mut best_d = d2;
    let mut k: usize = 3;
    while k <= 40
        invariant
            3 <= k <= 41,
            8 * buf@.len() <= u64::MAX,
            2 <= best < k,
            has_samples(buf@, best as nat),
            best_t == keysize_total(buf@, best as nat),
            best_d == best * pair_count(buf@, best as nat),
            best_d > 0,
            forall|c: nat| 2 <= c < k && has_samples(buf@, c) ==> !scores_below(buf@, c, best as nat),
            forall|c: nat| 2 <= c < best && has_samples(buf@, c) ==> scores_below(buf@, best as nat, c),
        decreases 41 - k,
    {
        if 2 * k <= buf.len() {
            let (t, d) = keysize_sample(buf, k);
            if sample_below(t, d, best_t, best_d) {
                proof {
                    assert forall|c: nat| 2 <= c < k && has_samples(buf@, c) implies scores_below(
                        buf@,
                        k as nat,
                        c,
                    ) by {
                        lemma_pairs_positive(buf@, c);
                        lemma_below_trans(
                            keysize_total(buf@, k as nat) as int,
                            (k * pair_count(buf@, k as nat)) as int,
                            best_t as int,
                            best_d as int,
                            keysize_total(buf@, c) as int,
                            (c * pair_count(buf@, c)) as int,
                        );
                    }
                }
                best = k;
                best_t = t;
                best_d = d;
            }
        }
        k = k + 1;
    }
    best
}

/// Column `j` of `buf` cut into rows of length `k`: the bytes at
/// `j, j + k, j + 2k, ...`, as far as `buf` reaches.
pub open spec fn column(buf: Seq<u8>, k: nat, j: nat) -> Seq<u8>
    decreases buf.len() + k - j,
{
    if j >= buf.len() || k == 0 {
        Seq::empty()
    } else {
        seq![buf[j as int]] + column(buf, k, j + k)
    }
}

/// Column `j` of `buf` cut into rows of length `k`.
pub fn transpose_column(buf: &[u8], k: usize, j: usize) -> (r: Vec<u8>)
    requires
        k > 0,
        8 * buf@.len() <= u64::MAX,
        k <= 40,
    ensures
        r@ == column(buf@, k as nat, j as nat),
{
    let mut r: Vec<u8> = Vec::new();
    let mut idx: usize = j;
    while idx < buf.len()
        invariant
            k > 0,
            k <= 40,
            8 * buf@.len() <= u64::MAX,
            r@ + column(buf@, k as nat, idx as nat) == column(buf@, k as nat, j as nat),
        decreases buf@.len() - idx,
    {
        proof {
            assert(r@ + column(buf@, k as nat, idx as nat) =~= r@.push(buf@[idx as int]) + column(
                buf@,
                k as nat,
                (idx + k) as nat,
            ));
        }
        r.push(buf[idx]);
        if buf.len() - idx <= k {
            idx = buf.len();
        } else {
            idx = idx + k;
        }
    }
    assert(r@ + column(buf@, k as nat, idx as nat) =~= r@);
    r
}

/// Breaks a repeating-key XOR: picks the key length with `infer_keysize`,
/// recovers each key byte from its column with
/// `decode_single_byte_xor_cipher`, and returns the buffer decoded with that
/// key, and the key.
pub fn decode_repeating_key_xor(parsed: &[u8]) -> (r: (Vec<u8>, Vec<u8>))
    requires
        parsed@.len() >= 4,
        8 * parsed@.len() <= u64::MAX,
    ensures
        is_best_keysize(parsed@, r.1@.len()),
        forall|j: int|
            0 <= j < r.1@.len() ==> is_best_key_byte(
                #[trigger] column(parsed@, r.1@.len(), j as nat),
                r.1@[j],
            ),
        r.0@ == repeating_xor(parsed@, r.1@),
{
    let ks = infer_keysize(parsed);
    let mut key: Vec<u8> = Vec::new();
    let mut j: usize = 0;
    while j < ks
        invariant
            2 <= ks <= 40,
            8 * parsed@.len() <= u64::MAX,
            j <= ks,
            key@.len() == j,
            forall|i: int|
                0 <= i < j ==> is_best_key_byte(#[trigger] column(parsed@, ks as nat, i as nat), key@[i]),
        decreases ks - j,
    {
        let col = transpose_column(parsed, ks, j);
        let (b, _) = decode_single_byte_xor_cipher(&col);
        key.push(b);
        j = j + 1;
    }
    let plain = repeating_key_xor(parsed, &key);
    (plain, key)
}

} // verus!
