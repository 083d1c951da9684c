//! PKCS#7 padding: adding it, recognising it and removing it.
use vstd::prelude::*;
use crate::bytes::copy_range;

verus! {

/// Why a padding operation failed.
#[derive(Clone, Copy, Debug, PartialEq, Eq, Structural)]
pub enum PaddingError {
    /// The block size is zero, or too large for one byte to count the padding.
    InvalidBlockSize,
    /// The buffer does not end in well-formed PKCS#7 padding.
    Invalid,
}

/// The number of padding bytes PKCS#7 adds to `n` bytes: always between 1 and `bs`.
pub open spec fn pad_len(n: nat, bs: nat) -> nat
    recommends
        bs > 0,
{
    (bs - n % bs) as nat
}

/// `data` followed by `p` copies of the byte `p`, where `p = pad_len(data.len(), bs)`.
pub open spec fn padded(data: Seq<u8>, bs: nat) -> Seq<u8>
    recommends
        0 < bs <= 255,
{
    let p = pad_len(data.len(), bs);
    data + Seq::new(p, |_i: int| p as u8)
}

/// The buffer is non-empty, a whole number of blocks, and its last byte `p`
/// lies in `1..=bs` and is repeated over its last `p` bytes.
pub open spec fn has_valid_padding(data: Seq<u8>, bs: nat) -> bool {
    &&& bs > 0
    &&& data.len() > 0
    &&& data.len() % bs == 0
    &&& 1 <= data.last() <= bs
    &&& forall|i: int| data.len() - data.last() <= i < data.len() ==> data[i] == data.last()
}

/// `data` without as many trailing bytes as its last byte says.
pub open spec fn unpadded(data: Seq<u8>) -> Seq<u8> {
    data.take(data.len() - data.last())
}

/// The result that stripping the padding of `data` is owed.
pub open spec fn strip_result(data: Seq<u8>, bs: nat) -> Result<Seq<u8>, PaddingError> {
    if has_valid_padding(data, bs) {
        Ok(unpadded(data))
    } else {
        Err(PaddingError::Invalid)
    }
}

/// What a padding result holds, with the vector seen as a sequence.
pub open spec fn padding_result_view(r: Result<Vec<u8>, PaddingError>) -> Result<Seq<u8>, PaddingError> {
    match r {
        Ok(v) => Ok(v@),
        Err(e) => Err(e),
    }
}

proof fn lemma_len_at_least_block(n: nat, bs: nat)
    requires
        bs > 0,
        n > 0,
        n % bs == 0,
    ensures
        n >= bs,
{
    vstd::arithmetic::div_mod::lemma_fundamental_div_mod(n as int, bs as int);
    assert(n == bs * (n / bs));
    assert(n / bs >= 1) by {
        if n / bs == 0 {
            assert(bs * 0 == 0) by (nonlinear_arith);
        }
    }
    assert(bs * (n / bs) >= bs) by (nonlinear_arith)
        requires
            n / bs >= 1,
            bs > 0,
    ;
}

/// Pads `data` to a whole number of `block_size` blocks; the block size is
/// taken to lie in `1..=255`.
pub(crate) fn pad_to_block(data: &[u8], block_size: usize) -> (r: Vec<u8>)
    requires
        0 < block_size <= 255,
        data@.len() + block_size <= usize::MAX,
    ensures
        r@ == padded(data@, block_size as nat),
{
    let p: usize = block_size - data.len() % block_size;
    let mut r = copy_range(data, 0, data.len());
    assert(data@.subrange(0, data@.len() as int) =~= data@);
    let mut i: usize = 0;
    while i < p
        invariant
            0 < p <= block_size <= 255,
            p == pad_len(data@.len(), block_size as nat),
            i <= p,
            r@ == data@ + Seq::new(i as nat, |_j: int| p as u8),
        decreases p - i,
    {
        r.push(p as u8);
        i = i + 1;
        assert(r@ =~= data@ + Seq::new(i as nat, |_j: int| p as u8));
    }
    r
}

/// PKCS#7 padding: appends `p = block_size - len % block_size` bytes of value
/// `p`, so a whole extra block when `data` already fills its blocks.
pub fn pkcs7_padding(data: &[u8], block_size: usize) -> (r: Result<Vec<u8>, PaddingError>)
    requires
        data@.len() + block_size <= usize::MAX,
    ensures
        match r {
            Ok(v) => 0 < block_size <= 255 && v@ == padded(data@, block_size as nat),
            Err(e) => (block_size == 0 || block_size > 255) && e == PaddingError::InvalidBlockSize,
        },
{
    if block_size == 0 || block_size > 255 {
        return Err(PaddingError::InvalidBlockSize);
    }
    Ok(pad_to_block(data, block_size))
}

/// Whether `data` ends in well-formed PKCS#7 padding for `block_size`.
pub fn is_pkcs7_padded(data: &[u8], block_size: usize) -> (r: bool)
    ensures
        r == has_valid_padding(data@, block_size as nat),
{
    let n = data.len();
    if block_size == 0 || n == 0 || n % block_size != 0 {
        return false;
    }
    let last = data[n - 1];
    if last == 0 || last as usize > block_size {
        return false;
    }
    proof {
        lemma_len_at_least_block(n as nat, block_size as nat);
    }
    let mut i: usize = n - last as usize;
    while i < n
        invariant
            n == data@.len(),
            last == data@.last(),
            1 <= last <= block_size <= n,
            n - last <= i <= n,
            forall|j: int| n - last <= j < i ==> data@[j] == last,
        decreases n - i,
    {
        if data[i] != last {
            return false;
        }
        i = i + 1;
    }
    true
}

/// Removes well-formed PKCS#7 padding, and fails rather than hand back a
/// buffer whose padding is absent or corrupt.
pub fn pkcs7_unpadding(data: &[u8], block_size: usize) -> (r: Result<Vec<u8>, PaddingError>)
    ensures
        padding_result_view(r) == strip_result(data@, block_size as nat),
{
    if is_pkcs7_padded(data, block_size) {
        let p = data[data.len() - 1] as usize;
        proof {
            lemma_len_at_least_block(data@.len(), block_size as nat);
        }
        Ok(copy_range(data, 0, data.len() - p))
    } else {
        Err(PaddingError::Invalid)
    }
}

/// Padding data that already fills its blocks adds exactly one whole block
/// of bytes equal to the block size, never nothing.
pub proof fn lemma_pad_full_block(data: Seq<u8>, bs: nat)
    requires
        0 < bs <= 255,
        data.len() % bs == 0,
    ensures
        padded(data, bs).len() == data.len() + bs,
        padded(data, bs).take(data.len() as int) == data,
        forall|i: int| data.len() <= i < data.len() + bs ==> padded(data, bs)[i] == bs as u8,
{
    assert(padded(data, bs).take(data.len() as int) =~= data);
}

/// Stripping rejects a buffer whose last byte is zero, or exceeds the
/// buffer's length, or is not repeated over that many trailing bytes.
pub proof fn lemma_strip_rejects(data: Seq<u8>, bs: nat)
    requires
        data.len() > 0,
        data.last() == 0 || data.last() > data.len() || exists|i: int|
            data.len() - data.last() <= i < data.len() && data[i] != data.last(),
    ensures
        strip_result(data, bs) == Err::<Seq<u8>, PaddingError>(PaddingError::Invalid),
{
    if has_valid_padding(data, bs) {
        lemma_len_at_least_block(data.len(), bs);
    }
}

/// Padding and then stripping gives the data back.
pub proof fn lemma_pad_strip(data: Seq<u8>, bs: nat)
    requires
        0 < bs <= 255,
    ensures
        has_valid_padding(padded(data, bs), bs),
        unpadded(padded(data, bs)) == data,
        padded(data, bs).len() % bs == 0,
        padded(data, bs).len() > data.len(),
{
    let p = pad_len(data.len(), bs);
    let q = padded(data, bs);
    assert(q.len() == data.len() + p);
    assert(q.len() % bs == 0) by {
        vstd::arithmetic::div_mod::lemma_fundamental_div_mod(data.len() as int, bs as int);
        let k = data.len() / bs;
        let m = data.len() % bs;
        assert(q.len() == bs * (k + 1)) by (nonlinear_arith)
            requires
                data.len() == bs * k + m,
                q.len() == data.len() + (bs - m),
        ;
        vstd::arithmetic::div_mod::lemma_mod_multiples_basic((k + 1) as int, bs as int);
        assert(bs * (k + 1) == (k + 1) * bs) by (nonlinear_arith);
    }
    assert(q.last() == p as u8);
    assert(unpadded(q) =~= data);
}

} // verus!
