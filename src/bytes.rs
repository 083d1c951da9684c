//! Small byte-sequence helpers shared by the other modules.
use vstd::prelude::*;

verus! {

/// Copies `s[from..to]` into a fresh vector.
pub fn copy_range(s: &[u8], from: usize, to: usize) -> (r: Vec<u8>)
    requires
        from <= to <= s@.len(),
    ensures
        r@ == s@.subrange(from as int, to as int),
{
    let mut r: Vec<u8> = Vec::new();
    let mut i: usize = from;
    while i < to
        invariant
            from <= i <= to <= s@.len(),
            r@ == s@.subrange(from as int, i as int),
        decreases to - i,
    {
        r.push(s[i]);
        i = i + 1;
        assert(r@ =~= s@.subrange(from as int, i as int));
    }
    r
}

/// Appends every byte of `src` to `dst`.
pub fn append_bytes(dst: &mut Vec<u8>, src: &[u8])
    requires
        old(dst)@.len() + src@.len() <= usize::MAX,
    ensures
        final(dst)@ == old(dst)@ + src@,
{
    let mut i: usize = 0;
    while i < src.len()
        invariant
            0 <= i <= src@.len(),
            dst@ == old(dst)@ + src@.take(i as int),
            old(dst)@.len() + src@.len() <= usize::MAX,
        decreases src@.len() - i,
    {
        dst.push(src[i]);
        i = i + 1;
        assert(dst@ =~= old(dst)@ + src@.take(i as int));
    }
    assert(src@.take(src@.len() as int) =~= src@);
}

} // verus!

verus! {

/// Byte-wise XOR of two sequences, as long as the shorter one.
pub open spec fn xor_seq(a: Seq<u8>, b: Seq<u8>) -> Seq<u8> {
    Seq::new(if a.len() <= b.len() { a.len() } else { b.len() }, |i: int| a[i] ^ b[i])
}

/// XOR-ing twice with the same sequence gives the first one back.
pub proof fn lemma_xor_twice(a: Seq<u8>, b: Seq<u8>)
    requires
        a.len() == b.len(),
    ensures
        xor_seq(xor_seq(a, b), b) == a,
{
    assert forall|i: int| 0 <= i < a.len() implies xor_seq(xor_seq(a, b), b)[i] == a[i] by {
        let x = a[i];
        let y = b[i];
        assert((x ^ y) ^ y == x) by (bit_vector);
    }
    assert(xor_seq(xor_seq(a, b), b) =~= a);
}

/// Byte-wise XOR of two buffers, as long as the shorter one.
pub fn fixed_xor(buffer1: &[u8], buffer2: &[u8]) -> (r: Vec<u8>)
    ensures
        r@ == xor_seq(buffer1@, buffer2@),
{
    let n: usize = if buffer1.len() <= buffer2.len() { buffer1.len() } else { buffer2.len() };
    let mut r: Vec<u8> = Vec::new();
    let mut i: usize = 0;
    while i < n
        invariant
            n == xor_seq(buffer1@, buffer2@).len(),
            i <= n,
            r@ == xor_seq(buffer1@, buffer2@).take(i as int),
        decreases n - i,
    {
        r.push(buffer1[i] ^ buffer2[i]);
        i = i + 1;
        assert(r@ =~= xor_seq(buffer1@, buffer2@).take(i as int));
    }
    assert(r@ =~= xor_seq(buffer1@, buffer2@));
    r
}

} // verus!
