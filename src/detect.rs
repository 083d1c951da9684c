//! Spotting ECB: a ciphertext in which some block occurs twice.
use vstd::prelude::*;

verus! {

/// Chunk `i` of `s` cut into chunks of `bs` bytes; the last one may be shorter.
pub open spec fn chunk(s: Seq<u8>, bs: nat, i: nat) -> Seq<u8> {
    let a = (i * bs) as int;
    let b = if a + bs <= s.len() {
        a + bs
    } else {
        s.len() as int
    };
    s.subrange(a, b)
}

/// Some chunk of `s` occurs again later in `s`.
pub open spec fn has_repeated_chunk(s: Seq<u8>, bs: nat) -> bool {
    exists|i: nat, j: nat|
        i < j && j * bs < s.len() && #[trigger] chunk(s, bs, i) == #[trigger] chunk(s, bs, j)
}

spec fn end_of(n: int, a: int, bs: int) -> int {
    if a + bs <= n {
        a + bs
    } else {
        n
    }
}

fn chunk_end(n: usize, a: usize, bs: usize) -> (r: usize)
    requires
        a <= n,
    ensures
        r == end_of(n as int, a as int, bs as int),
{
    if bs <= n - a {
        a + bs
    } else {
        n
    }
}

/// Whether the chunks starting at `a` and at `b` hold the same bytes.
fn same_chunk(s: &[u8], a: usize, b: usize, bs: usize) -> (r: bool)
    requires
        a < s@.len(),
        b < s@.len(),
    ensures
        r == (s@.subrange(a as int, end_of(s@.len() as int, a as int, bs as int)) == s@.subrange(
            b as int,
            end_of(s@.len() as int, b as int, bs as int),
        )),
{
    let n = s.len();
    let ea = chunk_end(n, a, bs);
    let eb = chunk_end(n, b, bs);
    if ea - a != eb - b {
        assert(s@.subrange(a as int, ea as int).len() != s@.subrange(b as int, eb as int).len());
        return false;
    }
    let len = ea - a;
    let mut t: usize = 0;
    while t < len
        invariant
            n == s@.len(),
            len == ea - a,
            len == eb - b,
            a <= ea <= n,
            b <= eb <= n,
            ea == end_of(n as int, a as int, bs as int),
            eb == end_of(n as int, b as int, bs as int),
            t <= len,
            forall|u: int| 0 <= u < t ==> s@.subrange(a as int, ea as int)[u] == #[trigger] s@.subrange(b as int, eb as int)[u],
        decreases len - t,
    {
        if s[a + t] != s[b + t] {
            assert(s@.subrange(a as int, ea as int)[t as int] == s@[a + t]);
            assert(s@.subrange(b as int, eb as int)[t as int] == s@[b + t]);
            assert(s@.subrange(a as int, ea as int) != s@.subrange(b as int, eb as int));
            return false;
        }
        t = t + 1;
    }
    assert(s@.subrange(a as int, ea as int) =~= s@.subrange(b as int, eb as int));
    true
}

/// Whether some `block_size`-byte chunk of the ciphertext occurs twice, the
/// mark that ECB leaves on repeated plaintext blocks.
pub fn detect_aes_ecb(chipher_text: &[u8], block_size: usize) -> (r: bool)
    requires
        block_size > 0,
    ensures
        r == has_repeated_chunk(chipher_text@, block_size as nat),
{
    let n = chipher_text.len();
    let ghost s = chipher_text@;
    let ghost bs = block_size as nat;
    let mut a: usize = 0;
    let ghost mut i: nat = 0;
    while a < n
        invariant
            n == s.len(),
            s == chipher_text@,
            bs == block_size,
            bs > 0,
            a == i * bs || (a == n && i * bs >= n),
            forall|x: nat, y: nat|
                x < i && x < y && y * bs < s.len() ==> #[trigger] chunk(s, bs, x) != #[trigger] chunk(
                    s,
                    bs,
                    y,
                ),
        decreases n - a,
    {
        assert(a == i * bs);
        let mut b: usize = if block_size <= n - a {
            a + block_size
        } else {
            n
        };
        let ghost mut j: nat = i + 1;
        assert(j * bs == i * bs + bs) by (nonlinear_arith)
            requires
                j == i + 1,
        ;
        assert(b == j * bs || (b == n && j * bs >= n));
        while b < n
            invariant
                n == s.len(),
                s == chipher_text@,
                bs == block_size,
                bs > 0,
                a == i * bs,
                a < n,
                i < j,
                b == j * bs || (b == n && j * bs >= n),
                forall|y: nat| i < y < j && y * bs < s.len() ==> chunk(s, bs, i) != #[trigger] chunk(s, bs, y),
            decreases n - b,
        {
            assert(b == j * bs);
            if same_chunk(chipher_text, a, b, block_size) {
                assert(chunk(s, bs, i) == chunk(s, bs, j));
                return true;
            }
            b = if block_size <= n - b {
                b + block_size
            } else {
                n
            };
            proof {
                j = j + 1;
                assert(j * bs == (j - 1) * bs + bs) by (nonlinear_arith)
                    requires
                        j >= 1,
                ;
            }
        }
        proof {
            assert forall|y: nat| j <= y implies #[trigger] (y * bs) >= n by {
                assert(y * bs >= j * bs) by (nonlinear_arith)
                    requires
                        j <= y,
                ;
            }
        }
        a = if block_size <= n - a {
            a + block_size
        } else {
            n
        };
        proof {
            let i0 = i;
            i = i + 1;
            assert(i * bs == i0 * bs + bs) by (nonlinear_arith)
                requires
                    i == i0 + 1,
            ;
        }
    }
    proof {
        assert forall|x: nat, y: nat|
            x < y && y * bs < s.len() implies #[trigger] chunk(s, bs, x) != #[trigger] chunk(s, bs, y) by {
            if x >= i {
                assert(y * bs >= i * bs) by (nonlinear_arith)
                    requires
                        i <= y,
                ;
            }
        }
    }
    false
}

} // verus!
