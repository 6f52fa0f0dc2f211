//! Little-endian bytes, as every record and every hash of this library
//! writes its numbers.

use vstd::prelude::*;

verus! {

/// 256 to the power of `n`.
pub open spec fn pow256(n: nat) -> nat
    decreases n,
{
    if n == 0 {
        1
    } else {
        256 * pow256((n - 1) as nat)
    }
}

/// The lowest `n` bytes of `v`, lowest first.
pub open spec fn le(v: nat, n: nat) -> Seq<u8>
    decreases n,
{
    if n == 0 {
        Seq::empty()
    } else {
        seq![(v % 256) as u8] + le(v / 256, (n - 1) as nat)
    }
}

/// The number that bytes, lowest first, stand for.
pub open spec fn from_le(b: Seq<u8>) -> nat
    decreases b.len(),
{
    if b.len() == 0 {
        0
    } else {
        b[0] as nat + 256 * from_le(b.skip(1))
    }
}

/// There are as many bytes as were asked for.
pub broadcast proof fn lemma_le_len(v: nat, n: nat)
    ensures
        #[trigger] le(v, n).len() == n,
    decreases n,
{
    if n > 0 {
        lemma_le_len(v / 256, (n - 1) as nat);
    }
}

/// Bytes stand for less than the next power of 256.
pub proof fn lemma_from_le_bound(b: Seq<u8>)
    ensures
        from_le(b) < pow256(b.len()),
    decreases b.len(),
{
    if b.len() > 0 {
        lemma_from_le_bound(b.skip(1));
    }
}

/// Reading the bytes of a number that fits gives the number.
pub proof fn law_le_round_trip(v: nat, n: nat)
    requires
        v < pow256(n),
    ensures
        from_le(le(v, n)) == v,
    decreases n,
{
    if n > 0 {
        let rest = le(v / 256, (n - 1) as nat);
        assert(v / 256 < pow256((n - 1) as nat));
        law_le_round_trip(v / 256, (n - 1) as nat);
        assert(le(v, n).skip(1) =~= rest);
    }
}

/// Writing the number that bytes stand for gives the bytes.
pub proof fn law_from_le_round_trip(b: Seq<u8>)
    ensures
        le(from_le(b), b.len()) == b,
    decreases b.len(),
{
    if b.len() > 0 {
        let rest = from_le(b.skip(1));
        law_from_le_round_trip(b.skip(1));
        assert((b[0] as nat + 256 * rest) / 256 == rest);
        assert((b[0] as nat + 256 * rest) % 256 == b[0]);
        assert(le(from_le(b), b.len()) =~= b);
    }
}

/// The powers that machine integers reach.
pub proof fn lemma_pow256()
    ensures
        pow256(4) == 0x1_0000_0000,
        pow256(8) == 0x1_0000_0000_0000_0000,
        pow256(16) == 0x1_0000_0000_0000_0000_0000_0000_0000_0000,
{
    reveal_with_fuel(pow256, 17);
}

/// A larger exponent, a larger power.
pub proof fn lemma_pow256_monotone(a: nat, b: nat)
    requires
        a <= b,
    ensures
        1 <= pow256(a) <= pow256(b),
    decreases b,
{
    if a < b {
        lemma_pow256_monotone(a, (b - 1) as nat);
    } else if a > 0 {
        lemma_pow256_monotone((a - 1) as nat, (b - 1) as nat);
    }
}

/// The bytes of a number, one more at a time.
proof fn lemma_le_push(v: nat, n: nat)
    ensures
        le(v, n + 1) == le(v, n).push(((v / pow256(n)) % 256) as u8),
    decreases n,
{
    if n == 0 {
        assert(le(v / 256, 0) =~= Seq::empty());
        assert(le(v, 1) =~= seq![(v % 256) as u8]);
        assert(le(v, 0).push(((v / 1) % 256) as u8) =~= seq![(v % 256) as u8]);
    } else {
        let m = (n - 1) as nat;
        lemma_le_push(v / 256, m);
        lemma_pow256_monotone(0, m);
        vstd::arithmetic::div_mod::lemma_div_denominator(v as int, 256, pow256(m) as int);
        assert(le(v, n + 1) =~= le(v, n).push(((v / pow256(n)) % 256) as u8));
    }
}

/// Write the lowest `n` bytes of `v` into `out`, from position `at` on.
pub(crate) fn put_le<const N: usize>(out: &mut [u8; N], at: usize, n: usize, v: u64)
    requires
        at + n <= N,
    ensures
        final(out)@.subrange(at as int, at + n) == le(v as nat, n as nat),
        forall|i: int| 0 <= i < N && !(at <= i < at + n) ==> #[trigger] final(out)@[i] == old(out)@[i],
{
    let ghost before = out@;
    let mut rest = v;
    let mut i: usize = 0;
    proof {
        assert(out@.subrange(at as int, at as int) =~= le(v as nat, 0));
        assert(v as nat / 1 == v);
    }
    while i < n
        invariant
            at + n <= N,
            i <= n,
            rest == v as nat / pow256(i as nat),
            out@.subrange(at as int, at + i) == le(v as nat, i as nat),
            forall|j: int| 0 <= j < N && !(at <= j < at + i) ==> #[trigger] out@[j] == before[j],
        decreases n - i,
    {
        let ghost mid = out@;
        proof {
            lemma_le_push(v as nat, i as nat);
            lemma_pow256_monotone(0, i as nat);
            vstd::arithmetic::div_mod::lemma_div_denominator(
                v as int,
                pow256(i as nat) as int,
                256,
            );
        }
        out[at + i] = (rest % 256) as u8;
        rest = rest / 256;
        i += 1;
        proof {
            assert(out@.subrange(at as int, at + i) =~= mid.subrange(at as int, at + i - 1).push(
                out@[at + i - 1],
            ));
        }
    }
}

/// Read the `n` bytes of `b` from position `at` on.
pub(crate) fn get_le(b: &[u8], at: usize, n: usize) -> (v: u64)
    requires
        at + n <= b@.len(),
        n <= 8,
    ensures
        v == from_le(b@.subrange(at as int, at + n)),
        v < pow256(n as nat),
{
    let len = b.len();
    let mut v: u64 = 0;
    let mut i: usize = n;
    proof {
        assert(b@.subrange(at + n, at + n).len() == 0);
    }
    while i > 0
        invariant
            at + n <= len == b@.len(),
            i <= n <= 8,
            v == from_le(b@.subrange(at + i, at + n)),
            v < pow256((n - i) as nat),
        decreases i,
    {
        i -= 1;
        proof {
            let s = b@.subrange(at + i, at + n);
            assert(s.skip(1) =~= b@.subrange(at + i + 1, at + n));
            lemma_from_le_bound(s);
            lemma_pow256_monotone((n - i) as nat, 8);
            lemma_pow256();
        }
        v = v * 256 + b[at + i] as u64;
    }
    v
}

/// Lowest first: byte number `i` counts the `i`th powers of 256.
pub proof fn law_lowest_byte_first(v: nat, n: nat, i: int)
    requires
        0 <= i < n,
    ensures
        le(v, n).len() == n,
        le(v, n)[i] == (v / pow256(i as nat)) % 256,
    decreases n,
{
    lemma_le_len(v, n);
    let rest = le(v / 256, (n - 1) as nat);
    lemma_le_len(v / 256, (n - 1) as nat);
    if i > 0 {
        let p = pow256((i - 1) as nat);
        law_lowest_byte_first(v / 256, (n - 1) as nat, i - 1);
        lemma_pow256_monotone(0, (i - 1) as nat);
        assert(le(v, n)[i] == rest[i - 1]);
        vstd::arithmetic::div_mod::lemma_div_denominator(v as int, 256, p as int);
    } else {
        assert(v / 1 == v);
    }
}

} // verus!
