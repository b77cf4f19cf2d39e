//! Byte order: numbers as little-endian and big-endian byte strings.

use vstd::prelude::*;

verus! {

/// `n` as `k` bytes, least significant first.
pub open spec fn le_bytes(n: nat, k: nat) -> Seq<u8>
    decreases k,
{
    if k == 0 {
        Seq::empty()
    } else {
        seq![(n % 256) as u8] + le_bytes(n / 256, (k - 1) as nat)
    }
}

/// The number whose bytes, least significant first, are `s`.
pub open spec fn le_value(s: Seq<u8>) -> nat
    decreases s.len(),
{
    if s.len() == 0 {
        0
    } else {
        s[0] as nat + 256 * le_value(s.skip(1))
    }
}

/// `256` to the power `k`.
pub open spec fn pow256(k: nat) -> nat
    decreases k,
{
    if k == 0 {
        1
    } else {
        256 * pow256((k - 1) as nat)
    }
}

/// `n` as `k` bytes, most significant first.
pub open spec fn be_bytes(n: nat, k: nat) -> Seq<u8>
    decreases k,
{
    if k == 0 {
        Seq::empty()
    } else {
        be_bytes(n / 256, (k - 1) as nat).push((n % 256) as u8)
    }
}

/// The number whose bytes, most significant first, are `s`.
pub open spec fn be_value(s: Seq<u8>) -> nat
    decreases s.len(),
{
    if s.len() == 0 {
        0
    } else {
        256 * be_value(s.drop_last()) + s.last() as nat
    }
}

pub broadcast proof fn lemma_le_bytes_len(n: nat, k: nat)
    ensures
        (#[trigger] le_bytes(n, k)).len() == k,
    decreases k,
{
    if k > 0 {
        lemma_le_bytes_len(n / 256, (k - 1) as nat);
    }
}

pub broadcast proof fn lemma_be_bytes_len(n: nat, k: nat)
    ensures
        (#[trigger] be_bytes(n, k)).len() == k,
    decreases k,
{
    if k > 0 {
        lemma_be_bytes_len(n / 256, (k - 1) as nat);
    }
}

/// A number that fits in `k` bytes reads back from them.
pub proof fn lemma_le_value_of_bytes(n: nat, k: nat)
    requires
        n < pow256(k),
    ensures
        le_value(le_bytes(n, k)) == n,
    decreases k,
{
    if k > 0 {
        let s = le_bytes(n, k);
        let tail = le_bytes(n / 256, (k - 1) as nat);
        lemma_le_bytes_len(n, k);
        assert(n / 256 < pow256((k - 1) as nat)) by (nonlinear_arith)
            requires
                n < 256 * pow256((k - 1) as nat),
        ;
        lemma_le_value_of_bytes(n / 256, (k - 1) as nat);
        assert(s.skip(1) =~= tail);
    }
}

/// A byte string is the byte form of the number it reads as.
pub proof fn lemma_le_bytes_of_value(s: Seq<u8>)
    ensures
        le_bytes(le_value(s), s.len()) == s,
        le_value(s) < pow256(s.len()),
    decreases s.len(),
{
    if s.len() > 0 {
        let t = s.skip(1);
        lemma_le_bytes_of_value(t);
        let n = le_value(s);
        assert(n % 256 == s[0] as nat && n / 256 == le_value(t)) by (nonlinear_arith)
            requires
                n == s[0] as nat + 256 * le_value(t),
        ;
        assert(le_bytes(n, s.len()) =~= s);
        assert(n < 256 * pow256(t.len())) by (nonlinear_arith)
            requires
                n == s[0] as nat + 256 * le_value(t),
                le_value(t) < pow256(t.len()),
        ;
    }
}

/// A number that fits in `k` bytes reads back from them.
pub proof fn lemma_be_value_of_bytes(n: nat, k: nat)
    requires
        n < pow256(k),
    ensures
        be_value(be_bytes(n, k)) == n,
    decreases k,
{
    if k > 0 {
        let s = be_bytes(n, k);
        assert(n / 256 < pow256((k - 1) as nat)) by (nonlinear_arith)
            requires
                n < 256 * pow256((k - 1) as nat),
        ;
        lemma_be_value_of_bytes(n / 256, (k - 1) as nat);
        assert(s.drop_last() =~= be_bytes(n / 256, (k - 1) as nat));
    }
}

/// A byte string is the byte form of the number it reads as.
pub proof fn lemma_be_bytes_of_value(s: Seq<u8>)
    ensures
        be_bytes(be_value(s), s.len()) == s,
        be_value(s) < pow256(s.len()),
    decreases s.len(),
{
    if s.len() > 0 {
        let t = s.drop_last();
        lemma_be_bytes_of_value(t);
        let n = be_value(s);
        assert(n % 256 == s.last() as nat && n / 256 == be_value(t)) by (nonlinear_arith)
            requires
                n == 256 * be_value(t) + s.last() as nat,
        ;
        assert(be_bytes(n, s.len()) =~= s);
        assert(n < 256 * pow256(t.len())) by (nonlinear_arith)
            requires
                n == 256 * be_value(t) + s.last() as nat,
                be_value(t) < pow256(t.len()),
        ;
    }
}

/// The values of the powers that machine integers reach.
pub broadcast proof fn lemma_pow256(k: nat)
    ensures
        k == 1 ==> #[trigger] pow256(k) == 0x100,
        k == 2 ==> pow256(k) == 0x1_0000,
        k == 4 ==> pow256(k) == 0x1_0000_0000,
        k == 8 ==> pow256(k) == 0x1_0000_0000_0000_0000,
        k == 16 ==> pow256(k) == 0x1_0000_0000_0000_0000 * 0x1_0000_0000_0000_0000,
{
    reveal_with_fuel(pow256, 9);
    assert(pow256(8) == 0x1_0000_0000_0000_0000);
    if k == 16 {
        lemma_pow256_split(8, 8);
    }
}

proof fn lemma_pow256_split(a: nat, b: nat)
    ensures
        pow256(a + b) == pow256(a) * pow256(b),
    decreases a,
{
    if a > 0 {
        lemma_pow256_split((a - 1) as nat, b);
        assert(pow256(a + b) == 256 * pow256((a - 1) as nat + b));
        assert(256 * (pow256((a - 1) as nat) * pow256(b)) == (256 * pow256((a - 1) as nat))
            * pow256(b)) by (nonlinear_arith);
    } else {
        assert(1 * pow256(b) == pow256(b)) by (nonlinear_arith);
    }
}

/// Append `n` to `out` as `k` bytes, least significant first.
pub(crate) fn put_le(out: &mut Vec<u8>, n: u64, k: usize)
    requires
        k <= 8,
    ensures
        final(out)@ == old(out)@ + le_bytes(n as nat, k as nat),
{
    let mut rest: u64 = n;
    let mut i: usize = 0;
    proof {
        assert(out@ =~= old(out)@ + Seq::<u8>::empty());
    }
    while i < k
        invariant
            i <= k <= 8,
            out@ + le_bytes(rest as nat, (k - i) as nat) == old(out)@ + le_bytes(n as nat, k as nat),
        decreases k - i,
    {
        let ghost before = out@;
        out.push((rest % 256) as u8);
        proof {
            assert(out@ + le_bytes((rest / 256) as nat, (k - i - 1) as nat) =~= before + le_bytes(
                rest as nat,
                (k - i) as nat,
            ));
        }
        rest = rest / 256;
        i += 1;
    }
    proof {
        assert(out@ + Seq::<u8>::empty() =~= out@);
    }
}

/// The number whose bytes, least significant first, are `raw`.
pub(crate) fn get_le(raw: &[u8]) -> (n: u64)
    requires
        raw@.len() <= 8,
    ensures
        n as nat == le_value(raw@),
{
    let mut n: u64 = 0;
    let mut i: usize = raw.len();
    proof {
        assert(raw@.skip(i as int) =~= Seq::<u8>::empty());
    }
    while i > 0
        invariant
            i <= raw@.len() <= 8,
            n as nat == le_value(raw@.skip(i as int)),
        decreases i,
    {
        i -= 1;
        proof {
            let t = raw@.skip(i + 1);
            assert(raw@.skip(i as int).skip(1) =~= t);
            lemma_le_bytes_of_value(t);
            lemma_pow256_mono(t.len(), 7);
            reveal_with_fuel(pow256, 8);
        }
        n = n * 256 + raw[i] as u64;
    }
    proof {
        assert(raw@.skip(0) =~= raw@);
    }
    n
}

proof fn lemma_pow256_mono(a: nat, b: nat)
    requires
        a <= b,
    ensures
        pow256(a) <= pow256(b),
    decreases b,
{
    if a < b {
        lemma_pow256_mono(a, (b - 1) as nat);
    }
}

/// The sixteen bytes of `bits`, most significant first.
pub(crate) fn be_array(bits: u128) -> (a: [u8; 16])
    ensures
        a@ == be_bytes(bits as nat, 16),
{
    let mut a: [u8; 16] = [0u8;16];
    let mut rest: u128 = bits;
    let mut i: usize = 16;
    proof {
        assert(be_bytes(rest as nat, 16) + a@.skip(16) =~= be_bytes(bits as nat, 16));
    }
    while i > 0
        invariant
            i <= 16,
            be_bytes(rest as nat, i as nat) + a@.skip(i as int) == be_bytes(bits as nat, 16),
        decreases i,
    {
        let ghost before = a@;
        a[i - 1] = (rest % 256) as u8;
        proof {
            lemma_be_bytes_len(rest as nat, i as nat);
            assert(be_bytes((rest / 256) as nat, (i - 1) as nat) + a@.skip(i - 1) =~= be_bytes(
                rest as nat,
                i as nat,
            ) + before.skip(i as int));
        }
        rest = rest / 256;
        i -= 1;
    }
    proof {
        assert(be_bytes(rest as nat, 0) + a@.skip(0) =~= a@);
    }
    a
}

/// The number whose sixteen bytes, most significant first, are `raw`.
pub(crate) fn be_bits(raw: &[u8]) -> (bits: u128)
    requires
        raw@.len() == 16,
    ensures
        bits as nat == be_value(raw@),
        be_bytes(bits as nat, 16) == raw@,
{
    let mut bits: u128 = 0;
    let mut i: usize = 0;
    while i < 16
        invariant
            i <= 16,
            raw@.len() == 16,
            bits as nat == be_value(raw@.take(i as int)),
        decreases 16 - i,
    {
        proof {
            let t = raw@.take(i as int);
            assert(raw@.take(i + 1).drop_last() =~= t);
            lemma_be_bytes_of_value(t);
            lemma_pow256_mono(t.len(), 15);
            lemma_pow256_split(8, 7);
            reveal_with_fuel(pow256, 9);
        }
        bits = bits * 256 + raw[i] as u128;
        i += 1;
    }
    proof {
        assert(raw@.take(16) =~= raw@);
        lemma_be_bytes_of_value(raw@);
    }
    bits
}

} // verus!
