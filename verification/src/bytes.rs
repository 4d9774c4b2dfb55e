//! Big-endian byte encodings of integers.

use vstd::prelude::*;

verus! {

/// The number that big-endian bytes `b` stand for.
pub open spec fn be_value(b: Seq<u8>) -> nat
    decreases b.len(),
{
    if b.len() == 0 {
        0
    } else {
        be_value(b.drop_last()) * 256 + b.last() as nat
    }
}

/// The last `k` bytes of `n` in big-endian order: `n` modulo `256^k`, most
/// significant byte first.
pub open spec fn be_encode(n: nat, k: nat) -> Seq<u8>
    decreases k,
{
    if k == 0 {
        seq![]
    } else {
        be_encode(n / 256, (k - 1) as nat).push((n % 256) as u8)
    }
}

/// `n` as eight big-endian bytes, as `u64::to_be_bytes` gives them.
pub fn u64_to_be_bytes(n: u64) -> (res: Vec<u8>)
    ensures
        res@ == be_encode(n as nat, 8),
{
    let mut digits: Vec<u8> = Vec::new();
    let mut m = n;
    let mut k: usize = 0;
    assert(pow256(0) == 1);
    assert(n as nat / 1 == n as nat);
    assert(Seq::<u8>::empty() + digits@ =~= Seq::<u8>::empty());
    assert(be_encode(n as nat, 8) + Seq::<u8>::empty() =~= be_encode(n as nat, 8));
    while k < 8
        invariant
            k <= 8,
            digits@.len() == k,
            m as nat == n as nat / pow256(k as nat),
            be_encode(n as nat, 8) == be_encode(m as nat, (8 - k) as nat) + digits@,
        decreases 8 - k,
    {
        let ghost before = digits@;
        proof {
            lemma_div_step(n as nat, k as nat);
            assert(be_encode(m as nat, (8 - k) as nat) == be_encode(m as nat / 256, (8 - k - 1) as nat).push((m % 256) as u8));
        }
        digits.insert(0, (m % 256) as u8);
        assert(digits@ =~= seq![(m % 256) as u8] + before);
        assert(be_encode(m as nat / 256, (8 - k - 1) as nat).push((m % 256) as u8) + before =~= be_encode(m as nat / 256, (8 - k - 1) as nat) + digits@);
        m = m / 256;
        k += 1;
    }
    assert(be_encode(m as nat, 0) =~= Seq::<u8>::empty());
    assert(Seq::<u8>::empty() + digits@ =~= digits@);
    digits
}

/// `256^k`.
pub open spec fn pow256(k: nat) -> nat
    decreases k,
{
    if k == 0 {
        1
    } else {
        256 * pow256((k - 1) as nat)
    }
}

proof fn lemma_div_step(n: nat, k: nat)
    ensures
        pow256(k) > 0,
        n / pow256(k) / 256 == n / pow256(k + 1),
    decreases k,
{
    if k > 0 {
        lemma_div_step(n, (k - 1) as nat);
    }
    assert(pow256(k + 1) == 256 * pow256(k));
    vstd::arithmetic::div_mod::lemma_div_denominator(n as int, pow256(k) as int, 256);
    assert(pow256(k) * 256 == 256 * pow256(k)) by (nonlinear_arith);
}

/// The number that four big-endian bytes stand for, as `u32::from_be_bytes`
/// reads them.
pub fn u32_from_be_bytes(b: [u8; 4]) -> (res: u32)
    ensures
        res as nat == be_value(b@),
{
    let (b0, b1, b2, b3) = (b[0] as u32, b[1] as u32, b[2] as u32, b[3] as u32);
    proof {
        let s = b@;
        assert(s.drop_last().drop_last().drop_last().drop_last() =~= Seq::<u8>::empty());
        assert(s.drop_last().drop_last().drop_last()[0] == s[0]);
        assert(s.drop_last().drop_last().last() == s[1]);
        assert(s.drop_last().last() == s[2]);
        assert(s.last() == s[3]);
        reveal_with_fuel(be_value, 5);
    }
    b0 * 16777216 + b1 * 65536 + b2 * 256 + b3
}

/// Reading back the bytes of a 64-bit number gives the number.
pub proof fn lemma_be_roundtrip(n: u64)
    ensures
        be_value(be_encode(n as nat, 8)) == n,
{
    lemma_be_value_encode(n as nat, 8);
    assert(pow256(8) == 18446744073709551616) by {
        reveal_with_fuel(pow256, 9);
    }
    vstd::arithmetic::div_mod::lemma_small_mod(n as nat, pow256(8));
}

proof fn lemma_be_value_encode(n: nat, k: nat)
    ensures
        be_encode(n, k).len() == k,
        be_value(be_encode(n, k)) == n % pow256(k),
    decreases k,
{
    if k > 0 {
        lemma_be_value_encode(n / 256, (k - 1) as nat);
        let e = be_encode(n, k);
        assert(e.drop_last() =~= be_encode(n / 256, (k - 1) as nat));
        let p = pow256((k - 1) as nat);
        assert(p > 0) by {
            lemma_div_step(n, (k - 1) as nat);
        }
        assert((n / 256) % p * 256 + n % 256 == n % (256 * p)) by {
            vstd::arithmetic::div_mod::lemma_breakdown(n as int, 256, p as int);
        }
    }
}

} // verus!
