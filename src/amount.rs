use vstd::prelude::*;

verus! {

/// 256 to the power `k`.
pub open spec fn pow256(k: nat) -> nat
    decreases k,
{
    if k == 0 {
        1
    } else {
        256 * pow256((k - 1) as nat)
    }
}

/// The `k` low bytes of `v`, most significant first.
pub open spec fn be_bytes(v: nat, k: nat) -> Seq<u8>
    decreases k,
{
    if k == 0 {
        Seq::empty()
    } else {
        be_bytes(v / 256, (k - 1) as nat).push((v % 256) as u8)
    }
}

/// The number that a big-endian byte string stands for.
pub open spec fn be_value(s: Seq<u8>) -> nat
    decreases s.len(),
{
    if s.len() == 0 {
        0
    } else {
        be_value(s.drop_last()) * 256 + s.last() as nat
    }
}

/// Width of an amount's byte form.
pub const AMOUNT_BYTES: usize = 16;

/// The byte form of an amount: sixteen bytes, most significant first.
pub open spec fn amount_bytes(v: u128) -> Seq<u8> {
    be_bytes(v as nat, 16)
}

proof fn lemma_be_round_trip(v: nat, k: nat)
    ensures
        be_value(be_bytes(v, k)) == v % pow256(k),
        be_bytes(v, k).len() == k,
    decreases k,
{
    if k > 0 {
        lemma_be_round_trip(v / 256, (k - 1) as nat);
        let s = be_bytes(v, k);
        assert(s.drop_last() =~= be_bytes(v / 256, (k - 1) as nat));
        assert(pow256(k) == 256 * pow256((k - 1) as nat));
        assert(pow256((k - 1) as nat) > 0) by {
            lemma_pow256_positive((k - 1) as nat);
        }
        vstd::arithmetic::div_mod::lemma_breakdown(v as int, 256, pow256((k - 1) as nat) as int);
    }
}

pub proof fn lemma_pow256_positive(k: nat)
    ensures
        pow256(k) > 0,
    decreases k,
{
    if k > 0 {
        lemma_pow256_positive((k - 1) as nat);
    }
}

proof fn lemma_pow256_monotone(i: nat, j: nat)
    requires
        i <= j,
    ensures
        pow256(i) <= pow256(j),
    decreases j,
{
    if i < j {
        lemma_pow256_monotone(i, (j - 1) as nat);
        lemma_pow256_positive((j - 1) as nat);
    }
}

proof fn lemma_pow256_16()
    ensures
        pow256(16) == 0x1_0000_0000_0000_0000_0000_0000_0000_0000,
{
    reveal_with_fuel(pow256, 17);
}

/// Reading back an amount's byte form gives the amount.
pub proof fn lemma_amount_round_trip(v: u128)
    ensures
        be_value(amount_bytes(v)) == v,
        amount_bytes(v).len() == AMOUNT_BYTES,
{
    lemma_be_round_trip(v as nat, 16);
    lemma_pow256_16();
}

fn be_fill(v: u128, k: usize) -> (r: Vec<u8>)
    ensures
        r@ == be_bytes(v as nat, k as nat),
    decreases k,
{
    if k == 0 {
        Vec::new()
    } else {
        let mut r = be_fill(v / 256, k - 1);
        r.push((v % 256) as u8);
        r
    }
}

/// Writes an amount as sixteen big-endian bytes.
pub fn amount_to_bytes(v: u128) -> (r: Vec<u8>)
    ensures
        r@ == amount_bytes(v),
{
    be_fill(v, AMOUNT_BYTES)
}

/// Reads a big-endian amount of at most sixteen bytes.
pub fn amount_from_bytes(s: &Vec<u8>) -> (r: u128)
    requires
        s@.len() <= AMOUNT_BYTES,
    ensures
        r == be_value(s@),
{
    let mut acc: u128 = 0;
    let mut i: usize = 0;
    proof {
        lemma_pow256_16();
    }
    while i < s.len()
        invariant
            i <= s@.len() <= 16,
            acc == be_value(s@.subrange(0, i as int)),
            acc < pow256(i as nat),
            pow256(16) == 0x1_0000_0000_0000_0000_0000_0000_0000_0000,
        decreases s@.len() - i,
    {
        proof {
            lemma_pow256_monotone(i as nat + 1, 16);
            assert(s@.subrange(0, i + 1).drop_last() =~= s@.subrange(0, i as int));
            assert(pow256(i as nat + 1) == 256 * pow256(i as nat));
            assert(acc * 256 + s@[i as int] < pow256(i as nat + 1)) by (nonlinear_arith)
                requires
                    acc < pow256(i as nat),
                    s@[i as int] < 256,
                    pow256(i as nat + 1) == 256 * pow256(i as nat);
        }
        acc = acc * 256 + s[i] as u128;
        i = i + 1;
    }
    assert(s@.subrange(0, i as int) =~= s@);
    acc
}

} // verus!
