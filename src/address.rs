use vstd::prelude::*;

verus! {

/// Byte-lexicographic order on byte sequences of equal length.
pub open spec fn seq_lt(a: Seq<u8>, b: Seq<u8>) -> bool
    decreases a.len(),
{
    if a.len() == 0 || b.len() == 0 {
        false
    } else if a[0] < b[0] {
        true
    } else if a[0] == b[0] {
        seq_lt(a.drop_first(), b.drop_first())
    } else {
        false
    }
}

/// Byte-lexicographic order on 32-byte keys (addresses and storage keys).
pub open spec fn key_lt(a: [u8; 32], b: [u8; 32]) -> bool {
    seq_lt(a@, b@)
}

pub proof fn lemma_seq_lt_irreflexive(a: Seq<u8>)
    ensures
        !seq_lt(a, a),
    decreases a.len(),
{
    if a.len() > 0 {
        lemma_seq_lt_irreflexive(a.drop_first());
    }
}

pub proof fn lemma_seq_lt_transitive(a: Seq<u8>, b: Seq<u8>, c: Seq<u8>)
    requires
        seq_lt(a, b),
        seq_lt(b, c),
    ensures
        seq_lt(a, c),
    decreases a.len(),
{
    if a[0] == b[0] && b[0] == c[0] {
        lemma_seq_lt_transitive(a.drop_first(), b.drop_first(), c.drop_first());
    }
}

/// Of two distinct sequences of one length, one is below the other.
pub proof fn lemma_seq_lt_total(a: Seq<u8>, b: Seq<u8>)
    requires
        a.len() == b.len(),
        a != b,
    ensures
        seq_lt(a, b) || seq_lt(b, a),
    decreases a.len(),
{
    if a.len() == 0 {
        assert(a =~= b);
    } else if a[0] == b[0] {
        if a.drop_first() == b.drop_first() {
            assert(a =~= seq![a[0]] + a.drop_first());
            assert(b =~= seq![b[0]] + b.drop_first());
        }
        lemma_seq_lt_total(a.drop_first(), b.drop_first());
    }
}

proof fn lemma_seq_lt_step(a: Seq<u8>, b: Seq<u8>, i: int)
    requires
        a.len() == b.len(),
        0 <= i < a.len(),
    ensures
        seq_lt(a.subrange(i, a.len() as int), b.subrange(i, b.len() as int)) == (
        a[i] < b[i] || (a[i] == b[i] && seq_lt(
            a.subrange(i + 1, a.len() as int),
            b.subrange(i + 1, b.len() as int),
        ))),
{
    assert(a.subrange(i, a.len() as int).drop_first() =~= a.subrange(i + 1, a.len() as int));
    assert(b.subrange(i, b.len() as int).drop_first() =~= b.subrange(i + 1, b.len() as int));
}

/// Compares two keys in byte-lexicographic order.
pub fn key_less(a: &[u8; 32], b: &[u8; 32]) -> (r: bool)
    ensures
        r == key_lt(*a, *b),
{
    let mut i: usize = 32;
    let mut r: bool = false;
    while i > 0
        invariant
            i <= 32,
            r == seq_lt(a@.subrange(i as int, 32), b@.subrange(i as int, 32)),
        decreases i,
    {
        i = i - 1;
        proof {
            lemma_seq_lt_step(a@, b@, i as int);
        }
        r = a[i] < b[i] || (a[i] == b[i] && r);
    }
    assert(a@.subrange(0, 32) =~= a@);
    assert(b@.subrange(0, 32) =~= b@);
    r
}

/// Tells whether two keys are equal.
pub fn key_equal(a: &[u8; 32], b: &[u8; 32]) -> (r: bool)
    ensures
        r == (*a == *b),
{
    let mut i: usize = 0;
    while i < 32
        invariant
            i <= 32,
            forall|j: int| 0 <= j < i ==> a@[j] == b@[j],
        decreases 32 - i,
    {
        if a[i] != b[i] {
            return false;
        }
        i = i + 1;
    }
    assert(*a =~= *b);
    true
}

} // verus!
