use vstd::prelude::*;

verus! {

/// What fides' hash function gives for a byte string.
pub uninterp spec fn blake3_of(b: Seq<u8>) -> [u8; 32];

/// What fides' Merkle root gives for a list of 32-byte hashes.
pub uninterp spec fn root_of_hashes(hashes: Seq<[u8; 32]>) -> [u8; 32];

/// The Merkle root over byte-string leaves: each leaf is hashed, then the list of
/// hashes is reduced to its root.
pub open spec fn merkle_root_of(leaves: Seq<Seq<u8>>) -> [u8; 32] {
    root_of_hashes(leaves.map_values(|b: Seq<u8>| blake3_of(b)))
}

/// Relies on fides::hash: the BLAKE3 digest of `b`, a function of `b` alone.
#[verifier::external_body]
fn leaf_hash(b: &Vec<u8>) -> (r: [u8; 32])
    ensures
        r == blake3_of(b@),
{
    fides::hash(b)
}

/// Relies on fides::merkle_root: the root of the hashes, a function of them alone.
#[verifier::external_body]
fn root_of(hashes: Vec<[u8; 32]>) -> (r: [u8; 32])
    ensures
        r == root_of_hashes(hashes@),
{
    fides::merkle_root(hashes)
}

/// The views of a list of byte strings.
pub open spec fn views(v: Seq<Vec<u8>>) -> Seq<Seq<u8>> {
    v.map_values(|b: Vec<u8>| b@)
}

/// The Merkle root of `leaves`, in order.
pub fn merkle_root(leaves: &Vec<Vec<u8>>) -> (r: [u8; 32])
    ensures
        r == merkle_root_of(views(leaves@)),
{
    let mut hashes: Vec<[u8; 32]> = Vec::new();
    let mut i: usize = 0;
    while i < leaves.len()
        invariant
            i <= leaves@.len(),
            hashes@ == views(leaves@).subrange(0, i as int).map_values(|b: Seq<u8>| blake3_of(b)),
        decreases leaves@.len() - i,
    {
        let h = leaf_hash(&leaves[i]);
        let ghost prev = hashes@;
        hashes.push(h);
        proof {
            let v = views(leaves@);
            assert(v[i as int] == leaves@[i as int]@);
            assert(v.subrange(0, i + 1).map_values(|b: Seq<u8>| blake3_of(b)) =~= v.subrange(0, i as int).map_values(|b: Seq<u8>| blake3_of(b)).push(blake3_of(v[i as int])));
        }
        i = i + 1;
    }
    assert(views(leaves@).subrange(0, i as int) =~= views(leaves@));
    root_of(hashes)
}

/// The bytes of a 32-byte array.
pub fn array_bytes(a: &[u8; 32]) -> (r: Vec<u8>)
    ensures
        r@ == a@,
{
    let mut r: Vec<u8> = Vec::new();
    let mut i: usize = 0;
    while i < 32
        invariant
            i <= 32,
            r@ == a@.subrange(0, i as int),
        decreases 32 - i,
    {
        r.push(a[i]);
        i = i + 1;
        assert(r@ =~= a@.subrange(0, i as int));
    }
    assert(r@ =~= a@);
    r
}

/// The root of a two-leaf tree.
pub fn merkle_pair(a: Vec<u8>, b: Vec<u8>) -> (r: [u8; 32])
    ensures
        r == merkle_root_of(seq![a@, b@]),
{
    let v = vec![a, b];
    let r = merkle_root(&v);
    assert(views(v@) =~= seq![v@[0]@, v@[1]@]);
    r
}

} // verus!
