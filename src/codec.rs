use vstd::prelude::*;
use crate::amount::pow256;
use crate::merkle::views;

verus! {

/// The `k` low bytes of `n`, least significant first.
pub open spec fn le_bytes(n: nat, k: nat) -> Seq<u8>
    decreases k,
{
    if k == 0 {
        Seq::empty()
    } else {
        seq![(n % 256) as u8] + le_bytes(n / 256, (k - 1) as nat)
    }
}

/// The number that a little-endian byte string stands for.
pub open spec fn le_value(s: Seq<u8>) -> nat
    decreases s.len(),
{
    if s.len() == 0 {
        0
    } else {
        s[0] as nat + 256 * le_value(s.drop_first())
    }
}

/// How many length bytes follow a tag byte; -1 for a tag that is not one.
pub open spec fn tag_width(t: u8) -> int {
    if t == 0 {
        0
    } else if t == 1 {
        1
    } else if t == 2 {
        2
    } else if t == 4 {
        4
    } else if t == 8 {
        8
    } else {
        -1
    }
}

/// The header that frames an item of `n` bytes: a tag, then the length in as
/// few of 1, 2, 4 or 8 little-endian bytes as it fits (none for an empty item).
pub open spec fn header(n: nat) -> Seq<u8> {
    if n > 0xFFFF_FFFF {
        seq![8u8] + le_bytes(n, 8)
    } else if n > 0xFFFF {
        seq![4u8] + le_bytes(n, 4)
    } else if n > 0xFF {
        seq![2u8] + le_bytes(n, 2)
    } else if n > 0 {
        seq![1u8] + le_bytes(n, 1)
    } else {
        seq![0u8]
    }
}

/// A list of byte strings, each framed by its header, in order.
pub open spec fn enc_list(items: Seq<Seq<u8>>) -> Seq<u8>
    decreases items.len(),
{
    if items.len() == 0 {
        Seq::empty()
    } else {
        header(items[0].len()) + items[0] + enc_list(items.drop_first())
    }
}

/// The items that a framed byte string holds; `None` where it is not well framed
/// (an unknown tag, a cut header, an item that runs past the end).
pub open spec fn parse(b: Seq<u8>) -> Option<Seq<Seq<u8>>>
    decreases b.len(),
{
    if b.len() == 0 {
        Some(Seq::empty())
    } else {
        let w = tag_width(b[0]);
        if w < 0 || b.len() < 1 + w {
            None
        } else {
            let e = 1 + w + le_value(b.subrange(1, 1 + w));
            if e > b.len() {
                None
            } else {
                match parse(b.subrange(e, b.len() as int)) {
                    Some(rest) => Some(seq![b.subrange(1 + w, e)] + rest),
                    None => None,
                }
            }
        }
    }
}

/// Relies on astro_format::encode: each item framed by its length header, in order.
#[verifier::external_body]
fn encode_list(items: &Vec<Vec<u8>>) -> (r: Vec<u8>)
    ensures
        r@ == enc_list(views(items@)),
{
    match astro_format::encode(items.iter()) {
        Ok(v) => v,
        Err(_) => Vec::new(),
    }
}

/// Relies on astro_format::decode: on well-framed bytes, the items in order.
#[verifier::external_body]
fn decode_list(b: &Vec<u8>) -> (r: Vec<Vec<u8>>)
    requires
        parse(b@) is Some,
    ensures
        views(r@) == parse(b@)->0,
{
    match astro_format::decode::<Vec<u8>>(b) {
        Ok(v) => v,
        Err(_) => Vec::new(),
    }
}

/// Frames a list of byte strings.
pub fn encode(items: &Vec<Vec<u8>>) -> (r: Vec<u8>)
    ensures
        r@ == enc_list(views(items@)),
{
    encode_list(items)
}

/// Splits a framed byte string into its items; `None` where it is not well framed.
pub fn decode(b: &Vec<u8>) -> (r: Option<Vec<Vec<u8>>>)
    ensures
        r matches Some(v) ==> parse(b@) == Some(views(v@)),
        r is None ==> parse(b@) is None,
{
    if is_framed(b) {
        Some(decode_list(b))
    } else {
        None
    }
}

fn le_read(b: &Vec<u8>, start: usize, w: usize) -> (r: u128)
    requires
        start + w <= b@.len(),
        w <= 8,
    ensures
        r == le_value(b@.subrange(start as int, start + w)),
        r < pow256(w as nat),
{
    let mut acc: u128 = 0;
    let mut j: usize = w;
    let blen = b.len();
    assert(b@.subrange(start + w, start + w) =~= Seq::<u8>::empty());
    while j > 0
        invariant
            j <= w <= 8,
            start + w <= blen,
            blen == b@.len(),
            acc == le_value(b@.subrange(start + j, start + w)),
            acc < pow256((w - j) as nat),
        decreases j,
    {
        let ghost d = (w - j) as nat;
        proof {
            assert(b@.subrange(start + j - 1, start + w).drop_first() =~= b@.subrange(start + j, start + w));
            assert(pow256(d + 1) == 256 * pow256(d));
            lemma_pow256_le_64(d);
            assert(acc * 256 + b@[start + j - 1] < pow256(d + 1)) by (nonlinear_arith)
                requires
                    acc < pow256(d),
                    b@[start + j - 1] < 256,
                    pow256(d + 1) == 256 * pow256(d);
        }
        let k: usize = start + (j - 1);
        acc = b[k] as u128 + 256 * acc;
        j = j - 1;
    }
    acc
}

proof fn lemma_pow256_le_64(d: nat)
    requires
        d < 8,
    ensures
        pow256(d + 1) <= 0x1_0000_0000_0000_0000,
{
    reveal_with_fuel(pow256, 9);
}

fn is_framed(b: &Vec<u8>) -> (r: bool)
    ensures
        r == parse(b@) is Some,
{
    let len = b.len();
    let mut pos: usize = 0;
    assert(b@.subrange(0, len as int) =~= b@);
    while pos < len
        invariant
            len == b@.len(),
            pos <= len,
            (parse(b@) is Some) == (parse(b@.subrange(pos as int, len as int)) is Some),
        decreases len - pos,
    {
        let ghost s = b@.subrange(pos as int, len as int);
        let tag = b[pos];
        let w: usize = if tag == 0 {
            0
        } else if tag == 1 {
            1
        } else if tag == 2 {
            2
        } else if tag == 4 {
            4
        } else if tag == 8 {
            8
        } else {
            return false;
        };
        assert(s[0] == tag);
        if len - pos < 1 + w {
            return false;
        }
        let n = le_read(b, pos + 1, w);
        assert(s.subrange(1, 1 + w as int) =~= b@.subrange(pos + 1, pos + 1 + w));
        if n > (len - pos - 1 - w) as u128 {
            return false;
        }
        let next = pos + 1 + w + n as usize;
        assert(s.subrange(1 + w + n, s.len() as int) =~= b@.subrange(next as int, len as int));
        pos = next;
    }
    assert(b@.subrange(pos as int, len as int) =~= Seq::<u8>::empty());
    true
}

proof fn lemma_le_round_trip(n: nat, k: nat)
    ensures
        le_value(le_bytes(n, k)) == n % pow256(k),
        le_bytes(n, k).len() == k,
    decreases k,
{
    if k > 0 {
        lemma_le_round_trip(n / 256, (k - 1) as nat);
        let s = le_bytes(n, k);
        assert(s.drop_first() =~= le_bytes(n / 256, (k - 1) as nat));
        crate::amount::lemma_pow256_positive((k - 1) as nat);
        vstd::arithmetic::div_mod::lemma_breakdown(n as int, 256, pow256((k - 1) as nat) as int);
    }
}

proof fn lemma_pow256_widths()
    ensures
        pow256(0) == 1,
        pow256(1) == 0x100,
        pow256(2) == 0x1_0000,
        pow256(4) == 0x1_0000_0000,
        pow256(8) == 0x1_0000_0000_0000_0000,
{
    reveal_with_fuel(pow256, 9);
}

/// The header of an item: its tag's width and the length it records.
proof fn lemma_header(n: nat)
    requires
        n <= u64::MAX,
    ensures
        header(n).len() >= 1,
        tag_width(header(n)[0]) >= 0,
        header(n).len() == 1 + tag_width(header(n)[0]),
        le_value(header(n).subrange(1, header(n).len() as int)) == n,
{
    lemma_pow256_widths();
    let h = header(n);
    let w: nat = if n > 0xFFFF_FFFF { 8 } else if n > 0xFFFF { 4 } else if n > 0xFF { 2 } else if n > 0 { 1 } else { 0 };
    lemma_le_round_trip(n, w);
    assert(h.subrange(1, h.len() as int) =~= le_bytes(n, w));
    assert(n < pow256(w));
    vstd::arithmetic::div_mod::lemma_small_mod(n, pow256(w));
}

/// Splitting a framed list gives back its items.
pub proof fn lemma_parse_enc_list(items: Seq<Seq<u8>>)
    requires
        forall|i: int| 0 <= i < items.len() ==> items[i].len() <= u64::MAX,
    ensures
        parse(enc_list(items)) == Some(items),
    decreases items.len(),
{
    if items.len() > 0 {
        let it = items[0];
        let rest = items.drop_first();
        lemma_parse_enc_list(rest);
        lemma_header(it.len());
        let h = header(it.len());
        let b = enc_list(items);
        assert(b == h + it + enc_list(rest));
        let w = tag_width(h[0]);
        assert(b[0] == h[0]);
        assert(b.subrange(1, 1 + w) =~= h.subrange(1, h.len() as int));
        let e = 1 + w + it.len();
        assert(b.subrange(1 + w, e) =~= it);
        assert(b.subrange(e, b.len() as int) =~= enc_list(rest));
        assert(seq![it] + rest =~= items);
    } else {
        assert(enc_list(items) =~= Seq::<u8>::empty());
    }
}

} // verus!
