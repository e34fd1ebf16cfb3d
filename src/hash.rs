//! 160-bit content digests.
use vstd::prelude::*;

verus! {

/// A 160-bit digest, held as its big-endian bytes 0..8, 8..16 and 16..20.
#[derive(Clone, Copy, Debug, PartialEq, Eq, Structural, Hash)]
pub struct Hash160 {
    pub hi: u64,
    pub mid: u64,
    pub lo: u32,
}

/// Number of bytes in a digest.
pub const HASH160_LEN: usize = 20;

/// The unsigned number that the bytes of `s` spell, most significant first.
pub open spec fn be_value(s: Seq<u8>) -> nat
    decreases s.len(),
{
    if s.len() == 0 {
        0
    } else {
        be_value(s.drop_last()) * 256 + s.last() as nat
    }
}

pub open spec fn pow256(n: nat) -> nat
    decreases n,
{
    if n == 0 {
        1
    } else {
        pow256((n - 1) as nat) * 256
    }
}

/// The digest whose 20 bytes are `b`.
pub open spec fn hash160_of_bytes(b: Seq<u8>) -> Hash160 {
    Hash160 {
        hi: be_value(b.subrange(0, 8)) as u64,
        mid: be_value(b.subrange(8, 16)) as u64,
        lo: be_value(b.subrange(16, 20)) as u32,
    }
}

proof fn lemma_pow256_monotone(i: nat, j: nat)
    requires
        i <= j,
    ensures
        pow256(i) <= pow256(j),
    decreases j,
{
    if i < j {
        lemma_pow256_monotone(i, (j - 1) as nat);
    }
}

proof fn lemma_be_value_bound(s: Seq<u8>)
    ensures
        be_value(s) < pow256(s.len()),
    decreases s.len(),
{
    if s.len() > 0 {
        lemma_be_value_bound(s.drop_last());
    }
}

/// Reads `n` bytes of `b` from `start` as a big-endian number.
fn read_be(b: &[u8], start: usize, n: usize) -> (r: u64)
    requires
        start + n <= b@.len(),
        n <= 8,
    ensures
        r == be_value(b@.subrange(start as int, start + n)),
{
    let len = b.len();
    let mut acc: u64 = 0;
    let mut i: usize = 0;
    proof {
        assert(b@.subrange(start as int, start as int) =~= Seq::<u8>::empty());
    }
    while i < n
        invariant
            i <= n,
            n <= 8,
            start + n <= b@.len(),
            len == b@.len(),
            acc == be_value(b@.subrange(start as int, start + i)),
            acc < pow256(i as nat),
        decreases n - i,
    {
        let byte = b[start + i];
        proof {
            let next = b@.subrange(start as int, start + i + 1);
            assert(next.drop_last() =~= b@.subrange(start as int, start + i));
            reveal_with_fuel(pow256, 9);
            lemma_pow256_monotone(i as nat, 7);
            assert(pow256(7) == 0x100_0000_0000_0000);
        }
        acc = acc * 256 + byte as u64;
        i = i + 1;
    }
    acc
}

impl Hash160 {
    /// The digest with every byte zero.
    pub fn empty() -> (r: Hash160)
        ensures
            r == (Hash160 { hi: 0, mid: 0, lo: 0 }),
    {
        Hash160 { hi: 0, mid: 0, lo: 0 }
    }

    /// The digest spelt by exactly 20 bytes; `None` for any other length.
    pub fn from_bytes(b: &[u8]) -> (r: Option<Hash160>)
        ensures
            b@.len() == HASH160_LEN <==> r.is_some(),
            r.is_some() ==> r.unwrap() == hash160_of_bytes(b@),
    {
        if b.len() != HASH160_LEN {
            return None;
        }
        let hi = read_be(b, 0, 8);
        let mid = read_be(b, 8, 8);
        let lo = read_be(b, 16, 4);
        proof {
            lemma_be_value_bound(b@.subrange(16, 20));
            reveal_with_fuel(pow256, 5);
        }
        Some(Hash160 { hi, mid, lo: lo as u32 })
    }
}

} // verus!
