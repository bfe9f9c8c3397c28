//! The bucket function: from a read identifier to a shard index.

use vstd::prelude::*;
use vstd::arithmetic::power2::is_pow2;
use vstd::utf8::encode_utf8;
use crate::murmur::{murmur3_hash32, MAX_HASHED_LEN};

verus! {

/// The bucket of a hash value among `bins` buckets.
pub open spec fn hash_bucket(hash: u32, bins: u32) -> int {
    hash as int % bins as int
}

/// Whether an identifier is short enough to be hashed.
pub open spec fn hashable(id: Seq<char>) -> bool {
    encode_utf8(id).len() <= MAX_HASHED_LEN
}

/// The bucket of a read identifier among `bins` buckets: the hash of its
/// UTF-8 bytes, reduced modulo `bins`.
pub open spec fn bucket(id: Seq<char>, bins: u32) -> int {
    hash_bucket(murmur3_hash32(encode_utf8(id)), bins)
}

/// The bucket of each of the identifiers `ids`.
pub open spec fn record_buckets(ids: Seq<Seq<char>>, bins: u32) -> Seq<usize> {
    Seq::new(ids.len(), |i: int| bucket(ids[i], bins) as usize)
}

/// A remark on the way a split was asked for. It does not stop the split.
#[derive(Debug, Clone, Copy, PartialEq, Eq, Structural)]
pub enum Advisory {
    /// The number of bins is no power of two.
    BinsNotPowerOfTwo { bins: u32 },
}

impl Advisory {
    /// The remark in words.
    pub open spec fn text(self) -> Seq<char> {
        "bins is not a power of 2.."@
    }

    /// Tells the remark in words.
    pub fn message(&self) -> (msg: String)
        ensures
            msg@ == self.text(),
    {
        String::from_str("bins is not a power of 2..")
    }
}

/// Tells whether `bins` is a power of two.
pub fn power_of_two(bins: u32) -> (yes: bool)
    ensures
        yes == is_pow2(bins as int),
{
    let mut n: u32 = bins;
    while n >= 2 && n % 2 == 0
        invariant
            is_pow2(n as int) == is_pow2(bins as int),
        decreases n,
    {
        proof {
            reveal(is_pow2);
        }
        n = n / 2;
    }
    proof {
        reveal(is_pow2);
    }
    n == 1
}

/// The remark that a split into `bins` bins earns, if any.
pub fn advise(bins: u32) -> (advisory: Option<Advisory>)
    ensures
        advisory == if is_pow2(bins as int) {
            None
        } else {
            Some(Advisory::BinsNotPowerOfTwo { bins })
        },
{
    if power_of_two(bins) {
        None
    } else {
        Some(Advisory::BinsNotPowerOfTwo { bins })
    }
}

/// Reduces a hash value to a bucket index.
pub fn bucket_of_hash(hash: u32, bins: u32) -> (b: usize)
    requires
        bins > 0,
    ensures
        b == hash_bucket(hash, bins),
        b < bins,
{
    (hash % bins) as usize
}

/// Tells whether `id` can be hashed, that is, whether its UTF-8 form has at
/// most `MAX_HASHED_LEN` bytes.
pub fn is_hashable(id: &str) -> (ok: bool)
    ensures
        ok == hashable(id@),
{
    id.as_bytes().len() <= MAX_HASHED_LEN
}

} // verus!
