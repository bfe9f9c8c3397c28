//! The 32-bit hash that read identifiers are bucketed by.

use vstd::prelude::*;

verus! {

/// The longest byte string that can be hashed: the hash takes the length as a
/// signed 32-bit number.
pub const MAX_HASHED_LEN: usize = 0x7fff_ffff;

/// What `fasthash::murmur3::hash32` returns for a byte string: MurmurHash3 in
/// its 32-bit x86 variant with seed 0. The outside function reads the bytes
/// four at a time in the byte order of the machine; the name stands for its
/// result on a little-endian machine, where the value depends on the bytes
/// alone.
pub uninterp spec fn murmur3_hash32(bytes: Seq<u8>) -> u32;

/// Calls `fasthash::murmur3::hash32`. Not verified: the contract only names
/// the result, so that two calls on equal bytes are known to agree. Strings
/// beyond `MAX_HASHED_LEN` are left out because the outside function casts the
/// length to `i32` before it hands the bytes to its C++ core.
#[verifier::external_body]
pub(crate) fn hash32(bytes: &[u8]) -> (hash: u32)
    requires
        bytes@.len() <= MAX_HASHED_LEN,
    ensures
        hash == murmur3_hash32(bytes@),
{
    fasthash::murmur3::hash32(bytes)
}

} // verus!
