//! The hash by which bloom filters are asked for a key.

use vstd::prelude::*;

verus! {

/// The hash of a key.
pub uninterp spec fn farm_hash(key: Seq<u8>) -> u32;

/// The number that the four bytes from position `at` on give, least significant byte first.
pub open spec fn le_u32(bytes: Seq<u8>, at: int) -> int {
    bytes[at] + 0x100 * bytes[at + 1] + 0x1_0000 * bytes[at + 2] + 0x100_0000 * bytes[at + 3]
}

/// The sums that the hash of a key takes without wrapping fit in 32 bits. Only keys of 5 to 24
/// bytes lead to such sums.
pub open spec fn sums_fit(key: Seq<u8>) -> bool {
    let len = key.len() as int;
    if 5 <= len <= 12 {
        &&& le_u32(key, 0) + len <= u32::MAX
        &&& le_u32(key, len - 4) + 5 * len <= u32::MAX
        &&& le_u32(key, if len >= 8 {
            4
        } else {
            0
        }) + 9 <= u32::MAX
    } else if 13 <= len <= 24 {
        le_u32(key, len / 2) * 0xcc9e_2d51 % 0x1_0000_0000 + len <= u32::MAX
    } else {
        true
    }
}

/// `farmhash::hash32` depends on the bytes of the key alone. For keys of 5 to 24 bytes it adds
/// without wrapping, so that it may panic where a sum does not fit.
#[verifier::external_body]
pub(crate) fn hash32(key: &[u8]) -> (hash: u32)
    requires
        sums_fit(key@),
    ensures
        hash == farm_hash(key@),
{
    farmhash::hash32(key)
}

/// The number that the four bytes from position `at` on give, least significant byte first.
fn get_u32_le(bytes: &[u8], at: usize) -> (n: u64)
    requires
        at + 4 <= bytes@.len(),
    ensures
        n == le_u32(bytes@, at as int),
{
    assert(bytes.len() == bytes@.len());
    bytes[at] as u64 + 0x100 * bytes[at + 1] as u64 + 0x1_0000 * bytes[at + 2] as u64 + 0x100_0000
        * bytes[at + 3] as u64
}

/// Whether a key can be hashed.
pub fn can_hash(key: &[u8]) -> (can: bool)
    ensures
        can == sums_fit(key@),
{
    let len: usize = key.len();
    let max: u64 = u32::MAX as u64;
    if 5 <= len && len <= 12 {
        let middle: usize = if len >= 8 {
            4
        } else {
            0
        };
        get_u32_le(key, 0) + len as u64 <= max && get_u32_le(key, len - 4) + 5 * len as u64 <= max
            && get_u32_le(key, middle) + 9 <= max
    } else if 13 <= len && len <= 24 {
        let middle: u64 = get_u32_le(key, len / 2);
        let product: u64 = middle * 0xcc9e_2d51;
        product % 0x1_0000_0000 + len as u64 <= max
    } else {
        true
    }
}

/// Which keys can be hashed: all with fewer than 5 or more than 24 bytes; of those with 5 to 12
/// bytes the ones whose first, middle and last four bytes leave room for what is added to them;
/// and of the others the ones whose multiplied middle leaves room for the length.
pub proof fn lemma_can_hash(key: &[u8], can: bool)
    requires
        call_ensures(can_hash, (key,), can),
    ensures
        ({
            let n = key@.len() as int;
            let word = |at: int|
                key@[at] + key@[at + 1] * 0x100 + key@[at + 2] * 0x1_0000 + key@[at + 3]
                    * 0x100_0000;
            &&& n < 5 || n > 24 ==> can
            &&& 5 <= n < 8 ==> can == (word(0) + n < 0x1_0000_0000 && word(n - 4) + 5 * n
                < 0x1_0000_0000 && word(0) + 9 < 0x1_0000_0000)
            &&& 8 <= n <= 12 ==> can == (word(0) + n < 0x1_0000_0000 && word(n - 4) + 5 * n
                < 0x1_0000_0000 && word(4) + 9 < 0x1_0000_0000)
            &&& 12 < n <= 24 ==> can == (word(n / 2) * 0xcc9e_2d51 % 0x1_0000_0000 + n
                < 0x1_0000_0000)
        }),
{
}

} // verus!
