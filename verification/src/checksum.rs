//! The integrity checksum over a record's encoded payload bytes.
//!
//! The stable contract the rest of the crate relies on: equal byte sequences
//! give equal checksums, and changing a single byte of a sequence (in
//! particular, flipping a single bit) changes the checksum, as long as the
//! sequence is short enough that the byte sum cannot wrap. Record payloads
//! are at most 519 bytes, far below that limit.

use vstd::arithmetic::div_mod::lemma_small_mod;
use vstd::prelude::*;

verus! {

/// The longest byte sequence the checksum is sensitive on; record payloads
/// are far shorter.
pub const CHECKSUM_MAX_LEN: usize = 0xFFFF;

/// Sum of the bytes of `s`, as an unbounded integer.
pub open spec fn sum_bytes(s: Seq<u8>) -> int
    decreases s.len(),
{
    if s.len() == 0 {
        0
    } else {
        sum_bytes(s.drop_last()) + s.last()
    }
}

/// The checksum over a byte sequence: the byte sum, reduced to 32 bits.
pub open spec fn spec_checksum(s: Seq<u8>) -> u32 {
    (sum_bytes(s) % 0x1_0000_0000) as u32
}

pub proof fn lemma_sum_bytes_bound(s: Seq<u8>)
    ensures
        0 <= sum_bytes(s) <= 255 * s.len(),
    decreases s.len(),
{
    if s.len() > 0 {
        lemma_sum_bytes_bound(s.drop_last());
    }
}

/// On sequences short enough to avoid wraparound the checksum is the
/// byte sum itself.
pub proof fn lemma_checksum_is_sum(s: Seq<u8>)
    requires
        s.len() <= CHECKSUM_MAX_LEN,
    ensures
        spec_checksum(s) == sum_bytes(s),
{
    lemma_sum_bytes_bound(s);
    lemma_small_mod(sum_bytes(s) as nat, 0x1_0000_0000nat);
}

/// Replacing the byte at `i` shifts the byte sum by exactly the difference
/// of the bytes.
pub proof fn lemma_sum_bytes_update(s: Seq<u8>, i: int, b: u8)
    requires
        0 <= i < s.len(),
    ensures
        sum_bytes(s.update(i, b)) == sum_bytes(s) - s[i] + b,
    decreases s.len(),
{
    if i == s.len() - 1 {
        assert(s.update(i, b).drop_last() =~= s.drop_last());
    } else {
        assert(s.update(i, b).drop_last() =~= s.drop_last().update(i, b));
        lemma_sum_bytes_update(s.drop_last(), i, b);
    }
}

/// Checksum sensitivity: changing one byte of a short sequence always
/// changes the checksum.
pub proof fn lemma_checksum_sensitive(s: Seq<u8>, i: int, b: u8)
    requires
        0 <= i < s.len() <= CHECKSUM_MAX_LEN,
        b != s[i],
    ensures
        spec_checksum(s.update(i, b)) != spec_checksum(s),
{
    lemma_sum_bytes_update(s, i, b);
    lemma_checksum_is_sum(s);
    lemma_checksum_is_sum(s.update(i, b));
}

/// Computes the checksum of a byte slice.
pub fn checksum_bytes(s: &[u8]) -> (r: u32)
    requires
        s@.len() <= CHECKSUM_MAX_LEN,
    ensures
        r == spec_checksum(s@),
        r == sum_bytes(s@),
{
    let mut acc: u32 = 0;
    let mut i: usize = 0;
    while i < s.len()
        invariant
            i <= s@.len() <= CHECKSUM_MAX_LEN,
            acc == sum_bytes(s@.take(i as int)),
        decreases s@.len() - i,
    {
        proof {
            lemma_sum_bytes_bound(s@.take(i as int));
            assert(s@.take(i + 1 as int).drop_last() =~= s@.take(i as int));
        }
        acc = acc + s[i] as u32;
        i = i + 1;
    }
    proof {
        assert(s@.take(s@.len() as int) =~= s@);
        lemma_checksum_is_sum(s@);
    }
    acc
}

} // verus!
