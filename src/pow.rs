//! Proof-of-work target test.
//!
//! Bits are counted from byte 0 upwards, and inside a byte from the least
//! significant bit upwards: the first `n` bits are the whole bytes
//! `0 .. n / 8` and the low `n % 8` bits of byte `n / 8`.
use vstd::prelude::*;

verus! {

/// The mask that keeps the low `k` bits of a byte (`k < 8`).
pub open spec fn low_mask(k: u16) -> u8 {
    (((1u16 << k) as int) - 1) as u8
}

/// The first `n` bits of `a` and `b`, counted as the module documentation says,
/// exist in both and are equal.
pub open spec fn first_bits_equal(a: Seq<u8>, b: Seq<u8>, n: nat) -> bool {
    let full = n / 8;
    let rem = n % 8;
    &&& full <= a.len()
    &&& full <= b.len()
    &&& a.subrange(0, full as int) == b.subrange(0, full as int)
    &&& rem > 0 ==> {
        &&& full < a.len()
        &&& full < b.len()
        &&& a[full as int] & low_mask(rem as u16) == b[full as int] & low_mask(rem as u16)
    }
}

/// A hash meets difficulty `d` when its first `d` bits are zero.
pub open spec fn meets_difficulty(hash: Seq<u8>, d: nat) -> bool {
    first_bits_equal(Seq::new(32, |i: int| 0u8), hash, d)
}

/// Compares the first `n` bits of two byte strings.
pub fn are_first_n_bits_equal(slice1: &[u8], slice2: &[u8], n: usize) -> (r: bool)
    ensures
        r == first_bits_equal(slice1@, slice2@, n as nat),
{
    let full_bytes = n / 8;
    let remaining_bits = n % 8;
    if slice1.len() < full_bytes || slice2.len() < full_bytes {
        return false;
    }
    let mut i: usize = 0;
    while i < full_bytes
        invariant
            full_bytes == n / 8,
            full_bytes <= slice1@.len(),
            full_bytes <= slice2@.len(),
            i <= full_bytes,
            forall|j: int| 0 <= j < i ==> slice1@[j] == slice2@[j],
        decreases full_bytes - i,
    {
        if slice1[i] != slice2[i] {
            assert(slice1@.subrange(0, full_bytes as int)[i as int] != slice2@.subrange(
                0,
                full_bytes as int,
            )[i as int]);
            return false;
        }
        i = i + 1;
    }
    assert(slice1@.subrange(0, full_bytes as int) =~= slice2@.subrange(0, full_bytes as int));
    if remaining_bits > 0 {
        if slice1.len() <= full_bytes || slice2.len() <= full_bytes {
            return false;
        }
        let k: u16 = remaining_bits as u16;
        assert(1u16 <= (1u16 << k) <= 128u16) by (bit_vector)
            requires
                k < 8u16,
        ;
        let mask: u8 = ((1u16 << k) - 1u16) as u8;
        return slice1[full_bytes] & mask == slice2[full_bytes] & mask;
    }
    true
}

} // verus!
