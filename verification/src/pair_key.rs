//! A pair of 32 bit numbers as one 64 bit key.

use vstd::prelude::*;

verus! {

/// Whether a number can be half of a key.
pub open spec fn half_key(n: int) -> bool {
    i32::MIN <= n <= i32::MAX
}

/// Two numbers as one key.
pub open spec fn key_of(x: int, y: int) -> u64 {
    ((x + 0x8000_0000) * 0x1_0000_0000 + (y + 0x8000_0000)) as u64
}

/// Two numbers as one key.
pub fn pair_key(x: i32, y: i32) -> (r: u64)
    ensures
        r == key_of(x as int, y as int),
{
    let hi: u64 = (x as i64 + 0x8000_0000) as u64;
    let lo: u64 = (y as i64 + 0x8000_0000) as u64;
    hi * 0x1_0000_0000 + lo
}

/// No two pairs have the same key.
pub proof fn lemma_keys_differ(x: int, y: int)
    requires
        half_key(x),
        half_key(y),
    ensures
        forall|a: int, b: int|
            half_key(a) && half_key(b) && #[trigger] key_of(a, b) == key_of(x, y) ==> a == x && b
                == y,
{
}

} // verus!
