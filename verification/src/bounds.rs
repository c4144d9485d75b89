//! The width of length prefixes and the two bounds checks of the format.

use crate::errors::{BVExpectedSize, ByteVecError};
use vstd::prelude::*;

verus! {

/// 256 to the power `n`: the number of values that `n` bytes can hold.
pub open spec fn pow256(n: nat) -> nat
    decreases n,
{
    if n == 0 {
        1
    } else {
        256 * pow256((n - 1) as nat)
    }
}

/// The powers of 256 up to the eighth.
pub proof fn lemma_pow256_values()
    ensures
        pow256(0) == 1,
        pow256(1) == 0x100,
        pow256(2) == 0x1_0000,
        pow256(3) == 0x100_0000,
        pow256(4) == 0x1_0000_0000,
        pow256(5) == 0x100_0000_0000,
        pow256(6) == 0x1_0000_0000_0000,
        pow256(7) == 0x100_0000_0000_0000,
        pow256(8) == 0x1_0000_0000_0000_0000,
{
    reveal_with_fuel(pow256, 10);
}

/// No power of 256 is zero.
pub proof fn lemma_pow256_positive(n: nat)
    ensures
        pow256(n) >= 1,
    decreases n,
{
    if n > 0 {
        lemma_pow256_positive((n - 1) as nat);
    }
}

/// A higher power of 256 is not smaller.
pub proof fn lemma_pow256_monotonic(a: nat, b: nat)
    requires
        a <= b,
    ensures
        pow256(a) <= pow256(b),
    decreases b,
{
    if a < b {
        lemma_pow256_monotonic(a, (b - 1) as nat);
        lemma_pow256_positive((b - 1) as nat);
    }
}

/// A natural number as a `usize`, the largest `usize` standing for all
/// that do not fit.
pub open spec fn clamp(n: int) -> usize {
    if n < 0 {
        0
    } else if n > usize::MAX {
        usize::MAX
    } else {
        n as usize
    }
}

/// The width of every length prefix of one encode or decode call.
#[derive(Debug, Clone, Copy, PartialEq, Eq, Structural)]
pub enum SizeType {
    U8,
    U16,
    U32,
    U64,
}

impl SizeType {
    /// The number of bytes of a length prefix.
    pub open spec fn width(self) -> nat {
        match self {
            SizeType::U8 => 1,
            SizeType::U16 => 2,
            SizeType::U32 => 4,
            SizeType::U64 => 8,
        }
    }

    /// The largest count that a length prefix can express.
    pub open spec fn max_count(self) -> nat {
        (pow256(self.width()) - 1) as nat
    }

    /// The number of bytes of a length prefix.
    pub fn byte_width(self) -> (w: usize)
        ensures
            w == self.width(),
    {
        match self {
            SizeType::U8 => 1,
            SizeType::U16 => 2,
            SizeType::U32 => 4,
            SizeType::U64 => 8,
        }
    }

    /// The largest count that a length prefix can express, as far as a
    /// `usize` can hold it. No `usize` lies between the two.
    pub fn count_limit(self) -> (m: usize)
        ensures
            m == clamp(self.max_count() as int),
    {
        proof {
            lemma_pow256_values();
        }
        match self {
            SizeType::U8 => 0xff,
            SizeType::U16 => 0xffff,
            SizeType::U32 => 0xffff_ffff,
            SizeType::U64 => usize::MAX,
        }
    }
}

/// The error of a decode that needs `needed` bytes where `remaining` are left.
pub open spec fn short_input(remaining: int, needed: int) -> ByteVecError {
    ByteVecError::BadSizeDecodeError {
        expected: BVExpectedSize::MoreThan(clamp(needed - 1)),
        actual: clamp(remaining),
    }
}

/// Refuses a count that a length prefix cannot express.
pub fn check_count(n: usize, max_count: usize) -> (r: Result<(), ByteVecError>)
    ensures
        n <= max_count ==> r == Ok::<(), ByteVecError>(()),
        n > max_count ==> r == Err::<(), ByteVecError>(ByteVecError::OverflowError),
{
    if n > max_count {
        Err(ByteVecError::OverflowError)
    } else {
        Ok(())
    }
}

/// Refuses to read `needed` bytes where fewer remain.
pub fn check_available(remaining: usize, needed: usize) -> (r: Result<(), ByteVecError>)
    ensures
        remaining >= needed ==> r == Ok::<(), ByteVecError>(()),
        remaining < needed ==> r == Err::<(), ByteVecError>(
            short_input(remaining as int, needed as int),
        ),
{
    if remaining < needed {
        Err(
            ByteVecError::BadSizeDecodeError {
                expected: BVExpectedSize::MoreThan(needed - 1),
                actual: remaining,
            },
        )
    } else {
        Ok(())
    }
}

} // verus!
