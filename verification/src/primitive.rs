//! Booleans, fixed-size integers and characters: values of a fixed width.

use crate::bounds::{lemma_pow256_values, pow256};
use crate::errors::{BVExpectedSize, ByteVecError};
use crate::le::{
    get_uint, le_bytes, le_value, lemma_le_bytes_len, lemma_le_value_bound,
    lemma_le_value_of_bytes, put_uint,
};
use vstd::prelude::*;

verus! {

/// `char::from_u32` gives the character with the given code, and `None`
/// exactly for a surrogate code and for a code above 0x10FFFF.
pub assume_specification[ char::from_u32 ](code: u32) -> (r: Option<char>)
    ensures
        match r {
            Some(c) => is_char_code(code as nat) && c == code as char,
            None => !is_char_code(code as nat),
        },
;

/// Whether `code` is the code of a character.
pub open spec fn is_char_code(code: nat) -> bool {
    code <= 0xD7FF || 0xE000 <= code <= 0x10FFFF
}

/// The two's complement of `x` in `width` bytes.
pub open spec fn twos(x: int, width: nat) -> nat {
    if x >= 0 {
        x as nat
    } else {
        (x + pow256(width)) as nat
    }
}

/// The signed number whose two's complement in `width` bytes is `u`.
pub open spec fn untwos(u: nat, width: nat) -> int {
    if 2 * u < pow256(width) {
        u as int
    } else {
        u - pow256(width)
    }
}

/// A value of fixed width.
#[derive(Debug, Clone, Copy, PartialEq, Eq, Structural)]
pub enum Primitive {
    Bool(bool),
    U8(u8),
    U16(u16),
    U32(u32),
    U64(u64),
    I8(i8),
    I16(i16),
    I32(i32),
    I64(i64),
    Char(char),
}

/// The type of a `Primitive`.
#[derive(Debug, Clone, Copy, PartialEq, Eq, Structural)]
pub enum PrimKind {
    Bool,
    U8,
    U16,
    U32,
    U64,
    I8,
    I16,
    I32,
    I64,
    Char,
}

/// The error for a byte other than 0 and 1 where a flag stands.
pub open spec fn bad_flag(byte: u8) -> ByteVecError {
    ByteVecError::BadSizeDecodeError {
        expected: BVExpectedSize::LessOrEqualThan(1),
        actual: byte as usize,
    }
}

/// The error for a number that is the code of no character.
pub open spec fn bad_char_code(code: nat) -> ByteVecError {
    if code <= 0xDFFF {
        ByteVecError::BadSizeDecodeError {
            expected: BVExpectedSize::MoreThan(0xDFFF),
            actual: code as usize,
        }
    } else {
        ByteVecError::BadSizeDecodeError {
            expected: BVExpectedSize::LessOrEqualThan(0x10FFFF),
            actual: code as usize,
        }
    }
}

impl PrimKind {
    /// The number of bytes of a value of this type.
    pub open spec fn width(self) -> nat {
        match self {
            PrimKind::Bool | PrimKind::U8 | PrimKind::I8 => 1,
            PrimKind::U16 | PrimKind::I16 => 2,
            PrimKind::U32 | PrimKind::I32 | PrimKind::Char => 4,
            PrimKind::U64 | PrimKind::I64 => 8,
        }
    }

    /// The value of this type that `bytes` hold, where `bytes` has the
    /// type's width.
    pub open spec fn parse(self, bytes: Seq<u8>) -> Result<Primitive, ByteVecError> {
        let n = le_value(bytes);
        match self {
            PrimKind::Bool => if n == 0 {
                Ok(Primitive::Bool(false))
            } else if n == 1 {
                Ok(Primitive::Bool(true))
            } else {
                Err(bad_flag(n as u8))
            },
            PrimKind::U8 => Ok(Primitive::U8(n as u8)),
            PrimKind::U16 => Ok(Primitive::U16(n as u16)),
            PrimKind::U32 => Ok(Primitive::U32(n as u32)),
            PrimKind::U64 => Ok(Primitive::U64(n as u64)),
            PrimKind::I8 => Ok(Primitive::I8(untwos(n, 1) as i8)),
            PrimKind::I16 => Ok(Primitive::I16(untwos(n, 2) as i16)),
            PrimKind::I32 => Ok(Primitive::I32(untwos(n, 4) as i32)),
            PrimKind::I64 => Ok(Primitive::I64(untwos(n, 8) as i64)),
            PrimKind::Char => if is_char_code(n) {
                Ok(Primitive::Char(n as char))
            } else {
                Err(bad_char_code(n))
            },
        }
    }

    /// The number of bytes of a value of this type.
    pub fn byte_width(self) -> (w: usize)
        ensures
            w == self.width(),
    {
        match self {
            PrimKind::Bool | PrimKind::U8 | PrimKind::I8 => 1,
            PrimKind::U16 | PrimKind::I16 => 2,
            PrimKind::U32 | PrimKind::I32 | PrimKind::Char => 4,
            PrimKind::U64 | PrimKind::I64 => 8,
        }
    }

    /// Reads a value of this type from the bytes of `bytes` that begin at
    /// `start`.
    pub(crate) fn get(self, bytes: &[u8], start: usize) -> (r: Result<Primitive, ByteVecError>)
        requires
            start + self.width() <= bytes@.len(),
        ensures
            r == self.parse(bytes@.subrange(start as int, start + self.width())),
    {
        let width: usize = self.byte_width();
        let n: u64 = get_uint(bytes, start, width);
        proof {
            lemma_le_value_bound(bytes@.subrange(start as int, start + width));
            lemma_pow256_values();
        }
        match self {
            PrimKind::Bool => if n == 0 {
                Ok(Primitive::Bool(false))
            } else if n == 1 {
                Ok(Primitive::Bool(true))
            } else {
                Err(
                    ByteVecError::BadSizeDecodeError {
                        expected: BVExpectedSize::LessOrEqualThan(1),
                        actual: n as u8 as usize,
                    },
                )
            },
            PrimKind::U8 => Ok(Primitive::U8(n as u8)),
            PrimKind::U16 => Ok(Primitive::U16(n as u16)),
            PrimKind::U32 => Ok(Primitive::U32(n as u32)),
            PrimKind::U64 => Ok(Primitive::U64(n)),
            PrimKind::I8 => Ok(Primitive::I8(from_twos(n, 1) as i8)),
            PrimKind::I16 => Ok(Primitive::I16(from_twos(n, 2) as i16)),
            PrimKind::I32 => Ok(Primitive::I32(from_twos(n, 4) as i32)),
            PrimKind::I64 => Ok(Primitive::I64(from_twos(n, 8))),
            PrimKind::Char => match char::from_u32(n as u32) {
                Some(c) => Ok(Primitive::Char(c)),
                None => if n <= 0xDFFF {
                    Err(
                        ByteVecError::BadSizeDecodeError {
                            expected: BVExpectedSize::MoreThan(0xDFFF),
                            actual: n as u32 as usize,
                        },
                    )
                } else {
                    Err(
                        ByteVecError::BadSizeDecodeError {
                            expected: BVExpectedSize::LessOrEqualThan(0x10FFFF),
                            actual: n as u32 as usize,
                        },
                    )
                },
            },
        }
    }
}

/// The two's complement of `x` in `width` bytes.
fn to_twos(x: i64, width: usize) -> (u: u64)
    requires
        width == 1 || width == 2 || width == 4 || width == 8,
        -(pow256(width as nat) as int) <= 2 * x < pow256(width as nat),
    ensures
        u == twos(x as int, width as nat),
        u < pow256(width as nat),
{
    proof {
        lemma_pow256_values();
    }
    if x >= 0 {
        x as u64
    } else if width == 1 {
        (x + 0x100) as u64
    } else if width == 2 {
        (x + 0x1_0000) as u64
    } else if width == 4 {
        (x + 0x1_0000_0000) as u64
    } else {
        u64::MAX - ((-(x + 1)) as u64)
    }
}

/// The signed number whose two's complement in `width` bytes is `u`.
fn from_twos(u: u64, width: usize) -> (x: i64)
    requires
        width == 1 || width == 2 || width == 4 || width == 8,
        u < pow256(width as nat),
    ensures
        x == untwos(u as nat, width as nat),
        -(pow256(width as nat) as int) <= 2 * x < pow256(width as nat),
{
    proof {
        lemma_pow256_values();
    }
    if width == 1 {
        if u < 0x80 {
            u as i64
        } else {
            u as i64 - 0x100
        }
    } else if width == 2 {
        if u < 0x8000 {
            u as i64
        } else {
            u as i64 - 0x1_0000
        }
    } else if width == 4 {
        if u < 0x8000_0000 {
            u as i64
        } else {
            u as i64 - 0x1_0000_0000
        }
    } else if u < 0x8000_0000_0000_0000 {
        u as i64
    } else {
        -((u64::MAX - u) as i64) - 1
    }
}

impl Primitive {
    /// The type of this value.
    pub open spec fn kind(self) -> PrimKind {
        match self {
            Primitive::Bool(_) => PrimKind::Bool,
            Primitive::U8(_) => PrimKind::U8,
            Primitive::U16(_) => PrimKind::U16,
            Primitive::U32(_) => PrimKind::U32,
            Primitive::U64(_) => PrimKind::U64,
            Primitive::I8(_) => PrimKind::I8,
            Primitive::I16(_) => PrimKind::I16,
            Primitive::I32(_) => PrimKind::I32,
            Primitive::I64(_) => PrimKind::I64,
            Primitive::Char(_) => PrimKind::Char,
        }
    }

    /// The number that stands for this value on the wire.
    pub open spec fn number(self) -> nat {
        match self {
            Primitive::Bool(b) => if b {
                1
            } else {
                0
            },
            Primitive::U8(x) => x as nat,
            Primitive::U16(x) => x as nat,
            Primitive::U32(x) => x as nat,
            Primitive::U64(x) => x as nat,
            Primitive::I8(x) => twos(x as int, 1),
            Primitive::I16(x) => twos(x as int, 2),
            Primitive::I32(x) => twos(x as int, 4),
            Primitive::I64(x) => twos(x as int, 8),
            Primitive::Char(c) => c as nat,
        }
    }

    /// The bytes of this value: its number, little-endian, in the width of
    /// its type.
    pub open spec fn wire(self) -> Seq<u8> {
        le_bytes(self.number(), self.kind().width())
    }

    /// The type of this value.
    pub fn kind_of(self) -> (k: PrimKind)
        ensures
            k == self.kind(),
    {
        match self {
            Primitive::Bool(_) => PrimKind::Bool,
            Primitive::U8(_) => PrimKind::U8,
            Primitive::U16(_) => PrimKind::U16,
            Primitive::U32(_) => PrimKind::U32,
            Primitive::U64(_) => PrimKind::U64,
            Primitive::I8(_) => PrimKind::I8,
            Primitive::I16(_) => PrimKind::I16,
            Primitive::I32(_) => PrimKind::I32,
            Primitive::I64(_) => PrimKind::I64,
            Primitive::Char(_) => PrimKind::Char,
        }
    }

    /// Appends the bytes of this value to `out`.
    pub fn put(self, out: &mut Vec<u8>)
        ensures
            final(out)@ == old(out)@ + self.wire(),
    {
        proof {
            lemma_pow256_values();
        }
        let n: u64 = match self {
            Primitive::Bool(b) => if b {
                1
            } else {
                0
            },
            Primitive::U8(x) => x as u64,
            Primitive::U16(x) => x as u64,
            Primitive::U32(x) => x as u64,
            Primitive::U64(x) => x,
            Primitive::I8(x) => to_twos(x as i64, 1),
            Primitive::I16(x) => to_twos(x as i64, 2),
            Primitive::I32(x) => to_twos(x as i64, 4),
            Primitive::I64(x) => to_twos(x, 8),
            Primitive::Char(c) => c as u32 as u64,
        };
        put_uint(out, n, self.kind_of().byte_width());
    }

    /// The number of a value fits the width of its type.
    pub proof fn lemma_number_bound(self)
        ensures
            self.number() < pow256(self.kind().width()),
    {
        lemma_pow256_values();
    }

    /// A value takes the width of its type and is read back from its own
    /// bytes.
    pub proof fn lemma_round_trip(self)
        ensures
            self.wire().len() == self.kind().width(),
            self.kind().parse(self.wire()) == Ok::<Primitive, ByteVecError>(self),
    {
        lemma_pow256_values();
        self.lemma_number_bound();
        lemma_le_bytes_len(self.number(), self.kind().width());
        lemma_le_value_of_bytes(self.number(), self.kind().width());
    }
}

} // verus!
