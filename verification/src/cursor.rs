//! The position of a decode in its input. It only moves forward.

use crate::bounds::{check_available, lemma_pow256_values, short_input, SizeType};
use crate::errors::ByteVecError;
use crate::format::parse_count;
use crate::le::{get_uint, lemma_le_value_bound};
use crate::primitive::{PrimKind, Primitive};
use vstd::prelude::*;
use vstd::slice::slice_subrange;

verus! {

/// An input and the number of its bytes that were read.
pub struct DecodeCursor<'a> {
    bytes: &'a [u8],
    pos: usize,
}

impl<'a> DecodeCursor<'a> {
    /// The whole input.
    pub closed spec fn input(&self) -> Seq<u8> {
        self.bytes@
    }

    /// The number of bytes read so far.
    pub closed spec fn position(&self) -> nat {
        self.pos as nat
    }

    /// The position lies within the input.
    pub open spec fn wf(&self) -> bool {
        self.position() <= self.input().len()
    }

    /// The bytes not yet read.
    pub open spec fn rest(&self) -> Seq<u8> {
        self.input().skip(self.position() as int)
    }

    /// Whether `self` reads the same input as `before` and stands `n`
    /// bytes further on.
    pub open spec fn advanced(&self, before: &DecodeCursor, n: nat) -> bool {
        &&& self.wf()
        &&& self.input() == before.input()
        &&& self.position() == before.position() + n
    }

    /// A cursor at the start of `bytes`.
    pub fn new(bytes: &'a [u8]) -> (cursor: DecodeCursor<'a>)
        ensures
            cursor.wf(),
            cursor.input() == bytes@,
            cursor.position() == 0,
            cursor.rest() == bytes@,
    {
        assert(bytes@.skip(0) =~= bytes@);
        DecodeCursor { bytes, pos: 0 }
    }

    /// The number of bytes not yet read.
    pub fn remaining(&self) -> (n: usize)
        requires
            self.wf(),
        ensures
            n == self.rest().len(),
            self.input().len() <= usize::MAX,
    {
        self.bytes.len() - self.pos
    }

    /// Reads the next `n` bytes, or fails, reading nothing, where fewer
    /// remain.
    pub fn take(&mut self, n: usize) -> (r: Result<&'a [u8], ByteVecError>)
        requires
            old(self).wf(),
        ensures
            n <= old(self).rest().len() ==> r is Ok && r->Ok_0@ == old(self).rest().take(n as int)
                && final(self).advanced(old(self), n as nat),
            n > old(self).rest().len() ==> r is Err && r->Err_0 == short_input(
                old(self).rest().len() as int,
                n as int,
            ) && final(self).advanced(old(self), 0),
    {
        match check_available(self.remaining(), n) {
            Err(e) => Err(e),
            Ok(_) => {
                let taken = slice_subrange(self.bytes, self.pos, self.pos + n);
                assert(taken@ =~= self.rest().take(n as int));
                self.pos = self.pos + n;
                Ok(taken)
            },
        }
    }

    /// Reads a length prefix of width `size`.
    pub fn take_count(&mut self, size: SizeType) -> (r: Result<u64, ByteVecError>)
        requires
            old(self).wf(),
        ensures
            match parse_count(old(self).rest(), size) {
                Ok(count) => r is Ok && r->Ok_0 == count && final(self).advanced(
                    old(self),
                    size.width(),
                ),
                Err(e) => r is Err && r->Err_0 == e && final(self).advanced(old(self), 0),
            },
    {
        let width: usize = size.byte_width();
        match check_available(self.remaining(), width) {
            Err(e) => Err(e),
            Ok(_) => {
                let count: u64 = get_uint(self.bytes, self.pos, width);
                assert(self.bytes@.subrange(self.pos as int, self.pos + width)
                    =~= self.rest().take(width as int));
                self.pos = self.pos + width;
                Ok(count)
            },
        }
    }

    /// Reads a value of fixed width.
    pub fn take_primitive(&mut self, kind: PrimKind) -> (r: Result<Primitive, ByteVecError>)
        requires
            old(self).wf(),
        ensures
            old(self).rest().len() < kind.width() ==> r is Err && r->Err_0 == short_input(
                old(self).rest().len() as int,
                kind.width() as int,
            ) && final(self).advanced(old(self), 0),
            old(self).rest().len() >= kind.width() ==> r == kind.parse(
                old(self).rest().take(kind.width() as int),
            ) && final(self).advanced(old(self), kind.width()),
    {
        let width: usize = kind.byte_width();
        match check_available(self.remaining(), width) {
            Err(e) => Err(e),
            Ok(_) => {
                assert(self.bytes@.subrange(self.pos as int, self.pos + width)
                    =~= self.rest().take(width as int));
                let r = kind.get(self.bytes, self.pos);
                self.pos = self.pos + width;
                r
            },
        }
    }

    /// Reads one byte.
    pub fn take_byte(&mut self) -> (r: Result<u8, ByteVecError>)
        requires
            old(self).wf(),
        ensures
            old(self).rest().len() < 1 ==> r is Err && r->Err_0 == short_input(0, 1)
                && final(self).advanced(old(self), 0),
            old(self).rest().len() >= 1 ==> r is Ok && r->Ok_0 == old(self).rest()[0]
                && final(self).advanced(old(self), 1),
    {
        match check_available(self.remaining(), 1) {
            Err(e) => Err(e),
            Ok(_) => {
                let b: u8 = self.bytes[self.pos];
                self.pos = self.pos + 1;
                Ok(b)
            },
        }
    }

    /// Where a cursor stands after two steps forward.
    pub proof fn lemma_rest_after(&self, before: &DecodeCursor, n: nat)
        requires
            self.advanced(before, n),
        ensures
            self.rest() == before.rest().skip(n as int),
            n <= before.rest().len(),
    {
        assert(self.rest() =~= before.rest().skip(n as int));
    }
}

} // verus!
