//! The byte sequence that an encode builds. It only grows.

use crate::bounds::{check_count, lemma_pow256_values, SizeType};
use crate::errors::ByteVecError;
use crate::le::{le_bytes, put_uint};
use crate::primitive::Primitive;
use vstd::prelude::*;

verus! {

/// The bytes written so far.
pub struct EncodedBuffer {
    bytes: Vec<u8>,
}

impl View for EncodedBuffer {
    type V = Seq<u8>;

    closed spec fn view(&self) -> Seq<u8> {
        self.bytes@
    }
}

impl EncodedBuffer {
    /// A buffer with nothing written.
    pub fn new() -> (buffer: EncodedBuffer)
        ensures
            buffer@ == Seq::<u8>::empty(),
    {
        EncodedBuffer { bytes: Vec::new() }
    }

    /// The number of bytes written.
    pub fn len(&self) -> (n: usize)
        ensures
            n == self@.len(),
    {
        self.bytes.len()
    }

    /// Appends the bytes of a value of fixed width.
    pub fn put_primitive(&mut self, p: Primitive)
        ensures
            final(self)@ == old(self)@ + p.wire(),
    {
        p.put(&mut self.bytes);
    }

    /// Appends the byte that says whether an optional value is present.
    pub fn put_flag(&mut self, present: bool)
        ensures
            final(self)@ == old(self)@ + seq![if present { 1u8 } else { 0u8 }],
    {
        let ghost before = self.bytes@;
        self.bytes.push(if present { 1 } else { 0 });
        assert(self.bytes@ =~= before + seq![if present { 1u8 } else { 0u8 }]);
    }

    /// Appends `count` as a length prefix, or fails, writing nothing, where
    /// a prefix of width `size` cannot express it.
    pub fn put_count(&mut self, count: usize, size: SizeType) -> (r: Result<(), ByteVecError>)
        ensures
            count <= size.max_count() ==> r is Ok && final(self)@ == old(self)@ + le_bytes(
                count as nat,
                size.width(),
            ),
            count > size.max_count() ==> r is Err && r->Err_0 == ByteVecError::OverflowError
                && final(self)@ == old(self)@,
    {
        proof {
            lemma_pow256_values();
        }
        match check_count(count, size.count_limit()) {
            Err(e) => Err(e),
            Ok(_) => {
                put_uint(&mut self.bytes, count as u64, size.byte_width());
                Ok(())
            },
        }
    }

    /// Appends `bytes`.
    pub fn put_bytes(&mut self, bytes: &[u8])
        ensures
            final(self)@ == old(self)@ + bytes@,
    {
        let n: usize = bytes.len();
        let mut i: usize = 0;
        while i < n
            invariant
                i <= n == bytes@.len(),
                self.bytes@ == old(self).bytes@ + bytes@.take(i as int),
            decreases n - i,
        {
            self.bytes.push(bytes[i]);
            assert(bytes@.take(i + 1) =~= bytes@.take(i as int).push(bytes@[i as int]));
            i += 1;
        }
        assert(bytes@.take(n as int) =~= bytes@);
    }

    /// The bytes written.
    pub fn into_bytes(self) -> (bytes: Vec<u8>)
        ensures
            bytes@ == self@,
    {
        self.bytes
    }
}

} // verus!
