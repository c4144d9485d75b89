//! Unsigned integers as little-endian bytes of a fixed width.

use crate::bounds::{lemma_pow256_monotonic, lemma_pow256_values, pow256};
use vstd::prelude::*;

verus! {

/// The `width` low-order base-256 digits of `x`, lowest first.
pub open spec fn le_bytes(x: nat, width: nat) -> Seq<u8>
    decreases width,
{
    if width == 0 {
        Seq::empty()
    } else {
        seq![(x % 256) as u8] + le_bytes(x / 256, (width - 1) as nat)
    }
}

/// The number whose base-256 digits, lowest first, are `bytes`.
pub open spec fn le_value(bytes: Seq<u8>) -> nat
    decreases bytes.len(),
{
    if bytes.len() == 0 {
        0
    } else {
        bytes[0] as nat + 256 * le_value(bytes.drop_first())
    }
}

/// A number written in `width` bytes takes `width` bytes.
pub proof fn lemma_le_bytes_len(x: nat, width: nat)
    ensures
        le_bytes(x, width).len() == width,
    decreases width,
{
    if width > 0 {
        lemma_le_bytes_len(x / 256, (width - 1) as nat);
    }
}

/// What is read from `n` bytes is below 256 to the power `n`.
pub proof fn lemma_le_value_bound(bytes: Seq<u8>)
    ensures
        le_value(bytes) < pow256(bytes.len()),
    decreases bytes.len(),
{
    if bytes.len() > 0 {
        lemma_le_value_bound(bytes.drop_first());
    }
}

/// Reading back what was written gives the number, if the width holds it.
pub proof fn lemma_le_value_of_bytes(x: nat, width: nat)
    requires
        x < pow256(width),
    ensures
        le_value(le_bytes(x, width)) == x,
    decreases width,
{
    if width > 0 {
        let rest = le_bytes(x / 256, (width - 1) as nat);
        let all = le_bytes(x, width);
        lemma_le_value_of_bytes(x / 256, (width - 1) as nat);
        lemma_le_bytes_len(x / 256, (width - 1) as nat);
        assert(all.drop_first() =~= rest);
        assert(all[0] == (x % 256) as u8);
    }
}

/// Appends `x` to `out` as `width` little-endian bytes.
pub(crate) fn put_uint(out: &mut Vec<u8>, x: u64, width: usize)
    requires
        width <= 8,
    ensures
        final(out)@ == old(out)@ + le_bytes(x as nat, width as nat),
{
    let mut rest: u64 = x;
    let mut i: usize = 0;
    while i < width
        invariant
            i <= width,
            old(out)@ + le_bytes(x as nat, width as nat) == out@ + le_bytes(
                rest as nat,
                (width - i) as nat,
            ),
        decreases width - i,
    {
        let ghost before = out@;
        out.push((rest % 256) as u8);
        proof {
            let tail = le_bytes((rest / 256) as nat, (width - i - 1) as nat);
            assert(le_bytes(rest as nat, (width - i) as nat) == seq![(rest % 256) as u8] + tail);
            assert(before + (seq![(rest % 256) as u8] + tail) =~= out@ + tail);
        }
        rest = rest / 256;
        i += 1;
    }
    assert(le_bytes(rest as nat, 0) =~= Seq::<u8>::empty());
}

/// Reads the `width` little-endian bytes of `bytes` that begin at `start`.
pub(crate) fn get_uint(bytes: &[u8], start: usize, width: usize) -> (x: u64)
    requires
        width <= 8,
        start + width <= bytes@.len(),
    ensures
        x == le_value(bytes@.subrange(start as int, start + width)),
{
    let len: usize = bytes.len();
    let mut acc: u64 = 0;
    let mut i: usize = width;
    assert(bytes@.subrange(start + width, start + width) =~= Seq::<u8>::empty());
    while i > 0
        invariant
            i <= width <= 8,
            start + width <= len == bytes@.len(),
            acc == le_value(bytes@.subrange(start + i, start + width)),
        decreases i,
    {
        i -= 1;
        let b: u8 = bytes[start + i];
        proof {
            let here = bytes@.subrange(start + i, start + width);
            let after = bytes@.subrange(start + i + 1, start + width);
            assert(here.drop_first() =~= after);
            assert(here[0] == b);
            lemma_le_value_bound(after);
            lemma_le_value_bound(here);
            lemma_pow256_monotonic(here.len(), 8);
            lemma_pow256_values();
        }
        acc = acc * 256 + b as u64;
    }
    acc
}

} // verus!
