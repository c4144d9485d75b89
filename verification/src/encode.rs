//! Encoding: from a value to its bytes.

use crate::bounds::SizeType;
use crate::buffer::EncodedBuffer;
use crate::errors::ByteVecError;
use crate::format::{counted, wire, wire_all, wire_entries};
use crate::le::le_bytes;
use crate::value::{entry_models, field_value_models, value_models, Value, ValueModel};
use vstd::prelude::*;
use vstd::string::StringSliceAdditionalSpecFns;

verus! {

/// What an encode of a value with the encoding `expected` leaves behind:
/// success with the encoding appended to `before`, or an overflow with
/// nothing of `before` changed.
pub open spec fn encoded(
    expected: Option<Seq<u8>>,
    before: Seq<u8>,
    after: Seq<u8>,
    r: Result<(), ByteVecError>,
) -> bool {
    match expected {
        Some(bytes) => r is Ok && after == before + bytes,
        None => r is Err && r->Err_0 == ByteVecError::OverflowError && before.is_prefix_of(after),
    }
}

/// Appends the encoding of `value` to `out`. Fails at the first count
/// that a length prefix of width `size` cannot express.
pub fn encode_into(value: &Value, size: SizeType, out: &mut EncodedBuffer) -> (r: Result<
    (),
    ByteVecError,
>)
    ensures
        encoded(wire(value@, size), old(out)@, final(out)@, r),
    decreases value,
{
    match value {
        Value::Prim(p) => {
            out.put_primitive(*p);
            Ok(())
        },
        Value::Text(s) => {
            let bytes = s.as_str().as_bytes();
            match out.put_count(bytes.len(), size) {
                Err(e) => Err(e),
                Ok(_) => {
                    out.put_bytes(bytes);
                    proof {
                        lemma_counted(
                            bytes@.len(),
                            size,
                            Some(bytes@),
                            old(out)@,
                            out@,
                            Ok(()),
                        );
                    }
                    Ok(())
                },
            }
        },
        Value::Optional(None) => {
            out.put_flag(false);
            Ok(())
        },
        Value::Optional(Some(inner)) => {
            out.put_flag(true);
            match encode_into(inner, size, out) {
                Err(e) => Err(e),
                Ok(_) => {
                    assert(out@ =~= old(out)@ + (seq![1u8] + wire(inner@, size).unwrap()));
                    Ok(())
                },
            }
        },
        Value::Tuple(items) => encode_all(items, size, out),
        Value::Sequence(items) => match out.put_count(items.len(), size) {
            Err(e) => Err(e),
            Ok(_) => {
                let r = encode_all(items, size, out);
                proof {
                    lemma_counted(
                        items@.len(),
                        size,
                        wire_all(value_models(items@), 0, size),
                        old(out)@,
                        out@,
                        r,
                    );
                }
                r
            },
        },
        Value::SetOf(items) => match out.put_count(items.len(), size) {
            Err(e) => Err(e),
            Ok(_) => {
                let r = encode_all(items, size, out);
                proof {
                    lemma_counted(
                        items@.len(),
                        size,
                        wire_all(value_models(items@), 0, size),
                        old(out)@,
                        out@,
                        r,
                    );
                }
                r
            },
        },
        Value::MapOf(entries) => match out.put_count(entries.len(), size) {
            Err(e) => Err(e),
            Ok(_) => {
                let r = encode_entries(entries, size, out);
                proof {
                    lemma_counted(
                        entries@.len(),
                        size,
                        wire_entries(entry_models(entries@), 0, size),
                        old(out)@,
                        out@,
                        r,
                    );
                }
                r
            },
        },
        Value::Aggregate(fields) => encode_fields(fields, size, out),
    }
}

/// After a count that fits was written in front, the encoding of the
/// payload completes that of the counted value.
proof fn lemma_counted(
    count: nat,
    size: SizeType,
    payload: Option<Seq<u8>>,
    before: Seq<u8>,
    after: Seq<u8>,
    r: Result<(), ByteVecError>,
)
    requires
        count <= size.max_count(),
        encoded(payload, before + le_bytes(count, size.width()), after, r),
    ensures
        encoded(counted(count, size, payload), before, after, r),
{
    let prefix = le_bytes(count, size.width());
    match payload {
        Some(bytes) => {
            assert(after =~= before + (prefix + bytes));
        },
        None => {},
    }
}

/// Appends the encodings of `items`, one after another.
pub(crate) fn encode_all(items: &Vec<Value>, size: SizeType, out: &mut EncodedBuffer) -> (r: Result<
    (),
    ByteVecError,
>)
    ensures
        encoded(wire_all(value_models(items@), 0, size), old(out)@, final(out)@, r),
    decreases items,
{
    let ghost models = value_models(items@);
    let ghost mut done = Seq::<u8>::empty();
    let mut i: usize = 0;
    assert(out@ =~= old(out)@ + done);
    while i < items.len()
        invariant
            i <= items.len(),
            models == value_models(items@),
            out@ == old(out)@ + done,
            wire_all(models, 0, size) == match wire_all(models, i as nat, size) {
                Some(rest) => Some(done + rest),
                None => None,
            },
        decreases items.len() - i,
    {
        let ghost first = wire(models[i as int], size);
        let ghost rest = wire_all(models, (i + 1) as nat, size);
        assert(models[i as int] == items@[i as int].model());
        match encode_into(&items[i], size, out) {
            Err(e) => {
                return Err(e);
            },
            Ok(_) => {},
        }
        proof {
            if rest is Some {
                assert(done + (first.unwrap() + rest.unwrap()) =~= (done + first.unwrap())
                    + rest.unwrap());
            }
            assert(out@ =~= old(out)@ + (done + first.unwrap()));
            done = done + first.unwrap();
        }
        i += 1;
    }
    assert(done + Seq::<u8>::empty() =~= done);
    Ok(())
}

/// Appends the encodings of the values of `fields`, one after another.
pub(crate) fn encode_fields(fields: &Vec<(String, Value)>, size: SizeType, out: &mut EncodedBuffer) -> (r:
    Result<(), ByteVecError>)
    ensures
        encoded(wire_all(field_value_models(fields@), 0, size), old(out)@, final(out)@, r),
    decreases fields,
{
    let ghost models = field_value_models(fields@);
    let ghost mut done = Seq::<u8>::empty();
    let mut i: usize = 0;
    assert(out@ =~= old(out)@ + done);
    while i < fields.len()
        invariant
            i <= fields.len(),
            models == field_value_models(fields@),
            out@ == old(out)@ + done,
            wire_all(models, 0, size) == match wire_all(models, i as nat, size) {
                Some(rest) => Some(done + rest),
                None => None,
            },
        decreases fields.len() - i,
    {
        let ghost first = wire(models[i as int], size);
        let ghost rest = wire_all(models, (i + 1) as nat, size);
        assert(models[i as int] == fields@[i as int].1.model());
        match encode_into(&fields[i].1, size, out) {
            Err(e) => {
                return Err(e);
            },
            Ok(_) => {},
        }
        proof {
            if rest is Some {
                assert(done + (first.unwrap() + rest.unwrap()) =~= (done + first.unwrap())
                    + rest.unwrap());
            }
            assert(out@ =~= old(out)@ + (done + first.unwrap()));
            done = done + first.unwrap();
        }
        i += 1;
    }
    assert(done + Seq::<u8>::empty() =~= done);
    Ok(())
}

/// Appends the encodings of `entries`, each key followed by its value.
pub(crate) fn encode_entries(entries: &Vec<(Value, Value)>, size: SizeType, out: &mut EncodedBuffer) -> (r:
    Result<(), ByteVecError>)
    ensures
        encoded(wire_entries(entry_models(entries@), 0, size), old(out)@, final(out)@, r),
    decreases entries,
{
    let ghost models = entry_models(entries@);
    let ghost mut done = Seq::<u8>::empty();
    let mut i: usize = 0;
    assert(out@ =~= old(out)@ + done);
    while i < entries.len()
        invariant
            i <= entries.len(),
            models == entry_models(entries@),
            out@ == old(out)@ + done,
            wire_entries(models, 0, size) == match wire_entries(models, i as nat, size) {
                Some(rest) => Some(done + rest),
                None => None,
            },
        decreases entries.len() - i,
    {
        let ghost key = wire(models[i as int].0, size);
        let ghost value = wire(models[i as int].1, size);
        let ghost rest = wire_entries(models, (i + 1) as nat, size);
        assert(models[i as int] == (entries@[i as int].0.model(), entries@[i as int].1.model()));
        match encode_into(&entries[i].0, size, out) {
            Err(e) => {
                return Err(e);
            },
            Ok(_) => {},
        }
        assert(out@ =~= old(out)@ + (done + key.unwrap()));
        match encode_into(&entries[i].1, size, out) {
            Err(e) => {
                assert(old(out)@.is_prefix_of(old(out)@ + (done + key.unwrap())));
                return Err(e);
            },
            Ok(_) => {},
        }
        proof {
            if rest is Some {
                assert(done + (key.unwrap() + value.unwrap() + rest.unwrap()) =~= (done
                    + key.unwrap() + value.unwrap()) + rest.unwrap());
            }
            assert(out@ =~= old(out)@ + (done + key.unwrap() + value.unwrap()));
            done = done + key.unwrap() + value.unwrap();
        }
        i += 1;
    }
    assert(done + Seq::<u8>::empty() =~= done);
    Ok(())
}

/// What an encode of `value` returns: its encoding, or an overflow where
/// it has none.
pub open spec fn encode_outcome(
    value: ValueModel,
    size: SizeType,
    r: Result<Vec<u8>, ByteVecError>,
) -> bool {
    match wire(value, size) {
        Some(bytes) => r is Ok && r->Ok_0@ == bytes,
        None => r is Err && r->Err_0 == ByteVecError::OverflowError,
    }
}

impl Value {
    /// The encoding of this value with length prefixes of width `size`.
    /// Fails with an overflow exactly where a count inside the value is
    /// more than such a prefix can express.
    pub fn encode(&self, size: SizeType) -> (r: Result<Vec<u8>, ByteVecError>)
        ensures
            encode_outcome(self@, size, r),
    {
        let mut out = EncodedBuffer::new();
        match encode_into(self, size, &mut out) {
            Err(e) => Err(e),
            Ok(_) => {
                assert(Seq::<u8>::empty() + wire(self@, size).unwrap() =~= wire(
                    self@,
                    size,
                ).unwrap());
                Ok(out.into_bytes())
            },
        }
    }
}

} // verus!
