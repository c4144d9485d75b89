//! Decoding: from bytes and a type to the value of that type.

use crate::bounds::{short_input, SizeType};
use crate::cursor::DecodeCursor;
use crate::errors::{BVExpectedSize, ByteVecError};
use crate::format::{
    dedup, insert_unique, key_index, merge, parse, parse_each, parse_entries, parse_repeat,
    parse_text, upsert,
};
use crate::soundness::law_decoding_is_sound;
use crate::text::text_from_utf8;
use crate::value::{
    entry_models, field_kind_models, field_value_models, kind_field_names, kind_models,
    value_field_names, value_models, Kind, KindModel, Value, ValueModel,
};
use std::str::Utf8Error;
use vstd::prelude::*;
use vstd::utf8::encode_utf8_decode_utf8;

verus! {

/// Whether `after` reads the same input as `before` and stands no further
/// back.
pub open spec fn moved(before: DecodeCursor, after: DecodeCursor) -> bool {
    &&& after.wf()
    &&& after.input() == before.input()
    &&& after.position() >= before.position()
}

/// What a decode leaves behind where `expected` is the value at the
/// cursor: the value, with the cursor behind it, or the failure.
pub open spec fn decoded(
    expected: Result<(ValueModel, nat), ByteVecError>,
    before: DecodeCursor,
    after: DecodeCursor,
    r: Result<Value, ByteVecError>,
) -> bool {
    match expected {
        Ok((value, n)) => r is Ok && r->Ok_0@ == value && after.advanced(&before, n),
        Err(e) => r is Err && r->Err_0 == e && moved(before, after),
    }
}

/// As `decoded`, for values read one after another.
pub open spec fn decoded_all(
    expected: Result<(Seq<ValueModel>, nat), ByteVecError>,
    before: DecodeCursor,
    after: DecodeCursor,
    r: Result<Vec<Value>, ByteVecError>,
) -> bool {
    match expected {
        Ok((items, n)) => r is Ok && value_models(r->Ok_0@) == items && after.advanced(&before, n),
        Err(e) => r is Err && r->Err_0 == e && moved(before, after),
    }
}

/// `later`, counted from an earlier start: the items `done` stand in
/// front, and `consumed` bytes were read before.
pub open spec fn prepend<T>(
    done: Seq<T>,
    consumed: nat,
    later: Result<(Seq<T>, nat), ByteVecError>,
) -> Result<(Seq<T>, nat), ByteVecError> {
    match later {
        Ok((rest, n)) => Ok((done + rest, consumed + n)),
        Err(e) => Err(e),
    }
}

/// Reads the value of type `kind` at the cursor.
pub fn decode_from(kind: &Kind, size: SizeType, cursor: &mut DecodeCursor) -> (r: Result<
    Value,
    ByteVecError,
>)
    requires
        old(cursor).wf(),
    ensures
        decoded(parse(kind@, old(cursor).rest(), size), *old(cursor), *final(cursor), r),
    decreases kind, 1nat,
{
    match kind {
        Kind::Prim(p) => match cursor.take_primitive(*p) {
            Ok(x) => Ok(Value::Prim(x)),
            Err(e) => Err(e),
        },
        Kind::Text => decode_text(size, cursor),
        Kind::Optional(inner) => match cursor.take_byte() {
            Err(e) => Err(e),
            Ok(flag) => if flag == 0 {
                Ok(Value::Optional(None))
            } else if flag == 1 {
                proof {
                    cursor.lemma_rest_after(old(cursor), 1);
                }
                match decode_from(inner, size, cursor) {
                    Ok(v) => Ok(Value::Optional(Some(Box::new(v)))),
                    Err(e) => Err(e),
                }
            } else {
                Err(
                    ByteVecError::BadSizeDecodeError {
                        expected: BVExpectedSize::LessOrEqualThan(1),
                        actual: flag as usize,
                    },
                )
            },
        },
        Kind::Tuple(kinds) => match decode_each(kinds, size, cursor) {
            Ok(items) => Ok(Value::Tuple(items)),
            Err(e) => Err(e),
        },
        Kind::Sequence(elem) => match cursor.take_count(size) {
            Err(e) => Err(e),
            Ok(count) => {
                proof {
                    cursor.lemma_rest_after(old(cursor), size.width());
                }
                match decode_repeat(elem, count, size, cursor) {
                    Ok(items) => Ok(Value::Sequence(items)),
                    Err(e) => Err(e),
                }
            },
        },
        Kind::SetOf(elem) => match cursor.take_count(size) {
            Err(e) => Err(e),
            Ok(count) => {
                proof {
                    cursor.lemma_rest_after(old(cursor), size.width());
                }
                match decode_set(elem, count, size, cursor) {
                    Ok(items) => Ok(Value::SetOf(items)),
                    Err(e) => Err(e),
                }
            },
        },
        Kind::MapOf(_, _) => match cursor.take_count(size) {
            Err(e) => Err(e),
            Ok(count) => {
                proof {
                    cursor.lemma_rest_after(old(cursor), size.width());
                }
                match decode_map(kind, count, size, cursor) {
                    Ok(entries) => Ok(Value::MapOf(entries)),
                    Err(e) => Err(e),
                }
            },
        },
        Kind::Aggregate(fields) => match decode_fields(fields, size, cursor) {
            Ok(values) => Ok(Value::Aggregate(values)),
            Err(e) => Err(e),
        },
    }
}

/// The string value for bytes that were found to be UTF-8, and the
/// failure for bytes that were not.
pub fn text_value(checked: Result<&str, Utf8Error>) -> (r: Result<Value, ByteVecError>)
    ensures
        match checked {
            Ok(s) => r is Ok && r->Ok_0@ == ValueModel::Text(s@),
            Err(cause) => r is Err && r->Err_0 == ByteVecError::StringDecodeUtf8Error(cause),
        },
{
    match checked {
        Ok(s) => Ok(Value::Text(s.to_owned())),
        Err(cause) => Err(ByteVecError::from(cause)),
    }
}

/// Reads the string at the cursor: its length, then its bytes, which must
/// be UTF-8.
pub(crate) fn decode_text(size: SizeType, cursor: &mut DecodeCursor) -> (r: Result<Value, ByteVecError>)
    requires
        old(cursor).wf(),
    ensures
        decoded(parse_text(old(cursor).rest(), size), *old(cursor), *final(cursor), r),
{
    match cursor.take_count(size) {
        Err(e) => Err(e),
        Ok(len) => {
            proof {
                cursor.lemma_rest_after(old(cursor), size.width());
            }
            let remaining: usize = cursor.remaining();
            if len > usize::MAX as u64 {
                Err(
                    ByteVecError::BadSizeDecodeError {
                        expected: BVExpectedSize::MoreThan(usize::MAX),
                        actual: remaining,
                    },
                )
            } else {
                match cursor.take(len as usize) {
                    Err(e) => Err(e),
                    Ok(payload) => {
                        let checked = text_from_utf8(payload);
                        proof {
                            if checked is Ok {
                                encode_utf8_decode_utf8(checked->Ok_0@);
                            }
                        }
                        text_value(checked)
                    },
                }
            }
        },
    }
}

/// Reads one value of each type of `kinds`, one after another.
pub(crate) fn decode_each(kinds: &Vec<Kind>, size: SizeType, cursor: &mut DecodeCursor) -> (r: Result<
    Vec<Value>,
    ByteVecError,
>)
    requires
        old(cursor).wf(),
    ensures
        decoded_all(
            parse_each(kind_models(kinds@), 0, old(cursor).rest(), size),
            *old(cursor),
            *final(cursor),
            r,
        ),
    decreases kinds, 0nat,
{
    let ghost models = kind_models(kinds@);
    let ghost start = old(cursor).rest();
    let ghost mut consumed: nat = 0;
    let mut acc: Vec<Value> = Vec::new();
    let mut i: usize = 0;
    assert(value_models(acc@) + parse_each(models, 0, start, size)->Ok_0.0 =~= parse_each(
        models,
        0,
        start,
        size,
    )->Ok_0.0);
    while i < kinds.len()
        invariant
            i <= kinds.len(),
            models == kind_models(kinds@),
            start == old(cursor).rest(),
            cursor.advanced(old(cursor), consumed),
            acc@.len() == i,
            parse_each(models, 0, start, size) == prepend(
                value_models(acc@),
                consumed,
                parse_each(models, i as nat, cursor.rest(), size),
            ),
        decreases kinds.len() - i,
    {
        let ghost here = *cursor;
        let ghost done = value_models(acc@);
        assert(models[i as int] == kinds@[i as int].model());
        match decode_from(&kinds[i], size, cursor) {
            Err(e) => {
                return Err(e);
            },
            Ok(v) => {
                proof {
                    let n = (cursor.position() - here.position()) as nat;
                    cursor.lemma_rest_after(&here, n);
                    let later = parse_each(models, (i + 1) as nat, cursor.rest(), size);
                    assert(value_models(acc@.push(v)) =~= done + seq![v@]);
                    if later is Ok {
                        assert(done + (seq![v@] + later->Ok_0.0) =~= (done + seq![v@])
                            + later->Ok_0.0);
                    }
                    consumed = consumed + n;
                }
                acc.push(v);
            },
        }
        i += 1;
    }
    assert(value_models(acc@) + Seq::<ValueModel>::empty() =~= value_models(acc@));
    Ok(acc)
}

/// Reads the fields of an aggregate, one after another, under the names
/// of `fields`.
pub(crate) fn decode_fields(fields: &Vec<(String, Kind)>, size: SizeType, cursor: &mut DecodeCursor) -> (r:
    Result<Vec<(String, Value)>, ByteVecError>)
    requires
        old(cursor).wf(),
    ensures
        match parse_each(field_kind_models(fields@), 0, old(cursor).rest(), size) {
            Ok((values, n)) => r is Ok && value_field_names(r->Ok_0@) == kind_field_names(fields@)
                && field_value_models(r->Ok_0@) == values && final(cursor).advanced(
                old(cursor),
                n,
            ),
            Err(e) => r is Err && r->Err_0 == e && moved(*old(cursor), *final(cursor)),
        },
    decreases fields, 0nat,
{
    let ghost models = field_kind_models(fields@);
    let ghost start = old(cursor).rest();
    let ghost mut consumed: nat = 0;
    let mut acc: Vec<(String, Value)> = Vec::new();
    let mut i: usize = 0;
    assert(field_value_models(acc@) + parse_each(models, 0, start, size)->Ok_0.0 =~= parse_each(
        models,
        0,
        start,
        size,
    )->Ok_0.0);
    while i < fields.len()
        invariant
            i <= fields.len(),
            models == field_kind_models(fields@),
            start == old(cursor).rest(),
            cursor.advanced(old(cursor), consumed),
            acc@.len() == i,
            forall|j: int| 0 <= j < i ==> (#[trigger] acc@[j]).0@ == fields@[j].0@,
            parse_each(models, 0, start, size) == prepend(
                field_value_models(acc@),
                consumed,
                parse_each(models, i as nat, cursor.rest(), size),
            ),
        decreases fields.len() - i,
    {
        let ghost here = *cursor;
        let ghost done = field_value_models(acc@);
        assert(models[i as int] == fields@[i as int].1.model());
        match decode_from(&fields[i].1, size, cursor) {
            Err(e) => {
                return Err(e);
            },
            Ok(v) => {
                let name = fields[i].0.clone();
                proof {
                    let n = (cursor.position() - here.position()) as nat;
                    cursor.lemma_rest_after(&here, n);
                    let later = parse_each(models, (i + 1) as nat, cursor.rest(), size);
                    assert(field_value_models(acc@.push((name, v))) =~= done + seq![v@]);
                    if later is Ok {
                        assert(done + (seq![v@] + later->Ok_0.0) =~= (done + seq![v@])
                            + later->Ok_0.0);
                    }
                    consumed = consumed + n;
                }
                acc.push((name, v));
            },
        }
        i += 1;
    }
    assert(field_value_models(acc@) + Seq::<ValueModel>::empty() =~= field_value_models(acc@));
    assert(value_field_names(acc@) =~= kind_field_names(fields@));
    Ok(acc)
}

/// Reads `count` values of type `elem`, one after another.
pub(crate) fn decode_repeat(elem: &Kind, count: u64, size: SizeType, cursor: &mut DecodeCursor) -> (r:
    Result<Vec<Value>, ByteVecError>)
    requires
        old(cursor).wf(),
    ensures
        decoded_all(
            parse_repeat(elem@, count as nat, old(cursor).rest(), size),
            *old(cursor),
            *final(cursor),
            r,
        ),
    decreases elem, 2nat,
{
    let ghost start = old(cursor).rest();
    let ghost mut consumed: nat = 0;
    let mut acc: Vec<Value> = Vec::new();
    let mut i: u64 = 0;
    assert(value_models(acc@) + parse_repeat(elem@, count as nat, start, size)->Ok_0.0
        =~= parse_repeat(elem@, count as nat, start, size)->Ok_0.0);
    while i < count
        invariant
            i <= count,
            start == old(cursor).rest(),
            cursor.advanced(old(cursor), consumed),
            parse_repeat(elem@, count as nat, start, size) == prepend(
                value_models(acc@),
                consumed,
                parse_repeat(elem@, (count - i) as nat, cursor.rest(), size),
            ),
        decreases count - i,
    {
        let ghost here = *cursor;
        let ghost done = value_models(acc@);
        match decode_from(elem, size, cursor) {
            Err(e) => {
                return Err(e);
            },
            Ok(v) => {
                proof {
                    let n = (cursor.position() - here.position()) as nat;
                    cursor.lemma_rest_after(&here, n);
                    let later = parse_repeat(elem@, (count - i - 1) as nat, cursor.rest(), size);
                    assert(value_models(acc@.push(v)) =~= done + seq![v@]);
                    if later is Ok {
                        assert(done + (seq![v@] + later->Ok_0.0) =~= (done + seq![v@])
                            + later->Ok_0.0);
                    }
                    consumed = consumed + n;
                }
                acc.push(v);
            },
        }
        i += 1;
    }
    assert(value_models(acc@) + Seq::<ValueModel>::empty() =~= value_models(acc@));
    Ok(acc)
}

/// Adds `item` at the end of `acc` unless `acc` holds it already.
pub fn add_unique(acc: &mut Vec<Value>, item: Value)
    ensures
        value_models(final(acc)@) == insert_unique(value_models(old(acc)@), item@),
{
    let ghost models = value_models(acc@);
    let mut i: usize = 0;
    while i < acc.len()
        invariant
            i <= acc.len(),
            acc@ == old(acc)@,
            models == value_models(acc@),
            forall|j: int| 0 <= j < i ==> models[j] != item@,
        decreases acc.len() - i,
    {
        if acc[i].same(&item) {
            assert(models[i as int] == item@);
            return ;
        }
        i += 1;
    }
    acc.push(item);
    assert(value_models(acc@) =~= models.push(item@));
}

/// Stores `value` under `key` in `acc`: in place of the entry with that
/// key where there is one, else at the end.
pub fn put_entry(acc: &mut Vec<(Value, Value)>, key: Value, value: Value)
    ensures
        entry_models(final(acc)@) == upsert(entry_models(old(acc)@), key@, value@),
{
    let ghost models = entry_models(acc@);
    let mut i: usize = 0;
    assert(models.skip(0) =~= models);
    while i < acc.len()
        invariant
            i <= acc.len(),
            acc@ == old(acc)@,
            models == entry_models(acc@),
            key_index(models, key@) == i + key_index(models.skip(i as int), key@),
        decreases acc.len() - i,
    {
        assert(models.skip(i as int)[0] == models[i as int]);
        assert(models.skip(i as int).drop_first() =~= models.skip(i + 1));
        if acc[i].0.same(&key) {
            acc.set(i, (key, value));
            assert(entry_models(acc@) =~= models.update(i as int, (key@, value@)));
            return ;
        }
        i += 1;
    }
    acc.push((key, value));
    assert(entry_models(acc@) =~= models.push((key@, value@)));
}

/// Reads `count` values of type `elem`, one after another, into a set.
pub(crate) fn decode_set(elem: &Kind, count: u64, size: SizeType, cursor: &mut DecodeCursor) -> (r:
    Result<Vec<Value>, ByteVecError>)
    requires
        old(cursor).wf(),
    ensures
        decoded_all(
            match parse_repeat(elem@, count as nat, old(cursor).rest(), size) {
                Ok((items, n)) => Ok((dedup(items), n)),
                Err(e) => Err(e),
            },
            *old(cursor),
            *final(cursor),
            r,
        ),
    decreases elem, 2nat,
{
    let ghost start = old(cursor).rest();
    let ghost mut consumed: nat = 0;
    let ghost mut read = Seq::<ValueModel>::empty();
    let mut acc: Vec<Value> = Vec::new();
    let mut i: u64 = 0;
    assert(read + parse_repeat(elem@, count as nat, start, size)->Ok_0.0 =~= parse_repeat(
        elem@,
        count as nat,
        start,
        size,
    )->Ok_0.0);
    assert(value_models(acc@) =~= dedup(read));
    while i < count
        invariant
            i <= count,
            start == old(cursor).rest(),
            cursor.advanced(old(cursor), consumed),
            value_models(acc@) == dedup(read),
            parse_repeat(elem@, count as nat, start, size) == prepend(
                read,
                consumed,
                parse_repeat(elem@, (count - i) as nat, cursor.rest(), size),
            ),
        decreases count - i,
    {
        let ghost here = *cursor;
        match decode_from(elem, size, cursor) {
            Err(e) => {
                return Err(e);
            },
            Ok(v) => {
                proof {
                    let n = (cursor.position() - here.position()) as nat;
                    cursor.lemma_rest_after(&here, n);
                    let later = parse_repeat(elem@, (count - i - 1) as nat, cursor.rest(), size);
                    if later is Ok {
                        assert(read + (seq![v@] + later->Ok_0.0) =~= (read + seq![v@])
                            + later->Ok_0.0);
                    }
                    assert((read + seq![v@]).drop_last() =~= read);
                    consumed = consumed + n;
                    read = read + seq![v@];
                }
                add_unique(&mut acc, v);
            },
        }
        i += 1;
    }
    assert(read + Seq::<ValueModel>::empty() =~= read);
    Ok(acc)
}

/// Reads `count` entries of the map type `map`, each a key followed by
/// its value, into a map.
pub(crate) fn decode_map(map: &Kind, count: u64, size: SizeType, cursor: &mut DecodeCursor) -> (r:
    Result<Vec<(Value, Value)>, ByteVecError>)
    requires
        old(cursor).wf(),
        map is MapOf,
    ensures
        match parse_entries(map@, count as nat, old(cursor).rest(), size) {
            Ok((entries, n)) => r is Ok && entry_models(r->Ok_0@) == merge(entries)
                && final(cursor).advanced(old(cursor), n),
            Err(e) => r is Err && r->Err_0 == e && moved(*old(cursor), *final(cursor)),
        },
    decreases map, 0nat,
{
    let ghost start = old(cursor).rest();
    let ghost mut consumed: nat = 0;
    let ghost mut read = Seq::<(ValueModel, ValueModel)>::empty();
    let mut acc: Vec<(Value, Value)> = Vec::new();
    let mut i: u64 = 0;
    assert(read + parse_entries(map@, count as nat, start, size)->Ok_0.0 =~= parse_entries(
        map@,
        count as nat,
        start,
        size,
    )->Ok_0.0);
    assert(entry_models(acc@) =~= merge(read));
    while i < count
        invariant
            i <= count,
            map is MapOf,
            start == old(cursor).rest(),
            cursor.advanced(old(cursor), consumed),
            entry_models(acc@) == merge(read),
            parse_entries(map@, count as nat, start, size) == prepend(
                read,
                consumed,
                parse_entries(map@, (count - i) as nat, cursor.rest(), size),
            ),
        decreases count - i,
    {
        let ghost here = *cursor;
        match map {
            Kind::MapOf(key_kind, value_kind) => {
                let key = match decode_from(key_kind, size, cursor) {
                    Err(e) => {
                        return Err(e);
                    },
                    Ok(key) => key,
                };
                let ghost at_value = *cursor;
                proof {
                    let n = (cursor.position() - here.position()) as nat;
                    cursor.lemma_rest_after(&here, n);
                }
                let value = match decode_from(value_kind, size, cursor) {
                    Err(e) => {
                        return Err(e);
                    },
                    Ok(value) => value,
                };
                proof {
                    let n = (at_value.position() - here.position()) as nat;
                    let m = (cursor.position() - at_value.position()) as nat;
                    cursor.lemma_rest_after(&at_value, m);
                    let later = parse_entries(
                        map@,
                        (count - i - 1) as nat,
                        cursor.rest(),
                        size,
                    );
                    if later is Ok {
                        assert(read + (seq![(key@, value@)] + later->Ok_0.0) =~= (read + seq![
                            (key@, value@),
                        ]) + later->Ok_0.0);
                    }
                    assert((read + seq![(key@, value@)]).drop_last() =~= read);
                    consumed = consumed + n + m;
                    read = read + seq![(key@, value@)];
                }
                put_entry(&mut acc, key, value);
            },
            _ => {},
        }
        i += 1;
    }
    assert(read + Seq::<(ValueModel, ValueModel)>::empty() =~= read);
    Ok(acc)
}

/// What a decode of `bytes` as a value of type `kind` returns: the value
/// at the start of `bytes`, or the first failure met on the way to it.
pub open spec fn decode_outcome(
    kind: KindModel,
    bytes: Seq<u8>,
    size: SizeType,
    r: Result<Value, ByteVecError>,
) -> bool {
    match parse(kind, bytes, size) {
        Ok((value, _)) => r is Ok && r->Ok_0@ == value,
        Err(e) => r is Err && r->Err_0 == e,
    }
}

/// The error of an input of `actual` bytes where at most `limit` are
/// accepted.
pub open spec fn over_limit(limit: usize, actual: usize) -> ByteVecError {
    ByteVecError::BadSizeDecodeError {
        expected: BVExpectedSize::LessOrEqualThan(limit),
        actual,
    }
}

impl Value {
    /// The value of type `kind` at the start of `bytes`, read with length
    /// prefixes of width `size`. Bytes after the value are not an error.
    pub fn decode(kind: &Kind, bytes: &[u8], size: SizeType) -> (r: Result<Value, ByteVecError>)
        ensures
            decode_outcome(kind@, bytes@, size, r),
            r is Ok ==> r->Ok_0@.has_kind(kind@) && r->Ok_0@.wf(),
    {
        proof {
            law_decoding_is_sound(kind@, bytes@, size);
        }
        let mut cursor = DecodeCursor::new(bytes);
        decode_from(kind, size, &mut cursor)
    }

    /// As `decode`, for an input of at most `max_size` bytes: a longer one
    /// is refused before anything is read from it.
    pub fn decode_max(kind: &Kind, bytes: &[u8], size: SizeType, max_size: usize) -> (r: Result<
        Value,
        ByteVecError,
    >)
        ensures
            bytes@.len() > max_size ==> r is Err && r->Err_0 == over_limit(
                max_size,
                bytes@.len() as usize,
            ),
            bytes@.len() <= max_size ==> decode_outcome(kind@, bytes@, size, r),
            r is Ok ==> r->Ok_0@.has_kind(kind@) && r->Ok_0@.wf(),
    {
        if bytes.len() > max_size {
            Err(
                ByteVecError::BadSizeDecodeError {
                    expected: BVExpectedSize::LessOrEqualThan(max_size),
                    actual: bytes.len(),
                },
            )
        } else {
            Value::decode(kind, bytes, size)
        }
    }
}

} // verus!
