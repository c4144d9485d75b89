//! The wire format, stated over the models of values and types.
//!
//! | kind | layout |
//! |---|---|
//! | fixed width | the value's bytes, little-endian |
//! | string | length prefix, then the UTF-8 bytes |
//! | optional | one byte, 0 or 1, then the value if 1 |
//! | tuple, aggregate | the items one after another |
//! | sequence, set | count prefix, then the items |
//! | map | count prefix, then each key followed by its value |

use crate::bounds::{short_input, SizeType};
use crate::errors::ByteVecError;
use crate::le::{le_bytes, le_value};
use crate::primitive::bad_flag;
use crate::text::utf8_defect;
use crate::value::{KindModel, ValueModel};
use vstd::prelude::*;
use vstd::utf8::{decode_utf8, encode_utf8, valid_utf8};

verus! {

/// A count prefix in front of `payload`. There is no encoding where the
/// count is more than the prefix can express.
pub open spec fn counted(count: nat, size: SizeType, payload: Option<Seq<u8>>) -> Option<Seq<u8>> {
    if count > size.max_count() {
        None
    } else {
        match payload {
            Some(bytes) => Some(le_bytes(count, size.width()) + bytes),
            None => None,
        }
    }
}

/// Whether every count inside `value` (the length of a string in bytes,
/// the number of items of a sequence, a set or a map) is one that a length
/// prefix of width `size` can express.
pub open spec fn fits(value: ValueModel, size: SizeType) -> bool
    decreases value,
{
    match value {
        ValueModel::Prim(_) => true,
        ValueModel::Text(s) => encode_utf8(s).len() <= size.max_count(),
        ValueModel::Optional(None) => true,
        ValueModel::Optional(Some(inner)) => fits(*inner, size),
        ValueModel::Tuple(items) => forall|i: int|
            0 <= i < items.len() ==> fits(#[trigger] items[i], size),
        ValueModel::Sequence(items) => items.len() <= size.max_count() && forall|i: int|
            0 <= i < items.len() ==> fits(#[trigger] items[i], size),
        ValueModel::SetOf(items) => items.len() <= size.max_count() && forall|i: int|
            0 <= i < items.len() ==> fits(#[trigger] items[i], size),
        ValueModel::MapOf(entries) => entries.len() <= size.max_count() && forall|i: int|
            0 <= i < entries.len() ==> fits((#[trigger] entries[i]).0, size) && fits(
                entries[i].1,
                size,
            ),
        ValueModel::Aggregate(_, values) => forall|i: int|
            0 <= i < values.len() ==> fits(#[trigger] values[i], size),
    }
}

/// The encoding of `value` with length prefixes of width `size`, or `None`
/// where a count inside `value` is more than such a prefix can express.
pub open spec fn wire(value: ValueModel, size: SizeType) -> Option<Seq<u8>>
    decreases value, 0nat,
{
    match value {
        ValueModel::Prim(p) => Some(p.wire()),
        ValueModel::Text(s) => counted(encode_utf8(s).len(), size, Some(encode_utf8(s))),
        ValueModel::Optional(None) => Some(seq![0u8]),
        ValueModel::Optional(Some(inner)) => match wire(*inner, size) {
            Some(bytes) => Some(seq![1u8] + bytes),
            None => None,
        },
        ValueModel::Tuple(items) => wire_all(items, 0, size),
        ValueModel::Sequence(items) => counted(items.len(), size, wire_all(items, 0, size)),
        ValueModel::SetOf(items) => counted(items.len(), size, wire_all(items, 0, size)),
        ValueModel::MapOf(entries) => counted(entries.len(), size, wire_entries(entries, 0, size)),
        ValueModel::Aggregate(_, values) => wire_all(values, 0, size),
    }
}

/// The encodings of the items of `items` from index `from` on, one after
/// another.
pub open spec fn wire_all(items: Seq<ValueModel>, from: nat, size: SizeType) -> Option<Seq<u8>>
    decreases items, items.len() - from,
{
    if from >= items.len() {
        Some(Seq::empty())
    } else {
        match (wire(items[from as int], size), wire_all(items, from + 1, size)) {
            (Some(first), Some(rest)) => Some(first + rest),
            _ => None,
        }
    }
}

/// The encodings of the entries of `entries` from index `from` on, each
/// key followed by its value.
pub open spec fn wire_entries(
    entries: Seq<(ValueModel, ValueModel)>,
    from: nat,
    size: SizeType,
) -> Option<Seq<u8>>
    decreases entries, entries.len() - from,
{
    if from >= entries.len() {
        Some(Seq::empty())
    } else {
        match (
            wire(entries[from as int].0, size),
            wire(entries[from as int].1, size),
            wire_entries(entries, from + 1, size),
        ) {
            (Some(key), Some(value), Some(rest)) => Some(key + value + rest),
            _ => None,
        }
    }
}

/// `acc`, with `item` added at the end unless it is there already.
pub open spec fn insert_unique(acc: Seq<ValueModel>, item: ValueModel) -> Seq<ValueModel> {
    if acc.contains(item) {
        acc
    } else {
        acc.push(item)
    }
}

/// The set that holds the items of `items`, inserted in order.
pub open spec fn dedup(items: Seq<ValueModel>) -> Seq<ValueModel>
    decreases items.len(),
{
    if items.len() == 0 {
        Seq::empty()
    } else {
        insert_unique(dedup(items.drop_last()), items.last())
    }
}

/// The index of the first entry of `entries` with the key `key`, or the
/// length of `entries` where there is none.
pub open spec fn key_index(entries: Seq<(ValueModel, ValueModel)>, key: ValueModel) -> nat
    decreases entries.len(),
{
    if entries.len() == 0 {
        0
    } else if entries[0].0 == key {
        0
    } else {
        1 + key_index(entries.drop_first(), key)
    }
}

/// `acc`, with `value` stored under `key`: in place of the entry with that
/// key where there is one, else at the end.
pub open spec fn upsert(
    acc: Seq<(ValueModel, ValueModel)>,
    key: ValueModel,
    value: ValueModel,
) -> Seq<(ValueModel, ValueModel)> {
    let at = key_index(acc, key);
    if at < acc.len() {
        acc.update(at as int, (key, value))
    } else {
        acc.push((key, value))
    }
}

/// The map that holds the entries of `entries`, inserted in order: of two
/// entries with one key the later one stays.
pub open spec fn merge(entries: Seq<(ValueModel, ValueModel)>) -> Seq<(ValueModel, ValueModel)>
    decreases entries.len(),
{
    if entries.len() == 0 {
        Seq::empty()
    } else {
        upsert(merge(entries.drop_last()), entries.last().0, entries.last().1)
    }
}

/// The count that the length prefix at the start of `input` declares.
pub open spec fn parse_count(input: Seq<u8>, size: SizeType) -> Result<nat, ByteVecError> {
    if input.len() < size.width() {
        Err(short_input(input.len() as int, size.width() as int))
    } else {
        Ok(le_value(input.take(size.width() as int)))
    }
}

/// The string at the start of `input` and the number of bytes it takes.
pub open spec fn parse_text(input: Seq<u8>, size: SizeType) -> Result<
    (ValueModel, nat),
    ByteVecError,
> {
    match parse_count(input, size) {
        Err(e) => Err(e),
        Ok(len) => {
            let rest = input.skip(size.width() as int);
            if rest.len() < len {
                Err(short_input(rest.len() as int, len as int))
            } else if valid_utf8(rest.take(len as int)) {
                Ok((ValueModel::Text(decode_utf8(rest.take(len as int))), size.width() + len))
            } else {
                Err(ByteVecError::StringDecodeUtf8Error(utf8_defect(rest.take(len as int))))
            }
        },
    }
}

/// The value of type `kind` at the start of `input` and the number of
/// bytes it takes, or the first failure met on the way. Bytes after the
/// value are not looked at.
pub open spec fn parse(kind: KindModel, input: Seq<u8>, size: SizeType) -> Result<
    (ValueModel, nat),
    ByteVecError,
>
    decreases kind, 1nat, 0nat,
{
    match kind {
        KindModel::Prim(p) => if input.len() < p.width() {
            Err(short_input(input.len() as int, p.width() as int))
        } else {
            match p.parse(input.take(p.width() as int)) {
                Ok(x) => Ok((ValueModel::Prim(x), p.width())),
                Err(e) => Err(e),
            }
        },
        KindModel::Text => parse_text(input, size),
        KindModel::Optional(inner) => if input.len() < 1 {
            Err(short_input(0, 1))
        } else if input[0] == 0 {
            Ok((ValueModel::Optional(None), 1))
        } else if input[0] == 1 {
            match parse(*inner, input.skip(1), size) {
                Ok((v, n)) => Ok((ValueModel::Optional(Some(Box::new(v))), 1 + n)),
                Err(e) => Err(e),
            }
        } else {
            Err(bad_flag(input[0]))
        },
        KindModel::Tuple(kinds) => match parse_each(kinds, 0, input, size) {
            Ok((items, n)) => Ok((ValueModel::Tuple(items), n)),
            Err(e) => Err(e),
        },
        KindModel::Sequence(elem) => match parse_count(input, size) {
            Err(e) => Err(e),
            Ok(count) => match parse_repeat(*elem, count, input.skip(size.width() as int), size) {
                Ok((items, n)) => Ok((ValueModel::Sequence(items), size.width() + n)),
                Err(e) => Err(e),
            },
        },
        KindModel::SetOf(elem) => match parse_count(input, size) {
            Err(e) => Err(e),
            Ok(count) => match parse_repeat(*elem, count, input.skip(size.width() as int), size) {
                Ok((items, n)) => Ok((ValueModel::SetOf(dedup(items)), size.width() + n)),
                Err(e) => Err(e),
            },
        },
        KindModel::MapOf(_, _) => match parse_count(input, size) {
            Err(e) => Err(e),
            Ok(count) => match parse_entries(kind, count, input.skip(size.width() as int), size) {
                Ok((entries, n)) => Ok((ValueModel::MapOf(merge(entries)), size.width() + n)),
                Err(e) => Err(e),
            },
        },
        KindModel::Aggregate(names, kinds) => match parse_each(kinds, 0, input, size) {
            Ok((values, n)) => Ok((ValueModel::Aggregate(names, values), n)),
            Err(e) => Err(e),
        },
    }
}

/// One value of each type of `kinds` from index `from` on, read one after
/// another from the start of `input`.
pub open spec fn parse_each(kinds: Seq<KindModel>, from: nat, input: Seq<u8>, size: SizeType) -> Result<
    (Seq<ValueModel>, nat),
    ByteVecError,
>
    decreases kinds, 0nat, kinds.len() - from,
{
    if from >= kinds.len() {
        Ok((Seq::empty(), 0))
    } else {
        match parse(kinds[from as int], input, size) {
            Err(e) => Err(e),
            Ok((first, n)) => match parse_each(kinds, from + 1, input.skip(n as int), size) {
                Err(e) => Err(e),
                Ok((rest, m)) => Ok((seq![first] + rest, n + m)),
            },
        }
    }
}

/// `count` values of type `elem`, read one after another from the start
/// of `input`.
pub open spec fn parse_repeat(elem: KindModel, count: nat, input: Seq<u8>, size: SizeType) -> Result<
    (Seq<ValueModel>, nat),
    ByteVecError,
>
    decreases elem, 2nat, count,
{
    if count == 0 {
        Ok((Seq::empty(), 0))
    } else {
        match parse(elem, input, size) {
            Err(e) => Err(e),
            Ok((first, n)) => match parse_repeat(elem, (count - 1) as nat, input.skip(n as int), size) {
                Err(e) => Err(e),
                Ok((rest, m)) => Ok((seq![first] + rest, n + m)),
            },
        }
    }
}

/// `count` entries of the map type `map`, each a key followed by its
/// value, read one after another from the start of `input`.
pub open spec fn parse_entries(map: KindModel, count: nat, input: Seq<u8>, size: SizeType) -> Result<
    (Seq<(ValueModel, ValueModel)>, nat),
    ByteVecError,
>
    decreases map, 0nat, count,
{
    match map {
        KindModel::MapOf(key_kind, value_kind) => if count == 0 {
            Ok((Seq::empty(), 0))
        } else {
            match parse(*key_kind, input, size) {
                Err(e) => Err(e),
                Ok((key, n)) => match parse(*value_kind, input.skip(n as int), size) {
                    Err(e) => Err(e),
                    Ok((value, m)) => match parse_entries(
                        map,
                        (count - 1) as nat,
                        input.skip(n as int).skip(m as int),
                        size,
                    ) {
                        Err(e) => Err(e),
                        Ok((rest, k)) => Ok((seq![(key, value)] + rest, n + m + k)),
                    },
                },
            }
        },
        _ => Ok((Seq::empty(), 0)),
    }
}

} // verus!
