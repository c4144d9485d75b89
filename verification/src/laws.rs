//! What holds of the format as a whole.

use crate::bounds::{lemma_pow256_positive, SizeType};
use crate::decode::decode_outcome;
use crate::encode::encode_outcome;
use crate::errors::ByteVecError;
use crate::format::{
    dedup, fits, key_index, merge, parse, parse_count, parse_each, parse_entries, parse_repeat,
    wire, wire_all, wire_entries,
};
use crate::le::{le_bytes, lemma_le_bytes_len, lemma_le_value_of_bytes};
use crate::primitive::Primitive;
use crate::value::{keys_of, KindModel, Value, ValueModel};
use vstd::prelude::*;
use vstd::utf8::{encode_utf8, encode_utf8_decode_utf8, encode_utf8_valid_utf8};

verus! {

/// A count that fits its prefix is read back from it, and what follows
/// the prefix is left.
pub proof fn lemma_parse_count(count: nat, size: SizeType, rest: Seq<u8>)
    requires
        count <= size.max_count(),
    ensures
        le_bytes(count, size.width()).len() == size.width(),
        parse_count(le_bytes(count, size.width()) + rest, size) == Ok::<nat, ByteVecError>(count),
        (le_bytes(count, size.width()) + rest).skip(size.width() as int) == rest,
{
    let prefix = le_bytes(count, size.width());
    lemma_pow256_positive(size.width());
    lemma_le_bytes_len(count, size.width());
    lemma_le_value_of_bytes(count, size.width());
    assert((prefix + rest).take(size.width() as int) =~= prefix);
    assert((prefix + rest).skip(size.width() as int) =~= rest);
}

/// Inserting items of which none occurs twice, in order, gives them back.
pub proof fn lemma_dedup_distinct(items: Seq<ValueModel>)
    requires
        items.no_duplicates(),
    ensures
        dedup(items) == items,
    decreases items.len(),
{
    if items.len() > 0 {
        let init = items.drop_last();
        lemma_dedup_distinct(init);
        if init.contains(items.last()) {
            let j = choose|j: int| 0 <= j < init.len() && init[j] == items.last();
            assert(items[j] == items[items.len() - 1]);
        }
        assert(init.push(items.last()) =~= items);
    } else {
        assert(items =~= Seq::empty());
    }
}

/// A key that no entry has is found behind the last entry.
pub proof fn lemma_key_index_absent(entries: Seq<(ValueModel, ValueModel)>, key: ValueModel)
    requires
        forall|i: int| 0 <= i < entries.len() ==> (#[trigger] entries[i]).0 != key,
    ensures
        key_index(entries, key) == entries.len(),
    decreases entries.len(),
{
    if entries.len() > 0 {
        let tail = entries.drop_first();
        assert forall|i: int| 0 <= i < tail.len() implies (#[trigger] tail[i]).0 != key by {
            assert(tail[i] == entries[i + 1]);
        }
        lemma_key_index_absent(tail, key);
        assert(entries[0].0 != key);
    }
}

/// Inserting entries of which no key occurs twice, in order, gives them
/// back.
pub proof fn lemma_merge_distinct(entries: Seq<(ValueModel, ValueModel)>)
    requires
        keys_of(entries).no_duplicates(),
    ensures
        merge(entries) == entries,
    decreases entries.len(),
{
    if entries.len() > 0 {
        let init = entries.drop_last();
        let last = entries.last();
        assert forall|i: int, j: int|
            0 <= i < init.len() && 0 <= j < init.len() && i != j implies keys_of(init)[i]
            != keys_of(init)[j] by {
            assert(keys_of(init)[i] == keys_of(entries)[i]);
            assert(keys_of(init)[j] == keys_of(entries)[j]);
        }
        lemma_merge_distinct(init);
        assert forall|i: int| 0 <= i < init.len() implies (#[trigger] init[i]).0 != last.0 by {
            assert(keys_of(entries)[i] == init[i].0);
            assert(keys_of(entries)[entries.len() - 1] == last.0);
        }
        lemma_key_index_absent(init, last.0);
        assert(init.push((last.0, last.1)) =~= entries);
    } else {
        assert(entries =~= Seq::empty());
    }
}

/// Whether `value` is read back, as a value of type `kind`, from its
/// encoding followed by `rest`, and nothing of `rest` is read.
pub open spec fn reads_back(value: ValueModel, kind: KindModel, size: SizeType, rest: Seq<u8>) -> bool {
    parse(kind, wire(value, size)->Some_0 + rest, size) == Ok::<(ValueModel, nat), ByteVecError>(
        (value, wire(value, size)->Some_0.len()),
    )
}

/// Round trip, with anything after the encoding: a value of type `kind`
/// in which no set holds an item twice and no map a key twice is read
/// back from its encoding, and the bytes behind the encoding are not
/// touched.
pub proof fn lemma_round_trip(value: ValueModel, kind: KindModel, size: SizeType, rest: Seq<u8>)
    requires
        value.has_kind(kind),
        value.wf(),
        wire(value, size) is Some,
    ensures
        reads_back(value, kind, size, rest),
    decreases value, 1nat,
{
    match value {
        ValueModel::Prim(_) => lemma_round_trip_prim(value, kind, size, rest),
        ValueModel::Text(_) => lemma_round_trip_text(value, kind, size, rest),
        ValueModel::Optional(_) => lemma_round_trip_optional(value, kind, size, rest),
        ValueModel::Tuple(_) => lemma_round_trip_tuple(value, kind, size, rest),
        ValueModel::Sequence(_) => lemma_round_trip_sequence(value, kind, size, rest),
        ValueModel::SetOf(_) => lemma_round_trip_set(value, kind, size, rest),
        ValueModel::MapOf(_) => lemma_round_trip_map(value, kind, size, rest),
        ValueModel::Aggregate(_, _) => lemma_round_trip_aggregate(value, kind, size, rest),
    }
}

proof fn lemma_round_trip_prim(value: ValueModel, kind: KindModel, size: SizeType, rest: Seq<u8>)
    requires
        value is Prim,
        value.has_kind(kind),
    ensures
        reads_back(value, kind, size, rest),
{
    let p = value->Prim_0;
    p.lemma_round_trip();
    assert((p.wire() + rest).take(p.kind().width() as int) =~= p.wire());
}

proof fn lemma_round_trip_text(value: ValueModel, kind: KindModel, size: SizeType, rest: Seq<u8>)
    requires
        value is Text,
        value.has_kind(kind),
        wire(value, size) is Some,
    ensures
        reads_back(value, kind, size, rest),
{
    let s = value->Text_0;
    let payload = encode_utf8(s);
    let input = wire(value, size)->Some_0 + rest;
    lemma_parse_count(payload.len(), size, payload + rest);
    assert(input =~= le_bytes(payload.len(), size.width()) + (payload + rest));
    assert((payload + rest).take(payload.len() as int) =~= payload);
    encode_utf8_valid_utf8(s);
    encode_utf8_decode_utf8(s);
}

proof fn lemma_round_trip_optional(value: ValueModel, kind: KindModel, size: SizeType, rest: Seq<u8>)
    requires
        value is Optional,
        value.has_kind(kind),
        value.wf(),
        wire(value, size) is Some,
    ensures
        reads_back(value, kind, size, rest),
    decreases value, 0nat,
{
    let input = wire(value, size)->Some_0 + rest;
    match value->Optional_0 {
        None => {
            assert(input[0] == 0);
        },
        Some(inner) => {
            lemma_round_trip(*inner, *kind->Optional_0, size, rest);
            assert(input[0] == 1);
            assert(input.skip(1) =~= wire(*inner, size)->Some_0 + rest);
        },
    }
}

proof fn lemma_round_trip_tuple(value: ValueModel, kind: KindModel, size: SizeType, rest: Seq<u8>)
    requires
        value is Tuple,
        value.has_kind(kind),
        value.wf(),
        wire(value, size) is Some,
    ensures
        reads_back(value, kind, size, rest),
    decreases value, 0nat,
{
    let items = value->Tuple_0;
    lemma_round_trip_each(items, kind->Tuple_0, 0, size, rest);
    assert(items.skip(0) =~= items);
}

proof fn lemma_round_trip_aggregate(value: ValueModel, kind: KindModel, size: SizeType, rest: Seq<u8>)
    requires
        value is Aggregate,
        value.has_kind(kind),
        value.wf(),
        wire(value, size) is Some,
    ensures
        reads_back(value, kind, size, rest),
    decreases value, 0nat,
{
    let values = value->Aggregate_1;
    lemma_round_trip_each(values, kind->Aggregate_1, 0, size, rest);
    assert(values.skip(0) =~= values);
}

proof fn lemma_round_trip_sequence(value: ValueModel, kind: KindModel, size: SizeType, rest: Seq<u8>)
    requires
        value is Sequence,
        value.has_kind(kind),
        value.wf(),
        wire(value, size) is Some,
    ensures
        reads_back(value, kind, size, rest),
    decreases value, 0nat,
{
    let items = value->Sequence_0;
    let body = wire_all(items, 0, size)->Some_0;
    let input = wire(value, size)->Some_0 + rest;
    lemma_parse_count(items.len(), size, body + rest);
    assert(input =~= le_bytes(items.len(), size.width()) + (body + rest));
    lemma_round_trip_repeat(items, *kind->Sequence_0, 0, size, rest);
    assert(items.skip(0) =~= items);
}

proof fn lemma_round_trip_set(value: ValueModel, kind: KindModel, size: SizeType, rest: Seq<u8>)
    requires
        value is SetOf,
        value.has_kind(kind),
        value.wf(),
        wire(value, size) is Some,
    ensures
        reads_back(value, kind, size, rest),
    decreases value, 0nat,
{
    let items = value->SetOf_0;
    let body = wire_all(items, 0, size)->Some_0;
    let input = wire(value, size)->Some_0 + rest;
    lemma_parse_count(items.len(), size, body + rest);
    assert(input =~= le_bytes(items.len(), size.width()) + (body + rest));
    lemma_round_trip_repeat(items, *kind->SetOf_0, 0, size, rest);
    assert(items.skip(0) =~= items);
    lemma_dedup_distinct(items);
}

proof fn lemma_round_trip_map(value: ValueModel, kind: KindModel, size: SizeType, rest: Seq<u8>)
    requires
        value is MapOf,
        value.has_kind(kind),
        value.wf(),
        wire(value, size) is Some,
    ensures
        reads_back(value, kind, size, rest),
    decreases value, 0nat,
{
    let entries = value->MapOf_0;
    let body = wire_entries(entries, 0, size)->Some_0;
    let input = wire(value, size)->Some_0 + rest;
    lemma_parse_count(entries.len(), size, body + rest);
    assert(input =~= le_bytes(entries.len(), size.width()) + (body + rest));
    lemma_round_trip_entries(entries, kind, 0, size, rest);
    assert(entries.skip(0) =~= entries);
    lemma_merge_distinct(entries);
}

/// Round trip of values read one after another, each of its own type.
pub proof fn lemma_round_trip_each(
    items: Seq<ValueModel>,
    kinds: Seq<KindModel>,
    from: nat,
    size: SizeType,
    rest: Seq<u8>,
)
    requires
        from <= items.len() == kinds.len(),
        forall|i: int|
            from <= i < items.len() ==> (#[trigger] items[i]).has_kind(kinds[i]) && items[i].wf(),
        wire_all(items, from, size) is Some,
    ensures
        parse_each(kinds, from, wire_all(items, from, size)->Some_0 + rest, size) == Ok::<
            (Seq<ValueModel>, nat),
            ByteVecError,
        >((items.skip(from as int), wire_all(items, from, size)->Some_0.len())),
    decreases items, items.len() - from,
{
    if from < items.len() {
        let first = wire(items[from as int], size)->Some_0;
        let later = wire_all(items, from + 1, size)->Some_0;
        let input = (first + later) + rest;
        assert(input =~= first + (later + rest));
        lemma_round_trip(items[from as int], kinds[from as int], size, later + rest);
        assert(input.skip(first.len() as int) =~= later + rest);
        lemma_round_trip_each(items, kinds, from + 1, size, rest);
        assert(seq![items[from as int]] + items.skip(from as int + 1) =~= items.skip(from as int));
    } else {
        assert(items.skip(from as int) =~= Seq::empty());
    }
}

/// Round trip of values of one type read one after another.
pub proof fn lemma_round_trip_repeat(
    items: Seq<ValueModel>,
    elem: KindModel,
    from: nat,
    size: SizeType,
    rest: Seq<u8>,
)
    requires
        from <= items.len(),
        forall|i: int|
            from <= i < items.len() ==> (#[trigger] items[i]).has_kind(elem) && items[i].wf(),
        wire_all(items, from, size) is Some,
    ensures
        parse_repeat(
            elem,
            (items.len() - from) as nat,
            wire_all(items, from, size)->Some_0 + rest,
            size,
        ) == Ok::<(Seq<ValueModel>, nat), ByteVecError>(
            (items.skip(from as int), wire_all(items, from, size)->Some_0.len()),
        ),
    decreases items, items.len() - from,
{
    if from < items.len() {
        let first = wire(items[from as int], size)->Some_0;
        let later = wire_all(items, from + 1, size)->Some_0;
        let input = (first + later) + rest;
        assert(input =~= first + (later + rest));
        lemma_round_trip(items[from as int], elem, size, later + rest);
        assert(input.skip(first.len() as int) =~= later + rest);
        lemma_round_trip_repeat(items, elem, from + 1, size, rest);
        assert(seq![items[from as int]] + items.skip(from as int + 1) =~= items.skip(from as int));
    } else {
        assert(items.skip(from as int) =~= Seq::empty());
    }
}

/// Round trip of the entries of a map read one after another.
pub proof fn lemma_round_trip_entries(
    entries: Seq<(ValueModel, ValueModel)>,
    map: KindModel,
    from: nat,
    size: SizeType,
    rest: Seq<u8>,
)
    requires
        from <= entries.len(),
        map is MapOf,
        forall|i: int|
            from <= i < entries.len() ==> {
                &&& (#[trigger] entries[i]).0.has_kind(*map->MapOf_0)
                &&& entries[i].1.has_kind(*map->MapOf_1)
                &&& entries[i].0.wf()
                &&& entries[i].1.wf()
            },
        wire_entries(entries, from, size) is Some,
    ensures
        parse_entries(
            map,
            (entries.len() - from) as nat,
            wire_entries(entries, from, size)->Some_0 + rest,
            size,
        ) == Ok::<(Seq<(ValueModel, ValueModel)>, nat), ByteVecError>(
            (entries.skip(from as int), wire_entries(entries, from, size)->Some_0.len()),
        ),
    decreases entries, entries.len() - from,
{
    if from < entries.len() {
        let entry = entries[from as int];
        let key = wire(entry.0, size)->Some_0;
        let value = wire(entry.1, size)->Some_0;
        let later = wire_entries(entries, from + 1, size)->Some_0;
        let input = wire_entries(entries, from, size)->Some_0 + rest;
        let after_key = value + (later + rest);
        let after_value = later + rest;
        assert(input == key + after_key && input.skip(key.len() as int) == after_key) by {
            assert(input =~= key + after_key);
            assert((key + after_key).skip(key.len() as int) =~= after_key);
        }
        assert(after_key.skip(value.len() as int) == after_value) by {
            assert(after_key.skip(value.len() as int) =~= after_value);
        }
        let count = (entries.len() - from) as nat;
        let key_read = parse(*map->MapOf_0, input, size);
        let value_read = parse(*map->MapOf_1, input.skip(key.len() as int), size);
        let later_read = parse_entries(
            map,
            (count - 1) as nat,
            input.skip(key.len() as int).skip(value.len() as int),
            size,
        );
        assert(key_read == Ok::<(ValueModel, nat), ByteVecError>((entry.0, key.len()))) by {
            lemma_round_trip(entry.0, *map->MapOf_0, size, after_key);
        }
        assert(value_read == Ok::<(ValueModel, nat), ByteVecError>((entry.1, value.len()))) by {
            lemma_round_trip(entry.1, *map->MapOf_1, size, after_value);
        }
        assert(later_read == Ok::<(Seq<(ValueModel, ValueModel)>, nat), ByteVecError>(
            (entries.skip(from as int + 1), later.len()),
        )) by {
            lemma_round_trip_entries(entries, map, from + 1, size, rest);
        }
        assert(seq![(entry.0, entry.1)] + entries.skip(from as int + 1) == entries.skip(
            from as int,
        )) by {
            assert(seq![(entry.0, entry.1)] + entries.skip(from as int + 1) =~= entries.skip(
                from as int,
            ));
        }
        assert(parse_entries(map, count, input, size) == Ok::<
            (Seq<(ValueModel, ValueModel)>, nat),
            ByteVecError,
        >(
            (
                seq![(entry.0, entry.1)] + entries.skip(from as int + 1),
                key.len() + value.len() + later.len(),
            ),
        ));
        assert(key.len() + value.len() + later.len() == (key + value + later).len());
    } else {
        assert(entries.skip(from as int) =~= Seq::empty());
    }
}

/// Round trip: decoding the encoding of a value gives the value. It holds
/// of every value of type `kind` that has an encoding and in which no set
/// holds an item twice and no map a key twice.
pub proof fn law_round_trip(value: ValueModel, kind: KindModel, size: SizeType)
    requires
        value.has_kind(kind),
        value.wf(),
        wire(value, size) is Some,
    ensures
        parse(kind, wire(value, size)->Some_0, size) == Ok::<(ValueModel, nat), ByteVecError>(
            (value, wire(value, size)->Some_0.len()),
        ),
{
    lemma_round_trip(value, kind, size, Seq::empty());
    assert(wire(value, size)->Some_0 + Seq::<u8>::empty() =~= wire(value, size)->Some_0);
}

/// Round trip, of what the two calls return: where the encode of a value
/// succeeds, the decode of its bytes succeeds too and gives the value.
pub proof fn law_decode_inverts_encode(
    value: ValueModel,
    kind: KindModel,
    size: SizeType,
    encoded: Result<Vec<u8>, ByteVecError>,
    decoded: Result<Value, ByteVecError>,
)
    requires
        value.has_kind(kind),
        value.wf(),
        encode_outcome(value, size, encoded),
        encoded is Ok,
        decode_outcome(kind, encoded->Ok_0@, size, decoded),
    ensures
        decoded is Ok,
        decoded->Ok_0@ == value,
{
    law_round_trip(value, kind, size);
}

/// A value has an encoding exactly where each of its counts fits the
/// length prefix.
pub proof fn law_encodes_iff_fits(value: ValueModel, size: SizeType)
    ensures
        wire(value, size) is Some <==> fits(value, size),
    decreases value, 0nat,
{
    match value {
        ValueModel::Prim(_) => {},
        ValueModel::Text(_) => {},
        ValueModel::Optional(None) => {},
        ValueModel::Optional(Some(inner)) => {
            law_encodes_iff_fits(*inner, size);
        },
        ValueModel::Tuple(items) => {
            lemma_all_encode_iff_fit(items, 0, size);
        },
        ValueModel::Sequence(items) => {
            lemma_all_encode_iff_fit(items, 0, size);
        },
        ValueModel::SetOf(items) => {
            lemma_all_encode_iff_fit(items, 0, size);
        },
        ValueModel::MapOf(entries) => {
            lemma_entries_encode_iff_fit(entries, 0, size);
        },
        ValueModel::Aggregate(_, values) => {
            lemma_all_encode_iff_fit(values, 0, size);
        },
    }
}

proof fn lemma_all_encode_iff_fit(items: Seq<ValueModel>, from: nat, size: SizeType)
    ensures
        wire_all(items, from, size) is Some <==> forall|i: int|
            from <= i < items.len() ==> fits(#[trigger] items[i], size),
    decreases items, items.len() - from,
{
    if from < items.len() {
        law_encodes_iff_fits(items[from as int], size);
        lemma_all_encode_iff_fit(items, from + 1, size);
    }
}

proof fn lemma_entries_encode_iff_fit(
    entries: Seq<(ValueModel, ValueModel)>,
    from: nat,
    size: SizeType,
)
    ensures
        wire_entries(entries, from, size) is Some <==> forall|i: int|
            from <= i < entries.len() ==> fits((#[trigger] entries[i]).0, size) && fits(
                entries[i].1,
                size,
            ),
    decreases entries, entries.len() - from,
{
    if from < entries.len() {
        law_encodes_iff_fits(entries[from as int].0, size);
        law_encodes_iff_fits(entries[from as int].1, size);
        lemma_entries_encode_iff_fit(entries, from + 1, size);
    }
}

/// Overflow boundary: a sequence of items that have encodings has one
/// itself up to the largest count of the length prefix, and none from one
/// item more.
pub proof fn law_overflow_boundary(items: Seq<ValueModel>, size: SizeType)
    requires
        forall|i: int| 0 <= i < items.len() ==> fits(#[trigger] items[i], size),
    ensures
        items.len() <= size.max_count() ==> wire(ValueModel::Sequence(items), size) is Some,
        items.len() > size.max_count() ==> wire(ValueModel::Sequence(items), size) is None,
        items.len() <= size.max_count() <==> wire(ValueModel::SetOf(items), size) is Some,
{
    law_encodes_iff_fits(ValueModel::Sequence(items), size);
    law_encodes_iff_fits(ValueModel::SetOf(items), size);
}

/// An empty sequence, set or map is read back as such, whatever the type
/// of its items and the width of the length prefix.
pub proof fn law_empty_containers(elem: KindModel, value_kind: KindModel, size: SizeType)
    ensures
        parse(
            KindModel::Sequence(Box::new(elem)),
            wire(ValueModel::Sequence(Seq::empty()), size)->Some_0,
            size,
        ) == Ok::<(ValueModel, nat), ByteVecError>(
            (ValueModel::Sequence(Seq::empty()), size.width()),
        ),
        parse(
            KindModel::SetOf(Box::new(elem)),
            wire(ValueModel::SetOf(Seq::empty()), size)->Some_0,
            size,
        ) == Ok::<(ValueModel, nat), ByteVecError>((ValueModel::SetOf(Seq::empty()), size.width())),
        parse(
            KindModel::MapOf(Box::new(elem), Box::new(value_kind)),
            wire(ValueModel::MapOf(Seq::empty()), size)->Some_0,
            size,
        ) == Ok::<(ValueModel, nat), ByteVecError>((ValueModel::MapOf(Seq::empty()), size.width())),
{
    let none = Seq::<ValueModel>::empty();
    let no_entries = Seq::<(ValueModel, ValueModel)>::empty();
    let prefix = le_bytes(0, size.width());
    lemma_le_bytes_len(0, size.width());
    assert(keys_of(no_entries) =~= Seq::<ValueModel>::empty());
    assert(wire_all(none, 0, size) == Some(Seq::<u8>::empty()));
    assert(wire_entries(no_entries, 0, size) == Some(Seq::<u8>::empty()));
    assert(prefix + Seq::<u8>::empty() =~= prefix);
    law_encodes_iff_fits(ValueModel::Sequence(none), size);
    law_encodes_iff_fits(ValueModel::SetOf(none), size);
    law_encodes_iff_fits(ValueModel::MapOf(no_entries), size);
    law_round_trip(ValueModel::Sequence(none), KindModel::Sequence(Box::new(elem)), size);
    law_round_trip(ValueModel::SetOf(none), KindModel::SetOf(Box::new(elem)), size);
    law_round_trip(
        ValueModel::MapOf(no_entries),
        KindModel::MapOf(Box::new(elem), Box::new(value_kind)),
        size,
    );
}

/// An optional value of fixed width, absent or present, is read back.
pub proof fn law_optional_round_trip(p: Primitive, size: SizeType)
    ensures
        parse(
            KindModel::Optional(Box::new(KindModel::Prim(p.kind()))),
            wire(ValueModel::Optional(None), size)->Some_0,
            size,
        ) == Ok::<(ValueModel, nat), ByteVecError>((ValueModel::Optional(None), 1)),
        parse(
            KindModel::Optional(Box::new(KindModel::Prim(p.kind()))),
            wire(ValueModel::Optional(Some(Box::new(ValueModel::Prim(p)))), size)->Some_0,
            size,
        ) == Ok::<(ValueModel, nat), ByteVecError>(
            (ValueModel::Optional(Some(Box::new(ValueModel::Prim(p)))), 1 + p.kind().width()),
        ),
{
    let kind = KindModel::Optional(Box::new(KindModel::Prim(p.kind())));
    let present = ValueModel::Optional(Some(Box::new(ValueModel::Prim(p))));
    p.lemma_round_trip();
    assert(ValueModel::Prim(p).has_kind(KindModel::Prim(p.kind())));
    assert(ValueModel::Prim(p).wf());
    assert(wire(ValueModel::Prim(p), size) == Some(p.wire()));
    law_round_trip(ValueModel::Optional(None), kind, size);
    law_round_trip(present, kind, size);
}

/// Two decodes of one input end alike: both fail with the same error, the
/// same relation, threshold and found value in it, or both give the same
/// value.
pub proof fn law_decode_is_deterministic(
    kind: KindModel,
    bytes: Seq<u8>,
    size: SizeType,
    first: Result<Value, ByteVecError>,
    second: Result<Value, ByteVecError>,
)
    requires
        decode_outcome(kind, bytes, size, first),
        decode_outcome(kind, bytes, size, second),
    ensures
        first is Err <==> second is Err,
        first is Err ==> first->Err_0 == second->Err_0,
        first is Ok ==> first->Ok_0@ == second->Ok_0@,
{
}

} // verus!
