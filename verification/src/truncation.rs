//! Truncation: an encoding that was cut short is never read as a value.

use crate::bounds::{short_input, SizeType};
use crate::errors::{BVExpectedSize, ByteVecError};
use crate::format::{
    parse, parse_count, parse_each, parse_entries, parse_repeat, parse_text, wire, wire_all,
    wire_entries,
};
use crate::laws::{lemma_parse_count, lemma_round_trip, reads_back};
use crate::le::le_bytes;
use crate::value::{KindModel, ValueModel};
use vstd::prelude::*;
use vstd::utf8::encode_utf8;

verus! {

/// Whether `e` reports that more bytes were needed than were left: the
/// number of bytes found is not above the threshold it had to pass.
pub open spec fn is_shortfall(e: ByteVecError) -> bool {
    match e {
        ByteVecError::BadSizeDecodeError { expected: BVExpectedSize::MoreThan(threshold), actual } =>
            actual <= threshold,
        _ => false,
    }
}

/// Whether decoding `input` as a value of type `kind` fails for want of
/// bytes.
pub open spec fn too_short(kind: KindModel, input: Seq<u8>, size: SizeType) -> bool {
    parse(kind, input, size) is Err && is_shortfall(parse(kind, input, size)->Err_0)
}

/// The first `cut` bytes of two byte sequences, one after the other.
pub proof fn lemma_take_of_concat(a: Seq<u8>, b: Seq<u8>, cut: nat)
    requires
        cut <= a.len() + b.len(),
    ensures
        cut <= a.len() ==> (a + b).take(cut as int) == a.take(cut as int),
        cut >= a.len() ==> (a + b).take(cut as int) == a + b.take(cut - a.len()),
        cut >= a.len() ==> (a + b).take(cut as int).skip(a.len() as int) == b.take(
            cut - a.len(),
        ),
{
    if cut <= a.len() {
        assert((a + b).take(cut as int) =~= a.take(cut as int));
    }
    if cut >= a.len() {
        assert((a + b).take(cut as int) =~= a + b.take(cut - a.len()));
        assert((a + b.take(cut - a.len())).skip(a.len() as int) =~= b.take(cut - a.len()));
    }
}

/// A count prefix that was cut, or a counted payload: the prefix alone
/// fails for want of bytes, and behind a whole prefix the count is read.
proof fn lemma_cut_counted(count: nat, size: SizeType, body: Seq<u8>, cut: nat)
    requires
        count <= size.max_count(),
        cut <= size.width() + body.len(),
    ensures
        cut < size.width() ==> parse_count(
            (le_bytes(count, size.width()) + body).take(cut as int),
            size,
        ) == Err::<nat, ByteVecError>(short_input(cut as int, size.width() as int)),
        cut >= size.width() ==> parse_count(
            (le_bytes(count, size.width()) + body).take(cut as int),
            size,
        ) == Ok::<nat, ByteVecError>(count) && (le_bytes(count, size.width()) + body).take(
            cut as int,
        ).skip(size.width() as int) == body.take(cut - size.width()),
{
    let prefix = le_bytes(count, size.width());
    lemma_parse_count(count, size, body.take(cut - size.width()));
    lemma_take_of_concat(prefix, body, cut);
}

/// Truncation: of the encoding of a value, no proper beginning is read as
/// a value of its type. The decode fails, and its error says that more
/// bytes were needed than were left.
pub proof fn law_truncation(value: ValueModel, kind: KindModel, size: SizeType, cut: nat)
    requires
        value.has_kind(kind),
        value.wf(),
        wire(value, size) is Some,
        cut < wire(value, size)->Some_0.len(),
    ensures
        too_short(kind, wire(value, size)->Some_0.take(cut as int), size),
    decreases value, 1nat,
{
    match value {
        ValueModel::Prim(_) => lemma_cut_prim(value, kind, size, cut),
        ValueModel::Text(_) => lemma_cut_text(value, kind, size, cut),
        ValueModel::Optional(_) => lemma_cut_optional(value, kind, size, cut),
        ValueModel::Tuple(_) => lemma_cut_tuple(value, kind, size, cut),
        ValueModel::Sequence(_) => lemma_cut_sequence(value, kind, size, cut),
        ValueModel::SetOf(_) => lemma_cut_set(value, kind, size, cut),
        ValueModel::MapOf(_) => lemma_cut_map(value, kind, size, cut),
        ValueModel::Aggregate(_, _) => lemma_cut_aggregate(value, kind, size, cut),
    }
}

proof fn lemma_cut_prim(value: ValueModel, kind: KindModel, size: SizeType, cut: nat)
    requires
        value is Prim,
        value.has_kind(kind),
        cut < wire(value, size)->Some_0.len(),
    ensures
        too_short(kind, wire(value, size)->Some_0.take(cut as int), size),
{
    value->Prim_0.lemma_round_trip();
}

proof fn lemma_cut_text(value: ValueModel, kind: KindModel, size: SizeType, cut: nat)
    requires
        value is Text,
        value.has_kind(kind),
        wire(value, size) is Some,
        cut < wire(value, size)->Some_0.len(),
    ensures
        too_short(kind, wire(value, size)->Some_0.take(cut as int), size),
{
    let payload = encode_utf8(value->Text_0);
    let input = wire(value, size)->Some_0.take(cut as int);
    lemma_parse_count(payload.len(), size, payload);
    lemma_cut_counted(payload.len(), size, payload, cut);
    if cut >= size.width() {
        assert(parse_text(input, size) == Err::<(ValueModel, nat), ByteVecError>(
            short_input(cut - size.width(), payload.len() as int),
        ));
    }
}

proof fn lemma_cut_optional(value: ValueModel, kind: KindModel, size: SizeType, cut: nat)
    requires
        value is Optional,
        value.has_kind(kind),
        value.wf(),
        wire(value, size) is Some,
        cut < wire(value, size)->Some_0.len(),
    ensures
        too_short(kind, wire(value, size)->Some_0.take(cut as int), size),
    decreases value, 0nat,
{
    let input = wire(value, size)->Some_0.take(cut as int);
    match value->Optional_0 {
        None => {},
        Some(inner) => {
            if cut >= 1 {
                let body = wire(*inner, size)->Some_0;
                lemma_take_of_concat(seq![1u8], body, cut);
                law_truncation(*inner, *kind->Optional_0, size, (cut - 1) as nat);
                assert(input[0] == 1);
            }
        },
    }
}

proof fn lemma_cut_tuple(value: ValueModel, kind: KindModel, size: SizeType, cut: nat)
    requires
        value is Tuple,
        value.has_kind(kind),
        value.wf(),
        wire(value, size) is Some,
        cut < wire(value, size)->Some_0.len(),
    ensures
        too_short(kind, wire(value, size)->Some_0.take(cut as int), size),
    decreases value, 0nat,
{
    lemma_cut_each(value->Tuple_0, kind->Tuple_0, 0, size, cut);
}

proof fn lemma_cut_aggregate(value: ValueModel, kind: KindModel, size: SizeType, cut: nat)
    requires
        value is Aggregate,
        value.has_kind(kind),
        value.wf(),
        wire(value, size) is Some,
        cut < wire(value, size)->Some_0.len(),
    ensures
        too_short(kind, wire(value, size)->Some_0.take(cut as int), size),
    decreases value, 0nat,
{
    lemma_cut_each(value->Aggregate_1, kind->Aggregate_1, 0, size, cut);
}

proof fn lemma_cut_sequence(value: ValueModel, kind: KindModel, size: SizeType, cut: nat)
    requires
        value is Sequence,
        value.has_kind(kind),
        value.wf(),
        wire(value, size) is Some,
        cut < wire(value, size)->Some_0.len(),
    ensures
        too_short(kind, wire(value, size)->Some_0.take(cut as int), size),
    decreases value, 0nat,
{
    let items = value->Sequence_0;
    let body = wire_all(items, 0, size)->Some_0;
    lemma_parse_count(items.len(), size, body);
    lemma_cut_counted(items.len(), size, body, cut);
    if cut >= size.width() {
        lemma_cut_repeat(items, *kind->Sequence_0, 0, size, (cut - size.width()) as nat);
    }
}

proof fn lemma_cut_set(value: ValueModel, kind: KindModel, size: SizeType, cut: nat)
    requires
        value is SetOf,
        value.has_kind(kind),
        value.wf(),
        wire(value, size) is Some,
        cut < wire(value, size)->Some_0.len(),
    ensures
        too_short(kind, wire(value, size)->Some_0.take(cut as int), size),
    decreases value, 0nat,
{
    let items = value->SetOf_0;
    let body = wire_all(items, 0, size)->Some_0;
    lemma_parse_count(items.len(), size, body);
    lemma_cut_counted(items.len(), size, body, cut);
    if cut >= size.width() {
        lemma_cut_repeat(items, *kind->SetOf_0, 0, size, (cut - size.width()) as nat);
    }
}

proof fn lemma_cut_map(value: ValueModel, kind: KindModel, size: SizeType, cut: nat)
    requires
        value is MapOf,
        value.has_kind(kind),
        value.wf(),
        wire(value, size) is Some,
        cut < wire(value, size)->Some_0.len(),
    ensures
        too_short(kind, wire(value, size)->Some_0.take(cut as int), size),
    decreases value, 0nat,
{
    let entries = value->MapOf_0;
    let body = wire_entries(entries, 0, size)->Some_0;
    lemma_parse_count(entries.len(), size, body);
    lemma_cut_counted(entries.len(), size, body, cut);
    if cut >= size.width() {
        lemma_cut_entries(entries, kind, 0, size, (cut - size.width()) as nat);
    }
}

/// Values read one after another, each of its own type, from an encoding
/// that was cut.
proof fn lemma_cut_each(
    items: Seq<ValueModel>,
    kinds: Seq<KindModel>,
    from: nat,
    size: SizeType,
    cut: nat,
)
    requires
        from <= items.len() == kinds.len(),
        forall|i: int|
            from <= i < items.len() ==> (#[trigger] items[i]).has_kind(kinds[i]) && items[i].wf(),
        wire_all(items, from, size) is Some,
        cut < wire_all(items, from, size)->Some_0.len(),
    ensures
        parse_each(kinds, from, wire_all(items, from, size)->Some_0.take(cut as int), size) is Err,
        is_shortfall(
            parse_each(
                kinds,
                from,
                wire_all(items, from, size)->Some_0.take(cut as int),
                size,
            )->Err_0,
        ),
    decreases items, items.len() - from,
{
    if from < items.len() {
        let first = wire(items[from as int], size)->Some_0;
        let later = wire_all(items, from + 1, size)->Some_0;
        let input = (first + later).take(cut as int);
        lemma_take_of_concat(first, later, cut);
        if cut < first.len() {
            law_truncation(items[from as int], kinds[from as int], size, cut);
        } else {
            let left = later.take(cut - first.len());
            assert(parse(kinds[from as int], input, size) == Ok::<(ValueModel, nat), ByteVecError>(
                (items[from as int], first.len()),
            )) by {
                lemma_round_trip(items[from as int], kinds[from as int], size, left);
            }
            lemma_cut_each(items, kinds, from + 1, size, (cut - first.len()) as nat);
        }
    }
}

/// Values of one type read one after another from an encoding that was
/// cut.
proof fn lemma_cut_repeat(
    items: Seq<ValueModel>,
    elem: KindModel,
    from: nat,
    size: SizeType,
    cut: nat,
)
    requires
        from <= items.len(),
        forall|i: int|
            from <= i < items.len() ==> (#[trigger] items[i]).has_kind(elem) && items[i].wf(),
        wire_all(items, from, size) is Some,
        cut < wire_all(items, from, size)->Some_0.len(),
    ensures
        parse_repeat(
            elem,
            (items.len() - from) as nat,
            wire_all(items, from, size)->Some_0.take(cut as int),
            size,
        ) is Err,
        is_shortfall(
            parse_repeat(
                elem,
                (items.len() - from) as nat,
                wire_all(items, from, size)->Some_0.take(cut as int),
                size,
            )->Err_0,
        ),
    decreases items, items.len() - from,
{
    if from < items.len() {
        let first = wire(items[from as int], size)->Some_0;
        let later = wire_all(items, from + 1, size)->Some_0;
        let input = (first + later).take(cut as int);
        lemma_take_of_concat(first, later, cut);
        if cut < first.len() {
            law_truncation(items[from as int], elem, size, cut);
        } else {
            let left = later.take(cut - first.len());
            assert(parse(elem, input, size) == Ok::<(ValueModel, nat), ByteVecError>(
                (items[from as int], first.len()),
            )) by {
                lemma_round_trip(items[from as int], elem, size, left);
            }
            lemma_cut_repeat(items, elem, from + 1, size, (cut - first.len()) as nat);
        }
    }
}

/// The entries of a map read one after another from an encoding that was
/// cut.
proof fn lemma_cut_entries(
    entries: Seq<(ValueModel, ValueModel)>,
    map: KindModel,
    from: nat,
    size: SizeType,
    cut: nat,
)
    requires
        from <= entries.len(),
        map is MapOf,
        forall|i: int|
            from <= i < entries.len() ==> {
                &&& (#[trigger] entries[i]).0.has_kind(*map->MapOf_0)
                &&& entries[i].1.has_kind(*map->MapOf_1)
                &&& entries[i].0.wf()
                &&& entries[i].1.wf()
            },
        wire_entries(entries, from, size) is Some,
        cut < wire_entries(entries, from, size)->Some_0.len(),
    ensures
        parse_entries(
            map,
            (entries.len() - from) as nat,
            wire_entries(entries, from, size)->Some_0.take(cut as int),
            size,
        ) is Err,
        is_shortfall(
            parse_entries(
                map,
                (entries.len() - from) as nat,
                wire_entries(entries, from, size)->Some_0.take(cut as int),
                size,
            )->Err_0,
        ),
    decreases entries, entries.len() - from,
{
    if from < entries.len() {
        let entry = entries[from as int];
        let key = wire(entry.0, size)->Some_0;
        let value = wire(entry.1, size)->Some_0;
        let later = wire_entries(entries, from + 1, size)->Some_0;
        let behind_key = value + later;
        let input = (key + behind_key).take(cut as int);
        assert(wire_entries(entries, from, size)->Some_0 == key + behind_key) by {
            assert(key + value + later =~= key + behind_key);
        }
        lemma_take_of_concat(key, behind_key, cut);
        if cut < key.len() {
            law_truncation(entry.0, *map->MapOf_0, size, cut);
        } else {
            let cut_value = (cut - key.len()) as nat;
            let at_value = behind_key.take(cut_value as int);
            assert(parse(*map->MapOf_0, input, size) == Ok::<(ValueModel, nat), ByteVecError>(
                (entry.0, key.len()),
            )) by {
                lemma_round_trip(entry.0, *map->MapOf_0, size, at_value);
            }
            assert(input.skip(key.len() as int) == at_value);
            lemma_take_of_concat(value, later, cut_value);
            if cut_value < value.len() {
                law_truncation(entry.1, *map->MapOf_1, size, cut_value);
            } else {
                let left = later.take(cut_value - value.len());
                assert(parse(*map->MapOf_1, at_value, size) == Ok::<
                    (ValueModel, nat),
                    ByteVecError,
                >((entry.1, value.len()))) by {
                    lemma_round_trip(entry.1, *map->MapOf_1, size, left);
                }
                assert(at_value.skip(value.len() as int) == left);
                lemma_cut_entries(entries, map, from + 1, size, (cut_value - value.len()) as nat);
            }
        }
    }
}

} // verus!
