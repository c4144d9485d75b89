//! Soundness of decoding: what is read is a valid value of the type asked
//! for, and it is read from the bytes that are there.

use crate::bounds::SizeType;
use crate::format::{
    dedup, insert_unique, key_index, merge, parse, parse_each, parse_entries, parse_repeat, upsert,
};
use crate::value::{keys_of, KindModel, ValueModel};
use vstd::prelude::*;

verus! {

/// Whether a decode of `input` as a value of type `kind`, where it
/// succeeds, reads no more bytes than `input` has and gives a value of
/// type `kind` in which no set holds an item twice and no map a key twice.
pub open spec fn sound(kind: KindModel, input: Seq<u8>, size: SizeType) -> bool {
    parse(kind, input, size) matches Ok((value, n)) ==> {
        &&& n <= input.len()
        &&& value.has_kind(kind)
        &&& value.wf()
    }
}

/// Whether every item of `items` is a valid value of type `kind`.
pub open spec fn all_valid(items: Seq<ValueModel>, kind: KindModel) -> bool {
    forall|i: int| 0 <= i < items.len() ==> (#[trigger] items[i]).has_kind(kind) && items[i].wf()
}

/// Whether every entry of `entries` is a valid key of type `key` with a
/// valid value of type `value`.
pub open spec fn all_valid_entries(
    entries: Seq<(ValueModel, ValueModel)>,
    key: KindModel,
    value: KindModel,
) -> bool {
    forall|i: int|
        0 <= i < entries.len() ==> {
            &&& (#[trigger] entries[i]).0.has_kind(key)
            &&& entries[i].0.wf()
            &&& entries[i].1.has_kind(value)
            &&& entries[i].1.wf()
        }
}

/// A set built by insertion holds no item twice, and only items that were
/// inserted.
pub proof fn lemma_dedup_valid(items: Seq<ValueModel>, kind: KindModel)
    requires
        all_valid(items, kind),
    ensures
        dedup(items).no_duplicates(),
        all_valid(dedup(items), kind),
    decreases items.len(),
{
    if items.len() > 0 {
        let init = items.drop_last();
        assert forall|i: int| 0 <= i < init.len() implies (#[trigger] init[i]).has_kind(kind)
            && init[i].wf() by {
            assert(init[i] == items[i]);
        }
        lemma_dedup_valid(init, kind);
        let acc = dedup(init);
        let last = items.last();
        assert(last == items[items.len() - 1]);
        if !acc.contains(last) {
            let out = acc.push(last);
            assert forall|i: int, j: int|
                0 <= i < out.len() && 0 <= j < out.len() && i != j implies out[i] != out[j] by {
                if i < acc.len() {
                    assert(acc.contains(out[i]));
                }
                if j < acc.len() {
                    assert(acc.contains(out[j]));
                }
            }
            assert forall|i: int| 0 <= i < out.len() implies (#[trigger] out[i]).has_kind(kind)
                && out[i].wf() by {
                if i < acc.len() {
                    assert(out[i] == acc[i]);
                }
            }
        }
    }
}

/// Where the first entry with a key stands: at an entry with that key, or
/// behind the last entry where no entry has it.
pub proof fn lemma_key_index(entries: Seq<(ValueModel, ValueModel)>, key: ValueModel)
    ensures
        key_index(entries, key) <= entries.len(),
        key_index(entries, key) < entries.len() ==> entries[key_index(entries, key) as int].0
            == key,
        key_index(entries, key) == entries.len() ==> forall|i: int|
            0 <= i < entries.len() ==> (#[trigger] entries[i]).0 != key,
    decreases entries.len(),
{
    if entries.len() > 0 && entries[0].0 != key {
        let tail = entries.drop_first();
        lemma_key_index(tail, key);
        if key_index(entries, key) < entries.len() {
            assert(tail[key_index(tail, key) as int] == entries[key_index(entries, key) as int]);
        } else {
            assert forall|i: int| 0 <= i < entries.len() implies (#[trigger] entries[i]).0
                != key by {
                if i > 0 {
                    assert(tail[i - 1] == entries[i]);
                }
            }
        }
    }
}

/// A map built by insertion holds no key twice, and only keys and values
/// that were inserted.
pub proof fn lemma_merge_valid(
    entries: Seq<(ValueModel, ValueModel)>,
    key: KindModel,
    value: KindModel,
)
    requires
        all_valid_entries(entries, key, value),
    ensures
        keys_of(merge(entries)).no_duplicates(),
        all_valid_entries(merge(entries), key, value),
    decreases entries.len(),
{
    if entries.len() > 0 {
        let init = entries.drop_last();
        assert forall|i: int| 0 <= i < init.len() implies {
            &&& (#[trigger] init[i]).0.has_kind(key)
            &&& init[i].0.wf()
            &&& init[i].1.has_kind(value)
            &&& init[i].1.wf()
        } by {
            assert(init[i] == entries[i]);
        }
        lemma_merge_valid(init, key, value);
        let acc = merge(init);
        let last = entries.last();
        assert(last == entries[entries.len() - 1]);
        lemma_key_index(acc, last.0);
        let at = key_index(acc, last.0);
        let out = upsert(acc, last.0, last.1);
        assert forall|i: int| 0 <= i < out.len() implies {
            &&& (#[trigger] out[i]).0.has_kind(key)
            &&& out[i].0.wf()
            &&& out[i].1.has_kind(value)
            &&& out[i].1.wf()
        } by {
            if i < acc.len() && i != at {
                assert(out[i] == acc[i]);
            }
        }
        assert forall|i: int, j: int|
            0 <= i < out.len() && 0 <= j < out.len() && i != j implies keys_of(out)[i] != keys_of(
            out,
        )[j] by {
            if at < acc.len() {
                assert(keys_of(out)[i] == keys_of(acc)[i]);
                assert(keys_of(out)[j] == keys_of(acc)[j]);
            } else {
                if i < acc.len() {
                    assert(keys_of(out)[i] == keys_of(acc)[i]);
                    assert(acc[i].0 != last.0);
                }
                if j < acc.len() {
                    assert(keys_of(out)[j] == keys_of(acc)[j]);
                    assert(acc[j].0 != last.0);
                }
            }
        }
    } else {
        assert(keys_of(merge(entries)) =~= Seq::<ValueModel>::empty());
    }
}

/// Decoding is sound: where it succeeds, it has read no more bytes than
/// the input has, and what it gives is a value of the type asked for, in
/// which no set holds an item twice and no map a key twice.
pub proof fn law_decoding_is_sound(kind: KindModel, input: Seq<u8>, size: SizeType)
    ensures
        sound(kind, input, size),
    decreases kind, 3nat, 0nat,
{
    match kind {
        KindModel::Prim(_) => {},
        KindModel::Text => {},
        KindModel::Optional(inner) => {
            if input.len() >= 1 && input[0] == 1 {
                law_decoding_is_sound(*inner, input.skip(1), size);
            }
        },
        KindModel::Tuple(kinds) => {
            lemma_each_sound(kinds, 0, input, size);
        },
        KindModel::Sequence(elem) => {
            lemma_counted_sound(kind, input, size);
        },
        KindModel::SetOf(elem) => {
            lemma_counted_sound(kind, input, size);
        },
        KindModel::MapOf(_, _) => {
            lemma_counted_sound(kind, input, size);
        },
        KindModel::Aggregate(_, kinds) => {
            lemma_each_sound(kinds, 0, input, size);
        },
    }
}

/// Soundness of decoding a sequence, a set or a map.
proof fn lemma_counted_sound(kind: KindModel, input: Seq<u8>, size: SizeType)
    requires
        kind is Sequence || kind is SetOf || kind is MapOf,
    ensures
        sound(kind, input, size),
    decreases kind, 2nat, 0nat,
{
    if input.len() >= size.width() {
        let count = crate::le::le_value(input.take(size.width() as int));
        let body = input.skip(size.width() as int);
        match kind {
            KindModel::Sequence(elem) => {
                lemma_repeat_sound(*elem, count, body, size);
            },
            KindModel::SetOf(elem) => {
                lemma_repeat_sound(*elem, count, body, size);
                if parse_repeat(*elem, count, body, size) is Ok {
                    lemma_dedup_valid(parse_repeat(*elem, count, body, size)->Ok_0.0, *elem);
                }
            },
            KindModel::MapOf(key, value) => {
                lemma_entries_sound(kind, count, body, size);
                if parse_entries(kind, count, body, size) is Ok {
                    lemma_merge_valid(
                        parse_entries(kind, count, body, size)->Ok_0.0,
                        *key,
                        *value,
                    );
                }
            },
            _ => {},
        }
    }
}

/// Soundness of decoding values one after another, each of its own type.
proof fn lemma_each_sound(kinds: Seq<KindModel>, from: nat, input: Seq<u8>, size: SizeType)
    requires
        from <= kinds.len(),
    ensures
        parse_each(kinds, from, input, size) matches Ok((items, n)) ==> {
            &&& n <= input.len()
            &&& items.len() == kinds.len() - from
            &&& forall|i: int|
                0 <= i < items.len() ==> (#[trigger] items[i]).has_kind(kinds[from + i])
                    && items[i].wf()
        },
    decreases kinds, 0nat, kinds.len() - from,
{
    if from < kinds.len() {
        law_decoding_is_sound(kinds[from as int], input, size);
        match parse(kinds[from as int], input, size) {
            Ok((first, n)) => {
                lemma_each_sound(kinds, from + 1, input.skip(n as int), size);
                match parse_each(kinds, from + 1, input.skip(n as int), size) {
                    Ok((rest, m)) => {
                        let items = seq![first] + rest;
                        assert forall|i: int| 0 <= i < items.len() implies (#[trigger] items[i])
                            .has_kind(kinds[from + i]) && items[i].wf() by {
                            if i > 0 {
                                assert(items[i] == rest[i - 1]);
                            }
                        }
                    },
                    Err(_) => {},
                }
            },
            Err(_) => {},
        }
    }
}

/// Soundness of decoding values of one type one after another.
proof fn lemma_repeat_sound(elem: KindModel, count: nat, input: Seq<u8>, size: SizeType)
    ensures
        parse_repeat(elem, count, input, size) matches Ok((items, n)) ==> {
            &&& n <= input.len()
            &&& items.len() == count
            &&& all_valid(items, elem)
        },
    decreases elem, 4nat, count,
{
    if count > 0 {
        law_decoding_is_sound(elem, input, size);
        match parse(elem, input, size) {
            Ok((first, n)) => {
                lemma_repeat_sound(elem, (count - 1) as nat, input.skip(n as int), size);
                match parse_repeat(elem, (count - 1) as nat, input.skip(n as int), size) {
                    Ok((rest, m)) => {
                        let items = seq![first] + rest;
                        assert forall|i: int| 0 <= i < items.len() implies (#[trigger] items[i])
                            .has_kind(elem) && items[i].wf() by {
                            if i > 0 {
                                assert(items[i] == rest[i - 1]);
                            }
                        }
                    },
                    Err(_) => {},
                }
            },
            Err(_) => {},
        }
    }
}

/// Soundness of decoding the entries of a map one after another.
proof fn lemma_entries_sound(map: KindModel, count: nat, input: Seq<u8>, size: SizeType)
    requires
        map is MapOf,
    ensures
        parse_entries(map, count, input, size) matches Ok((entries, n)) ==> {
            &&& n <= input.len()
            &&& entries.len() == count
            &&& all_valid_entries(entries, *map->MapOf_0, *map->MapOf_1)
        },
    decreases map, 1nat, count,
{
    if count > 0 {
        let key_kind = *map->MapOf_0;
        let value_kind = *map->MapOf_1;
        law_decoding_is_sound(key_kind, input, size);
        match parse(key_kind, input, size) {
            Ok((key, n)) => {
                let at_value = input.skip(n as int);
                law_decoding_is_sound(value_kind, at_value, size);
                match parse(value_kind, at_value, size) {
                    Ok((value, m)) => {
                        let behind = at_value.skip(m as int);
                        lemma_entries_sound(map, (count - 1) as nat, behind, size);
                        match parse_entries(map, (count - 1) as nat, behind, size) {
                            Ok((rest, k)) => {
                                let entries = seq![(key, value)] + rest;
                                assert forall|i: int| 0 <= i < entries.len() implies {
                                    &&& (#[trigger] entries[i]).0.has_kind(key_kind)
                                    &&& entries[i].0.wf()
                                    &&& entries[i].1.has_kind(value_kind)
                                    &&& entries[i].1.wf()
                                } by {
                                    if i > 0 {
                                        assert(entries[i] == rest[i - 1]);
                                    }
                                }
                            },
                            Err(_) => {},
                        }
                    },
                    Err(_) => {},
                }
            },
            Err(_) => {},
        }
    }
}

} // verus!
