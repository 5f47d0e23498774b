//! The bencode writer.
use vstd::prelude::*;
use crate::bencode::object::{
    Object, Value, value_wf, object_view, list_view, dict_view, lemma_list_view, lemma_dict_view,
};
use crate::decimal::{nat_digits, int_digits, render_u64, render_i64};

verus! {

pub const NUMBER_START: u8 = 105;
pub const NUMBER_END: u8 = 101;
pub const LIST_START: u8 = 108;
pub const LIST_END: u8 = 101;
pub const DICTIONARY_START: u8 = 100;
pub const DICTIONARY_END: u8 = 101;
pub const BYTE_ARRAY_DIVIDER: u8 = 58;

/// A byte string: its length in decimal, a colon, then the bytes.
pub open spec fn encode_bytes(b: Seq<u8>) -> Seq<u8> {
    nat_digits(b.len()) + seq![BYTE_ARRAY_DIVIDER] + b
}

/// The bencode text of a value.
pub open spec fn encode_value(v: Value) -> Seq<u8>
    decreases v,
{
    match v {
        Value::Number(n) => seq![NUMBER_START] + int_digits(n) + seq![NUMBER_END],
        Value::ByteArray(b) => encode_bytes(b),
        Value::List(l) => seq![LIST_START] + encode_items(l) + seq![LIST_END],
        Value::Dictionary(d) => seq![DICTIONARY_START] + encode_entries(d) + seq![DICTIONARY_END],
    }
}

/// The encodings of the items of a list, one after another.
pub open spec fn encode_items(l: Seq<Value>) -> Seq<u8>
    decreases l,
{
    if l.len() == 0 {
        Seq::empty()
    } else {
        encode_items(l.subrange(0, l.len() - 1)) + encode_value(l[l.len() - 1])
    }
}

/// The entries of a dictionary, each as its key and then its value.
pub open spec fn encode_entries(d: Seq<(Seq<u8>, Value)>) -> Seq<u8>
    decreases d,
{
    if d.len() == 0 {
        Seq::empty()
    } else {
        encode_entries(d.subrange(0, d.len() - 1)) + encode_bytes(d[d.len() - 1].0)
            + encode_value(d[d.len() - 1].1)
    }
}

/// A list is written as `l`, each of its items written on its own and in
/// order, then `e`: the empty list is `le`, and one more item at the end puts
/// that item's whole encoding just before the closing `e`. A nested list
/// thus keeps its own `l` and `e`.
pub proof fn law_encode_list(l: Seq<Value>, v: Value)
    ensures
        encode_value(Value::List(Seq::empty())) == seq![LIST_START, LIST_END],
        encode_value(Value::List(l.push(v))) == encode_value(Value::List(l)).drop_last()
            + encode_value(v) + seq![LIST_END],
{
    assert(encode_value(Value::List(Seq::empty())) =~= seq![LIST_START, LIST_END]);
    assert(l.push(v).subrange(0, l.len() as int) =~= l);
    assert(encode_value(Value::List(l)).drop_last() =~= seq![LIST_START] + encode_items(l));
}

/// A dictionary is written as `d`, each entry as its key written as a byte
/// string followed by its value written on its own, in order, then `e`.
pub proof fn law_encode_dictionary(d: Seq<(Seq<u8>, Value)>, key: Seq<u8>, v: Value)
    ensures
        encode_value(Value::Dictionary(Seq::empty())) == seq![DICTIONARY_START, DICTIONARY_END],
        encode_value(Value::Dictionary(d.push((key, v)))) == encode_value(
            Value::Dictionary(d),
        ).drop_last() + encode_value(Value::ByteArray(key)) + encode_value(v) + seq![DICTIONARY_END],
{
    assert(encode_value(Value::Dictionary(Seq::empty())) =~= seq![DICTIONARY_START, DICTIONARY_END]);
    assert(d.push((key, v)).subrange(0, d.len() as int) =~= d);
    assert(encode_value(Value::Dictionary(d)).drop_last() =~= seq![DICTIONARY_START]
        + encode_entries(d));
}

proof fn lemma_list_items_wf(l: Seq<Value>)
    requires
        value_wf(Value::List(l)),
    ensures
        forall|m: int| 0 <= m < l.len() ==> value_wf(#[trigger] l[m]),
{
    assert forall|m: int| 0 <= m < l.len() implies value_wf(#[trigger] l[m]) by {
        let v = Value::List(l);
        match v {
            Value::List(items) => {
                assert(items[m] == l[m]);
            },
            _ => {},
        }
    }
}

/// Appends `b` to `out`.
pub fn append_bytes(out: &mut Vec<u8>, b: &[u8])
    ensures
        final(out)@ == old(out)@ + b@,
{
    let ghost start = out@;
    let mut i: usize = 0;
    while i < b.len()
        invariant
            0 <= i <= b.len(),
            out@ == start + b@.take(i as int),
        decreases b.len() - i,
    {
        out.push(b[i]);
        i = i + 1;
        assert(b@.take(i as int) =~= b@.take(i - 1).push(b@[i - 1]));
    }
    assert(b@.take(b.len() as int) =~= b@);
}

/// Writes a value in bencode. Its dictionaries must be in key order, as
/// bencode writes them.
pub fn encode_object(object: &Object) -> (r: Vec<u8>)
    requires
        value_wf(object_view(*object)),
    ensures
        r@ == encode_value(object_view(*object)),
    decreases object,
{
    match object {
        Object::Number(n) => encode_number(*n),
        Object::ByteArray(b) => encode_byte_array(b.as_slice()),
        Object::List(l) => encode_list(l),
        Object::Dictionary(d) => encode_dictionary(d),
    }
}

fn encode_dictionary(dictionary: &Vec<(Vec<u8>, Object)>) -> (r: Vec<u8>)
    requires
        value_wf(object_view(Object::Dictionary(*dictionary))),
    ensures
        r@ == encode_value(object_view(Object::Dictionary(*dictionary))),
    decreases dictionary,
{
    proof {
        lemma_dict_view(*dictionary);
    }
    let ghost entries = dict_view(dictionary@);
    let mut bytes = Vec::new();
    bytes.push(DICTIONARY_START);
    let mut i: usize = 0;
    assert(entries.subrange(0, 0) =~= Seq::<(Seq<u8>, Value)>::empty());
    while i < dictionary.len()
        invariant
            0 <= i <= dictionary.len(),
            entries == dict_view(dictionary@),
            value_wf(Value::Dictionary(entries)),
            bytes@ == seq![DICTIONARY_START] + encode_entries(entries.subrange(0, i as int)),
        decreases dictionary.len() - i,
    {
        assert(entries[i as int].1 == object_view(dictionary@[i as int].1));
        assert(value_wf(entries[i as int].1));
        let key = encode_byte_array(dictionary[i].0.as_slice());
        append_bytes(&mut bytes, key.as_slice());
        let value = encode_object(&dictionary[i].1);
        append_bytes(&mut bytes, value.as_slice());
        proof {
            assert(entries.subrange(0, i + 1).subrange(0, i as int) =~= entries.subrange(0, i as int));
        }
        i = i + 1;
    }
    assert(entries.subrange(0, dictionary.len() as int) =~= entries);
    bytes.push(DICTIONARY_END);
    bytes
}

fn encode_list(list: &Vec<Object>) -> (r: Vec<u8>)
    requires
        value_wf(object_view(Object::List(*list))),
    ensures
        r@ == encode_value(object_view(Object::List(*list))),
    decreases list,
{
    proof {
        lemma_list_view(*list);
    }
    let ghost items = list_view(list@);
    let mut bytes = Vec::new();
    bytes.push(LIST_START);
    let mut i: usize = 0;
    assert(items.subrange(0, 0) =~= Seq::<Value>::empty());
    while i < list.len()
        invariant
            0 <= i <= list.len(),
            items == list_view(list@),
            value_wf(Value::List(items)),
            bytes@ == seq![LIST_START] + encode_items(items.subrange(0, i as int)),
        decreases list.len() - i,
    {
        assert(items[i as int] == object_view(list@[i as int]));
        proof {
            lemma_list_items_wf(items);
        }
        assert(value_wf(items[i as int]));
        let item = encode_object(&list[i]);
        append_bytes(&mut bytes, item.as_slice());
        proof {
            assert(items.subrange(0, i + 1).subrange(0, i as int) =~= items.subrange(0, i as int));
        }
        i = i + 1;
    }
    assert(items.subrange(0, list.len() as int) =~= items);
    bytes.push(LIST_END);
    bytes
}

fn encode_byte_array(byte_array: &[u8]) -> (r: Vec<u8>)
    ensures
        r@ == encode_bytes(byte_array@),
{
    let mut bytes = render_u64(byte_array.len() as u64);
    bytes.push(BYTE_ARRAY_DIVIDER);
    append_bytes(&mut bytes, byte_array);
    bytes
}

fn encode_number(number: i64) -> (r: Vec<u8>)
    ensures
        r@ == encode_value(Value::Number(number as int)),
{
    let mut bytes = Vec::new();
    bytes.push(NUMBER_START);
    let digits = render_i64(number);
    append_bytes(&mut bytes, digits.as_slice());
    bytes.push(NUMBER_END);
    bytes
}

} // verus!
