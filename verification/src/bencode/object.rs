//! The bencode value and its mathematical model.
use vstd::prelude::*;

verus! {

/// A bencode value. The entries of a dictionary are kept in strictly
/// increasing byte order of their keys (see [`value_wf`]).
#[derive(Debug)]
pub enum Object {
    Number(i64),
    ByteArray(Vec<u8>),
    List(Vec<Object>),
    Dictionary(Vec<(Vec<u8>, Object)>),
}

/// The model of a bencode value.
pub enum Value {
    Number(int),
    ByteArray(Seq<u8>),
    List(Seq<Value>),
    Dictionary(Seq<(Seq<u8>, Value)>),
}

/// The model of an `Object`.
pub open spec fn object_view(o: Object) -> Value
    decreases o,
{
    match o {
        Object::Number(n) => Value::Number(n as int),
        Object::ByteArray(b) => Value::ByteArray(b@),
        Object::List(l) => Value::List(
            Seq::new(
                l.len() as nat,
                |i: int|
                    if 0 <= i < l.len() {
                        object_view(l[i])
                    } else {
                        Value::Number(0)
                    },
            ),
        ),
        Object::Dictionary(d) => Value::Dictionary(
            Seq::new(
                d.len() as nat,
                |i: int|
                    if 0 <= i < d.len() {
                        (d[i].0@, object_view(d[i].1))
                    } else {
                        (Seq::empty(), Value::Number(0))
                    },
            ),
        ),
    }
}

pub open spec fn list_view(l: Seq<Object>) -> Seq<Value> {
    Seq::new(l.len(), |i: int| object_view(l[i]))
}

pub open spec fn dict_view(d: Seq<(Vec<u8>, Object)>) -> Seq<(Seq<u8>, Value)> {
    Seq::new(d.len(), |i: int| (d[i].0@, object_view(d[i].1)))
}

pub proof fn lemma_list_view(l: Vec<Object>)
    ensures
        object_view(Object::List(l)) == Value::List(list_view(l@)),
{
    let v = object_view(Object::List(l));
    assert(v->List_0 =~= list_view(l@));
}

pub proof fn lemma_dict_view(d: Vec<(Vec<u8>, Object)>)
    ensures
        object_view(Object::Dictionary(d)) == Value::Dictionary(dict_view(d@)),
{
    let v = object_view(Object::Dictionary(d));
    assert(v->Dictionary_0 =~= dict_view(d@));
}

/// Byte-wise lexicographic order, the order of `Vec<u8>` in Rust.
pub open spec fn bytes_lt(a: Seq<u8>, b: Seq<u8>) -> bool
    decreases a.len(),
{
    if a.len() == 0 {
        b.len() > 0
    } else if b.len() == 0 {
        false
    } else if a[0] != b[0] {
        a[0] < b[0]
    } else {
        bytes_lt(a.drop_first(), b.drop_first())
    }
}

/// The keys of the entries strictly increase.
pub open spec fn keys_sorted(d: Seq<(Seq<u8>, Value)>) -> bool {
    forall|i: int, j: int| 0 <= i < j < d.len() ==> bytes_lt(#[trigger] d[i].0, #[trigger] d[j].0)
}

/// A value that an `Object` can hold and that bencode writes canonically:
/// numbers fit in `i64`, byte strings have a length that fits in `usize`, and
/// dictionary keys strictly increase.
pub open spec fn value_wf(v: Value) -> bool
    decreases v,
{
    match v {
        Value::Number(n) => i64::MIN <= n <= i64::MAX,
        Value::ByteArray(b) => b.len() <= usize::MAX,
        Value::List(l) => forall|i: int|
            0 <= i < l.len() ==> value_wf(#[trigger] l[i]),
        Value::Dictionary(d) => keys_sorted(d) && forall|i: int|
            0 <= i < d.len() ==> (#[trigger] d[i]).0.len() <= usize::MAX && value_wf(d[i].1),
    }
}

/// The value holds no list, at any depth.
pub open spec fn list_free(v: Value) -> bool
    decreases v,
{
    match v {
        Value::List(_) => false,
        Value::Dictionary(d) => forall|i: int| 0 <= i < d.len() ==> list_free(#[trigger] d[i].1),
        _ => true,
    }
}

pub proof fn lemma_bytes_lt_transitive(a: Seq<u8>, b: Seq<u8>, c: Seq<u8>)
    requires
        bytes_lt(a, b),
        bytes_lt(b, c),
    ensures
        bytes_lt(a, c),
    decreases a.len(),
{
    if a.len() > 0 && b.len() > 0 && c.len() > 0 && a[0] == b[0] && b[0] == c[0] {
        lemma_bytes_lt_transitive(a.drop_first(), b.drop_first(), c.drop_first());
    }
}

pub proof fn lemma_bytes_lt_total(a: Seq<u8>, b: Seq<u8>)
    ensures
        a != b ==> bytes_lt(a, b) || bytes_lt(b, a),
    decreases a.len(),
{
    if a.len() > 0 && b.len() > 0 {
        if a[0] == b[0] {
            lemma_bytes_lt_total(a.drop_first(), b.drop_first());
            if a.drop_first() == b.drop_first() {
                assert(a =~= seq![a[0]] + a.drop_first());
                assert(b =~= seq![b[0]] + b.drop_first());
            }
        }
    } else if a.len() == 0 && b.len() == 0 {
        assert(a =~= b);
    }
}

/// Whether two byte strings are equal.
pub fn bytes_equal(a: &[u8], b: &[u8]) -> (r: bool)
    ensures
        r == (a@ == b@),
{
    if a.len() != b.len() {
        return false;
    }
    let mut i: usize = 0;
    while i < a.len()
        invariant
            a.len() == b.len(),
            0 <= i <= a.len(),
            forall|k: int| 0 <= k < i ==> a@[k] == b@[k],
        decreases a.len() - i,
    {
        if a[i] != b[i] {
            return false;
        }
        i = i + 1;
    }
    assert(a@ =~= b@);
    true
}

/// Whether `a` comes strictly before `b` in byte order.
pub fn bytes_less(a: &[u8], b: &[u8]) -> (r: bool)
    ensures
        r == bytes_lt(a@, b@),
{
    let mut i: usize = 0;
    assert(a@.skip(0) =~= a@);
    assert(b@.skip(0) =~= b@);
    while i < a.len() && i < b.len() && a[i] == b[i]
        invariant
            0 <= i <= a.len(),
            i <= b.len(),
            bytes_lt(a@, b@) == bytes_lt(a@.skip(i as int), b@.skip(i as int)),
        decreases a.len() - i,
    {
        assert(a@.skip(i as int).drop_first() =~= a@.skip(i + 1));
        assert(b@.skip(i as int).drop_first() =~= b@.skip(i + 1));
        i = i + 1;
    }
    let ghost sa = a@.skip(i as int);
    let ghost sb = b@.skip(i as int);
    if i == a.len() {
        i < b.len()
    } else if i == b.len() {
        false
    } else {
        assert(sa[0] == a@[i as int]);
        assert(sb[0] == b@[i as int]);
        a[i] < b[i]
    }
}

/// The value of the first entry whose key is `key`, from entry `i` on.
pub open spec fn lookup_from(d: Seq<(Seq<u8>, Value)>, key: Seq<u8>, i: int) -> Option<Value>
    decreases d.len() - i,
{
    if i < 0 || i >= d.len() {
        None
    } else if d[i].0 == key {
        Some(d[i].1)
    } else {
        lookup_from(d, key, i + 1)
    }
}

/// A value found in a well-formed dictionary is well formed.
pub proof fn lemma_lookup_wf(d: Seq<(Seq<u8>, Value)>, key: Seq<u8>, i: int)
    requires
        value_wf(Value::Dictionary(d)),
    ensures
        lookup_from(d, key, i) matches Some(v) ==> value_wf(v),
    decreases d.len() - i,
{
    if 0 <= i < d.len() && d[i].0 != key {
        lemma_lookup_wf(d, key, i + 1);
    }
}

/// The value of `key` in a dictionary.
pub open spec fn dict_lookup(d: Seq<(Seq<u8>, Value)>, key: Seq<u8>) -> Option<Value> {
    lookup_from(d, key, 0)
}

/// The value of `key` in a dictionary.
pub fn dict_get<'a>(d: &'a Vec<(Vec<u8>, Object)>, key: &[u8]) -> (r: Option<&'a Object>)
    ensures
        match dict_lookup(dict_view(d@), key@) {
            Some(v) => r matches Some(o) && object_view(*o) == v,
            None => r is None,
        },
{
    let ghost entries = dict_view(d@);
    let mut i: usize = 0;
    while i < d.len()
        invariant
            0 <= i <= d.len(),
            entries == dict_view(d@),
            dict_lookup(entries, key@) == lookup_from(entries, key@, i as int),
        decreases d.len() - i,
    {
        if bytes_equal(d[i].0.as_slice(), key) {
            return Some(&d[i].1);
        }
        i = i + 1;
    }
    None
}

} // verus!
