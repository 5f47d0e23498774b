//! The bencode reader. It reads numbers, byte strings and dictionaries, and
//! is lenient where a strict reader would refuse: a dictionary that the input
//! ends inside of is closed there, a repeated key keeps its last value, keys
//! may come in any order, numbers may carry a `+` sign, and bytes after the
//! first value are ignored. It does not read lists: where a value starts with
//! `l` it gives up. What it cannot read (a list, a bad number or length, a byte
//! string cut short, an empty input) makes it give up, with `None`.
use vstd::prelude::*;
use crate::bencode::object::{
    Object, Value, value_wf, list_free, object_view, dict_view, lemma_dict_view, bytes_lt, bytes_less,
    bytes_equal,
};
use crate::bencode::encode::{
    NUMBER_START, NUMBER_END, LIST_START, DICTIONARY_START, DICTIONARY_END, BYTE_ARRAY_DIVIDER,
};
use crate::decimal::{has_leading_zero, parse_i64_text, parse_usize_text, parse_i64, parse_usize};

verus! {

/// The first index at or after `from` that holds `b`.
pub open spec fn find_byte(s: Seq<u8>, from: int, b: u8) -> Option<int>
    decreases s.len() - from,
{
    if from < 0 || from >= s.len() {
        None
    } else if s[from] == b {
        Some(from)
    } else {
        find_byte(s, from + 1, b)
    }
}

/// A byte string at `p`: its decimal length up to the first colon (or to the
/// end of the input when there is none), then that many bytes. Gives the bytes
/// and the position after them.
pub open spec fn decode_byte_string(s: Seq<u8>, p: int) -> Option<(Seq<u8>, int)> {
    if p < 0 || p > s.len() {
        None
    } else {
        let end = match find_byte(s, p, BYTE_ARRAY_DIVIDER) {
            Some(c) => c,
            None => s.len() as int,
        };
        let start = match find_byte(s, p, BYTE_ARRAY_DIVIDER) {
            Some(c) => c + 1,
            None => s.len() as int,
        };
        let text = s.subrange(p, end);
        if has_leading_zero(text) {
            None
        } else {
            match parse_usize_text(text) {
                None => None,
                Some(n) => if start + n <= s.len() {
                    Some((s.subrange(start, start + n), start + n))
                } else {
                    None
                },
            }
        }
    }
}

/// A number at `p`, where `s[p]` is `i`: the text up to the first `e`.
pub open spec fn decode_number(s: Seq<u8>, p: int) -> Option<(Value, int)> {
    match find_byte(s, p + 1, NUMBER_END) {
        None => None,
        Some(e) => {
            let text = s.subrange(p + 1, e);
            if has_leading_zero(text) {
                None
            } else {
                match parse_i64_text(text) {
                    None => None,
                    Some(v) => Some((Value::Number(v), e + 1)),
                }
            }
        },
    }
}

/// Index of the first entry whose key is not below `k`, from `i` on.
pub open spec fn key_position(d: Seq<(Seq<u8>, Value)>, k: Seq<u8>, i: int) -> int
    decreases d.len() - i,
{
    if i < 0 || i >= d.len() {
        d.len() as int
    } else if bytes_lt(d[i].0, k) {
        key_position(d, k, i + 1)
    } else {
        i
    }
}

/// Puts `(k, v)` into the ordered entries: it replaces the value of an equal
/// key, or goes before the first greater key.
pub open spec fn dict_insert(d: Seq<(Seq<u8>, Value)>, k: Seq<u8>, v: Value) -> Seq<(Seq<u8>, Value)> {
    let i = key_position(d, k, 0);
    if i < d.len() && d[i].0 == k {
        d.update(i, (k, v))
    } else {
        d.insert(i, (k, v))
    }
}

/// The value that starts at `p`, and the position after it; none for a list.
pub open spec fn decode_at(s: Seq<u8>, p: int) -> Option<(Value, int)>
    decreases s.len() - p, 0int,
{
    if p < 0 || p > s.len() {
        None
    } else if p < s.len() && s[p] == DICTIONARY_START {
        decode_entries(s, p + 1, Seq::empty())
    } else if p < s.len() && s[p] == LIST_START {
        None
    } else if p < s.len() && s[p] == NUMBER_START {
        decode_number(s, p)
    } else {
        match decode_byte_string(s, p) {
            None => None,
            Some((b, n)) => Some((Value::ByteArray(b), n)),
        }
    }
}

/// The rest of a dictionary from `q`, after the entries `acc`.
pub open spec fn decode_entries(s: Seq<u8>, q: int, acc: Seq<(Seq<u8>, Value)>) -> Option<(Value, int)>
    decreases s.len() - q, 1int,
{
    if q < 0 || q >= s.len() {
        Some((Value::Dictionary(acc), q))
    } else if s[q] == DICTIONARY_END {
        Some((Value::Dictionary(acc), q + 1))
    } else {
        match decode_byte_string(s, q) {
            None => None,
            Some((k, q1)) => if q < q1 <= s.len() {
                match decode_at(s, q1) {
                    None => None,
                    Some((v, n)) => if q1 < n <= s.len() {
                        decode_entries(s, n, dict_insert(acc, k, v))
                    } else {
                        None
                    },
                }
            } else {
                None
            },
        }
    }
}

/// The value that a byte string starts with, if it can be read.
pub open spec fn decoded(s: Seq<u8>) -> Option<Value> {
    match decode_at(s, 0) {
        Some((v, _)) => Some(v),
        None => None,
    }
}

fn find_byte_exec(s: &[u8], from: usize, b: u8) -> (r: usize)
    requires
        from <= s.len(),
    ensures
        from <= r <= s.len(),
        r < s.len() ==> find_byte(s@, from as int, b) == Some(r as int),
        r == s.len() ==> find_byte(s@, from as int, b) is None,
{
    let mut i = from;
    while i < s.len() && s[i] != b
        invariant
            from <= i <= s.len(),
            find_byte(s@, from as int, b) == find_byte(s@, i as int, b),
        decreases s.len() - i,
    {
        i = i + 1;
    }
    i
}

fn copy_range(s: &[u8], from: usize, to: usize) -> (r: Vec<u8>)
    requires
        from <= to <= s.len(),
    ensures
        r@ == s@.subrange(from as int, to as int),
{
    let mut v = Vec::new();
    let mut i = from;
    while i < to
        invariant
            from <= i <= to <= s.len(),
            v@ == s@.subrange(from as int, i as int),
        decreases to - i,
    {
        v.push(s[i]);
        i = i + 1;
        assert(s@.subrange(from as int, i as int) =~= s@.subrange(from as int, i - 1).push(
            s@[i - 1],
        ));
    }
    v
}

fn decode_byte_array(s: &[u8], p: usize) -> (r: Option<(Vec<u8>, usize)>)
    requires
        p <= s.len(),
    ensures
        match r {
            Some((b, n)) => decode_byte_string(s@, p as int) == Some((b@, n as int)),
            None => decode_byte_string(s@, p as int) is None,
        },
        r matches Some((_, n)) ==> p < n <= s.len(),
{
    let c = find_byte_exec(s, p, BYTE_ARRAY_DIVIDER);
    let start = if c < s.len() {
        c + 1
    } else {
        c
    };
    let ghost text = s@.subrange(p as int, c as int);
    if c - p > 1 && s[p] == 48 {
        assert(text[0] == s@[p as int]);
        return None;
    }
    match parse_usize(s, p, c) {
        None => None,
        Some(n) => {
            if n > s.len() - start {
                None
            } else {
                let bytes = copy_range(s, start, start + n);
                proof {
                    if c == p {
                        assert(text.len() == 0);
                    }
                }
                Some((bytes, start + n))
            }
        },
    }
}

fn decode_number_exec(s: &[u8], p: usize) -> (r: Option<(Object, usize)>)
    requires
        p < s.len(),
        s@[p as int] == NUMBER_START,
    ensures
        match r {
            Some((o, n)) => decode_number(s@, p as int) == Some((object_view(o), n as int)),
            None => decode_number(s@, p as int) is None,
        },
        r matches Some((_, n)) ==> p < n <= s.len(),
{
    let e = find_byte_exec(s, p + 1, NUMBER_END);
    if e == s.len() {
        return None;
    }
    let ghost text = s@.subrange(p + 1, e as int);
    if e - (p + 1) > 1 && s[p + 1] == 48 {
        assert(text[0] == s@[p + 1]);
        return None;
    }
    match parse_i64(s, p + 1, e) {
        None => None,
        Some(v) => Some((Object::Number(v), e + 1)),
    }
}

fn dict_insert_exec(d: &mut Vec<(Vec<u8>, Object)>, key: Vec<u8>, value: Object)
    ensures
        dict_view(final(d)@) == dict_insert(dict_view(old(d)@), key@, object_view(value)),
{
    let ghost entries = dict_view(d@);
    let mut i: usize = 0;
    while i < d.len() && bytes_less(d[i].0.as_slice(), key.as_slice())
        invariant
            0 <= i <= d.len(),
            entries == dict_view(d@),
            key_position(entries, key@, 0) == key_position(entries, key@, i as int),
        decreases d.len() - i,
    {
        i = i + 1;
    }
    if i < d.len() && bytes_equal(d[i].0.as_slice(), key.as_slice()) {
        d.set(i, (key, value));
        assert(dict_view(d@) =~= entries.update(i as int, (key@, object_view(value))));
    } else {
        d.insert(i, (key, value));
        assert(dict_view(d@) =~= entries.insert(i as int, (key@, object_view(value))));
    }
}

fn decode(s: &[u8], p: usize) -> (r: Option<(Object, usize)>)
    requires
        p <= s.len(),
    ensures
        match r {
            Some((o, n)) => decode_at(s@, p as int) == Some((object_view(o), n as int)),
            None => decode_at(s@, p as int) is None,
        },
        r matches Some((_, n)) ==> p < n <= s.len(),
    decreases s.len() - p, 0nat,
{
    if p < s.len() && s[p] == DICTIONARY_START {
        decode_dictionary(s, p + 1)
    } else if p < s.len() && s[p] == LIST_START {
        None
    } else if p < s.len() && s[p] == NUMBER_START {
        decode_number_exec(s, p)
    } else {
        match decode_byte_array(s, p) {
            None => None,
            Some((b, n)) => Some((Object::ByteArray(b), n)),
        }
    }
}

fn decode_dictionary(s: &[u8], start: usize) -> (r: Option<(Object, usize)>)
    requires
        start <= s.len(),
    ensures
        match r {
            Some((o, n)) => decode_entries(s@, start as int, Seq::empty()) == Some(
                (object_view(o), n as int),
            ),
            None => decode_entries(s@, start as int, Seq::empty()) is None,
        },
        r matches Some((_, n)) ==> start <= n <= s.len(),
    decreases s.len() - start, 1nat,
{
    let mut entries: Vec<(Vec<u8>, Object)> = Vec::new();
    let mut q = start;
    assert(dict_view(entries@) =~= Seq::<(Seq<u8>, Value)>::empty());
    loop
        invariant
            start <= q <= s.len(),
            decode_entries(s@, start as int, Seq::empty()) == decode_entries(
                s@,
                q as int,
                dict_view(entries@),
            ),
        decreases s.len() - q,
    {
        if q >= s.len() {
            proof {
                lemma_dict_view(entries);
            }
            return Some((Object::Dictionary(entries), q));
        }
        if s[q] == DICTIONARY_END {
            proof {
                lemma_dict_view(entries);
            }
            return Some((Object::Dictionary(entries), q + 1));
        }
        match decode_byte_array(s, q) {
            None => {
                return None;
            },
            Some((key, q1)) => {
                match decode(s, q1) {
                    None => {
                        return None;
                    },
                    Some((value, n)) => {
                        dict_insert_exec(&mut entries, key, value);
                        q = n;
                    },
                }
            },
        }
    }
}

/// Reads the value that `bytes` starts with; `None` where it cannot be read.
pub fn try_decode_object(bytes: &[u8]) -> (r: Option<Object>)
    ensures
        r is None <==> decoded(bytes@) is None,
        r matches Some(o) ==> decoded(bytes@) == Some(object_view(o)) && value_wf(object_view(o))
            && list_free(object_view(o)),
{
    proof {
        crate::bencode::laws::law_decoded_wf(bytes@);
    }
    match decode(bytes, 0) {
        None => None,
        Some((o, _)) => Some(o),
    }
}

/// Reads the value that `bytes` starts with.
pub fn decode_object(bytes: &[u8]) -> (o: Object)
    requires
        decoded(bytes@) is Some,
    ensures
        decoded(bytes@) == Some(object_view(o)),
        value_wf(object_view(o)),
        list_free(object_view(o)),
{
    match try_decode_object(bytes) {
        Some(o) => o,
        None => {
            proof {
                assert(false);
            }
            Object::Number(0)
        },
    }
}

} // verus!
