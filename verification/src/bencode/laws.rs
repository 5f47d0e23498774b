//! What the reader gives back of what the writer wrote.
use vstd::prelude::*;
use crate::bencode::object::{
    Value, value_wf, list_free, keys_sorted, bytes_lt, lemma_bytes_lt_transitive,
    lemma_bytes_lt_total,
};
use crate::bencode::encode::{
    encode_value, encode_entries, encode_bytes, NUMBER_START, NUMBER_END, LIST_START,
    LIST_END, DICTIONARY_START, DICTIONARY_END, BYTE_ARRAY_DIVIDER,
};
use crate::bencode::decode::{
    find_byte, decode_at, decode_entries, decode_byte_string, decode_number,
    key_position, dict_insert, decoded,
};
use crate::decimal::{
    nat_digits, int_digits, is_digit, has_leading_zero, parse_i64_text, parse_usize_text,
    lemma_nat_digits_shape,
};

verus! {

proof fn lemma_find_byte_at(s: Seq<u8>, from: int, to: int, b: u8)
    requires
        0 <= from <= to < s.len(),
        forall|k: int| from <= k < to ==> s[k] != b,
        s[to] == b,
    ensures
        find_byte(s, from, b) == Some(to),
    decreases to - from,
{
    if from < to {
        lemma_find_byte_at(s, from + 1, to, b);
    }
}

proof fn lemma_parse_nat_digits(n: nat)
    requires
        n <= usize::MAX,
    ensures
        parse_usize_text(nat_digits(n)) == Some(n),
        !has_leading_zero(nat_digits(n)),
{
    lemma_nat_digits_shape(n);
    let t = nat_digits(n);
    assert(is_digit(t[0]));
}

proof fn lemma_parse_int_digits(n: int)
    requires
        i64::MIN <= n <= i64::MAX,
    ensures
        parse_i64_text(int_digits(n)) == Some(n),
        !has_leading_zero(int_digits(n)),
        forall|k: int| 0 <= k < int_digits(n).len() ==> #[trigger] int_digits(n)[k] != NUMBER_END,
{
    if n < 0 {
        let m = (-n) as nat;
        lemma_nat_digits_shape(m);
        let t = int_digits(n);
        assert(t.drop_first() =~= nat_digits(m));
        assert forall|k: int| 0 <= k < t.len() implies #[trigger] t[k] != NUMBER_END by {
            if k > 0 {
                assert(t[k] == nat_digits(m)[k - 1]);
                assert(is_digit(nat_digits(m)[k - 1]));
            }
        }
    } else {
        lemma_nat_digits_shape(n as nat);
        let t = int_digits(n);
        assert(is_digit(t[0]));
        assert forall|k: int| 0 <= k < t.len() implies #[trigger] t[k] != NUMBER_END by {
            assert(is_digit(t[k]));
        }
    }
}

/// Every encoding starts with a byte other than `e`.
proof fn lemma_encode_first(v: Value)
    ensures
        encode_value(v).len() > 0,
        encode_value(v)[0] != LIST_END,
        v is Number ==> encode_value(v)[0] == NUMBER_START,
        v is List ==> encode_value(v)[0] == LIST_START,
        v is Dictionary ==> encode_value(v)[0] == DICTIONARY_START,
        v is ByteArray ==> is_digit(encode_value(v)[0]),
{
    match v {
        Value::ByteArray(b) => {
            lemma_nat_digits_shape(b.len());
            assert(encode_value(v)[0] == nat_digits(b.len())[0]);
        },
        _ => {},
    }
}

proof fn lemma_encode_bytes_first(b: Seq<u8>)
    ensures
        encode_bytes(b).len() > 0,
        is_digit(encode_bytes(b)[0]),
{
    lemma_nat_digits_shape(b.len());
    assert(encode_bytes(b)[0] == nat_digits(b.len())[0]);
}

/// A byte string written at `p` reads back.
proof fn lemma_decode_bytes(b: Seq<u8>, s: Seq<u8>, p: int)
    requires
        b.len() <= usize::MAX,
        0 <= p,
        p + encode_bytes(b).len() <= s.len(),
        s.subrange(p, p + encode_bytes(b).len()) == encode_bytes(b),
    ensures
        decode_byte_string(s, p) == Some((b, p + encode_bytes(b).len())),
{
    let e = encode_bytes(b);
    let digits = nat_digits(b.len());
    lemma_parse_nat_digits(b.len());
    lemma_nat_digits_shape(b.len());
    let c = p + digits.len();
    assert forall|k: int| p <= k < c implies s[k] != BYTE_ARRAY_DIVIDER by {
        assert(s[k] == e[k - p]);
        assert(e[k - p] == digits[k - p]);
        assert(is_digit(digits[k - p]));
    }
    assert(s[c] == e[c - p]);
    lemma_find_byte_at(s, p, c, BYTE_ARRAY_DIVIDER);
    assert(s.subrange(p, c) =~= digits) by {
        assert forall|k: int| 0 <= k < digits.len() implies s.subrange(p, c)[k] == digits[k] by {
            assert(s[p + k] == e[k]);
        }
    }
    assert(s.subrange(c + 1, c + 1 + b.len()) =~= b) by {
        assert forall|k: int| 0 <= k < b.len() implies s.subrange(c + 1, c + 1 + b.len())[k]
            == b[k] by {
            assert(s[c + 1 + k] == e[digits.len() + 1 + k]);
        }
    }
}

proof fn lemma_entries_prefix(d: Seq<(Seq<u8>, Value)>, j: int, k: int)
    requires
        0 <= j <= k <= d.len(),
    ensures
        encode_entries(d.take(j)).len() <= encode_entries(d.take(k)).len(),
        encode_entries(d.take(k)).subrange(0, encode_entries(d.take(j)).len() as int)
            == encode_entries(d.take(j)),
    decreases k - j,
{
    if j < k {
        lemma_entries_prefix(d, j, k - 1);
        assert(d.take(k).subrange(0, k - 1) =~= d.take(k - 1));
        let a = encode_entries(d.take(j));
        let b = encode_entries(d.take(k - 1));
        let c = encode_entries(d.take(k));
        assert(c == b + encode_bytes(d[k - 1].0) + encode_value(d[k - 1].1));
        assert(c.subrange(0, a.len() as int) =~= b.subrange(0, a.len() as int));
    } else {
        let c = encode_entries(d.take(k));
        assert(c.subrange(0, c.len() as int) =~= c);
    }
}

/// Inserting a key above every key present appends the entry.
proof fn lemma_insert_greatest(d: Seq<(Seq<u8>, Value)>, k: Seq<u8>, v: Value, i: int)
    requires
        0 <= i <= d.len(),
        forall|m: int| 0 <= m < d.len() ==> bytes_lt(#[trigger] d[m].0, k),
    ensures
        key_position(d, k, i) == d.len(),
    decreases d.len() - i,
{
    if i < d.len() {
        lemma_insert_greatest(d, k, v, i + 1);
    }
}

/// A value written at `p` reads back, with the position after it, when it
/// holds no list; otherwise the reader gives up on it.
proof fn lemma_decode_value(v: Value, s: Seq<u8>, p: int)
    requires
        value_wf(v),
        0 <= p,
        p + encode_value(v).len() <= s.len(),
        s.subrange(p, p + encode_value(v).len()) == encode_value(v),
    ensures
        list_free(v) ==> decode_at(s, p) == Some((v, p + encode_value(v).len())),
        !list_free(v) ==> decode_at(s, p) is None,
    decreases v, 0nat,
{
    let e = encode_value(v);
    lemma_encode_first(v);
    assert(s[p] == e[0]);
    match v {
        Value::Number(n) => {
            let digits = int_digits(n);
            lemma_parse_int_digits(n);
            let t = p + 1 + digits.len();
            assert forall|k: int| p + 1 <= k < t implies s[k] != NUMBER_END by {
                assert(s[k] == e[k - p]);
                assert(e[k - p] == digits[k - p - 1]);
            }
            assert(s[t] == e[t - p]);
            lemma_find_byte_at(s, p + 1, t, NUMBER_END);
            assert(s.subrange(p + 1, t) =~= digits) by {
                assert forall|k: int| 0 <= k < digits.len() implies s.subrange(p + 1, t)[k]
                    == digits[k] by {
                    assert(s[p + 1 + k] == e[1 + k]);
                }
            }
        },
        Value::ByteArray(b) => {
            lemma_decode_bytes(b, s, p);
        },
        Value::List(l) => {},
        Value::Dictionary(d) => {
            assert(d.take(d.len() as int) =~= d);
            let inner = encode_entries(d);
            let q = p + 1 + inner.len();
            assert(s[q] == e[q - p]);
            assert(s.subrange(p + 1, q) =~= inner) by {
                assert forall|k: int| 0 <= k < inner.len() implies s.subrange(p + 1, q)[k]
                    == inner[k] by {
                    assert(s[p + 1 + k] == e[1 + k]);
                }
            }
            assert(d.take(0) =~= Seq::<(Seq<u8>, Value)>::empty());
            lemma_decode_entries_from(d, s, p + 1, 0);
        },
    }
}

/// After the first `i` entries of a written dictionary, the rest of it reads
/// back when no value from entry `i` on holds a list; otherwise the reader
/// gives up on it.
proof fn lemma_decode_entries_from(d: Seq<(Seq<u8>, Value)>, s: Seq<u8>, q0: int, i: int)
    requires
        0 <= i <= d.len(),
        keys_sorted(d),
        forall|m: int|
            0 <= m < d.len() ==> (#[trigger] d[m]).0.len() <= usize::MAX && value_wf(d[m].1),
        0 <= q0,
        q0 + encode_entries(d).len() < s.len(),
        s.subrange(q0, q0 + encode_entries(d).len()) == encode_entries(d),
        s[q0 + encode_entries(d).len()] == DICTIONARY_END,
    ensures
        (forall|m: int| i <= m < d.len() ==> list_free(#[trigger] d[m].1)) ==> decode_entries(
            s,
            q0 + encode_entries(d.take(i)).len(),
            d.take(i),
        ) == Some((Value::Dictionary(d), q0 + encode_entries(d).len() + 1)),
        !(forall|m: int| i <= m < d.len() ==> list_free(#[trigger] d[m].1)) ==> decode_entries(
            s,
            q0 + encode_entries(d.take(i)).len(),
            d.take(i),
        ) is None,
    decreases d, d.len() - i,
{
    let all = encode_entries(d);
    assert(d.take(d.len() as int) =~= d);
    lemma_entries_prefix(d, i, d.len() as int);
    let q = q0 + encode_entries(d.take(i)).len();
    if i == d.len() {
    } else {
        lemma_entries_prefix(d, i + 1, d.len() as int);
        assert(d.take(i + 1).subrange(0, i) =~= d.take(i));
        assert(d.take(i + 1)[i] == d[i]);
        let key = encode_bytes(d[i].0);
        let val = encode_value(d[i].1);
        let before = encode_entries(d.take(i));
        let upto = encode_entries(d.take(i + 1));
        assert(upto == before + key + val);
        let q1 = q + key.len();
        assert(s.subrange(q, q1) =~= key) by {
            assert forall|k: int| 0 <= k < key.len() implies s.subrange(q, q1)[k] == key[k] by {
                assert(s[q + k] == all[before.len() + k]);
                assert(all.subrange(0, upto.len() as int)[before.len() + k] == upto[before.len()
                    + k]);
            }
        }
        assert(s.subrange(q1, q1 + val.len()) =~= val) by {
            assert forall|k: int| 0 <= k < val.len() implies s.subrange(q1, q1 + val.len())[k]
                == val[k] by {
                assert(s[q1 + k] == all[before.len() + key.len() + k]);
                assert(all.subrange(0, upto.len() as int)[before.len() + key.len() + k]
                    == upto[before.len() + key.len() + k]);
            }
        }
        lemma_encode_bytes_first(d[i].0);
        assert(s[q] == key[0]);
        lemma_decode_bytes(d[i].0, s, q);
        lemma_encode_first(d[i].1);
        lemma_decode_value(d[i].1, s, q1);
        let acc = d.take(i);
        assert forall|m: int| 0 <= m < acc.len() implies bytes_lt(#[trigger] acc[m].0, d[i].0) by {
            assert(acc[m] == d[m]);
        }
        if list_free(d[i].1) {
            lemma_insert_greatest(acc, d[i].0, d[i].1, 0);
            assert(dict_insert(acc, d[i].0, d[i].1) =~= d.take(i + 1));
            lemma_decode_entries_from(d, s, q0, i + 1);
            if !(forall|m: int| i <= m < d.len() ==> list_free(#[trigger] d[m].1)) {
                let m = choose|m: int| i <= m < d.len() && !list_free(#[trigger] d[m].1);
                assert(i + 1 <= m);
            }
        } else {
            assert(!(forall|m: int| i <= m < d.len() ==> list_free(#[trigger] d[m].1)));
        }
    }
}

/// Reading back what the writer wrote gives the same value, whatever bytes
/// follow it, and stops right after it, for every value that holds no list;
/// on a value that holds a list, at any depth, the reader gives up.
pub proof fn law_decode_encode(v: Value, rest: Seq<u8>)
    requires
        value_wf(v),
    ensures
        list_free(v) ==> decode_at(encode_value(v) + rest, 0) == Some(
            (v, encode_value(v).len() as int),
        ),
        list_free(v) ==> decoded(encode_value(v) + rest) == Some(v),
        !list_free(v) ==> decoded(encode_value(v) + rest) is None,
{
    let s = encode_value(v) + rest;
    assert(s.subrange(0, encode_value(v).len() as int) =~= encode_value(v));
    lemma_decode_value(v, s, 0);
}

/// Where the first `i` keys are below `k` and sorted, so are they.
proof fn lemma_key_position(d: Seq<(Seq<u8>, Value)>, k: Seq<u8>, i: int)
    requires
        0 <= i <= d.len(),
        forall|m: int| 0 <= m < i ==> bytes_lt(#[trigger] d[m].0, k),
    ensures
        0 <= key_position(d, k, i) <= d.len(),
        forall|m: int| 0 <= m < key_position(d, k, i) ==> bytes_lt(#[trigger] d[m].0, k),
        key_position(d, k, i) < d.len() ==> !bytes_lt(d[key_position(d, k, i)].0, k),
    decreases d.len() - i,
{
    if i < d.len() && bytes_lt(d[i].0, k) {
        lemma_key_position(d, k, i + 1);
    }
}

/// Inserting into sorted entries keeps them sorted and well formed.
proof fn lemma_dict_insert_wf(d: Seq<(Seq<u8>, Value)>, k: Seq<u8>, v: Value)
    requires
        keys_sorted(d),
        forall|m: int|
            0 <= m < d.len() ==> (#[trigger] d[m]).0.len() <= usize::MAX && value_wf(d[m].1),
        k.len() <= usize::MAX,
        value_wf(v),
    ensures
        keys_sorted(dict_insert(d, k, v)),
        forall|m: int|
            0 <= m < dict_insert(d, k, v).len() ==> (#[trigger] dict_insert(d, k, v)[m]).0.len()
                <= usize::MAX && value_wf(dict_insert(d, k, v)[m].1),
        (forall|m: int| 0 <= m < d.len() ==> list_free(#[trigger] d[m].1)) && list_free(v) ==> forall|
            m: int,
        | 0 <= m < dict_insert(d, k, v).len() ==> list_free(#[trigger] dict_insert(d, k, v)[m].1),
{
    lemma_key_position(d, k, 0);
    let i = key_position(d, k, 0);
    let r = dict_insert(d, k, v);
    if i < d.len() && d[i].0 == k {
        assert forall|a: int, b: int| 0 <= a < b < r.len() implies bytes_lt(
            #[trigger] r[a].0,
            #[trigger] r[b].0,
        ) by {
            assert(r[a].0 == d[a].0);
            assert(r[b].0 == d[b].0);
        }
    } else {
        // every old key from `i` on is above `k`
        assert forall|m: int| i <= m < d.len() implies bytes_lt(k, #[trigger] d[m].0) by {
            if m > i {
                assert(bytes_lt(d[i].0, d[m].0));
                if bytes_lt(d[m].0, k) {
                    lemma_bytes_lt_transitive(d[i].0, d[m].0, k);
                }
                if d[m].0 == k {
                }
            }
            lemma_bytes_lt_total(d[m].0, k);
        }
        assert forall|a: int, b: int| 0 <= a < b < r.len() implies bytes_lt(
            #[trigger] r[a].0,
            #[trigger] r[b].0,
        ) by {
            if b < i {
                assert(r[a] == d[a] && r[b] == d[b]);
            } else if b == i {
                assert(r[a] == d[a]);
            } else if a < i {
                assert(r[a] == d[a] && r[b] == d[b - 1]);
                assert(bytes_lt(d[a].0, k));
                lemma_bytes_lt_transitive(d[a].0, k, d[b - 1].0);
            } else if a == i {
                assert(r[b] == d[b - 1]);
            } else {
                assert(r[a] == d[a - 1] && r[b] == d[b - 1]);
            }
        }
        assert forall|m: int| 0 <= m < r.len() implies (#[trigger] r[m]).0.len() <= usize::MAX
            && value_wf(r[m].1) && ((forall|j: int| 0 <= j < d.len() ==> list_free(#[trigger] d[j].1))
            && list_free(v) ==> list_free(r[m].1)) by {
            if m < i {
                assert(r[m] == d[m]);
            } else if m > i {
                assert(r[m] == d[m - 1]);
            }
        }
    }
}

proof fn lemma_find_byte_range(s: Seq<u8>, from: int, b: u8)
    ensures
        find_byte(s, from, b) matches Some(c) ==> 0 <= from <= c < s.len() && s[c] == b,
    decreases s.len() - from,
{
    if 0 <= from < s.len() && s[from] != b {
        lemma_find_byte_range(s, from + 1, b);
    }
}

proof fn lemma_byte_string_facts(s: Seq<u8>, p: int)
    ensures
        decode_byte_string(s, p) matches Some((b, n)) ==> b.len() <= usize::MAX && p < n <= s.len(),
{
    lemma_find_byte_range(s, p, BYTE_ARRAY_DIVIDER);
}

proof fn lemma_number_facts(s: Seq<u8>, p: int)
    ensures
        decode_number(s, p) matches Some((v, n)) ==> value_wf(v) && p < n <= s.len(),
{
    lemma_find_byte_range(s, p + 1, NUMBER_END);
}

/// A value read at `p` is well formed, holds no list and ends after `p`.
proof fn lemma_decode_at_wf(s: Seq<u8>, p: int)
    ensures
        decode_at(s, p) matches Some((v, n)) ==> value_wf(v) && list_free(v) && p < n <= s.len(),
    decreases s.len() - p, 0int,
{
    if 0 <= p <= s.len() {
        if p < s.len() && s[p] == DICTIONARY_START {
            lemma_decode_entries_wf(s, p + 1, Seq::empty());
        } else if p < s.len() && s[p] == LIST_START {
        } else if p < s.len() && s[p] == NUMBER_START {
            lemma_number_facts(s, p);
        } else {
            lemma_byte_string_facts(s, p);
        }
    }
}

proof fn lemma_decode_entries_wf(s: Seq<u8>, q: int, acc: Seq<(Seq<u8>, Value)>)
    requires
        keys_sorted(acc),
        forall|m: int|
            0 <= m < acc.len() ==> (#[trigger] acc[m]).0.len() <= usize::MAX && value_wf(acc[m].1)
                && list_free(acc[m].1),
        0 <= q <= s.len(),
    ensures
        decode_entries(s, q, acc) matches Some((v, n)) ==> value_wf(v) && list_free(v) && q <= n
            <= s.len(),
    decreases s.len() - q, 1int,
{
    if q < s.len() && s[q] != DICTIONARY_END {
        lemma_byte_string_facts(s, q);
        if let Some((k, q1)) = decode_byte_string(s, q) {
            if q < q1 <= s.len() {
                lemma_decode_at_wf(s, q1);
                if let Some((v, n)) = decode_at(s, q1) {
                    lemma_dict_insert_wf(acc, k, v);
                    lemma_decode_entries_wf(s, n, dict_insert(acc, k, v));
                }
            }
        }
    }
}

/// Whatever the reader accepts is a well-formed value that holds no list: its
/// dictionary keys strictly increase, whatever order the input gave them in.
pub proof fn law_decoded_wf(s: Seq<u8>)
    ensures
        decoded(s) matches Some(v) ==> value_wf(v) && list_free(v),
{
    lemma_decode_at_wf(s, 0);
}

} // verus!
