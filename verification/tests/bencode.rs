use bittorrent::bencode::decode::{decode_object, try_decode_object};
use bittorrent::bencode::encode::encode_object;
use bittorrent::bencode::object::Object;

fn bytes(s: &str) -> Vec<u8> {
    s.as_bytes().to_vec()
}

fn same(a: &Object, b: &Object) -> bool {
    match (a, b) {
        (Object::Number(x), Object::Number(y)) => x == y,
        (Object::ByteArray(x), Object::ByteArray(y)) => x == y,
        (Object::List(x), Object::List(y)) => {
            x.len() == y.len() && x.iter().zip(y.iter()).all(|(p, q)| same(p, q))
        }
        (Object::Dictionary(x), Object::Dictionary(y)) => {
            x.len() == y.len()
                && x.iter().zip(y.iter()).all(|(p, q)| p.0 == q.0 && same(&p.1, &q.1))
        }
        _ => false,
    }
}

#[test]
fn encodes_numbers() {
    assert_eq!(encode_object(&Object::Number(42)), bytes("i42e"));
    assert_eq!(encode_object(&Object::Number(0)), bytes("i0e"));
    assert_eq!(encode_object(&Object::Number(-7)), bytes("i-7e"));
    assert_eq!(
        encode_object(&Object::Number(i64::MIN)),
        bytes("i-9223372036854775808e")
    );
    assert_eq!(
        encode_object(&Object::Number(i64::MAX)),
        bytes("i9223372036854775807e")
    );
}

#[test]
fn encodes_byte_strings_lists_and_dictionaries() {
    assert_eq!(encode_object(&Object::ByteArray(bytes("spam"))), bytes("4:spam"));
    assert_eq!(encode_object(&Object::ByteArray(vec![])), bytes("0:"));
    let list = Object::List(vec![Object::ByteArray(bytes("a")), Object::Number(1)]);
    assert_eq!(encode_object(&list), bytes("l1:ai1ee"));
    let dict = Object::Dictionary(vec![
        (bytes("cow"), Object::ByteArray(bytes("moo"))),
        (bytes("spam"), Object::List(vec![])),
    ]);
    assert_eq!(encode_object(&dict), bytes("d3:cow3:moo4:spamlee"));
}

#[test]
fn decodes_values() {
    match decode_object(&bytes("i-13e")) {
        Object::Number(n) => assert_eq!(n, -13),
        _ => panic!("not a number"),
    }
    match decode_object(&bytes("5:hello")) {
        Object::ByteArray(b) => assert_eq!(b, bytes("hello")),
        _ => panic!("not a byte string"),
    }
    let expected = Object::Dictionary(vec![(bytes("k"), Object::ByteArray(bytes("xy")))]);
    assert!(same(&decode_object(&bytes("d1:k2:xye")), &expected));
}

#[test]
fn decode_sorts_keys_and_keeps_last_duplicate() {
    let o = decode_object(&bytes("d1:bi2e1:ai1e1:bi3ee"));
    let expected = Object::Dictionary(vec![
        (bytes("a"), Object::Number(1)),
        (bytes("b"), Object::Number(3)),
    ]);
    assert!(same(&o, &expected));
}

#[test]
fn decode_closes_dictionaries_at_end_of_input_and_ignores_trailing_bytes() {
    let expected = Object::Dictionary(vec![(bytes("a"), Object::Number(1))]);
    assert!(same(&decode_object(&bytes("d1:ai1e")), &expected));
    match decode_object(&bytes("i5eXYZ")) {
        Object::Number(n) => assert_eq!(n, 5),
        _ => panic!("not a number"),
    }
    match decode_object(&bytes("0")) {
        Object::ByteArray(b) => assert!(b.is_empty()),
        _ => panic!("not a byte string"),
    }
}

#[test]
fn decode_accepts_signs_as_from_str_does() {
    match decode_object(&bytes("i+5e")) {
        Object::Number(n) => assert_eq!(n, 5),
        _ => panic!("not a number"),
    }
    match decode_object(&bytes("i-0e")) {
        Object::Number(n) => assert_eq!(n, 0),
        _ => panic!("not a number"),
    }
    match decode_object(&bytes("+2:ab")) {
        Object::ByteArray(b) => assert_eq!(b, bytes("ab")),
        _ => panic!("not a byte string"),
    }
}

#[test]
fn refuses_what_the_reader_cannot_read() {
    assert!(try_decode_object(&bytes("")).is_none());
    assert!(try_decode_object(&bytes("i03e")).is_none());
    assert!(try_decode_object(&bytes("i12")).is_none());
    assert!(try_decode_object(&bytes("i9223372036854775808e")).is_none());
    assert!(try_decode_object(&bytes("ie")).is_none());
    assert!(try_decode_object(&bytes("i-e")).is_none());
    assert!(try_decode_object(&bytes("05:hello")).is_none());
    assert!(try_decode_object(&bytes("5:hell")).is_none());
    assert!(try_decode_object(&bytes("x:ab")).is_none());
    assert!(try_decode_object(&bytes("di1ei2ee")).is_none());
}

#[test]
fn gives_up_on_lists() {
    assert!(try_decode_object(&bytes("le")).is_none());
    assert!(try_decode_object(&bytes("li1e2:xye")).is_none());
    assert!(try_decode_object(&bytes("d1:ai1e1:bli2eee")).is_none());
    let written = encode_object(&Object::List(vec![Object::Number(1)]));
    assert!(try_decode_object(&written).is_none());
}

#[test]
fn written_values_read_back() {
    let value = Object::Dictionary(vec![
        (bytes("a"), Object::Dictionary(vec![
            (bytes("n"), Object::Number(-1)),
            (bytes("z"), Object::ByteArray(vec![0, 255])),
        ])),
        (bytes("b"), Object::Dictionary(vec![(bytes("x"), Object::Number(i64::MAX))])),
        (bytes("c"), Object::ByteArray(bytes(""))),
    ]);
    let mut encoded = encode_object(&value);
    encoded.extend_from_slice(b"trailing");
    let back = try_decode_object(&encoded).expect("readable");
    assert!(same(&back, &value));
}
