use boosttorrent::bencode::{
    compare_bytes_slice, parse_bstring, parse_dict, parse_integer, parse_integer_literal,
    parse_list, parse_val, DecodeError, Value,
};
use core::cmp::Ordering;

fn bytes(s: &str) -> Vec<u8> {
    s.as_bytes().to_vec()
}

#[test]
fn test_parse_integer_literal() {
    let mut s123 = "123e".to_string().into_bytes();
    let res = parse_integer_literal(s123.as_mut()).unwrap();
    assert_eq!(res, 123);
}

#[test]
fn test_parse_bstring() {
    let mut s1 = "4:spam".to_string().into_bytes();

    let val = parse_bstring(s1.as_mut()).unwrap();

    assert_eq!(val, Value::BString(vec![b's', b'p', b'a', b'm']));
    assert_eq!(0, s1.len());
}

#[test]
fn test_parse_integer() {
    let mut s1 = "i123e".to_string().into_bytes();
    let mut s2 = "i-4e".to_string().into_bytes();

    let val1 = parse_integer(s1.as_mut()).unwrap();
    let val2 = parse_integer(s2.as_mut()).unwrap();

    assert_eq!(val1, Value::Integer(123));
    assert_eq!(val2, Value::Integer(-4));
    assert_eq!(0, s1.len());
    assert_eq!(0, s2.len());
}

#[test]
#[should_panic]
fn test_parse_integer_negative_zero() {
    let mut s1 = "i-0e".to_string().into_bytes();
    parse_integer(s1.as_mut()).unwrap();
}

#[test]
#[should_panic]
fn test_parse_integer_leading_zero() {
    let mut s1 = "i023e".to_string().into_bytes();
    parse_integer(s1.as_mut()).unwrap();
}

#[test]
fn test_parse_list() {
    let mut s1 = "l4:spami123ee".to_string().into_bytes();

    let val1 = parse_list(s1.as_mut()).unwrap();

    assert_eq!(
        val1,
        Value::List(vec![
            Value::BString(vec![b's', b'p', b'a', b'm']),
            Value::Integer(123)
        ])
    );
}

#[test]
fn test_parses_dict() {
    let mut s1 = "d5:hello5:world4:spami123ee".to_string().into_bytes();
    let val1 = parse_dict(s1.as_mut()).unwrap();

    let entries = vec![
        (bytes("hello"), Value::BString(bytes("world"))),
        (bytes("spam"), Value::Integer(123)),
    ];
    assert_eq!(val1, Value::Dict(entries));
}

#[test]
#[should_panic]
fn test_parse_dict_not_ascending() {
    let mut s1 = "d5:worldi1e5:helloi2ee".to_string().into_bytes();
    parse_dict(s1.as_mut()).unwrap();
}

#[test]
fn test_encode() {
    let spam = vec![115, 112, 97, 109];
    let hello = vec![104, 101, 108, 108, 111];
    let v1 = Value::BString(spam.clone());
    let v2 = Value::Integer(100);
    let v3 = Value::List(vec![
        Value::BString(spam.clone()),
        Value::Integer(100),
    ]);

    // entries deliberately out of key order: encode must sort them
    let map = vec![
        (spam, Value::Integer(100)),
        (
            hello,
            Value::List(vec![Value::BString(vec![115, 112, 97, 109]), Value::Integer(100)]),
        ),
    ];
    let v4 = Value::Dict(map);

    assert_eq!("4:spam", std::str::from_utf8(v1.encode().as_ref()).unwrap());
    assert_eq!("i100e", std::str::from_utf8(v2.encode().as_ref()).unwrap());
    assert_eq!(
        "l4:spami100ee",
        std::str::from_utf8(v3.encode().as_ref()).unwrap()
    );
    assert_eq!(
        "d5:hellol4:spami100ee4:spami100ee",
        std::str::from_utf8(v4.encode().as_ref()).unwrap()
    );
}

#[test]
fn test_compare_bstring() {
    let v1 = vec![0, 1, 2, 3];
    let v2 = vec![1, 1, 2, 3];
    let v3 = vec![9, 8, 7];
    let v4 = vec![9, 8, 8];
    let vs = vec![8];
    let vl = vec![8, 8, 8];

    assert_eq!(Ordering::Equal, compare_bytes_slice(v1.as_ref(), v1.as_ref()));
    assert_eq!(Ordering::Less, compare_bytes_slice(v1.as_ref(), v2.as_ref()));
    assert_eq!(Ordering::Greater, compare_bytes_slice(v2.as_ref(), v1.as_ref()));
    assert_eq!(Ordering::Less, compare_bytes_slice(v3.as_ref(), v4.as_ref()));
    assert_eq!(Ordering::Greater, compare_bytes_slice(v4.as_ref(), v3.as_ref()));
    assert_eq!(Ordering::Less, compare_bytes_slice(vs.as_ref(), vl.as_ref()));
    assert_eq!(Ordering::Greater, compare_bytes_slice(vl.as_ref(), vs.as_ref()));
}

#[test]
fn test_decode_literal_vectors() {
    assert_eq!(
        Value::decode(b"4:spam").unwrap(),
        Value::BString(bytes("spam"))
    );
    assert_eq!(Value::decode(b"i123e").unwrap(), Value::Integer(123));
    assert_eq!(Value::decode(b"i-4e").unwrap(), Value::Integer(-4));
    assert_eq!(
        Value::decode(b"l4:spami123ee").unwrap(),
        Value::List(vec![Value::BString(bytes("spam")), Value::Integer(123)])
    );
    assert_eq!(
        Value::decode(b"d5:hello5:world4:spami123ee").unwrap(),
        Value::Dict(vec![
            (bytes("hello"), Value::BString(bytes("world"))),
            (bytes("spam"), Value::Integer(123)),
        ])
    );
}

#[test]
fn test_decode_rejects_non_canonical() {
    assert_eq!(Value::decode(b"i-0e"), Err(DecodeError::InvalidInteger));
    assert_eq!(Value::decode(b"i023e"), Err(DecodeError::InvalidInteger));
    assert_eq!(
        Value::decode(b"d1:bi1e1:ai2ee"),
        Err(DecodeError::InvalidDict)
    );
    // trailing bytes after a whole document
    assert_eq!(Value::decode(b"i1ei2e"), Err(DecodeError::InvalidValue));
    // truncated list
    assert_eq!(Value::decode(b"l4:spam"), Err(DecodeError::InvalidList));
    // byte-string length with a superfluous leading zero
    assert_eq!(Value::decode(b"04:spam"), Err(DecodeError::InvalidString));
    // not a bencode form at all
    assert_eq!(Value::decode(b"x"), Err(DecodeError::InvalidValue));
    assert_eq!(Value::decode(b""), Err(DecodeError::InvalidValue));
}

#[test]
fn test_round_trip_nested() {
    let v = Value::Dict(vec![
        (
            bytes("zz"),
            Value::List(vec![
                Value::Integer(-9223372036854775808),
                Value::Integer(9223372036854775807),
                Value::BString(vec![0, 255, 13, 10]),
            ]),
        ),
        (
            bytes("aa"),
            Value::Dict(vec![
                (bytes("k"), Value::Integer(0)),
                (bytes("kk"), Value::BString(vec![])),
            ]),
        ),
    ]);
    let encoded = v.encode();
    let decoded = Value::decode(encoded.as_slice()).unwrap();
    // decode yields the canonical (key-sorted) arrangement of the same value
    let expected = Value::Dict(vec![
        (
            bytes("aa"),
            Value::Dict(vec![
                (bytes("k"), Value::Integer(0)),
                (bytes("kk"), Value::BString(vec![])),
            ]),
        ),
        (
            bytes("zz"),
            Value::List(vec![
                Value::Integer(-9223372036854775808),
                Value::Integer(9223372036854775807),
                Value::BString(vec![0, 255, 13, 10]),
            ]),
        ),
    ]);
    assert_eq!(decoded, expected);
    // a value already in canonical order comes back exactly
    let encoded2 = expected.encode();
    assert_eq!(Value::decode(encoded2.as_slice()).unwrap(), expected);
    assert_eq!(encoded, encoded2);
}

#[test]
fn test_integer_overflow_rejected() {
    assert_eq!(
        Value::decode(b"i9223372036854775807e").unwrap(),
        Value::Integer(9223372036854775807)
    );
    assert_eq!(
        Value::decode(b"i-9223372036854775808e").unwrap(),
        Value::Integer(-9223372036854775808)
    );
    assert_eq!(
        Value::decode(b"i9223372036854775808e"),
        Err(DecodeError::InvalidInteger)
    );
    assert_eq!(
        Value::decode(b"i-9223372036854775809e"),
        Err(DecodeError::InvalidInteger)
    );
}

#[test]
fn test_parse_val_consumes_one_value() {
    let mut s = "i7e4:rest".to_string().into_bytes();
    let v = parse_val(s.as_mut()).unwrap();
    assert_eq!(v, Value::Integer(7));
    assert_eq!(s, bytes("4:rest"));
}
