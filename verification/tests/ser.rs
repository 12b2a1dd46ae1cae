use boosttorrent::bencode::Value;

fn encoded_text(v: &Value) -> String {
    String::from_utf8(v.encode()).unwrap()
}

fn bs(s: &str) -> Value {
    Value::BString(s.as_bytes().to_vec())
}

#[test]
fn test_integers() {
    let zero = encoded_text(&Value::Integer(0));
    let one = encoded_text(&Value::Integer(1));
    let big = encoded_text(&Value::Integer(123456));
    let negative_one = encoded_text(&Value::Integer(-1));
    let small = encoded_text(&Value::Integer(-654321));

    assert_eq!("i0e".to_string(), zero);
    assert_eq!("i1e".to_string(), one);
    assert_eq!("i123456e".to_string(), big);
    assert_eq!("i-1e".to_string(), negative_one);
    assert_eq!("i-654321e".to_string(), small);
}

#[test]
fn test_bstrings() {
    let hello = encoded_text(&bs("hello"));
    let nothing = encoded_text(&bs(""));
    let raw = Value::BString(vec![1, 2, 3]).encode();
    let bytes_expected = vec![b'3', b':', 1, 2, 3];

    let long = encoded_text(&bs("loooooooooong"));

    assert_eq!("5:hello".to_string(), hello);
    assert_eq!("0:".to_string(), nothing);
    assert_eq!(bytes_expected, raw);
    assert_eq!("13:loooooooooong".to_string(), long);
}

#[test]
fn test_list() {
    let numbers = encoded_text(&Value::List(vec![
        Value::Integer(1),
        Value::Integer(2),
        Value::Integer(3),
    ]));
    let letters = encoded_text(&Value::List(vec![bs("hello"), bs("world")]));
    let list_of_lists = encoded_text(&Value::List(vec![
        Value::List(vec![bs("list1")]),
        Value::List(vec![bs("list2")]),
    ]));

    assert_eq!("li1ei2ei3ee".to_string(), numbers);
    assert_eq!("l5:hello5:worlde".to_string(), letters);
    assert_eq!("ll5:list1el5:list2ee".to_string(), list_of_lists);
}

#[test]
fn test_map() {
    let map = Value::Dict(vec![(b"hello".to_vec(), Value::Integer(5))]);
    let serialized = encoded_text(&map);

    assert_eq!("d5:helloi5ee".to_string(), serialized);
}

#[test]
fn test_struct() {
    // a record with fields zinteger, string and list, as a dictionary
    let test = Value::Dict(vec![
        (b"zinteger".to_vec(), Value::Integer(555)),
        (b"string".to_vec(), bs("struct time")),
        (
            b"list".to_vec(),
            Value::List(vec![bs("one"), bs("two"), bs("three")]),
        ),
    ]);

    let res = encoded_text(&test);
    let serialized = "d4:listl3:one3:two5:threee6:string11:struct time8:zintegeri555ee".to_string();
    assert_eq!(serialized, res);
}
