use bittorrent::json::{bencode_to_json, decode_to_json, BencodeValue, JsonValue};

fn text(j: &JsonValue) -> &str {
    match j {
        JsonValue::Text(s) => s.as_str(),
        other => panic!("expected text, got {:?}", other),
    }
}

#[test]
fn decode_string_and_integer() {
    assert_eq!(text(&decode_to_json(b"5:hello").unwrap()), "hello");
    match decode_to_json(b"i-52e").unwrap() {
        JsonValue::Number(n) => assert_eq!(n, -52),
        other => panic!("{:?}", other),
    }
}

#[test]
fn decode_list_and_dict() {
    match decode_to_json(b"l5:helloi52ee").unwrap() {
        JsonValue::Array(items) => {
            assert_eq!(items.len(), 2);
            assert_eq!(text(&items[0]), "hello");
            assert!(matches!(items[1], JsonValue::Number(52)));
        }
        other => panic!("{:?}", other),
    }
    match decode_to_json(b"d3:cow3:moo4:spaml1:a1:bee").unwrap() {
        JsonValue::Object(members) => {
            assert_eq!(members.len(), 2);
            assert_eq!(members[0].0, "cow");
            assert_eq!(text(&members[0].1), "moo");
            assert_eq!(members[1].0, "spam");
            assert!(matches!(&members[1].1, JsonValue::Array(a) if a.len() == 2));
        }
        other => panic!("{:?}", other),
    }
}

#[test]
fn decode_rejects_garbage() {
    assert!(decode_to_json(b"x").is_none());
    assert!(decode_to_json(b"5:abc").is_none());
}

#[test]
fn invalid_utf8_becomes_replacement_character() {
    let j = bencode_to_json(&BencodeValue::Bytes(vec![0x61, 0xff]));
    assert_eq!(text(&j), "a\u{fffd}");
}

#[test]
fn dict_keys_that_read_alike_keep_the_later_entry() {
    let d = BencodeValue::Dict(vec![
        (vec![0xfe], BencodeValue::Integer(1)),
        (vec![0xff], BencodeValue::Integer(2)),
        (b"k".to_vec(), BencodeValue::Integer(3)),
    ]);
    match bencode_to_json(&d) {
        JsonValue::Object(members) => {
            assert_eq!(members.len(), 2);
            assert_eq!(members[0].0, "\u{fffd}");
            assert!(matches!(members[0].1, JsonValue::Number(2)));
            assert_eq!(members[1].0, "k");
        }
        other => panic!("{:?}", other),
    }
}

#[test]
fn nested_valid_utf8_texts_come_through() {
    let list = BencodeValue::List(vec![BencodeValue::Bytes(b"hi".to_vec())]);
    match bencode_to_json(&list) {
        JsonValue::Array(items) => assert_eq!(text(&items[0]), "hi"),
        other => panic!("{:?}", other),
    }
    let dict = BencodeValue::Dict(vec![
        ("é".as_bytes().to_vec(), BencodeValue::Integer(1)),
        (b"z".to_vec(), BencodeValue::Bytes("ü".as_bytes().to_vec())),
    ]);
    match bencode_to_json(&dict) {
        JsonValue::Object(members) => {
            assert_eq!(members.len(), 2);
            assert_eq!(members[0].0, "é");
            assert_eq!(members[1].0, "z");
            assert_eq!(text(&members[1].1), "ü");
        }
        other => panic!("{:?}", other),
    }
}

#[test]
fn decoded_dictionary_keeps_every_key() {
    match decode_to_json(b"d1:ai1e1:bi2e1:ci3ee").unwrap() {
        JsonValue::Object(members) => {
            let names: Vec<&str> = members.iter().map(|(n, _)| n.as_str()).collect();
            assert_eq!(names, vec!["a", "b", "c"]);
            assert!(matches!(members[2].1, JsonValue::Number(3)));
        }
        other => panic!("{:?}", other),
    }
}
