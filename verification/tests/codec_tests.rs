use chat_relay::codec::{decode, decode_record, encode, encode_record, ChatRecord, Envelope};

fn bytes(s: &str) -> Vec<u8> {
    s.as_bytes().to_vec()
}

#[test]
fn encode_register_is_canonical() {
    let e = Envelope {
        message_type: bytes("register"),
        data: Some(bytes("alice")),
        data_array: None,
    };
    let out = encode(&e);
    assert_eq!(out, bytes("{\"messageType\":\"register\",\"data\":\"alice\"}"));
}

#[test]
fn encode_users_is_canonical() {
    let e = Envelope {
        message_type: bytes("users"),
        data: None,
        data_array: Some(vec![bytes("alice"), bytes("bob")]),
    };
    let out = encode(&e);
    assert_eq!(
        out,
        bytes("{\"messageType\":\"users\",\"dataArray\":[\"alice\",\"bob\"]}")
    );
}

#[test]
fn decode_inverts_encode() {
    let e = Envelope {
        message_type: bytes("typing"),
        data: Some(bytes("bob")),
        data_array: None,
    };
    let out = encode(&e);
    let back = decode(&out).unwrap();
    assert_eq!(back.message_type, bytes("typing"));
    assert_eq!(back.data, Some(bytes("bob")));
    assert_eq!(back.data_array, None);
}

#[test]
fn decode_inverts_encode_with_escapes() {
    let name = b"a\"b\\c".to_vec();
    let e = Envelope {
        message_type: bytes("register"),
        data: Some(name.clone()),
        data_array: None,
    };
    let out = encode(&e);
    let back = decode(&out).unwrap();
    assert_eq!(back.data, Some(name));
}

#[test]
fn decode_inverts_encode_with_array() {
    let e = Envelope {
        message_type: bytes("users"),
        data: None,
        data_array: Some(vec![bytes("a"), bytes("b"), bytes("c")]),
    };
    let out = encode(&e);
    let back = decode(&out).unwrap();
    assert_eq!(back.data_array, Some(vec![bytes("a"), bytes("b"), bytes("c")]));
}

#[test]
fn decode_empty_array() {
    let e = Envelope {
        message_type: bytes("users"),
        data: None,
        data_array: Some(vec![]),
    };
    let out = encode(&e);
    let back = decode(&out).unwrap();
    assert_eq!(back.data_array, Some(vec![]));
}

#[test]
fn decode_rejects_non_json() {
    assert!(decode(&bytes("this is not json")).is_err());
    assert!(decode(&bytes("")).is_err());
    assert!(decode(&bytes("{}")).is_err());
}

#[test]
fn decode_rejects_missing_message_type() {
    assert!(decode(&bytes("{\"data\":\"hi\"}")).is_err());
}

#[test]
fn decode_keeps_unrecognized_kind() {
    let back = decode(&bytes("{\"messageType\":\"blorp\",\"data\":\"x\"}")).unwrap();
    assert_eq!(back.message_type, bytes("blorp"));
    assert_eq!(back.data, Some(bytes("x")));
}

#[test]
fn record_round_trip() {
    let r = ChatRecord {
        from: bytes("alice"),
        message: bytes("hi"),
        time: Some(1700000000123),
    };
    let out = encode_record(&r);
    assert_eq!(
        out,
        bytes("{\"from\":\"alice\",\"message\":\"hi\",\"time\":1700000000123}")
    );
    let back = decode_record(&out).unwrap();
    assert_eq!(back.from, bytes("alice"));
    assert_eq!(back.message, bytes("hi"));
    assert_eq!(back.time, Some(1700000000123));
}

#[test]
fn record_round_trip_without_time() {
    let r = ChatRecord {
        from: bytes("a"),
        message: bytes("m"),
        time: None,
    };
    let back = decode_record(&encode_record(&r)).unwrap();
    assert_eq!(back.time, None);
}

#[test]
fn record_round_trip_extreme_times() {
    for t in [0i64, -1, 7, i64::MIN, i64::MAX] {
        let r = ChatRecord {
            from: bytes("x"),
            message: bytes("y"),
            time: Some(t),
        };
        let back = decode_record(&encode_record(&r)).unwrap();
        assert_eq!(back.time, Some(t));
    }
}

#[test]
fn record_decode_rejects_garbage() {
    assert!(decode_record(&bytes("{\"from\":\"a\"}")).is_err());
    assert!(decode_record(&bytes("nope")).is_err());
}

#[test]
fn encoded_frames_are_valid_json() {
    let e = Envelope {
        message_type: bytes("message"),
        data: Some(bytes("he said \"hi\" \\ waved")),
        data_array: None,
    };
    let out = String::from_utf8(encode(&e)).unwrap();
    let v: serde_json::Value = serde_json::from_str(&out).unwrap();
    assert_eq!(v["messageType"].as_str().unwrap(), "message");
    assert_eq!(v["data"].as_str().unwrap(), "he said \"hi\" \\ waved");

    let r = ChatRecord {
        from: bytes("alice"),
        message: bytes("hi"),
        time: Some(-42),
    };
    let out = String::from_utf8(encode_record(&r)).unwrap();
    let v: serde_json::Value = serde_json::from_str(&out).unwrap();
    assert_eq!(v["from"].as_str().unwrap(), "alice");
    assert_eq!(v["time"].as_i64().unwrap(), -42);
}

#[test]
fn decode_accepts_client_field_order_and_null() {
    let back = decode(&bytes(
        "{\"messageType\":\"register\",\"dataArray\":null,\"data\":\"alice\"}",
    ))
    .unwrap();
    assert_eq!(back.message_type, bytes("register"));
    assert_eq!(back.data, Some(bytes("alice")));
    assert_eq!(back.data_array, None);
}

#[test]
fn decode_accepts_whitespace_and_any_key_order() {
    let back = decode(&bytes(
        " { \"data\" : \"hi\" , \"messageType\" : \"message\" } ",
    ))
    .unwrap();
    assert_eq!(back.message_type, bytes("message"));
    assert_eq!(back.data, Some(bytes("hi")));
    let back = decode(&bytes(
        "{\"dataArray\": [ \"a\" , \"b\" ] ,\"messageType\":\"users\"}",
    ))
    .unwrap();
    assert_eq!(back.message_type, bytes("users"));
    assert_eq!(back.data_array, Some(vec![bytes("a"), bytes("b")]));
}

#[test]
fn decode_standard_escapes() {
    let back = decode(&bytes(
        "{\"messageType\":\"message\",\"data\":\"a\\n\\t\\/\\u0041\\u000a\"}",
    ))
    .unwrap();
    assert_eq!(back.data, Some(b"a\n\t/A\n".to_vec()));
}

#[test]
fn decode_rejects_duplicate_or_unknown_keys() {
    assert!(decode(&bytes("{\"messageType\":\"a\",\"messageType\":\"b\"}")).is_err());
    assert!(decode(&bytes("{\"messageType\":\"a\",\"extra\":\"b\"}")).is_err());
}

#[test]
fn control_characters_round_trip_as_valid_json() {
    let msg = b"line1\nline2\x01end".to_vec();
    let e = Envelope {
        message_type: bytes("message"),
        data: Some(msg.clone()),
        data_array: None,
    };
    let out = encode(&e);
    let back = decode(&out).unwrap();
    assert_eq!(back.data, Some(msg));
    let txt = String::from_utf8(out).unwrap();
    let v: serde_json::Value = serde_json::from_str(&txt).unwrap();
    assert_eq!(v["data"].as_str().unwrap(), "line1\nline2\u{1}end");
}
