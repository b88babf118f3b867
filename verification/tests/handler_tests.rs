use chat_relay::codec::{decode, decode_record, encode, Envelope};
use chat_relay::handler::{ConnState, Session};
use chat_relay::registry::Registry;

fn bytes(s: &str) -> Vec<u8> {
    s.as_bytes().to_vec()
}

fn client_frame(kind: &str, data: &str) -> Vec<u8> {
    encode(&Envelope {
        message_type: bytes(kind),
        data: Some(bytes(data)),
        data_array: None,
    })
}

#[test]
fn register_publishes_fresh_roster() {
    let mut reg = Registry::new();
    let mut a = Session::new(1);
    let out = a
        .on_client_text(&mut reg, &client_frame("register", "alice"), 0)
        .unwrap();
    let env = decode(&out).unwrap();
    assert_eq!(env.message_type, bytes("users"));
    assert_eq!(env.data_array, Some(vec![bytes("alice")]));
    assert_eq!(a.state, ConnState::Registered);

    let mut b = Session::new(2);
    let out = b
        .on_client_text(&mut reg, &client_frame("register", "bob"), 0)
        .unwrap();
    let env = decode(&out).unwrap();
    assert_eq!(env.data_array, Some(vec![bytes("alice"), bytes("bob")]));
}

#[test]
fn message_is_attributed_to_registered_name() {
    let mut reg = Registry::new();
    let mut a = Session::new(1);
    a.on_client_text(&mut reg, &client_frame("register", "alice"), 0)
        .unwrap();
    let out = a
        .on_client_text(&mut reg, &client_frame("message", "hi"), 1234)
        .unwrap();
    let env = decode(&out).unwrap();
    assert_eq!(env.message_type, bytes("message"));
    let rec = decode_record(&env.data.unwrap()).unwrap();
    assert_eq!(rec.from, bytes("alice"));
    assert_eq!(rec.message, bytes("hi"));
    assert_eq!(rec.time, Some(1234));
}

#[test]
fn unregistered_sender_gets_sentinel_name() {
    let mut reg = Registry::new();
    let mut c = Session::new(3);
    let out = c
        .on_client_text(&mut reg, &client_frame("message", "hello"), 7)
        .unwrap();
    let rec = decode_record(&decode(&out).unwrap().data.unwrap()).unwrap();
    assert_eq!(rec.from, bytes("anonymous"));
    assert_eq!(rec.message, bytes("hello"));
}

#[test]
fn typing_notice_passes_through_unchanged() {
    let mut reg = Registry::new();
    let mut a = Session::new(1);
    let out = a
        .on_client_text(&mut reg, &client_frame("typing", "whoever"), 0)
        .unwrap();
    let env = decode(&out).unwrap();
    assert_eq!(env.message_type, bytes("typing"));
    assert_eq!(env.data, Some(bytes("whoever")));
    assert_eq!(a.state, ConnState::Connected);
}

#[test]
fn malformed_frame_is_discarded_and_connection_stays_open() {
    let mut reg = Registry::new();
    let mut a = Session::new(1);
    assert!(a.on_client_text(&mut reg, &bytes("not json"), 0).is_none());
    assert_eq!(a.state, ConnState::Connected);
    assert!(a
        .on_client_text(&mut reg, &client_frame("register", "alice"), 0)
        .is_some());
}

#[test]
fn unrecognized_kind_is_ignored() {
    let mut reg = Registry::new();
    let mut a = Session::new(1);
    assert!(a
        .on_client_text(&mut reg, &client_frame("blorp", "x"), 0)
        .is_none());
    assert_eq!(reg.len(), 0);
}

#[test]
fn register_without_name_does_nothing() {
    let mut reg = Registry::new();
    let mut a = Session::new(1);
    let frame = encode(&Envelope {
        message_type: bytes("register"),
        data: None,
        data_array: None,
    });
    assert!(a.on_client_text(&mut reg, &frame, 0).is_none());
    assert_eq!(a.state, ConnState::Connected);
    assert_eq!(reg.len(), 0);
}

#[test]
fn disconnect_removes_identity_and_republishes_roster() {
    let mut reg = Registry::new();
    let mut a = Session::new(1);
    let mut b = Session::new(2);
    a.on_client_text(&mut reg, &client_frame("register", "alice"), 0)
        .unwrap();
    b.on_client_text(&mut reg, &client_frame("register", "bob"), 0)
        .unwrap();
    let out = a.on_disconnect(&mut reg);
    assert_eq!(a.state, ConnState::Closed);
    let env = decode(&out).unwrap();
    assert_eq!(env.message_type, bytes("users"));
    assert_eq!(env.data_array, Some(vec![bytes("bob")]));

    let mut c = Session::new(9);
    let out = c
        .on_client_text(&mut reg, &client_frame("message", "psst"), 3)
        .unwrap();
    let rec = decode_record(&decode(&out).unwrap().data.unwrap()).unwrap();
    assert_eq!(rec.from, bytes("anonymous"));
}

#[test]
fn timestamps_come_from_the_clock() {
    let mut reg = Registry::new();
    let mut a = Session::new(1);
    a.on_client_text(&mut reg, &client_frame("register", "alice"), 0)
        .unwrap();
    let before = chrono::Utc::now().timestamp_millis();
    let out = a
        .on_client_text_now(&mut reg, &client_frame("message", "hi"))
        .unwrap();
    let after = chrono::Utc::now().timestamp_millis();
    let rec = decode_record(&decode(&out).unwrap().data.unwrap()).unwrap();
    let t = rec.time.unwrap();
    assert!(before <= t && t <= after);
}
