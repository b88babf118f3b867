use chat_relay::codec::{decode, decode_record, encode, Envelope};
use chat_relay::fanout::{Fanout, RecvOutcome};
use chat_relay::handler::{relay_client_text, relay_disconnect, Session};
use chat_relay::registry::Registry;

fn bytes(s: &str) -> Vec<u8> {
    s.as_bytes().to_vec()
}

fn client_frame(kind: &str, data: &str) -> Vec<u8> {
    encode(&Envelope {
        message_type: bytes(kind),
        data: Some(bytes(data)),
        data_array: None,
    })
}

fn next_frame(f: &Fanout, sub: &mut chat_relay::fanout::Subscriber) -> Vec<u8> {
    match f.recv(sub) {
        RecvOutcome::Frame(v) => v,
        _ => panic!("expected a frame"),
    }
}

#[test]
fn subscribers_observe_the_whole_session_in_order() {
    let mut reg = Registry::new();
    let mut fan = Fanout::new(16);
    let mut watcher = fan.subscribe();

    let mut a = Session::new(1);
    let mut b = Session::new(2);

    assert!(relay_client_text(&mut a, &mut reg, &mut fan, &client_frame("register", "alice"), 10));
    assert!(relay_client_text(&mut b, &mut reg, &mut fan, &client_frame("register", "bob"), 20));
    assert!(relay_client_text(&mut a, &mut reg, &mut fan, &client_frame("message", "hi"), 30));
    assert!(!relay_client_text(&mut b, &mut reg, &mut fan, &bytes("garbage"), 40));
    relay_disconnect(&mut a, &mut reg, &mut fan);

    let e1 = decode(&next_frame(&fan, &mut watcher)).unwrap();
    assert_eq!(e1.message_type, bytes("users"));
    assert_eq!(e1.data_array, Some(vec![bytes("alice")]));

    let e2 = decode(&next_frame(&fan, &mut watcher)).unwrap();
    assert_eq!(e2.data_array, Some(vec![bytes("alice"), bytes("bob")]));

    let e3 = decode(&next_frame(&fan, &mut watcher)).unwrap();
    assert_eq!(e3.message_type, bytes("message"));
    let rec = decode_record(&e3.data.unwrap()).unwrap();
    assert_eq!(rec.from, bytes("alice"));
    assert_eq!(rec.message, bytes("hi"));
    assert_eq!(rec.time, Some(30));

    let e4 = decode(&next_frame(&fan, &mut watcher)).unwrap();
    assert_eq!(e4.message_type, bytes("users"));
    assert_eq!(e4.data_array, Some(vec![bytes("bob")]));

    assert!(matches!(fan.recv(&mut watcher), RecvOutcome::Empty));
}
