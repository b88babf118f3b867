use chat_relay::fanout::{Fanout, RecvOutcome};

fn bytes(s: &str) -> Vec<u8> {
    s.as_bytes().to_vec()
}

fn expect_frame(f: &Fanout, sub: &mut chat_relay::fanout::Subscriber) -> Vec<u8> {
    match f.recv(sub) {
        RecvOutcome::Frame(v) => v,
        RecvOutcome::Lagged(_) => panic!("unexpected lag"),
        RecvOutcome::Empty => panic!("unexpected empty"),
    }
}

#[test]
fn every_subscriber_sees_every_frame_in_publish_order() {
    let mut f = Fanout::new(16);
    let mut s1 = f.subscribe();
    let mut s2 = f.subscribe();
    f.publish(bytes("one"));
    f.publish(bytes("two"));
    f.publish(bytes("three"));
    for sub in [&mut s1, &mut s2] {
        assert_eq!(expect_frame(&f, sub), bytes("one"));
        assert_eq!(expect_frame(&f, sub), bytes("two"));
        assert_eq!(expect_frame(&f, sub), bytes("three"));
        assert!(matches!(f.recv(sub), RecvOutcome::Empty));
    }
}

#[test]
fn late_subscriber_sees_nothing_from_before() {
    let mut f = Fanout::new(16);
    f.publish(bytes("early"));
    let mut s = f.subscribe();
    assert!(matches!(f.recv(&mut s), RecvOutcome::Empty));
    f.publish(bytes("late"));
    assert_eq!(expect_frame(&f, &mut s), bytes("late"));
}

#[test]
fn lagging_subscriber_drops_oldest_only_for_itself() {
    let mut f = Fanout::new(2);
    let mut slow = f.subscribe();
    f.publish(bytes("a"));
    f.publish(bytes("b"));
    f.publish(bytes("c"));
    f.publish(bytes("d"));
    match f.recv(&mut slow) {
        RecvOutcome::Lagged(n) => assert_eq!(n, 2),
        _ => panic!("expected lag"),
    }
    assert_eq!(expect_frame(&f, &mut slow), bytes("c"));
    assert_eq!(expect_frame(&f, &mut slow), bytes("d"));
    assert!(matches!(f.recv(&mut slow), RecvOutcome::Empty));
    let mut fresh = f.subscribe();
    f.publish(bytes("e"));
    assert_eq!(expect_frame(&f, &mut fresh), bytes("e"));
}
