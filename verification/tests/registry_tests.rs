use chat_relay::registry::Registry;

fn bytes(s: &str) -> Vec<u8> {
    s.as_bytes().to_vec()
}

#[test]
fn snapshot_lists_registered_names_once() {
    let mut reg = Registry::new();
    reg.register(1, bytes("alice"));
    reg.register(2, bytes("bob"));
    reg.register(3, bytes("carol"));
    let snap = reg.snapshot();
    assert_eq!(snap, vec![bytes("alice"), bytes("bob"), bytes("carol")]);
    assert_eq!(reg.len(), 3);
}

#[test]
fn reregister_overwrites_and_drops_stale_name() {
    let mut reg = Registry::new();
    reg.register(1, bytes("alice"));
    reg.register(2, bytes("bob"));
    reg.register(1, bytes("alicia"));
    let snap = reg.snapshot();
    assert_eq!(snap, vec![bytes("alicia"), bytes("bob")]);
    assert!(!snap.contains(&bytes("alice")));
    assert_eq!(reg.resolve(1), Some(bytes("alicia")));
}

#[test]
fn shared_names_are_kept_per_identity() {
    let mut reg = Registry::new();
    reg.register(1, bytes("dup"));
    reg.register(2, bytes("dup"));
    assert_eq!(reg.snapshot(), vec![bytes("dup"), bytes("dup")]);
}

#[test]
fn resolve_unknown_is_none() {
    let reg = Registry::new();
    assert_eq!(reg.resolve(9), None);
}

#[test]
fn unregister_removes_and_is_idempotent() {
    let mut reg = Registry::new();
    reg.register(1, bytes("alice"));
    reg.register(2, bytes("bob"));
    reg.unregister(1);
    assert_eq!(reg.snapshot(), vec![bytes("bob")]);
    assert_eq!(reg.resolve(1), None);
    reg.unregister(1);
    assert_eq!(reg.snapshot(), vec![bytes("bob")]);
}
