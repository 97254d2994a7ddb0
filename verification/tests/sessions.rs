use portopener::session::{ClientKey, SessionTable, NANOS_PER_SEC};

fn client(port: u16) -> ClientKey {
    ClientKey { v6: false, ip: 0x7f00_0001, port, flowinfo: 0, scope_id: 0 }
}

#[test]
fn new_session_table_is_empty() {
    let t: SessionTable<u32> = SessionTable::new();
    assert_eq!(t.len(), 0);
    assert!(t.socket_of(client(1)).is_none());
}

#[test]
fn insert_then_touch_finds_the_session() {
    let mut t = SessionTable::new();
    assert!(!t.touch(client(1), 5));
    t.insert(client(1), 10u32, 5);
    assert_eq!(t.len(), 1);
    assert!(t.touch(client(1), 7));
    assert_eq!(t.socket_of(client(1)), Some(&10));
    assert_eq!(t.socket_of(client(2)), None);
}

#[test]
fn insert_for_known_client_replaces_its_session() {
    let mut t = SessionTable::new();
    t.insert(client(1), 10u32, 0);
    t.insert(client(1), 11u32, 0);
    assert_eq!(t.len(), 1);
    assert_eq!(t.socket_of(client(1)), Some(&11));
}

#[test]
fn clients_differ_by_scope_and_family() {
    let mut t = SessionTable::new();
    let a = ClientKey { v6: true, ip: 1, port: 9, flowinfo: 0, scope_id: 0 };
    let b = ClientKey { scope_id: 2, ..a };
    let c = ClientKey { v6: false, ..a };
    t.insert(a, 1u8, 0);
    t.insert(b, 2u8, 0);
    t.insert(c, 3u8, 0);
    assert_eq!(t.len(), 3);
}

#[test]
fn sweep_drops_sessions_idle_over_a_minute() {
    let mut t = SessionTable::new();
    t.insert(client(1), 1u32, 0);
    t.insert(client(2), 2u32, 30 * NANOS_PER_SEC);
    t.insert(client(3), 3u32, 100 * NANOS_PER_SEC);
    // At 90.5 s: client 1 idle 90 s (dropped), client 2 idle 60 s (kept),
    // client 3 last active later than now (idle 0, kept).
    let removed = t.sweep(90 * NANOS_PER_SEC + NANOS_PER_SEC / 2);
    assert_eq!(removed, 1);
    assert_eq!(t.len(), 2);
    assert!(t.socket_of(client(1)).is_none());
    assert_eq!(t.socket_of(client(2)), Some(&2));
    assert_eq!(t.socket_of(client(3)), Some(&3));
}

#[test]
fn touching_keeps_a_session_alive() {
    let mut t = SessionTable::new();
    t.insert(client(1), 1u32, 0);
    assert!(t.touch(client(1), 50 * NANOS_PER_SEC));
    assert_eq!(t.sweep(100 * NANOS_PER_SEC), 0);
    assert_eq!(t.sweep(111 * NANOS_PER_SEC), 1);
    assert_eq!(t.len(), 0);
}

#[test]
fn session_count_follows_inserts_and_sweeps() {
    let mut t = SessionTable::new();
    let mut counter: i64 = 0;
    for p in 0..5u16 {
        if !t.touch(client(p % 3), p as u64) {
            t.insert(client(p % 3), p, p as u64);
            counter += 1;
        }
    }
    assert_eq!(counter, 3);
    assert_eq!(t.len() as i64, counter);
    counter -= t.sweep(200 * NANOS_PER_SEC) as i64;
    assert_eq!(counter, 0);
    assert_eq!(t.len(), 0);
}
