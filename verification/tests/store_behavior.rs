use dotti_core::identity::Credentials;
use dotti_core::session::SessionManager;
use dotti_core::store::Message;
use dotti_core::store::MessageStore;
use dotti_core::store::StoreError;
use dotti_core::store::Visibility;

fn active_session() -> SessionManager {
    let mut sm = SessionManager::new(Credentials {
        space_id: String::from("space-1"),
        shared_token: String::from("tok"),
        cloud_sync_enabled: true,
        custom_auth_endpoint: None,
    });
    sm.start().unwrap();
    sm.engine_accepted(0);
    sm
}

fn remote(id: u128, room: &str, sender: &str, body: &str, lt: u64) -> Message {
    Message {
        id,
        room_id: String::from(room),
        sender: String::from(sender),
        body: String::from(body),
        logical_timestamp: lt,
        wall_clock: 50,
    }
}

#[test]
fn append_requires_active_session() {
    let sm = SessionManager::new(Credentials {
        space_id: String::from("space-1"),
        shared_token: String::from("tok"),
        cloud_sync_enabled: true,
        custom_auth_endpoint: None,
    });
    let mut store = MessageStore::new(7);
    let r = store.append_local(
        &sm,
        String::from("room1"),
        String::from("joe"),
        String::from("hi"),
        100,
    );
    assert!(matches!(r, Err(StoreError::SessionNotActive)));
    assert!(store.messages_in(&String::from("room1")).is_empty());
}

#[test]
fn append_assigns_fields_and_queues_outbound() {
    let sm = active_session();
    let mut store = MessageStore::new(7);
    let m = store
        .append_local(&sm, String::from("room1"), String::from("joe"), String::from("hi"), 100)
        .unwrap();
    assert_eq!(m.room_id, "room1");
    assert_eq!(m.sender, "joe");
    assert_eq!(m.body, "hi");
    assert_eq!(m.logical_timestamp, 1);
    assert_eq!(m.wall_clock, 100);
    let out = store.take_outbound();
    assert_eq!(out.len(), 1);
    assert_eq!(out[0].id, m.id);
    assert!(store.take_outbound().is_empty());
}

#[test]
fn logical_timestamps_increase_per_sender() {
    let sm = active_session();
    let mut store = MessageStore::new(7);
    let a = store
        .append_local(&sm, String::from("r"), String::from("joe"), String::from("one"), 1)
        .unwrap();
    let b = store
        .append_local(&sm, String::from("r"), String::from("joe"), String::from("two"), 2)
        .unwrap();
    let c = store
        .append_local(&sm, String::from("r"), String::from("billy"), String::from("three"), 3)
        .unwrap();
    assert_eq!(a.logical_timestamp, 1);
    assert_eq!(b.logical_timestamp, 2);
    assert_eq!(c.logical_timestamp, 1);
    assert_ne!(a.id, b.id);
    assert_ne!(b.id, c.id);
}

#[test]
fn earlier_remote_message_sorts_first_regardless_of_arrival() {
    // One peer appends first and hears of the other later...
    let sm = active_session();
    let mut first = MessageStore::new(7);
    first
        .append_local(&sm, String::from("room1"), String::from("joe"), String::from("hi"), 100)
        .unwrap();
    first.apply_remote(&sm, remote(42, "room1", "billy", "hello there", 0));
    // ...the other peer saw billy's message before joe's.
    let mut second = MessageStore::new(7);
    second.apply_remote(&sm, remote(42, "room1", "billy", "hello there", 0));
    second
        .append_local(&sm, String::from("room1"), String::from("joe"), String::from("hi"), 100)
        .unwrap();
    for store in [&first, &second] {
        let msgs = store.messages_in(&String::from("room1"));
        assert_eq!(msgs.len(), 2);
        assert_eq!(msgs[0].sender, "billy");
        assert_eq!(msgs[1].sender, "joe");
    }
}

#[test]
fn peers_converge_on_any_delivery_order() {
    let sm = active_session();
    let ms = [
        remote(1, "room1", "joe", "a", 3),
        remote(2, "room1", "billy", "b", 3),
        remote(3, "room1", "ann", "c", 1),
        remote(4, "room2", "joe", "d", 2),
    ];
    let mut one = MessageStore::new(1);
    let mut two = MessageStore::new(2);
    for m in [&ms[0], &ms[1], &ms[2], &ms[3]] {
        one.apply_remote(&sm, m.clone());
    }
    for m in [&ms[3], &ms[2], &ms[1], &ms[0]] {
        two.apply_remote(&sm, m.clone());
    }
    for room in ["room1", "room2"] {
        let a = one.messages_in(&String::from(room));
        let b = two.messages_in(&String::from(room));
        assert_eq!(a.len(), b.len());
        for (x, y) in a.iter().zip(b.iter()) {
            assert_eq!(x.id, y.id);
            assert_eq!(x.sender, y.sender);
            assert_eq!(x.body, y.body);
        }
    }
    let r1 = one.messages_in(&String::from("room1"));
    assert_eq!(r1[0].sender, "ann");
    assert_eq!(r1[1].sender, "billy");
    assert_eq!(r1[2].sender, "joe");
}

#[test]
fn applying_the_same_message_twice_changes_nothing() {
    let sm = active_session();
    let mut store = MessageStore::new(7);
    let m = remote(9, "room1", "billy", "dup", 4);
    store.apply_remote(&sm, m.clone());
    let once = store.messages_in(&String::from("room1"));
    store.apply_remote(&sm, m.clone());
    let twice = store.messages_in(&String::from("room1"));
    assert_eq!(once.len(), 1);
    assert_eq!(twice.len(), 1);
    assert_eq!(twice[0].id, 9);
    assert_eq!(twice[0].body, "dup");
}

#[test]
fn duplicate_id_keeps_first_message() {
    let sm = active_session();
    let mut store = MessageStore::new(7);
    store.apply_remote(&sm, remote(9, "room1", "billy", "first", 4));
    store.apply_remote(&sm, remote(9, "room1", "billy", "forged", 4));
    let msgs = store.messages_in(&String::from("room1"));
    assert_eq!(msgs.len(), 1);
    assert_eq!(msgs[0].body, "first");
}

#[test]
fn remote_delivery_after_stop_is_discarded() {
    let mut sm = active_session();
    let mut store = MessageStore::new(7);
    store.apply_remote(&sm, remote(1, "room1", "billy", "kept", 1));
    sm.stop();
    store.apply_remote(&sm, remote(2, "room1", "billy", "late", 2));
    let msgs = store.messages_in(&String::from("room1"));
    assert_eq!(msgs.len(), 1);
    assert_eq!(msgs[0].body, "kept");
}

#[test]
fn remote_messages_do_not_enter_the_outbox() {
    let sm = active_session();
    let mut store = MessageStore::new(7);
    store.apply_remote(&sm, remote(1, "room1", "billy", "in", 1));
    assert!(store.take_outbound().is_empty());
}

#[test]
fn rooms_are_created_implicitly_and_public() {
    let sm = active_session();
    let mut store = MessageStore::new(7);
    assert!(store.rooms().is_empty());
    store.apply_remote(&sm, remote(1, "room1", "billy", "x", 1));
    store.apply_remote(&sm, remote(2, "room2", "billy", "y", 1));
    let rooms = store.rooms();
    assert_eq!(rooms.len(), 2);
    assert_eq!(rooms[0].id, "room1");
    assert_eq!(rooms[1].id, "room2");
    assert!(rooms.iter().all(|r| r.visibility == Visibility::Public));
}

#[test]
fn messages_in_unknown_room_is_empty() {
    let store = MessageStore::new(7);
    assert!(store.messages_in(&String::from("nowhere")).is_empty());
}

#[test]
fn equal_timestamp_orders_by_sender_then_id() {
    let sm = active_session();
    let mut store = MessageStore::new(7);
    store.apply_remote(&sm, remote(12, "r", "zed", "z", 5));
    store.apply_remote(&sm, remote(11, "r", "abe", "a2", 5));
    store.apply_remote(&sm, remote(10, "r", "abe", "a1", 5));
    let msgs = store.messages_in(&String::from("r"));
    assert_eq!(msgs.len(), 3);
    assert_eq!(msgs[0].id, 10);
    assert_eq!(msgs[1].id, 11);
    assert_eq!(msgs[2].id, 12);
}

#[test]
fn local_ids_pack_peer_and_counter() {
    let sm = active_session();
    let mut store = MessageStore::new(7);
    let a = store
        .append_local(&sm, String::from("r"), String::from("joe"), String::from("x"), 1)
        .unwrap();
    let b = store
        .append_local(&sm, String::from("r"), String::from("joe"), String::from("y"), 2)
        .unwrap();
    assert_eq!(a.id, 7u128 << 64);
    assert_eq!(b.id, (7u128 << 64) + 1);
}
