use shuttlings_cch23::chat::Chat;
use shuttlings_cch23::codec::encode_inbound;
use shuttlings_cch23::codec::encode_outbound;
use shuttlings_cch23::counter::DeliveryCounter;
use shuttlings_cch23::hub::Hub;
use shuttlings_cch23::pump::deliver_with_retry;
use shuttlings_cch23::pump::ConnectionLifecycle;
use shuttlings_cch23::pump::retry_decision;
use shuttlings_cch23::pump::PingPump;
use shuttlings_cch23::pump::WriterDecision;
use shuttlings_cch23::room::Room;

fn frame(message: &str) -> String {
    encode_inbound(message)
}

#[test]
fn alice_and_bob_in_room_seven() {
    let mut hub = Hub::new();
    let room = hub.get_or_create_room(7);
    let alice_sub = hub.subscribe(room);
    let bob_sub = hub.subscribe(room);

    let published = hub.handle_frame(room, "alice", &frame("hi"));
    assert!(published);

    let received = hub.next_message(room, bob_sub).expect("bob should see the message");
    assert_eq!(received.user.as_deref(), Some("alice"));
    assert_eq!(received.message, "hi");
    assert_eq!(
        encode_outbound(received.user.as_deref().unwrap(), &received.message),
        "{\"user\":\"alice\",\"message\":\"hi\"}"
    );

    // One confirmed delivery to bob moves the counter by exactly one.
    assert_eq!(hub.query(), 0);
    hub.record_delivery();
    assert_eq!(hub.query(), 1);

    // Alice is a subscriber of her own room and receives her echo too.
    let echo = hub.next_message(room, alice_sub).expect("alice should see her echo");
    assert_eq!(echo.user.as_deref(), Some("alice"));
    assert_eq!(echo.message, "hi");
    hub.record_delivery();
    assert_eq!(hub.query(), 2);
}

#[test]
fn rooms_are_isolated() {
    let mut hub = Hub::new();
    let room_a = hub.get_or_create_room(1);
    let room_b = hub.get_or_create_room(2);
    let sub_b = hub.subscribe(room_b);

    let published = hub.handle_frame(room_a, "alice", &frame("only for room one"));
    assert!(published);

    // A subscriber of another room never observes the message.
    assert!(hub.next_message(room_b, sub_b).is_none());
}

#[test]
fn oversized_message_is_dropped_silently() {
    let mut hub = Hub::new();
    let room = hub.get_or_create_room(3);
    let sub = hub.subscribe(room);

    let long = "x".repeat(129);
    let published = hub.handle_frame(room, "alice", &frame(&long));
    assert!(!published);
    assert!(hub.next_message(room, sub).is_none());
    assert_eq!(hub.query(), 0);

    // At the bound itself the message goes through.
    let limit = "y".repeat(128);
    assert!(hub.handle_frame(room, "alice", &frame(&limit)));
    let received = hub.next_message(room, sub).expect("a message of the allowed size arrives");
    assert_eq!(received.message, limit);
}

#[test]
fn malformed_frames_are_discarded() {
    let mut hub = Hub::new();
    let room = hub.get_or_create_room(4);
    let sub = hub.subscribe(room);

    for bad in [
        "",
        "hello",
        "{\"message\":12}",
        "{\"message\":\"unterminated",
        "{\"user\":\"alice\"}",
        "{\"message\":\"hi\"} ",
    ] {
        assert!(!hub.handle_frame(room, "alice", bad));
        assert!(hub.next_message(room, sub).is_none());
    }
}

#[test]
fn concurrent_join_lands_in_one_room() {
    let mut hub = Hub::new();
    // Two connections race to join the same previously-unseen room id: the
    // registry installs exactly one room and both get the same instance.
    let first = hub.get_or_create_room(42);
    let sub_one = hub.subscribe(first);
    let second = hub.get_or_create_room(42);
    let sub_two = hub.subscribe(second);
    assert_eq!(first, second);
    assert_eq!(hub.room_count(), 1);

    // Cross-delivery: a message from one is observed by the other.
    assert!(hub.handle_frame(second, "bob", &frame("hello")));
    let seen = hub.next_message(first, sub_one).expect("first joiner sees it");
    assert_eq!(seen.user.as_deref(), Some("bob"));
    assert_eq!(seen.message, "hello");
    let seen_two = hub.next_message(second, sub_two).expect("second joiner sees it");
    assert_eq!(seen_two.message, "hello");
}

#[test]
fn subscription_starts_empty() {
    let mut hub = Hub::new();
    let room = hub.get_or_create_room(9);
    let early = hub.subscribe(room);
    assert!(hub.handle_frame(room, "alice", &frame("before")));
    // A subscription created after the publish does not see it.
    let late = hub.subscribe(room);
    assert!(hub.next_message(room, late).is_none());
    let seen = hub.next_message(room, early).expect("the earlier subscriber sees it");
    assert_eq!(seen.message, "before");
}

#[test]
fn reset_and_query_scenario() {
    let mut hub = Hub::new();
    hub.record_delivery();
    hub.reset();
    assert_eq!(hub.query(), 0);
    hub.record_delivery();
    hub.record_delivery();
    hub.record_delivery();
    assert_eq!(hub.query(), 3);
}

#[test]
fn reset_twice_keeps_zero() {
    let mut hub = Hub::new();
    hub.record_delivery();
    hub.record_delivery();
    hub.reset();
    assert_eq!(hub.query(), 0);
    hub.reset();
    assert_eq!(hub.query(), 0);
}

#[test]
fn counter_only_grows_without_reset() {
    let mut counter = DeliveryCounter::new();
    let mut previous = counter.read();
    for _ in 0..10 {
        counter.increment();
        let now = counter.read();
        assert!(now >= previous);
        previous = now;
    }
    assert_eq!(counter.read(), 10);
}

#[test]
fn retry_gives_up_after_five_attempts() {
    assert_eq!(retry_decision(1, true), WriterDecision::Delivered);
    assert_eq!(retry_decision(4, false), WriterDecision::RetryMessage);
    assert_eq!(retry_decision(5, false), WriterDecision::DropMessage);

    let mut counter = DeliveryCounter::new();
    // Succeeds on the third attempt: counted once.
    let delivered = deliver_with_retry(&mut counter, &vec![false, false, true, false, false]);
    assert!(delivered);
    assert_eq!(counter.read(), 1);
    // Never succeeds within the bound: the message is dropped, not counted.
    let delivered = deliver_with_retry(&mut counter, &vec![false, false, false, false, false]);
    assert!(!delivered);
    assert_eq!(counter.read(), 1);
    // A success only past the bound does not count either.
    let delivered =
        deliver_with_retry(&mut counter, &vec![false, false, false, false, false, true]);
    assert!(!delivered);
    assert_eq!(counter.read(), 1);
}

#[test]
fn ping_pump_serves_after_serve() {
    let mut pump = PingPump::new();
    // "ping" before "serve" yields no response.
    assert!(pump.handle("ping").is_none());
    assert!(pump.handle("serve").is_none());
    assert_eq!(pump.handle("ping").as_deref(), Some("pong"));
    assert_eq!(pump.handle("ping").as_deref(), Some("pong"));
    assert!(pump.handle("anything else").is_none());
}

#[test]
fn inbound_chat_carries_no_user() {
    let c = Chat::inbound(String::from("hello"));
    assert!(c.user.is_none());
    assert_eq!(c.message, "hello");
    let e = Chat::enrich("alice", String::from("hello"));
    assert_eq!(e.user.as_deref(), Some("alice"));
}

#[test]
fn connection_lifecycle_closes_in_two_steps() {
    let mut conn = ConnectionLifecycle::new();
    assert!(!conn.is_closed());
    conn.activate();
    assert!(!conn.is_closed());
    conn.half_exited();
    assert!(!conn.is_closed());
    conn.half_exited();
    assert!(conn.is_closed());
}

#[test]
fn a_room_delivers_in_publish_order() {
    let mut room = Room::new(11);
    assert_eq!(room.id(), 11);
    let sub = room.subscribe();
    assert_eq!(room.subscriber_count(), 1);
    room.publish(&Chat::enrich("alice", String::from("first")));
    room.publish(&Chat::enrich("alice", String::from("second")));
    let first = room.next_message(sub).expect("first message");
    let second = room.next_message(sub).expect("second message");
    assert_eq!(first.message, "first");
    assert_eq!(second.message, "second");
    assert!(room.next_message(sub).is_none());
}

#[test]
fn full_buffer_drops_the_oldest() {
    let mut hub = Hub::new();
    let room = hub.get_or_create_room(6);
    let sub = hub.subscribe(room);
    // One more message than the buffer holds: the oldest is dropped in
    // favour of the newest, and order is kept for what remains.
    for i in 0..1025 {
        let accepted = hub.handle_inbound(room, "alice", i.to_string());
        assert!(accepted);
    }
    let first = hub.next_message(room, sub).expect("the buffer is full");
    assert_eq!(first.message, "1");
    let mut last = first.message;
    let mut count = 1;
    while let Some(msg) = hub.next_message(room, sub) {
        last = msg.message;
        count += 1;
    }
    assert_eq!(count, 1024);
    assert_eq!(last, "1024");
}
