use mymq_rs::broker::Broker;
use mymq_rs::clock::nanos_since;
use std::time::Duration;

const SECOND: u128 = 1_000_000_000;

#[test]
fn ack_nack_isolation() {
    let mut b = Broker::new();
    b.subscribe("orders", "A");
    b.subscribe("orders", "B");
    b.publish("orders", "测试消息".into());

    // A takes the message and puts it back
    let msg_a = b.dequeue("orders", "A").unwrap();
    assert!(b.nack("orders", "A", msg_a.id));

    // it is back in A's own pending queue
    let state_a = b.subscriber_state("orders", "A").unwrap();
    assert_eq!(state_a.pending.len(), 1);
    assert!(state_a.inflight.is_empty());

    // B still has its own copy, untouched by what A did
    let state_b = b.subscriber_state("orders", "B").unwrap();
    assert_eq!(state_b.pending.len(), 1);
    assert!(state_b.inflight.is_empty());
}

#[test]
fn redeliver_expired_message() {
    let mut b = Broker::new();
    b.subscribe("orders", "A");
    b.publish("orders", "超时消息".into());

    // handed out at the broker's time 0
    let msg = b.dequeue_at("orders", "A", 0).unwrap();
    let s0 = b.subscriber_state("orders", "A").unwrap();
    assert_eq!(s0.pending.len(), 0);
    assert!(s0.inflight.contains_key(&msg.id));

    // 60 seconds later, with a timeout of 1 second
    b.redeliver_expired(60 * SECOND, SECOND);

    let state = b.subscriber_state("orders", "A").unwrap();
    assert_eq!(state.pending.len(), 1);
    assert!(state.inflight.is_empty());
}

#[test]
fn first_id_is_one_and_ids_increase() {
    let mut b = Broker::new();
    b.subscribe("orders", "A");
    assert_eq!(b.publish("orders", "a".into()), 1);
    assert_eq!(b.publish("orders", "b".into()), 2);
    // a topic without subscribers still uses up an identifier
    assert_eq!(b.publish("nobody", "c".into()), 3);
    assert_eq!(b.next_id, 3);
    assert!(b.subscriber_state("nobody", "A").is_none());
}

#[test]
fn publish_broadcasts_to_every_subscriber_in_order() {
    let mut b = Broker::new();
    b.subscribe("orders", "A");
    b.subscribe("orders", "B");
    b.subscribe("other", "C");
    b.publish("orders", "one".into());
    b.publish("orders", "two".into());
    for name in ["A", "B"] {
        let first = b.dequeue("orders", name).unwrap();
        let second = b.dequeue("orders", name).unwrap();
        assert_eq!((first.id, first.body.as_str()), (1, "one"));
        assert_eq!((second.id, second.body.as_str()), (2, "two"));
        assert!(b.dequeue("orders", name).is_none());
    }
    assert_eq!(b.subscriber_state("other", "C").unwrap().pending.len(), 0);
}

#[test]
fn dequeue_unknown_or_empty_gives_nothing() {
    let mut b = Broker::new();
    assert!(b.dequeue("orders", "A").is_none());
    b.subscribe("orders", "A");
    assert!(b.dequeue("orders", "A").is_none());
    assert!(b.dequeue("orders", "B").is_none());
    assert!(!b.has_pending("orders", "A"));
    b.publish("orders", "x".into());
    assert!(b.has_pending("orders", "A"));
    assert!(!b.has_pending("missing", "A"));
}

#[test]
fn ack_settles_once() {
    let mut b = Broker::new();
    b.subscribe("orders", "A");
    b.publish("orders", "x".into());
    let msg = b.dequeue("orders", "A").unwrap();
    assert!(b.ack("orders", "A", msg.id));
    assert!(!b.ack("orders", "A", msg.id));
    assert!(!b.nack("orders", "A", msg.id));
    let st = b.subscriber_state("orders", "A").unwrap();
    assert!(st.pending.is_empty() && st.inflight.is_empty());
}

#[test]
fn settle_on_unknown_subscriber_or_message_fails() {
    let mut b = Broker::new();
    b.subscribe("orders", "A");
    b.publish("orders", "x".into());
    assert!(!b.ack("orders", "Z", 1));
    assert!(!b.nack("missing", "A", 1));
    // still pending, not handed out
    assert!(!b.ack("orders", "A", 1));
    assert_eq!(b.subscriber_state("orders", "A").unwrap().pending.len(), 1);
}

#[test]
fn nack_puts_message_at_the_back() {
    let mut b = Broker::new();
    b.subscribe("orders", "A");
    b.publish("orders", "one".into());
    b.publish("orders", "two".into());
    let first = b.dequeue("orders", "A").unwrap();
    assert!(b.nack("orders", "A", first.id));
    let next = b.dequeue("orders", "A").unwrap();
    assert_eq!(next.id, 2);
    let again = b.dequeue("orders", "A").unwrap();
    assert_eq!((again.id, again.body.as_str()), (1, "one"));
}

#[test]
fn subscribe_twice_keeps_state() {
    let mut b = Broker::new();
    b.subscribe("orders", "A");
    b.publish("orders", "x".into());
    b.subscribe("orders", "A");
    assert_eq!(b.subscriber_state("orders", "A").unwrap().pending.len(), 1);
    assert_eq!(b.stats().len(), 1);
}

#[test]
fn redelivery_keeps_fresh_messages() {
    let mut b = Broker::new();
    b.subscribe("orders", "A");
    b.publish("orders", "old".into());
    b.publish("orders", "new".into());
    b.dequeue_at("orders", "A", 0).unwrap();
    b.dequeue_at("orders", "A", 10 * SECOND).unwrap();
    // at 12 s with a 5 s timeout, only the first one is overdue
    b.redeliver_expired(12 * SECOND, 5 * SECOND);
    let st = b.subscriber_state("orders", "A").unwrap();
    assert_eq!(st.pending.len(), 1);
    assert_eq!(st.pending[0].id, 1);
    assert!(st.inflight.contains_key(&2));
    // exactly at the timeout a message is not yet overdue
    b.redeliver_expired(15 * SECOND, 5 * SECOND);
    assert!(b.subscriber_state("orders", "A").unwrap().inflight.contains_key(&2));
    b.redeliver_expired(15 * SECOND + 1, 5 * SECOND);
    let st = b.subscriber_state("orders", "A").unwrap();
    assert_eq!(st.pending.len(), 2);
    assert!(st.inflight.is_empty());
}

#[test]
fn redeliver_timeout_uses_the_clock() {
    let mut b = Broker::new();
    b.subscribe("orders", "A");
    b.publish("orders", "x".into());
    b.dequeue("orders", "A").unwrap();
    // an hour has not passed
    b.redeliver_timeout(Duration::from_secs(3600));
    assert_eq!(b.subscriber_state("orders", "A").unwrap().inflight.len(), 1);
    // wait until the clock has moved, then every handed-out message is overdue
    let start = nanos_since(&b.epoch);
    while nanos_since(&b.epoch) <= start + 1 {}
    b.redeliver_timeout(Duration::from_nanos(0));
    let st = b.subscriber_state("orders", "A").unwrap();
    assert_eq!(st.pending.len(), 1);
    assert!(st.inflight.is_empty());
}

#[test]
fn stats_lists_every_subscription() {
    let mut b = Broker::new();
    b.subscribe("orders", "A");
    b.subscribe("orders", "B");
    b.subscribe("news", "A");
    b.publish("orders", "x".into());
    b.publish("orders", "y".into());
    b.dequeue("orders", "A");
    let mut rows = b.stats();
    rows.sort();
    assert_eq!(
        rows,
        vec![
            ("news".to_string(), "A".to_string(), 0, 0),
            ("orders".to_string(), "A".to_string(), 1, 1),
            ("orders".to_string(), "B".to_string(), 2, 0),
        ]
    );
}

#[test]
fn settle_decides_by_roll() {
    let mut b = Broker::new();
    b.subscribe("orders", "A");
    b.publish("orders", "x".into());
    let m = b.dequeue("orders", "A").unwrap();
    // 142 % 100 = 42 < 50: processing failed, message put back
    assert!(!b.settle("orders", "A", m.id, 142, 50));
    assert_eq!(b.subscriber_state("orders", "A").unwrap().pending.len(), 1);
    let m = b.dequeue("orders", "A").unwrap();
    // 50 >= 50: processing succeeded, message settled
    assert!(b.settle("orders", "A", m.id, 50, 50));
    let st = b.subscriber_state("orders", "A").unwrap();
    assert!(st.pending.is_empty() && st.inflight.is_empty());
}

#[test]
fn settle_randomly_with_certain_outcomes() {
    let mut b = Broker::new();
    b.subscribe("orders", "A");
    b.publish("orders", "x".into());
    let m = b.dequeue("orders", "A").unwrap();
    // a fail rate of 100 always fails
    assert!(!b.settle_randomly("orders", "A", m.id, 100));
    let m = b.dequeue("orders", "A").unwrap();
    // a fail rate of 0 never fails
    assert!(b.settle_randomly("orders", "A", m.id, 0));
    assert!(b.subscriber_state("orders", "A").unwrap().inflight.is_empty());
}

#[test]
fn hand_out_times_never_go_back() {
    let mut b = Broker::new();
    b.subscribe("orders", "A");
    b.publish("orders", "one".into());
    b.publish("orders", "two".into());
    b.publish("orders", "three".into());
    assert_eq!(b.latest_handout, 0);
    // nothing pending for B: nothing is recorded
    assert!(b.dequeue_at("orders", "B", 50 * SECOND).is_none());
    assert_eq!(b.latest_handout, 0);
    b.dequeue_at("orders", "A", 100 * SECOND).unwrap();
    assert_eq!(b.latest_handout, 100 * SECOND);
    // an earlier explicit time does not lower the latest one
    b.dequeue_at("orders", "A", 5 * SECOND).unwrap();
    assert_eq!(b.latest_handout, 100 * SECOND);
    // the clock reads no earlier than the latest hand-out
    assert!(b.clock_now() >= 100 * SECOND);
    b.dequeue("orders", "A").unwrap();
    assert!(b.latest_handout >= 100 * SECOND);
    // the message handed out at 5 s is overdue at the clock's reading
    b.redeliver_timeout(Duration::from_secs(60));
    let st = b.subscriber_state("orders", "A").unwrap();
    assert_eq!(st.pending.len(), 1);
    assert_eq!(st.pending[0].id, 2);
}

#[test]
fn redeliver_timeout_after_waiting_past_it() {
    let mut b = Broker::new();
    b.subscribe("orders", "A");
    b.publish("orders", "超时消息".into());

    // handed out at the broker's time 0
    b.dequeue_at("orders", "A", 0).unwrap();
    // wait until more than 1 second has passed on the broker's clock
    while nanos_since(&b.epoch) <= SECOND + SECOND / 10 {}

    b.redeliver_timeout(Duration::from_secs(1));

    let state = b.subscriber_state("orders", "A").unwrap();
    assert_eq!(state.pending.len(), 1);
    assert!(state.inflight.is_empty());
}
