use std::collections::hash_map::DefaultHasher;
use std::hash::{Hash, Hasher};

use resonantdust_client::outbox::{
    backoff, call_hash, Outbox, BACKOFF_BASE_US, BACKOFF_CAP_US,
};

/// Milliseconds, in the microseconds the queue counts in.
fn ms(t: u64) -> u64 {
    t * 1000
}

fn pump(ob: &mut Outbox<u64>, now: u64, n: &mut u32) -> usize {
    ob.pump(now, n).len()
}

#[test]
fn sends_once_and_holds_while_in_flight() {
    let mut ob = Outbox::new();
    let (h, mut n) = (call_hash("request_zone", 1), 1);
    ob.want(h, "request_zone", 1, ms(0));
    assert_eq!(pump(&mut ob, ms(0), &mut n), 1);
    assert_eq!(pump(&mut ob, ms(4_000), &mut n), 0, "live call not duplicated");
}

#[test]
fn ok_retires_it() {
    let mut ob = Outbox::new();
    let (h, mut n) = (call_hash("request_zone", 1), 1);
    ob.want(h, "request_zone", 1, ms(0));
    let cid = ob.pump(ms(0), &mut n)[0].cid;
    ob.on_ok(cid);
    assert!(!ob.is_queued(h));
    assert_eq!(pump(&mut ob, ms(60_000), &mut n), 0);
}

#[test]
fn err_retries_with_backoff() {
    let mut ob = Outbox::new();
    let (h, mut n) = (call_hash("request_zone", 1), 1);
    ob.want(h, "request_zone", 1, ms(0));
    let cid = ob.pump(ms(0), &mut n)[0].cid;
    ob.on_err(cid, ms(0));
    assert_eq!(pump(&mut ob, ms(1_000), &mut n), 0, "within backoff");
    assert_eq!(pump(&mut ob, ms(2_500), &mut n), 1, "re-fires after backoff");
}

#[test]
fn promise_awaits_then_resolves() {
    let mut ob = Outbox::new();
    let (h, mut n) = (call_hash("request_zone", 1), 1);
    ob.want(h, "request_zone", 1, ms(0));
    let cid = ob.pump(ms(0), &mut n)[0].cid;
    ob.on_promise(cid, ms(10_000), ms(0));
    assert_eq!(pump(&mut ob, ms(5_000), &mut n), 0);
    ob.on_ok(cid);
    assert!(!ob.is_queued(h));
}

#[test]
fn promise_timeout_retries() {
    let mut ob = Outbox::new();
    let (h, mut n) = (call_hash("request_zone", 1), 1);
    ob.want(h, "request_zone", 1, ms(0));
    let cid = ob.pump(ms(0), &mut n)[0].cid;
    ob.on_promise(cid, ms(3_000), ms(0));
    assert_eq!(pump(&mut ob, ms(1_000), &mut n), 0, "still awaiting");
    assert_eq!(pump(&mut ob, ms(4_000), &mut n), 0, "swept to a backed-off retry");
    assert_eq!(pump(&mut ob, ms(7_000), &mut n), 1);
}

#[test]
fn lost_reply_retries_after_ttl() {
    let mut ob = Outbox::new();
    let (h, mut n) = (call_hash("request_zone", 1), 1);
    ob.want(h, "request_zone", 1, ms(0));
    assert_eq!(pump(&mut ob, ms(0), &mut n), 1);
    assert_eq!(pump(&mut ob, ms(4_000), &mut n), 0, "in-flight TTL not yet up");
    assert_eq!(pump(&mut ob, ms(6_000), &mut n), 0, "swept to a backed-off retry");
    assert_eq!(pump(&mut ob, ms(9_000), &mut n), 1, "back-off elapsed, so resent");
}

#[test]
fn the_hash_is_that_of_the_name_and_the_key() {
    let mut hasher = DefaultHasher::new();
    "request_zone".hash(&mut hasher);
    7u64.hash(&mut hasher);
    assert_eq!(call_hash("request_zone", 7), hasher.finish());
    assert_ne!(call_hash("request_zone", 7), call_hash("request_zone", 8));
    assert_ne!(call_hash("request_zone", 7), call_hash("ensure_region", 7));
}

#[test]
fn backoff_doubles_up_to_the_cap() {
    assert_eq!(backoff(0), BACKOFF_BASE_US);
    assert_eq!(backoff(1), 2_000_000);
    assert_eq!(backoff(4), 16_000_000);
    assert_eq!(backoff(5), BACKOFF_CAP_US);
    assert_eq!(backoff(u32::MAX), BACKOFF_CAP_US);
}

#[test]
fn calls_carry_their_name_arguments_and_ids() {
    let mut ob = Outbox::new();
    ob.want(2, "b", 20, 0);
    ob.want(1, "a", 10, 0);
    // Wanting it again while it waits refreshes its arguments, and nothing else.
    ob.want(1, "other", 11, 500);
    assert_eq!(ob.len(), 2);
    let mut next = 5;
    let out = ob.pump(0, &mut next);
    assert_eq!(next, 7);
    let got: Vec<(u32, &str, u64)> =
        out.iter().map(|o| (o.cid, o.reducer.as_str(), o.args)).collect();
    assert_eq!(got, vec![(5, "a", 11), (6, "b", 20)]);
    ob.done(1);
    assert!(!ob.is_queued(1) && ob.is_queued(2));
    // A reply to an unknown call is ignored.
    ob.on_ok(99);
    ob.on_err(99, 0);
    ob.on_promise(99, 1, 0);
    assert_eq!(ob.len(), 1);
}

#[test]
fn a_second_pump_at_once_sends_nothing() {
    let mut ob = Outbox::new();
    let mut n = 1;
    for key in 0..3u64 {
        ob.want(call_hash("request_zone", key), "request_zone", key, ms(0));
    }
    let first = ob.pump(ms(0), &mut n);
    assert_eq!(first.iter().map(|o| o.cid).collect::<Vec<_>>(), vec![1, 2, 3]);
    assert!(ob.pump(ms(0), &mut n).is_empty());
    // What timed out backs off before it goes again.
    assert!(ob.pump(ms(5_000), &mut n).is_empty());
    assert_eq!(ob.pump(ms(7_000), &mut n).len(), 3);
    assert!(ob.pump(ms(7_000), &mut n).is_empty());
    assert_eq!(ob.hashes().len(), 3);
}
