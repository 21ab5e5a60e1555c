use resonantdust_client::actions::{DEFAULT_DELAY_US, MAX_TIME_DRIFT_RETRIES};
use resonantdust_client::matcher::RecipeMatch;
use resonantdust_client::queue::{best_live, mentions, read_gap, Queue, Site};

fn found(recipe: &str, bindings: Vec<Vec<u32>>, inputs: usize) -> RecipeMatch {
    RecipeMatch { recipe: recipe.to_string(), root: 0, bindings, live: true, input_count: inputs }
}

fn site() -> Option<Site> {
    Some(Site { surface: 64, macro_zone: 9, micro_location: 3 })
}

#[test]
fn the_best_binds_the_most_cards() {
    let v = vec![
        found("two", vec![vec![1, 2]], 2),
        found("three", vec![vec![1, 2, 3]], 2),
        found("one", vec![vec![1]], 2),
    ];
    assert_eq!(best_live(&v), Some(1));
    let mut frozen = found("three", vec![vec![1, 2, 3]], 2);
    frozen.live = false;
    assert_eq!(best_live(&vec![frozen, found("one", vec![vec![1]], 2)]), Some(1));
    assert_eq!(best_live(&vec![]), None);
}

#[test]
fn an_unchanged_match_keeps_its_timer() {
    let mut q = Queue::new();
    q.evaluate(5, 1, vec![found("pair", vec![vec![1, 2]], 2)], site(), 1000);
    q.evaluate(5, 1, vec![found("pair", vec![vec![1, 2]], 2)], site(), 9000);
    let a = q.action(5).unwrap();
    assert_eq!((a.scheduled_at, a.delay_us), (1000, DEFAULT_DELAY_US));
    // Another match starts it anew.
    q.evaluate(5, 1, vec![found("pair", vec![vec![1, 3]], 2)], site(), 9000);
    assert_eq!(q.action(5).unwrap().scheduled_at, 9000);
    // No match drops it.
    q.evaluate(5, 1, vec![], site(), 9500);
    assert!(q.action(5).is_none());
}

#[test]
fn roots_do_not_touch_each_other() {
    let mut q = Queue::new();
    q.evaluate(5, 1, vec![found("a", vec![vec![1]], 1)], site(), 0);
    q.evaluate(6, 1, vec![found("b", vec![vec![2]], 1)], site(), 0);
    q.evaluate(6, 1, vec![], site(), 1);
    assert_eq!(q.queued(), vec![(5, "a".to_string(), false)]);
    q.drop_pending(5);
    assert!(q.queued().is_empty());
}

#[test]
fn a_flight_is_left_alone_until_its_reply() {
    let mut q = Queue::new();
    q.evaluate(5, 1, vec![found("a", vec![vec![1]], 1)], site(), 0);
    assert_eq!(q.ready_roots(0), vec![5]);
    q.submit(5, 77);
    assert!(q.is_in_flight(5));
    assert!(q.ready_roots(u64::MAX).is_empty());
    q.evaluate(5, 1, vec![], site(), 1);
    q.drop_pending(5);
    assert!(q.is_in_flight(5));
    q.resolve_action(78, None, 2);
    assert!(q.is_in_flight(5));
    q.resolve_action(77, None, 2);
    assert!(q.action(5).is_none());
    assert_eq!(q.drain_outcomes(), vec![("a".to_string(), None)]);
}

#[test]
fn drift_is_retried_a_few_times() {
    let mut q = Queue::new();
    q.evaluate(5, 1, vec![found("a", vec![vec![1]], 1)], site(), 0);
    let error = "time_drift:client_ahead_by=100ms";
    for i in 0..MAX_TIME_DRIFT_RETRIES {
        q.submit(5, 100 + i);
        q.resolve_action(100 + i, Some(error), 0);
        assert!(!q.is_in_flight(5));
        // The gap, and a quarter of a second on top.
        assert_eq!(q.action(5).unwrap().delay_us, 350_000);
    }
    q.submit(5, 200);
    q.resolve_action(200, Some(error), 0);
    assert!(q.action(5).is_none());
    assert!(q.drain_outcomes().is_empty());
}

#[test]
fn other_replies_end_an_action() {
    let mut q = Queue::new();
    q.evaluate(5, 1, vec![found("a", vec![vec![1]], 1)], site(), 0);
    q.submit(5, 1);
    q.resolve_action(1, Some("already in flight"), 0);
    q.evaluate(6, 1, vec![found("b", vec![vec![2]], 1)], site(), 0);
    q.submit(6, 2);
    q.resolve_action(2, Some("no such recipe"), 0);
    assert_eq!(
        q.drain_outcomes(),
        vec![("a".to_string(), None), ("b".to_string(), Some("no such recipe".to_string()))]
    );
    assert!(q.queued().is_empty());
}

#[test]
fn gaps_are_read_out_of_errors() {
    assert_eq!(read_gap("x client_ahead_by=42ms y"), 42);
    assert_eq!(read_gap("nothing"), 0);
    assert!(mentions("a time_drift b", "time_drift") && !mentions("a", "b"));
}
