use resonantdust_client::actions::{copy_bindings, copy_ids, same_bindings, same_ids, QueuedAction};

fn entry(recipe: &str, delay_ms: u64, at_ms: u64) -> QueuedAction {
    QueuedAction {
        soul: 1,
        recipe: recipe.to_string(),
        root: 0,
        bindings: vec![vec![10, 11, 12]],
        surface: 64,
        macro_zone: 0,
        micro_location: 0,
        scheduled_at: at_ms * 1000,
        delay_us: delay_ms * 1000,
        retry_count: 0,
        submit_cid: None,
    }
}

#[test]
fn ready_after_window_unless_in_flight() {
    let mut a = entry("triple_corpus", 5000, 1000);
    assert!(!a.ready(5999_000), "not yet (4999ms elapsed < 5000)");
    assert!(a.ready(6000_000), "elapsed == window");
    a.submit_cid = Some(7);
    assert!(!a.ready(99999_000), "in flight, so never ready");
}

#[test]
fn zero_delay_fires_at_once() {
    let a = entry("fleeting", 0, 1000);
    assert!(a.ready(1000_000), "single input, ready immediately");
}

#[test]
fn same_as_keeps_timer_distinguishes_supersede() {
    let a = entry("corpus_b_top", 5000, 1000);
    assert!(a.same_as("corpus_b_top", &vec![vec![10, 11, 12]]));
    assert!(!a.same_as("triple_corpus", &vec![vec![10, 11, 12]]), "different recipe");
    assert!(!a.same_as("corpus_b_top", &vec![vec![10, 11]]), "different bindings");
}

#[test]
fn readiness_stays() {
    let a = entry("r", 5000, 1000);
    for later in [6000_000u64, 6000_001, 7000_000, u64::MAX] {
        assert!(a.ready(later));
    }
}

#[test]
fn lists_are_copied_and_compared() {
    let b = vec![vec![1, 2], vec![]];
    assert_eq!(copy_bindings(&b), b);
    assert_eq!(copy_ids(&b[0]), vec![1, 2]);
    assert!(same_ids(&vec![1, 2], &vec![1, 2]) && !same_ids(&vec![1, 2], &vec![2, 1]));
    assert!(same_bindings(&b, &vec![vec![1, 2], vec![]]));
    assert!(!same_bindings(&b, &vec![vec![1, 2]]));
}
