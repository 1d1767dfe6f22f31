use event_watcher::registry::Registry;

fn s(x: &str) -> String {
    x.to_string()
}

#[test]
fn scenario_pool_cache_lifecycle() {
    let mut r = Registry::new(vec![
        (s("foo"), vec![1u64, 2, 3]),
        (s("bar"), vec![9u64, 2, 8, 1]),
    ]);
    assert_eq!(r.pool(), vec![1u64, 2, 3, 8, 9]);
    assert_eq!(r.find_registrants_by_event(7), Vec::<String>::new());
    assert_eq!(r.find_registrants_by_event(8), vec![s("bar")]);
    let both = r.find_registrants_by_event(2);
    assert!(both.contains(&s("foo")));
    assert!(both.contains(&s("bar")));
    assert_eq!(both.len(), 2);
    assert_eq!(r.cache_len(), 2);
    r.register(s("baz"), vec![2u64, 6, 7]);
    assert_eq!(r.pool(), vec![1u64, 2, 3, 6, 7, 8, 9]);
    let fresh = r.find_registrants_by_event(2);
    assert!(fresh.contains(&s("foo")));
    assert!(fresh.contains(&s("bar")));
    assert_eq!(r.cache_len(), 2);
}

#[test]
fn pool_is_sorted_and_deduplicated() {
    let r = Registry::new(vec![(s("a"), vec![5u64, 3, 5, 1, 3])]);
    assert_eq!(r.pool(), vec![1u64, 3, 5]);
}

#[test]
fn pool_merges_across_registrants() {
    let r = Registry::new(vec![
        (s("a"), vec![10u64, 2]),
        (s("b"), vec![2u64, 7, 10]),
        (s("c"), vec![1u64]),
    ]);
    assert_eq!(r.pool(), vec![1u64, 2, 7, 10]);
}

#[test]
fn empty_registry_has_empty_pool() {
    let mut r = Registry::new(Vec::new());
    assert_eq!(r.pool(), Vec::<u64>::new());
    assert_eq!(r.find_registrants_by_event(1), Vec::<String>::new());
    assert_eq!(r.cache_len(), 0);
}

#[test]
fn unsubscribed_event_finds_nothing() {
    let mut r = Registry::new(vec![(s("foo"), vec![1u64, 2])]);
    assert_eq!(r.find_registrants_by_event(99), Vec::<String>::new());
    assert_eq!(r.find_registrants_by_event(99), Vec::<String>::new());
    assert_eq!(r.cache_len(), 0);
}

#[test]
fn register_then_find_includes_registrant() {
    let mut r = Registry::new(Vec::new());
    r.register(s("alice"), vec![42u64]);
    let found = r.find_registrants_by_event(42);
    assert!(found.contains(&s("alice")));
    assert!(r.pool().contains(&42u64));
}

#[test]
fn register_appends_to_existing_registrant() {
    let mut r = Registry::new(vec![(s("alice"), vec![1u64])]);
    r.register(s("alice"), vec![2u64]);
    assert_eq!(r.pool(), vec![1u64, 2]);
    assert_eq!(r.find_registrants_by_event(2), vec![s("alice")]);
    assert_eq!(r.find_registrants_by_event(1), vec![s("alice")]);
}

#[test]
fn cache_never_returns_stale_values() {
    let mut r = Registry::new(vec![(s("foo"), vec![5u64])]);
    assert_eq!(r.find_registrants_by_event(5), vec![s("foo")]);
    assert_eq!(r.cache_len(), 1);
    r.register(s("bar"), vec![5u64]);
    let found = r.find_registrants_by_event(5);
    assert_eq!(found, vec![s("foo"), s("bar")]);
    assert_eq!(r.cache_len(), 1);
}

#[test]
fn pool_is_idempotent() {
    let mut r = Registry::new(vec![(s("foo"), vec![3u64, 1])]);
    let first = r.pool();
    let second = r.pool();
    assert_eq!(first, second);
    r.find_registrants_by_event(1);
    r.find_registrants_by_event(2);
    assert_eq!(r.pool(), first);
}

#[test]
fn empty_event_batch_changes_nothing() {
    let mut r = Registry::new(vec![(s("foo"), vec![1u64])]);
    r.register(s("ghost"), Vec::new());
    assert_eq!(r.pool(), vec![1u64]);
    assert_eq!(r.find_registrants_by_event(1), vec![s("foo")]);
}

#[test]
fn empty_subscriptions_are_not_represented() {
    let mut r = Registry::new(vec![(s("quiet"), Vec::new()), (s("loud"), vec![8u64])]);
    assert_eq!(r.pool(), vec![8u64]);
    assert_eq!(r.find_registrants_by_event(8), vec![s("loud")]);
}

#[test]
fn duplicate_events_within_one_registrant_are_kept_in_relation() {
    let mut r = Registry::new(vec![(s("foo"), vec![2u64, 2])]);
    assert_eq!(r.pool(), vec![2u64]);
    assert_eq!(r.find_registrants_by_event(2), vec![s("foo")]);
}

#[test]
fn largest_event_values() {
    let mut r = Registry::new(vec![(s("big"), vec![u64::MAX, 0])]);
    assert_eq!(r.pool(), vec![0u64, u64::MAX]);
    assert_eq!(r.find_registrants_by_event(u64::MAX), vec![s("big")]);
}
