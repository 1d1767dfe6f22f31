use event_watcher::persist::{EventWatcher, State};

fn unreachable_client() -> redis::Client {
    redis::Client::open("redis://127.0.0.1:1/").unwrap()
}

#[test]
fn watcher_builder_defaults() {
    let w: EventWatcher<u32> = EventWatcher::new("news".to_string(), unreachable_client());
    assert_eq!(w.name().as_str(), "news");
    assert_eq!(w.heartbeat_interval(), 60);
    assert!(w.state().is_none());
}

#[test]
fn watcher_builder_setters() {
    let w = EventWatcher::new("feeds".to_string(), unreachable_client())
        .with_heartbeat_interval(5)
        .with_state(7u64);
    assert_eq!(w.name().as_str(), "feeds");
    assert_eq!(w.heartbeat_interval(), 5);
    match w.state() {
        Some(State(v)) => assert_eq!(*v, 7u64),
        None => panic!("state missing"),
    }
}

#[test]
fn clone_preserves_the_handle() {
    let w = EventWatcher::new("feeds".to_string(), unreachable_client())
        .with_heartbeat_interval(9)
        .with_state(1u8);
    let c = w.clone();
    assert_eq!(c.name().as_str(), "feeds");
    assert_eq!(c.heartbeat_interval(), 9);
    assert!(c.state().is_some());
}

#[test]
fn empty_batch_succeeds_without_touching_the_store() {
    let w: EventWatcher<()> = EventWatcher::new("r".to_string(), unreachable_client());
    assert!(w.subscribe_event(&"alice".to_string(), &Vec::new()).is_ok());
}

#[test]
fn empty_relation_setup_succeeds() {
    let w: EventWatcher<()> = EventWatcher::new("r".to_string(), unreachable_client());
    let r = w.setup_subscribe_registry(&Vec::new());
    assert!(r.is_ok());
    assert_eq!(r.unwrap().name().as_str(), "r");
}

#[test]
fn store_failure_surfaces_as_error() {
    let w: EventWatcher<()> = EventWatcher::new("r".to_string(), unreachable_client());
    let r = w.subscribe_event(&"alice".to_string(), &vec![1u64, 2]);
    assert!(r.is_err());
    assert!(!r.err().unwrap().message().is_empty());
}

#[test]
fn reads_against_unreachable_store_fail() {
    let w: EventWatcher<()> = EventWatcher::new("r".to_string(), unreachable_client());
    assert!(w.event_pool().is_err());
    assert!(w.get_subscribers(3).is_err());
}

#[test]
fn failed_setup_is_fail_fast() {
    let w: EventWatcher<()> = EventWatcher::new("r".to_string(), unreachable_client());
    let relation = vec![("alice".to_string(), vec![1u64]), ("bob".to_string(), vec![2u64])];
    assert!(w.setup_subscribe_registry(&relation).is_err());
}
