use event_watcher::keys::{event_pool_key, subscribe_registry_key, u64_to_decimal};

#[test]
fn decimal_rendering() {
    assert_eq!(u64_to_decimal(0), "0");
    assert_eq!(u64_to_decimal(7), "7");
    assert_eq!(u64_to_decimal(10), "10");
    assert_eq!(u64_to_decimal(42), "42");
    assert_eq!(u64_to_decimal(1230450), "1230450");
    assert_eq!(u64_to_decimal(u64::MAX), "18446744073709551615");
}

#[test]
fn subscribe_key_format() {
    assert_eq!(subscribe_registry_key("rss", 42), "SUBSCRIBE_REGISTRY:rss:42");
    assert_eq!(subscribe_registry_key("", 0), "SUBSCRIBE_REGISTRY::0");
}

#[test]
fn pool_key_format() {
    assert_eq!(event_pool_key("rss"), "REGISTRY_EVENT_POOL:rss");
    assert_eq!(event_pool_key(""), "REGISTRY_EVENT_POOL:");
}
