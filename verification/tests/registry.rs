use tasker::registry::{InstanceConnection, InstanceRegistry, Transport};

#[test]
fn health_ends_with_the_timeout() {
    let mut c = InstanceConnection::new_at("a".to_string(), 10_000);
    assert!(c.is_healthy_at(30, 10_000));
    assert!(c.is_healthy_at(30, 39_999));
    assert!(!c.is_healthy_at(30, 40_000));
    assert!(!c.is_healthy_at(0, 10_000));
    // A clock that was set back.
    assert!(!c.is_healthy_at(30, 9_999));
    assert!(c.is_healthy_at(u64::MAX, u64::MAX));
    c.heartbeat_at(50_000);
    assert!(c.is_healthy_at(30, 60_000));
    assert_eq!(c.component_id, "a");
    assert_eq!(c.clone().last_heartbeat, 50_000);
}

#[test]
fn the_clock_is_read() {
    let mut c = InstanceConnection::new("a".to_string());
    assert!(c.last_heartbeat > 1_600_000_000_000);
    assert!(c.is_healthy(30));
    c.last_heartbeat = 0;
    assert!(!c.is_healthy(30));
    c.heartbeat();
    assert!(c.is_healthy(30));
}

#[test]
fn instances_register_and_unregister() {
    let mut r = InstanceRegistry::new(30);
    assert_eq!(r.list(), Vec::<String>::new());
    r.register("a".to_string()).unwrap();
    r.register("b".to_string()).unwrap();
    assert!(r.is_healthy("a"));
    assert!(!r.is_healthy("c"));
    let mut ids = r.list();
    ids.sort();
    assert_eq!(ids, vec!["a", "b"]);
    assert_eq!(r.get("b").unwrap().component_id, "b");
    r.unregister("b");
    assert!(r.get("b").is_none());
    r.unregister("b");
    assert_eq!(r.list(), vec!["a"]);
}

#[test]
fn stale_instances_are_evicted() {
    let mut r = InstanceRegistry::new(30);
    r.register_at("old".to_string(), 1_000);
    r.register_at("kept".to_string(), 1_000);
    r.register_at("new".to_string(), 20_000);
    r.heartbeat_at("kept", 25_000);
    r.heartbeat_at("unknown", 25_000);
    assert!(r.is_healthy_at("old", 30_999));
    assert!(!r.is_healthy_at("old", 31_000));
    r.evict_stale_at(31_000);
    let mut ids = r.list();
    ids.sort();
    assert_eq!(ids, vec!["kept", "new"]);
    assert_eq!(r.get("kept").unwrap().last_heartbeat, 25_000);
    // By the real clock all of them are stale.
    r.evict_stale();
    assert_eq!(r.list(), Vec::<String>::new());
    r.register("now".to_string()).unwrap();
    r.heartbeat("now");
    r.evict_stale();
    assert_eq!(r.list(), vec!["now"]);
}

#[test]
fn transports() {
    let unix = Transport::Unix("/tmp/tasker.sock".to_string());
    let tcp = Transport::Tcp("0.0.0.0:7878".to_string());
    assert!(unix.is_unix() && !unix.is_tcp());
    assert!(tcp.is_tcp() && !tcp.is_unix());
}
