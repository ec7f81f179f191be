use netflow_pipeline::registry::{Endpoint, Registry};

fn ep(ip: &str, port: u16) -> Endpoint {
    Endpoint::new(ip.to_string(), port)
}

#[test]
fn add_is_idempotent() {
    let mut r = Registry::new();
    r.add(ep("10.0.0.1", 7001));
    r.add(ep("10.0.0.1", 7001));
    assert_eq!(r.count(), 1);
    r.add(ep("10.0.0.1", 7002));
    assert_eq!(r.count(), 2);
}

#[test]
fn endpoint_address_renders_ip_and_port() {
    let e = ep("127.0.0.1", 7001);
    assert_eq!(e.address(), "127.0.0.1:7001".to_string());
    let e = ep("10.1.2.3", 65535);
    assert_eq!(e.address(), "10.1.2.3:65535".to_string());
    let e = ep("0.0.0.0", 0);
    assert_eq!(e.address(), "0.0.0.0:0".to_string());
}

#[test]
fn remove_host_is_host_scoped() {
    let mut r = Registry::new();
    r.add(ep("10.0.0.1", 7001));
    r.add(ep("10.0.0.1", 7002));
    r.add(ep("10.0.0.2", 7001));
    r.remove_host(&"10.0.0.1".to_string());
    assert_eq!(r.count(), 1);
    let snap = r.snapshot();
    assert_eq!(snap[0].address(), "10.0.0.2:7001".to_string());
}

#[test]
fn remove_many_is_set_difference() {
    let mut r = Registry::new();
    r.add(ep("10.0.0.1", 7001));
    r.add(ep("10.0.0.2", 7002));
    r.add(ep("10.0.0.3", 7003));
    // Removing an absent endpoint is silently ignored.
    r.remove_many(&vec![ep("10.0.0.2", 7002), ep("10.9.9.9", 9999)]);
    assert_eq!(r.count(), 2);
    let snap = r.snapshot();
    assert_eq!(snap[0].address(), "10.0.0.1:7001".to_string());
    assert_eq!(snap[1].address(), "10.0.0.3:7003".to_string());
}

#[test]
fn round_robin_visits_all_in_order() {
    let mut r = Registry::new();
    r.add(ep("10.0.0.1", 1));
    r.add(ep("10.0.0.2", 2));
    r.add(ep("10.0.0.3", 3));
    let mut seen: Vec<String> = Vec::new();
    for _ in 0..6 {
        seen.push(r.next().expect("non-empty registry").address());
    }
    assert_eq!(
        seen,
        vec![
            "10.0.0.1:1".to_string(),
            "10.0.0.2:2".to_string(),
            "10.0.0.3:3".to_string(),
            "10.0.0.1:1".to_string(),
            "10.0.0.2:2".to_string(),
            "10.0.0.3:3".to_string(),
        ]
    );
}

#[test]
fn next_on_empty_fails() {
    let mut r = Registry::new();
    assert!(r.next().is_none());
}

#[test]
fn cursor_is_clamped_after_removals() {
    let mut r = Registry::new();
    r.add(ep("10.0.0.1", 1));
    r.add(ep("10.0.0.2", 2));
    r.add(ep("10.0.0.3", 3));
    r.next();
    r.next();
    // The cursor points at the third entry; shrink the registry under it.
    r.remove_many(&vec![ep("10.0.0.2", 2), ep("10.0.0.3", 3)]);
    let picked = r.next().expect("one endpoint is left");
    assert_eq!(picked.address(), "10.0.0.1:1".to_string());
}
