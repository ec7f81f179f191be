use netflow_pipeline::flow::{validate_chunk, Netflow};
use netflow_pipeline::payload::decode_chunk_payload;
use netflow_pipeline::producer::{ProduceError, Producer};
use netflow_pipeline::wire::{parse_frame, FrameParse};

fn record() -> Netflow {
    Netflow {
        flow_id: 1,
        src_ip: Some("1.1.1.1".to_string()),
        dst_ip: Some("2.2.2.2".to_string()),
        src_port: Some(80),
        dst_port: Some(443),
        protocol: Some(6),
        bytes: Some(1024),
        packets: Some(5),
        start_ts: Some(1678886400),
        end_ts: Some(1678886500),
        src_asn: Some(12345),
        dst_asn: Some(54321),
    }
}

#[test]
fn starts_empty_and_not_ready() {
    let p = Producer::new();
    assert!(!p.is_ready());
    assert!(p.snapshot().is_empty());
}

#[test]
fn connect_registers_the_peer() {
    let mut p = Producer::new();
    let reply = p.handle_command(&"127.0.0.1".to_string(), b"connect 7001");
    assert!(reply.is_none());
    let snap = p.snapshot();
    assert_eq!(snap.len(), 1);
    assert_eq!(snap[0].address(), "127.0.0.1:7001".to_string());
    // Registering again changes nothing.
    p.handle_command(&"127.0.0.1".to_string(), b"connect 7001");
    assert_eq!(p.snapshot().len(), 1);
}

#[test]
fn unknown_command_is_answered_and_ignored() {
    let mut p = Producer::new();
    p.handle_command(&"127.0.0.1".to_string(), b"connect 7001");
    let reply = p.handle_command(&"10.0.0.9".to_string(), b"hello");
    assert_eq!(reply, Some(b"invalid command".to_vec()));
    assert_eq!(p.snapshot().len(), 1);
}

#[test]
fn malformed_connect_is_invalid() {
    let mut p = Producer::new();
    let reply = p.handle_command(&"127.0.0.1".to_string(), b"connect 99999");
    assert_eq!(reply, Some(b"invalid command".to_vec()));
    let reply = p.handle_command(&"127.0.0.1".to_string(), b"connect 70a1");
    assert_eq!(reply, Some(b"invalid command".to_vec()));
    assert!(p.snapshot().is_empty());
}

#[test]
fn disconnect_removes_the_host() {
    let mut p = Producer::new();
    p.handle_command(&"10.0.0.1".to_string(), b"connect 7001");
    p.handle_command(&"10.0.0.1".to_string(), b"connect 7002");
    p.handle_command(&"10.0.0.2".to_string(), b"connect 7001");
    let reply = p.handle_command(&"10.0.0.1".to_string(), b"disconnect");
    assert!(reply.is_none());
    let snap = p.snapshot();
    assert_eq!(snap.len(), 1);
    assert_eq!(snap[0].address(), "10.0.0.2:7001".to_string());
}

#[test]
fn sweep_sets_readiness_from_membership() {
    let mut p = Producer::new();
    p.handle_command(&"127.0.0.1".to_string(), b"connect 6000");
    // A sweep with no failures: membership kept, readiness raised.
    p.finish_sweep(&Vec::new());
    assert!(p.is_ready());
    // The endpoint answered nothing this time: evicted, readiness cleared.
    let everyone = p.snapshot();
    p.finish_sweep(&everyone);
    assert!(p.snapshot().is_empty());
    assert!(!p.is_ready());
}

#[test]
fn produce_without_processors_fails_and_clears_readiness() {
    let mut p = Producer::new();
    p.handle_command(&"127.0.0.1".to_string(), b"connect 6000");
    p.finish_sweep(&Vec::new());
    assert!(p.is_ready());
    p.handle_command(&"127.0.0.1".to_string(), b"disconnect");
    let r = p.produce(&vec![record()]);
    assert_eq!(r.err(), Some(ProduceError::NoProcessors));
    assert!(!p.is_ready());
}

#[test]
fn produce_round_robin_targets() {
    let mut p = Producer::new();
    p.handle_command(&"10.0.0.1".to_string(), b"connect 1");
    p.handle_command(&"10.0.0.2".to_string(), b"connect 2");
    p.handle_command(&"10.0.0.3".to_string(), b"connect 3");
    let batch = vec![record()];
    let mut seen: Vec<String> = Vec::new();
    for _ in 0..6 {
        let (target, _frame) = p.produce(&batch).expect("three processors are live");
        seen.push(target.address());
    }
    assert_eq!(
        seen,
        vec![
            "10.0.0.1:1".to_string(),
            "10.0.0.2:2".to_string(),
            "10.0.0.3:3".to_string(),
            "10.0.0.1:1".to_string(),
            "10.0.0.2:2".to_string(),
            "10.0.0.3:3".to_string(),
        ]
    );
}

#[test]
fn register_dispatch_receive() {
    // The full pipeline short of the sockets: register one processor,
    // dispatch one batch, read the frame as the ingress reader would, and
    // validate. The same record comes out on the sink.
    let mut p = Producer::new();
    p.handle_command(&"127.0.0.1".to_string(), b"connect 7001");
    let batch = vec![record()];
    let (target, frame) = p.produce(&batch).expect("one processor is live");
    assert_eq!(target.address(), "127.0.0.1:7001".to_string());
    let payload = match parse_frame(frame.as_slice(), 0) {
        FrameParse::Chunk(payload, end) => {
            assert_eq!(end, frame.len());
            payload
        },
        _ => panic!("the produced frame must parse as a chunk"),
    };
    let received = decode_chunk_payload(payload.as_slice()).expect("payload must decode");
    let sink = validate_chunk(received);
    assert_eq!(sink, vec![record()]);
}

#[test]
fn full_page_batch_dispatches() {
    // A full thousand-record page is far under the frame's length field:
    // dispatch is owed, and the frame still parses and decodes.
    let mut p = Producer::new();
    p.handle_command(&"127.0.0.1".to_string(), b"connect 7001");
    let mut batch = Vec::new();
    for i in 0..1000i64 {
        let mut n = record();
        n.flow_id = i;
        batch.push(n);
    }
    let (_target, frame) = p.produce(&batch).expect("an ordinary batch dispatches");
    let payload = match parse_frame(frame.as_slice(), 0) {
        FrameParse::Chunk(payload, _) => payload,
        _ => panic!("the produced frame must parse as a chunk"),
    };
    let received = decode_chunk_payload(payload.as_slice()).expect("payload must decode");
    assert_eq!(received.len(), 1000);
    assert_eq!(received, batch);
}

#[test]
fn invalid_record_is_dropped() {
    // A record with a null src_ip but everything else present never
    // reaches the sink.
    let mut bad = record();
    bad.src_ip = None;
    let sink = validate_chunk(vec![bad]);
    assert!(sink.is_empty());
}
