use netflow_pipeline::control::{connect_command, parse_command, port_string, Command};
use netflow_pipeline::flow::Netflow;

#[test]
fn parse_connect() {
    assert_eq!(parse_command(b"connect 7001"), Command::Connect(7001));
    assert_eq!(parse_command(b"connect 0"), Command::Connect(0));
    assert_eq!(parse_command(b"connect 65535"), Command::Connect(65535));
    assert_eq!(parse_command(b"connect 007"), Command::Connect(7));
}

#[test]
fn parse_disconnect() {
    assert_eq!(parse_command(b"disconnect"), Command::Disconnect);
}

#[test]
fn parse_rejects_everything_else() {
    assert_eq!(parse_command(b"hello"), Command::Invalid);
    assert_eq!(parse_command(b""), Command::Invalid);
    assert_eq!(parse_command(b"connect "), Command::Invalid);
    assert_eq!(parse_command(b"connect 65536"), Command::Invalid);
    assert_eq!(parse_command(b"connect 70a1"), Command::Invalid);
    assert_eq!(parse_command(b"connect -1"), Command::Invalid);
    assert_eq!(parse_command(b"connect7001"), Command::Invalid);
    assert_eq!(parse_command(b"disconnect "), Command::Invalid);
}

#[test]
fn connect_command_round_trips() {
    let cmd = connect_command(7001);
    assert_eq!(cmd, b"connect 7001".to_vec());
    assert_eq!(parse_command(cmd.as_slice()), Command::Connect(7001));
    let cmd = connect_command(0);
    assert_eq!(cmd, b"connect 0".to_vec());
    assert_eq!(parse_command(cmd.as_slice()), Command::Connect(0));
}

#[test]
fn port_renders_in_decimal() {
    assert_eq!(port_string(0), "0".to_string());
    assert_eq!(port_string(8080), "8080".to_string());
    assert_eq!(port_string(65535), "65535".to_string());
}

#[test]
fn record_validity_is_all_but_ports() {
    let full = Netflow {
        flow_id: 1,
        src_ip: Some("1.1.1.1".to_string()),
        dst_ip: Some("2.2.2.2".to_string()),
        src_port: None,
        dst_port: None,
        protocol: Some(6),
        bytes: Some(1),
        packets: Some(1),
        start_ts: Some(1),
        end_ts: Some(1),
        src_asn: Some(1),
        dst_asn: Some(1),
    };
    // Null ports are allowed.
    assert!(full.is_valid());
    let mut broken = full.clone();
    broken.dst_asn = None;
    assert!(!broken.is_valid());
    let mut broken = full.clone();
    broken.src_ip = None;
    assert!(!broken.is_valid());
}
