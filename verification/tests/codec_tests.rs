use netflow_pipeline::codec::{decode_batch, encode_batch};
use netflow_pipeline::flow::Netflow;
use netflow_pipeline::payload::{decode_chunk_payload, encode_chunk_payload};

fn sample_record() -> Netflow {
    Netflow {
        flow_id: 1,
        src_ip: Some("1.1.1.1".to_string()),
        dst_ip: Some("2.2.2.2".to_string()),
        src_port: Some(80),
        dst_port: Some(443),
        protocol: Some(6),
        bytes: Some(1024),
        packets: Some(5),
        start_ts: Some(1678886400),
        end_ts: Some(1678886500),
        src_asn: Some(12345),
        dst_asn: Some(54321),
    }
}

fn sparse_record() -> Netflow {
    Netflow {
        flow_id: -7,
        src_ip: None,
        dst_ip: Some("10.0.0.2".to_string()),
        src_port: None,
        dst_port: None,
        protocol: Some(17),
        bytes: None,
        packets: Some(1),
        start_ts: Some(0),
        end_ts: None,
        src_asn: Some(-1),
        dst_asn: None,
    }
}

#[test]
fn encode_decode_round_trip() {
    let batch = vec![sample_record(), sparse_record()];
    let bytes = encode_batch(&batch);
    let back = decode_batch(bytes.as_slice()).expect("an encoded batch must decode");
    assert_eq!(back, batch);
}

#[test]
fn encode_decode_empty_batch() {
    let batch: Vec<Netflow> = Vec::new();
    let bytes = encode_batch(&batch);
    assert_eq!(bytes, vec![0u8; 8]);
    let back = decode_batch(bytes.as_slice()).expect("the empty batch must decode");
    assert!(back.is_empty());
}

#[test]
fn decode_rejects_truncated_input() {
    let batch = vec![sample_record()];
    let bytes = encode_batch(&batch);
    for cut in [1usize, 8, 9, bytes.len() - 1] {
        assert!(decode_batch(&bytes[..cut]).is_none());
    }
}

#[test]
fn decode_rejects_trailing_garbage() {
    let batch = vec![sample_record()];
    let mut bytes = encode_batch(&batch);
    bytes.push(0);
    assert!(decode_batch(bytes.as_slice()).is_none());
}

#[test]
fn decode_rejects_bad_option_tag() {
    let batch = vec![sample_record()];
    let mut bytes = encode_batch(&batch);
    // The byte after the count and flow_id is the src_ip presence tag.
    bytes[16] = 2;
    assert!(decode_batch(bytes.as_slice()).is_none());
}

#[test]
fn encoding_matches_bincode2() {
    // The wire encoding is the one bincode2's default configuration writes:
    // little-endian fixed-width integers, u64 length prefixes, one tag byte
    // per nullable field. serde encodes a tuple exactly like a struct with
    // the same fields in order.
    let batch = vec![sample_record(), sparse_record()];
    let tuples: Vec<(
        i64,
        Option<String>,
        Option<String>,
        Option<i32>,
        Option<i32>,
        Option<i16>,
        Option<i64>,
        Option<i64>,
        Option<i64>,
        Option<i64>,
        Option<i32>,
        Option<i32>,
    )> = batch
        .iter()
        .map(|n| {
            (
                n.flow_id,
                n.src_ip.clone(),
                n.dst_ip.clone(),
                n.src_port,
                n.dst_port,
                n.protocol,
                n.bytes,
                n.packets,
                n.start_ts,
                n.end_ts,
                n.src_asn,
                n.dst_asn,
            )
        })
        .collect();
    let reference = bincode2::serialize(&tuples).unwrap();
    assert_eq!(encode_batch(&batch), reference);
    let back = decode_batch(reference.as_slice()).expect("bincode2 output must decode");
    assert_eq!(back, batch);
}

#[test]
fn payload_round_trip() {
    let batch = vec![sample_record(), sparse_record()];
    let payload = encode_chunk_payload(&batch);
    let back = decode_chunk_payload(payload.as_slice()).expect("own payload must decode");
    assert_eq!(back, batch);
}

#[test]
fn payload_matches_lz4_flex() {
    // The compression wrapper really compresses: the payload is what
    // lz4_flex produces, and decoding a hand-compressed payload works too.
    let batch = vec![sample_record()];
    let payload = encode_chunk_payload(&batch);
    let by_hand = lz4_flex::compress_prepend_size(&encode_batch(&batch));
    assert_eq!(payload, by_hand);
    let back = decode_chunk_payload(by_hand.as_slice()).unwrap();
    assert_eq!(back, batch);
}

#[test]
fn framed_payload_preserves_flow_id() {
    let netflows = vec![Netflow {
        flow_id: 1,
        src_ip: Some("192.168.1.1".to_string()),
        dst_ip: Some("192.168.1.2".to_string()),
        src_port: Some(80),
        dst_port: Some(443),
        protocol: Some(6),
        bytes: Some(1024),
        packets: Some(5),
        start_ts: Some(1678886400),
        end_ts: Some(1678886500),
        src_asn: Some(12345),
        dst_asn: Some(54321),
    }];
    let serialized = encode_batch(&netflows);
    let compressed = lz4_flex::compress_prepend_size(&serialized);
    let decompressed = lz4_flex::decompress_size_prepended(&compressed).unwrap();
    let items = decode_batch(decompressed.as_slice()).unwrap();
    assert_eq!(items[0].flow_id, 1);
    assert_eq!(items, netflows);
}

#[test]
fn payload_rejects_garbage() {
    assert!(decode_chunk_payload(&[0xff, 0xff, 0xff]).is_none());
}
