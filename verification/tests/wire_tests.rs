use netflow_pipeline::wire::{
    build_chunk_frame, health_probe_bytes, healthy_reply_bytes, is_healthy_response, parse_frame,
    FrameParse,
};

#[test]
fn chunk_frame_round_trip() {
    let payload = vec![1u8, 2, 3, 4, 5, 6, 7];
    let frame = build_chunk_frame(&payload);
    assert_eq!(&frame[..5], b"chunk");
    assert_eq!(&frame[5..9], &7u32.to_be_bytes());
    match parse_frame(frame.as_slice(), 0) {
        FrameParse::Chunk(p, end) => {
            assert_eq!(p, payload);
            assert_eq!(end, frame.len());
        },
        _ => panic!("a complete chunk frame must parse"),
    }
}

#[test]
fn truncated_chunk_frame_closes() {
    let payload = vec![9u8; 100];
    let frame = build_chunk_frame(&payload);
    for cut in [1usize, 4, 8, frame.len() - 1] {
        match parse_frame(&frame[..cut], 0) {
            FrameParse::Close => {},
            _ => panic!("a truncated frame must close the connection"),
        }
    }
}

#[test]
fn unknown_magic_closes() {
    match parse_frame(b"hello world", 0) {
        FrameParse::Close => {},
        _ => panic!("an unknown magic must close the connection"),
    }
}

#[test]
fn health_frame_parses_and_is_answered() {
    let probe = health_probe_bytes();
    assert_eq!(probe, b"health-check".to_vec());
    match parse_frame(probe.as_slice(), 0) {
        FrameParse::Health(end) => assert_eq!(end, 12),
        _ => panic!("health-check must parse as a health frame"),
    }
    assert_eq!(healthy_reply_bytes(), b"healthy".to_vec());
}

#[test]
fn health_prefix_with_wrong_suffix_closes() {
    // Eleven or twelve bytes that merely begin with `healt` are not a
    // health frame: the match is on the full twelve bytes.
    match parse_frame(b"health check", 0) {
        FrameParse::Close => {},
        _ => panic!("a near-miss health frame must close the connection"),
    }
    match parse_frame(b"healthy-but-not", 0) {
        FrameParse::Close => {},
        _ => panic!("a near-miss health frame must close the connection"),
    }
}

#[test]
fn frames_parse_in_sequence() {
    let payload = vec![42u8, 43];
    let mut stream = build_chunk_frame(&payload);
    stream.extend_from_slice(&health_probe_bytes());
    let after_chunk = match parse_frame(stream.as_slice(), 0) {
        FrameParse::Chunk(p, end) => {
            assert_eq!(p, payload);
            end
        },
        _ => panic!("first frame must be the chunk"),
    };
    let after_health = match parse_frame(stream.as_slice(), after_chunk) {
        FrameParse::Health(end) => end,
        _ => panic!("second frame must be the health probe"),
    };
    match parse_frame(stream.as_slice(), after_health) {
        FrameParse::End => {},
        _ => panic!("the stream ends after the second frame"),
    }
}

#[test]
fn healthy_response_is_exact() {
    assert!(is_healthy_response(b"healthy"));
    assert!(!is_healthy_response(b"health"));
    assert!(!is_healthy_response(b"unhealthy"));
    assert!(!is_healthy_response(b"healthy\n"));
    assert!(!is_healthy_response(b""));
}
