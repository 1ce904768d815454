use ocdscope::gdbremote::{
    build_gdb_packet, parse_gdb_packet, GDBRemote, GDBRemoteError, Response, Timestamp,
};

#[test]
fn build_gdb_packet_qc() {
    assert_eq!(build_gdb_packet("qC"), b"$qC#b4".to_vec());
}

#[test]
fn build_gdb_packet_empty_and_wrapping_sum() {
    assert_eq!(build_gdb_packet(""), b"$#00".to_vec());
    assert_eq!(build_gdb_packet("QStartNoAckMode"), b"$QStartNoAckMode#b0".to_vec());
    assert_eq!(build_gdb_packet("m 20000000,4"), b"$m 20000000,4#6f".to_vec());
}

#[test]
fn parse_round_trip() {
    for s in ["", "OK", "qC", "m 20000000,4", "QStartNoAckMode", "O"] {
        let frame = build_gdb_packet(s);
        assert_eq!(parse_gdb_packet(&frame).unwrap(), s.as_bytes().to_vec());
    }
}

#[test]
fn parse_rejects_checksum_mismatch() {
    assert!(matches!(parse_gdb_packet(b"$qC#b5"), Err(GDBRemoteError::ParseError(_))));
    assert!(matches!(parse_gdb_packet(b"$OK#00"), Err(GDBRemoteError::ParseError(_))));
}

#[test]
fn parse_errors() {
    assert!(matches!(parse_gdb_packet(b"$O#"), Err(GDBRemoteError::ParseError(_))));
    assert!(matches!(parse_gdb_packet(b"xOK#9a"), Err(GDBRemoteError::ParseError(_))));
    assert!(matches!(parse_gdb_packet(b"$OK9a"), Err(GDBRemoteError::ParseError(_))));
    assert!(matches!(parse_gdb_packet(b"$OK#9"), Err(GDBRemoteError::ParseError(_))));
    assert!(matches!(parse_gdb_packet(b"$OK#zz"), Err(GDBRemoteError::ParseError(_))));
}

#[test]
fn parse_accepts_uppercase_checksum_and_ignores_trailing_bytes() {
    assert_eq!(parse_gdb_packet(b"$OK#9A").unwrap(), b"OK".to_vec());
    assert_eq!(parse_gdb_packet(b"$OK#9a+$").unwrap(), b"OK".to_vec());
}

#[test]
fn response_predicates() {
    let ack = Response::ACK;
    let ok = Response::Packet(b"OK".to_vec());
    assert!(ack.is_ack() && !ack.is_packet());
    assert!(ok.is_packet() && !ok.is_ack());
    assert!(ok.is_packet_with("OK"));
    assert!(!ok.is_packet_with("O"));
    assert!(!ack.is_packet_with("OK"));
    assert_eq!(ack.to_string(), Some("<ACK>".to_string()));
    assert_eq!(ok.to_string(), Some("OK".to_string()));
    assert_eq!(Response::Packet(vec![0xff, 0xfe]).to_string(), None);
}

#[test]
fn session_reads_ack_then_packet() {
    let mut remote = GDBRemote::new();
    assert!(matches!(remote.read_response(), Ok(None)));
    remote.feed_buffer_from_stream(b"+$O", Timestamp::Fallback(10)).unwrap();
    match remote.read_response() {
        Ok(Some((Response::ACK, t))) => assert_eq!(t, Timestamp::Fallback(10)),
        other => panic!("unexpected {:?}", other),
    }
    assert!(matches!(remote.read_response(), Ok(None)));
    remote.feed_buffer_from_stream(b"K#9a", Timestamp::ByTcpStack(20)).unwrap();
    match remote.read_response() {
        Ok(Some((Response::Packet(p), t))) => {
            assert_eq!(p, b"OK".to_vec());
            assert_eq!(t, Timestamp::Fallback(10));
        }
        other => panic!("unexpected {:?}", other),
    }
    assert!(matches!(remote.read_response(), Ok(None)));
}

#[test]
fn session_end_of_stream_and_timeout() {
    let mut remote = GDBRemote::new();
    assert_eq!(remote.timeout(), 200);
    remote.set_timeout(2000);
    assert_eq!(remote.timeout(), 2000);
    assert!(matches!(
        remote.feed_buffer_from_stream(&[], Timestamp::Fallback(1)),
        Err(GDBRemoteError::EndOfStream)
    ));
    assert_eq!(remote.send_packet("c"), b"$c#63".to_vec());
}

#[test]
fn session_reports_corrupt_stream() {
    let mut remote = GDBRemote::new();
    remote.feed_buffer_from_stream(b"x$OK#9a", Timestamp::Fallback(1)).unwrap();
    assert!(matches!(remote.read_response(), Err(GDBRemoteError::ParseError(_))));

    let mut remote = GDBRemote::new();
    remote.feed_buffer_from_stream(b"$OK#9", Timestamp::Fallback(1)).unwrap();
    assert!(matches!(remote.read_response(), Ok(None)));
    remote.feed_buffer_from_stream(b"b", Timestamp::Fallback(2)).unwrap();
    assert!(matches!(remote.read_response(), Err(GDBRemoteError::ParseError(_))));

    let mut remote = GDBRemote::new();
    remote.feed_buffer_from_stream(b"$O#zz", Timestamp::Fallback(1)).unwrap();
    assert!(matches!(remote.read_response(), Err(GDBRemoteError::ParseError(_))));
}
