use ais_forwarder::gpsd_protocol::{
    line_kind, split_at_newline, ErrorEstimate, GpsMessage, GpsdLine, GpsdProtoError, LineKind,
    Protocol, TpvMessage, VersionMessage, WATCH_REQUEST,
};

fn tpv(lat: Option<f32>, lon: Option<f32>, epx: Option<f32>, exy: Option<f32>) -> TpvMessage<f32> {
    TpvMessage { lat, lon, epx, exy }
}

#[test]
fn split_at_first_crlf() {
    let (line, rest) = split_at_newline(b"abc\r\ndef\r\ng");
    assert_eq!(line, Some(&b"abc"[..]));
    assert_eq!(rest, b"def\r\ng");
}

#[test]
fn split_without_crlf_keeps_everything() {
    let (line, rest) = split_at_newline(b"abc\ndef\r");
    assert_eq!(line, None);
    assert_eq!(rest, b"abc\ndef\r");
    let (line, rest) = split_at_newline(b"");
    assert_eq!(line, None);
    assert_eq!(rest, b"");
}

#[test]
fn split_empty_line() {
    let (line, rest) = split_at_newline(b"\r\n");
    assert_eq!(line, Some(&b""[..]));
    assert_eq!(rest, b"");
}

#[test]
fn push_data_frames_lines_across_reads() {
    let mut p: Protocol<f32> = Protocol::new();
    let lines = p.push_data(b"{\"a\":1}\r\n{\"b\"");
    assert_eq!(lines, vec![b"{\"a\":1}".to_vec()]);
    let lines = p.push_data(b":2}");
    assert!(lines.is_empty());
    let lines = p.push_data(b"\r\n{\"c\":3}\r\n{");
    assert_eq!(lines, vec![b"{\"b\":2}".to_vec(), b"{\"c\":3}".to_vec()]);
    let lines = p.push_data(b"}\r\n");
    assert_eq!(lines, vec![b"{}".to_vec()]);
}

#[test]
fn push_data_misses_crlf_split_between_reads() {
    // Only the new bytes are searched for the end of a kept line.
    let mut p: Protocol<f32> = Protocol::new();
    assert!(p.push_data(b"ab\r").is_empty());
    assert!(p.push_data(b"\ncd").is_empty());
    assert_eq!(p.push_data(b"\r\n"), vec![b"ab\r\ncd".to_vec()]);
}

#[test]
fn line_kinds() {
    assert_eq!(line_kind("VERSION"), LineKind::Version);
    assert_eq!(line_kind("TPV"), LineKind::Tpv);
    assert_eq!(line_kind("SKY"), LineKind::Other);
    assert_eq!(line_kind("tpv"), LineKind::Other);
    assert_eq!(line_kind(""), LineKind::Other);
}

#[test]
fn supported_version_requests_watch_once() {
    let mut p: Protocol<f32> = Protocol::new();
    assert_eq!(p.poll_write(), None);
    p.process_proto_line(Ok(GpsdLine::Version(VersionMessage { proto_major: 3, proto_minor: 14 })))
        .unwrap();
    assert_eq!(p.poll_write(), Some(WATCH_REQUEST.as_bytes()));
    assert_eq!(WATCH_REQUEST, "?WATCH={\"enable\":true,\"json\":true}\n");
    assert_eq!(p.poll_write(), None);
}

#[test]
fn version_three_two_is_the_oldest_supported() {
    let mut p: Protocol<f32> = Protocol::new();
    assert!(p
        .process_proto_line(Ok(GpsdLine::Version(VersionMessage { proto_major: 3, proto_minor: 2 })))
        .is_ok());
    let mut p: Protocol<f32> = Protocol::new();
    match p.process_proto_line(Ok(GpsdLine::Version(VersionMessage { proto_major: 3, proto_minor: 1 }))) {
        Err(GpsdProtoError::UnsupportedProtocolVersion(v)) => {
            assert_eq!(v, VersionMessage { proto_major: 3, proto_minor: 1 })
        }
        other => panic!("unexpected {other:?}"),
    }
    assert_eq!(p.poll_write(), None);
    assert!(p
        .process_proto_line(Ok(GpsdLine::Version(VersionMessage { proto_major: 4, proto_minor: 2 })))
        .is_err());
    assert!(p
        .process_proto_line(Ok(GpsdLine::Version(VersionMessage { proto_major: 2, proto_minor: 9 })))
        .is_err());
}

#[test]
fn tpv_fixes_are_queued_in_order() {
    let mut p: Protocol<f32> = Protocol::new();
    p.process_proto_line(Ok(GpsdLine::Tpv(tpv(Some(52.5), Some(4.25), None, None)))).unwrap();
    p.process_proto_line(Ok(GpsdLine::Tpv(tpv(None, Some(4.0), None, None)))).unwrap();
    p.process_proto_line(Ok(GpsdLine::Other)).unwrap();
    p.process_proto_line(Ok(GpsdLine::Tpv(tpv(Some(1.0), Some(2.0), Some(3.0), Some(4.0))))).unwrap();
    let first = p.poll_output().unwrap();
    assert_eq!((first.lat, first.lon), (52.5, 4.25));
    assert!(first.error_estimate.is_none());
    let second = p.poll_output().unwrap();
    assert_eq!((second.lat, second.lon), (1.0, 2.0));
    let e = second.error_estimate.unwrap();
    assert_eq!((e.longitude_estimate_meters, e.latitude_estimate_meters), (3.0, 4.0));
    assert!(p.poll_output().is_none());
}

#[test]
fn latest_output_drops_older_fixes() {
    let mut p: Protocol<f32> = Protocol::new();
    assert!(p.take_latest_output().is_none());
    p.process_proto_line(Ok(GpsdLine::Tpv(tpv(Some(1.0), Some(1.0), None, None)))).unwrap();
    p.process_proto_line(Ok(GpsdLine::Tpv(tpv(Some(2.0), Some(2.0), None, None)))).unwrap();
    let latest = p.take_latest_output().unwrap();
    assert_eq!(latest.lat, 2.0);
    assert!(p.poll_output().is_none());
}

#[test]
fn tpv_conversion() {
    let ok: Result<GpsMessage<f32>, ()> = GpsMessage::try_from(tpv(Some(1.0), Some(2.0), Some(3.0), None));
    let m = ok.unwrap();
    assert!(m.error_estimate.is_none());
    let err: Result<GpsMessage<f32>, ()> = GpsMessage::try_from(tpv(Some(1.0), None, Some(3.0), Some(4.0)));
    assert!(err.is_err());
    let m = GpsMessage::try_from(tpv(Some(1.0), Some(2.0), Some(3.0), Some(4.0))).unwrap();
    let ErrorEstimate { longitude_estimate_meters, latitude_estimate_meters } = m.error_estimate.unwrap();
    assert_eq!((longitude_estimate_meters, latitude_estimate_meters), (3.0, 4.0));
}

#[test]
fn refused_version_drops_kept_bytes() {
    let mut p: Protocol<f32> = Protocol::new();
    let lines = p.push_data(b"{\"class\":\"VERSION\",\"proto_major\":2,\"proto_minor\":0}\r\n{\"cla");
    assert_eq!(lines.len(), 1);
    let r = p.process_lines(vec![Ok(GpsdLine::Version(VersionMessage { proto_major: 2, proto_minor: 0 }))]);
    assert!(r.is_err());
    // The kept `{"cla` is gone: the next bytes start a fresh line.
    assert_eq!(p.push_data(b"ss\":\"TPV\"}\r\n"), vec![b"ss\":\"TPV\"}".to_vec()]);
}

#[test]
fn refused_single_line_changes_nothing() {
    let mut p: Protocol<f32> = Protocol::new();
    p.push_data(b"{}\r\nab");
    let r = p.process_proto_line(Ok(GpsdLine::Version(VersionMessage { proto_major: 2, proto_minor: 0 })));
    assert!(r.is_err());
    assert_eq!(p.poll_write(), None);
    assert_eq!(p.push_data(b"c\r\n"), vec![b"abc".to_vec()]);
}

#[test]
fn undecodable_line_is_refused_and_drops_kept_bytes() {
    let mut p: Protocol<f32> = Protocol::new();
    let lines = p.push_data(b"{\r\nabc");
    assert_eq!(lines, vec![b"{".to_vec()]);
    let decode_error = serde_json::from_slice::<serde_json::Value>(&lines[0]).unwrap_err();
    match p.process_lines(vec![Err(decode_error)]) {
        Err(GpsdProtoError::Json(_)) => {}
        other => panic!("unexpected {other:?}"),
    }
    assert_eq!(p.push_data(b"d\r\n"), vec![b"d".to_vec()]);
}

#[test]
fn lines_before_the_first_refusal_take_effect() {
    let mut p: Protocol<f32> = Protocol::new();
    p.push_data(b"kept");
    let r = p.process_lines(vec![
        Ok(GpsdLine::Tpv(tpv(Some(1.0), Some(2.0), None, None))),
        Ok(GpsdLine::Version(VersionMessage { proto_major: 3, proto_minor: 5 })),
        Ok(GpsdLine::Version(VersionMessage { proto_major: 3, proto_minor: 0 })),
        Ok(GpsdLine::Tpv(tpv(Some(9.0), Some(9.0), None, None))),
        Ok(GpsdLine::Version(VersionMessage { proto_major: 1, proto_minor: 0 })),
    ]);
    match r {
        Err(GpsdProtoError::UnsupportedProtocolVersion(v)) => {
            assert_eq!(v, VersionMessage { proto_major: 3, proto_minor: 0 })
        }
        other => panic!("unexpected {other:?}"),
    }
    assert!(p.poll_write().is_some());
    assert_eq!(p.poll_output().unwrap().lat, 1.0);
    assert!(p.poll_output().is_none());
    assert_eq!(p.push_data(b"x\r\n"), vec![b"x".to_vec()]);
}

#[test]
fn lines_without_refusal_all_take_effect() {
    let mut p: Protocol<f32> = Protocol::new();
    p.push_data(b"ab");
    p.process_lines(vec![
        Ok(GpsdLine::Other),
        Ok(GpsdLine::Tpv(tpv(Some(1.0), Some(2.0), None, None))),
        Ok(GpsdLine::Tpv(tpv(Some(3.0), Some(4.0), None, None))),
    ])
    .unwrap();
    assert_eq!(p.poll_output().unwrap().lat, 1.0);
    assert_eq!(p.poll_output().unwrap().lat, 3.0);
    assert!(p.poll_output().is_none());
    assert_eq!(p.push_data(b"c\r\n"), vec![b"abc".to_vec()]);
}

#[test]
fn accepted_lines_keep_the_kept_bytes() {
    let mut p: Protocol<f32> = Protocol::new();
    p.push_data(b"{}\r\nab");
    p.process_proto_line(Ok(GpsdLine::Other)).unwrap();
    assert_eq!(p.push_data(b"c\r\n"), vec![b"abc".to_vec()]);
}

#[test]
fn cutting_the_stream_differently_gives_the_same_lines() {
    let data: &[u8] = b"{\"a\":1}\r\n{\"b\":2}\r\n{\"c\"";
    let mut whole: Protocol<f32> = Protocol::new();
    let mut lines_whole = whole.push_data(data);
    lines_whole.extend(whole.push_data(b":3}\r\n"));
    for cut in [1usize, 5, 9, 12, 20] {
        let mut parts: Protocol<f32> = Protocol::new();
        let mut lines = parts.push_data(&data[..cut]);
        lines.extend(parts.push_data(&data[cut..]));
        lines.extend(parts.push_data(b":3}\r\n"));
        assert_eq!(lines, lines_whole, "cut at {cut}");
    }
}
