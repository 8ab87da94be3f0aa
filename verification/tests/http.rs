use open_runo::http::{accept_key, base64_encode, percent_decode, query_params, validate_upgrade_request, SseEvent};
use open_runo::multipart::{
    find_subslice, multipart_boundary, parse_content_disposition, parse_multipart, MultipartError,
};
use open_runo::route::{cors_preflight_patterns, match_path, parse_pattern, resolve, Resolution, Route, Segment};
use open_runo::ws::{encode_frame, read_frame, FrameRead, RawFrame, Reassembly, WsAction, WsMessage, OP_TEXT};

#[test]
fn percent_decode_handles_plus_and_hex_escapes() {
    assert_eq!(percent_decode("hello+world").unwrap(), "hello world");
    assert_eq!(percent_decode("a%2Fb%20c").unwrap(), "a/b c");
    assert_eq!(percent_decode("plain").unwrap(), "plain");
}

#[test]
fn percent_decode_keeps_a_bad_escape_and_reports_an_unsliceable_one() {
    assert_eq!(percent_decode("100%").unwrap(), "100%");
    assert_eq!(percent_decode("%zz").unwrap(), "%zz");
    assert_eq!(percent_decode("%+5x").unwrap(), "\u{5}x");
    assert_eq!(percent_decode("%a\u{e9}"), None);
}

#[test]
fn query_params_decode_pairs_in_order() {
    let q = query_params("a=1&b=x+y&&c&a=2").unwrap();
    let pairs: Vec<(&str, &str)> = q.iter().map(|(k, v)| (k.as_str(), v.as_str())).collect();
    assert_eq!(pairs, vec![("a", "1"), ("b", "x y"), ("c", ""), ("a", "2")]);
}

#[test]
fn parses_literal_and_param_segments() {
    let segs = parse_pattern("/api/db/:table/:key");
    assert_eq!(segs.len(), 4);
    assert!(matches!(&segs[0], Segment::Literal(s) if s == "api"));
    assert!(matches!(&segs[1], Segment::Literal(s) if s == "db"));
    assert!(matches!(&segs[2], Segment::Param(s) if s == "table"));
    assert!(matches!(&segs[3], Segment::Param(s) if s == "key"));
}

#[test]
fn router_matches_literal_then_param_routes() {
    let routes = vec![Route::new("GET", "/health"), Route::new("GET", "/api/db/:table/:key")];
    let health = routes
        .iter()
        .find(|r| r.method == "GET" && matches!(r.segments.first(), Some(Segment::Literal(s)) if s == "health"));
    assert!(health.is_some());
    let params = match_path(&routes[1], "/api/db/users/42").unwrap();
    assert_eq!(params.get("table"), Some("users"));
    assert_eq!(params.get("key"), Some("42"));
}

#[test]
fn router_rejects_mismatched_segment_count() {
    let route = Route::new("GET", "/api/db/:table/:key");
    assert!(match_path(&route, "/api/db/users").is_none());
    assert!(match_path(&route, "/api/db/users/42/extra").is_none());
}

#[test]
fn dispatch_distinguishes_found_method_not_allowed_and_not_found() {
    let routes = vec![Route::new("GET", "/health"), Route::new("PUT", "/api/db/:table/:key")];
    assert!(matches!(resolve(&routes, "GET", "/health/"), Resolution::Found(0, _)));
    match resolve(&routes, "PUT", "/api/db/t/k") {
        Resolution::Found(1, p) => assert_eq!(p.get("key"), Some("k")),
        _ => panic!("expected a match"),
    }
    assert!(matches!(resolve(&routes, "POST", "/health"), Resolution::MethodNotAllowed));
    assert!(matches!(resolve(&routes, "GET", "/missing"), Resolution::NotFound));
}

#[test]
fn with_cors_preflight_does_not_duplicate_an_explicit_options_route() {
    let routes = vec![Route::new("GET", "/x"), Route::new("OPTIONS", "/x")];
    assert_eq!(cors_preflight_patterns(&routes).len(), 0, "should not add a second OPTIONS route for the same path");
}

#[test]
fn with_cors_preflight_adds_exactly_one_options_route_per_distinct_path() {
    let routes = vec![
        Route::new("GET", "/api/db/:table/:key"),
        Route::new("PUT", "/api/db/:table/:key"),
        Route::new("DELETE", "/api/db/:table/:key"),
    ];
    assert_eq!(cors_preflight_patterns(&routes).len(), 1);
}

#[test]
fn sse_event_has_type_data_lines_and_blank_line() {
    let e = SseEvent { event_type: Some("update"), data: "a\nb".to_string() };
    assert_eq!(e.encode().as_ref(), b"event: update\ndata: a\ndata: b\n\n");
    let e = SseEvent { event_type: None, data: String::new() };
    assert_eq!(e.encode().as_ref(), b"data: \n\n");
}

#[test]
fn base64_matches_rfc4648_vectors() {
    assert_eq!(base64_encode(b""), "");
    assert_eq!(base64_encode(b"f"), "Zg==");
    assert_eq!(base64_encode(b"fo"), "Zm8=");
    assert_eq!(base64_encode(b"foo"), "Zm9v");
    assert_eq!(base64_encode(b"foobar"), "Zm9vYmFy");
}

#[test]
fn accept_key_matches_the_rfc6455_example() {
    assert_eq!(accept_key("dGhlIHNhbXBsZSBub25jZQ=="), "s3pPLMBiTxaQ9kYGzzhZRbK+xOo=");
}

#[test]
fn upgrade_request_needs_all_headers() {
    let ok = validate_upgrade_request(
        Some("websocket"),
        Some("keep-alive, Upgrade"),
        Some(" 13 "),
        Some("dGhlIHNhbXBsZSBub25jZQ=="),
    );
    assert_eq!(ok.as_deref(), Some("s3pPLMBiTxaQ9kYGzzhZRbK+xOo="));
    assert_eq!(validate_upgrade_request(Some("h2c"), Some("upgrade"), Some("13"), Some("k")), None);
    assert_eq!(validate_upgrade_request(Some("websocket"), None, Some("13"), Some("k")), None);
    assert_eq!(validate_upgrade_request(Some("websocket"), Some("upgrade"), Some("8"), Some("k")), None);
    assert_eq!(validate_upgrade_request(Some("websocket"), Some("upgrade"), Some("13"), None), None);
}

#[test]
fn server_frames_round_trip_through_the_reader() {
    for len in [0usize, 5, 125, 126, 300, 70000] {
        let payload: Vec<u8> = (0..len).map(|i| (i % 251) as u8).collect();
        let bytes = encode_frame(OP_TEXT, &payload);
        match read_frame(&bytes) {
            FrameRead::Frame(f, used) => {
                assert!(f.fin);
                assert_eq!(f.opcode, OP_TEXT);
                assert_eq!(f.payload, payload);
                assert_eq!(used, bytes.len());
            }
            _ => panic!("complete frame"),
        }
    }
}

#[test]
fn masked_client_frames_are_unmasked_and_short_input_asks_for_more() {
    let frame = [0x81, 0x85, 1, 2, 3, 4, b'h' ^ 1, b'e' ^ 2, b'l' ^ 3, b'l' ^ 4, b'o' ^ 1];
    match read_frame(&frame) {
        FrameRead::Frame(f, used) => {
            assert_eq!(f.payload, b"hello");
            assert_eq!(used, 11);
        }
        _ => panic!("complete frame"),
    }
    assert!(matches!(read_frame(&frame[..1]), FrameRead::NeedBytes(2)));
    assert!(matches!(read_frame(&frame[..4]), FrameRead::NeedBytes(6)));
    assert!(matches!(read_frame(&frame[..8]), FrameRead::NeedBytes(11)));
}

#[test]
fn a_frame_longer_than_memory_is_refused() {
    // 127: a 64-bit length follows; this one is 2^64 - 1 bytes.
    let header = [0x82, 0x7f, 0xff, 0xff, 0xff, 0xff, 0xff, 0xff, 0xff, 0xff];
    assert!(matches!(read_frame(&header), FrameRead::TooLong));
}

#[test]
fn fragments_are_reassembled_and_control_frames_handled() {
    let mut r = Reassembly::new();
    assert!(matches!(r.on_frame(RawFrame { fin: false, opcode: 1, payload: b"he".to_vec() }), WsAction::Continue));
    assert!(matches!(r.on_frame(RawFrame { fin: true, opcode: 9, payload: b"p".to_vec() }), WsAction::Pong(p) if p == b"p"));
    match r.on_frame(RawFrame { fin: true, opcode: 0, payload: b"llo".to_vec() }) {
        WsAction::Deliver(WsMessage::Text(t)) => assert_eq!(t, "hello"),
        _ => panic!("expected a text message"),
    }
    let mut r = Reassembly::new();
    assert!(matches!(r.on_frame(RawFrame { fin: true, opcode: 8, payload: vec![3, 232] }), WsAction::Close(p) if p == vec![3, 232]));
    assert!(matches!(r.on_frame(RawFrame { fin: true, opcode: 2, payload: vec![1, 2] }), WsAction::Deliver(WsMessage::Binary(b)) if b == vec![1, 2]));
}

#[test]
fn multipart_boundary_extracts_from_content_type() {
    assert_eq!(multipart_boundary("multipart/form-data; boundary=abc123"), Some("abc123".to_string()));
    assert_eq!(
        multipart_boundary("multipart/form-data; boundary=\"quoted-boundary\""),
        Some("quoted-boundary".to_string())
    );
    assert_eq!(multipart_boundary("application/json"), None);
}

#[test]
fn content_disposition_gives_name_and_filename() {
    assert_eq!(
        parse_content_disposition(" form-data; name=\"sdl_file\"; filename=\"users.graphql\""),
        (Some("sdl_file".to_string()), Some("users.graphql".to_string()))
    );
    assert_eq!(parse_content_disposition("name=\"first-piece-is-skipped\""), (None, None));
}

#[test]
fn find_subslice_finds_the_first_occurrence() {
    assert_eq!(find_subslice(b"abcabc", b"bc", 0), Some(1));
    assert_eq!(find_subslice(b"abcabc", b"bc", 2), Some(4));
    assert_eq!(find_subslice(b"abc", b"", 0), None);
    assert_eq!(find_subslice(b"abc", b"c", 4), None);
}

#[test]
fn multipart_body_parses_text_and_file_fields() {
    let body = "--XyZ\r\nContent-Disposition: form-data; name=\"service_name\"\r\n\r\nusers\r\n\
--XyZ\r\nContent-Disposition: form-data; name=\"sdl_file\"; filename=\"users.graphql\"\r\nContent-Type: text/plain\r\n\r\ntype User { id: ID! }\r\n\
--XyZ\r\nContent-Disposition: form-data\r\n\r\nnameless\r\n--XyZ--\r\n";
    let fields = parse_multipart("multipart/form-data; boundary=XyZ", body.as_bytes()).unwrap();
    assert_eq!(fields.len(), 2);
    assert_eq!(fields[0].name, "service_name");
    assert_eq!(fields[0].data, b"users");
    assert_eq!(fields[1].name, "sdl_file");
    assert_eq!(fields[1].filename.as_deref(), Some("users.graphql"));
    assert_eq!(fields[1].content_type.as_deref(), Some("text/plain"));
    assert_eq!(fields[1].data, b"type User { id: ID! }");
}

#[test]
fn multipart_errors_name_what_is_wrong() {
    assert_eq!(parse_multipart("application/json", b"").err(), Some(MultipartError::NotMultipart));
    assert_eq!(parse_multipart("multipart/form-data", b"").err(), Some(MultipartError::MissingBoundary));
    assert_eq!(
        parse_multipart("multipart/form-data; boundary=q", b"nothing here").err(),
        Some(MultipartError::BoundaryNotFound)
    );
}

#[test]
fn a_part_without_a_blank_line_or_closing_boundary_is_malformed() {
    let ct = "multipart/form-data; boundary=XyZ";
    let no_blank = b"--XyZ\r\nContent-Disposition: form-data; name=\"a\"\r\nvalue\r\n--XyZ--\r\n";
    assert_eq!(parse_multipart(ct, no_blank).err(), Some(MultipartError::Malformed));
    let unclosed = b"--XyZ\r\nContent-Disposition: form-data; name=\"a\"\r\n\r\nvalue";
    assert_eq!(parse_multipart(ct, unclosed).err(), Some(MultipartError::Malformed));
    let later = b"--XyZ\r\nContent-Disposition: form-data; name=\"a\"\r\n\r\n1\r\n--XyZ\r\nContent-Disposition: form-data; name=\"b\"\r\n\r\n2";
    assert_eq!(parse_multipart(ct, later).err(), Some(MultipartError::Malformed));
}

#[test]
fn each_message_is_reassembled_afresh() {
    let mut r = Reassembly::new();
    assert!(matches!(
        r.on_frame(RawFrame { fin: true, opcode: OP_TEXT, payload: b"one".to_vec() }),
        WsAction::Deliver(WsMessage::Text(s)) if s == "one"
    ));
    assert!(r.fragments.is_empty());
    assert!(matches!(r.on_frame(RawFrame { fin: true, opcode: 0, payload: b"stray".to_vec() }), WsAction::Continue));
    assert!(matches!(r.on_frame(RawFrame { fin: false, opcode: 2, payload: vec![1] }), WsAction::Continue));
    assert!(matches!(
        r.on_frame(RawFrame { fin: true, opcode: 0, payload: vec![2] }),
        WsAction::Deliver(WsMessage::Binary(b)) if b == vec![1, 2]
    ));
}
