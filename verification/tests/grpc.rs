use bytes::BytesMut;
use open_runo::grpc::{
    decode_grpc_frame, decode_health_check_request, decode_health_check_response, decode_varint, encode_grpc_frame,
    encode_health_check_request, encode_health_check_response, encode_list_services_response, encode_string_field,
    encode_varint, health_check_reply, known_services, reflection_reply, remote_health_outcome,
    request_is_list_services, GrpcStatus, ServingStatus,
};

#[test]
fn varint_round_trips_small_and_large_values() {
    for value in [0u64, 1, 127, 128, 300, 16384, u32::MAX as u64] {
        let mut buf = BytesMut::new();
        encode_varint(value, &mut buf);
        let (decoded, rest) = decode_varint(&buf).unwrap();
        assert_eq!(decoded, value);
        assert!(rest.is_empty());
    }
}

#[test]
fn varint_of_the_largest_value_takes_ten_bytes() {
    let mut buf = BytesMut::new();
    encode_varint(u64::MAX, &mut buf);
    assert_eq!(buf.len(), 10);
    assert_eq!(decode_varint(&buf).unwrap().0, u64::MAX);
    assert_eq!(decode_varint(&[0x80; 10]), None);
    assert_eq!(decode_varint(&[0xac, 0x02, 0x07]), Some((300, &[0x07u8][..])));
}

#[test]
fn grpc_frame_round_trips() {
    let message = b"hello grpc";
    let framed = encode_grpc_frame(message);
    let decoded = decode_grpc_frame(&framed).unwrap();
    assert_eq!(decoded, message);
}

#[test]
fn decode_grpc_frame_rejects_truncated_input() {
    assert_eq!(decode_grpc_frame(&[0, 0, 0]), Err(GrpcStatus::InvalidArgument));
}

#[test]
fn decode_grpc_frame_rejects_compressed_flag() {
    let mut framed = encode_grpc_frame(b"x").to_vec();
    framed[0] = 1;
    assert_eq!(decode_grpc_frame(&framed), Err(GrpcStatus::Unimplemented));
}

#[test]
fn decode_grpc_frame_rejects_a_length_past_the_end() {
    assert_eq!(decode_grpc_frame(&[0, 0, 0, 0, 3, 1, 2]), Err(GrpcStatus::InvalidArgument));
    assert_eq!(encode_grpc_frame(b"ab").as_ref(), &[0, 0, 0, 0, 2, b'a', b'b']);
}

#[test]
fn health_check_response_encodes_serving_as_field_1_value_1() {
    let bytes = encode_health_check_response(ServingStatus::Serving);
    assert_eq!(bytes.as_ref(), &[0x08, 0x01]);
}

#[test]
fn client_request_response_codec_round_trips() {
    let req_bytes = encode_health_check_request("orders");
    let decoded_req = decode_health_check_request(&req_bytes).unwrap();
    assert_eq!(decoded_req.service, "orders");

    let resp_bytes = encode_health_check_response(ServingStatus::NotServing);
    let decoded_resp = decode_health_check_response(&resp_bytes).unwrap();
    assert_eq!(decoded_resp, ServingStatus::NotServing);
}

#[test]
fn encode_health_check_request_empty_service_is_empty_message() {
    assert_eq!(encode_health_check_request("").len(), 0);
}

#[test]
fn decode_health_check_request_accepts_empty_message() {
    let req = decode_health_check_request(&[]).unwrap();
    assert_eq!(req.service, "");
}

#[test]
fn decode_health_check_request_parses_service_field() {
    let mut bytes = vec![0x0a, 6];
    bytes.extend_from_slice(b"orders");
    let req = decode_health_check_request(&bytes).unwrap();
    assert_eq!(req.service, "orders");
}

#[test]
fn decode_health_check_request_rejects_bad_wire_types() {
    assert!(matches!(decode_health_check_request(&[0x0b]), Err(GrpcStatus::InvalidArgument)));
    assert!(matches!(decode_health_check_request(&[0x0a, 5, b'a']), Err(GrpcStatus::InvalidArgument)));
}

#[test]
fn encode_string_field_matches_hand_rolled_expectation() {
    let out = encode_string_field(1, "hi");
    assert_eq!(out.as_ref(), &[0x0a, 2, b'h', b'i']);
}

#[test]
fn request_is_list_services_detects_field_7() {
    let bytes = [0x3a, 0x00];
    assert!(request_is_list_services(&bytes));
}

#[test]
fn request_is_list_services_rejects_other_oneof_fields() {
    let bytes = [0x1a, 1, b'x'];
    assert!(!request_is_list_services(&bytes));
}

#[test]
fn encode_list_services_response_contains_both_service_names() {
    let bytes = encode_list_services_response(&known_services());
    let as_str = String::from_utf8_lossy(&bytes);
    assert!(as_str.contains("grpc.health.v1.Health"));
    assert!(as_str.contains("grpc.reflection.v1.ServerReflection"));
}

#[test]
fn health_response_decoding_reports_unsupported_fields() {
    assert_eq!(
        decode_health_check_response(&[0x10, 0x01]),
        Err("unsupported field in HealthCheckResponse: field 2, wire type 0".to_string())
    );
    assert_eq!(
        decode_health_check_response(&[0x80]),
        Err("malformed HealthCheckResponse: bad tag varint".to_string())
    );
    assert_eq!(decode_health_check_response(&[]), Ok(ServingStatus::Unknown));
}

#[test]
fn health_check_answers_known_unknown_and_overall_service() {
    let framed = encode_grpc_frame(&encode_health_check_request("grpc.health.v1.Health"));
    assert_eq!(health_check_reply(&framed).unwrap().as_ref(), &[0x08, 0x01]);
    let framed = encode_grpc_frame(&encode_health_check_request(""));
    assert!(health_check_reply(&framed).is_ok());
    let framed = encode_grpc_frame(&encode_health_check_request("nope"));
    assert_eq!(health_check_reply(&framed).err(), Some(GrpcStatus::NotFound));
    assert_eq!(health_check_reply(&[1, 0, 0, 0, 0]).err(), Some(GrpcStatus::Unimplemented));
}

#[test]
fn reflection_answers_list_services_only() {
    let framed = encode_grpc_frame(&[0x3a, 0x00]);
    assert_eq!(reflection_reply(&framed).unwrap(), encode_list_services_response(&known_services()));
    let framed = encode_grpc_frame(&[0x1a, 1, b'x']);
    assert_eq!(reflection_reply(&framed).err(), Some(GrpcStatus::Unimplemented));
}

#[test]
fn remote_health_outcome_maps_status_and_body() {
    let body = encode_grpc_frame(&encode_health_check_response(ServingStatus::Serving));
    assert_eq!(remote_health_outcome(Some("0"), &body), Ok(ServingStatus::Serving));
    assert_eq!(
        remote_health_outcome(Some("5"), &body),
        Err("remote service returned grpc-status 5".to_string())
    );
    assert_eq!(
        remote_health_outcome(None, &body),
        Err("remote service returned grpc-status 2".to_string())
    );
    assert_eq!(
        remote_health_outcome(Some("0"), &[0, 0]),
        Err("malformed gRPC response frame (status 3)".to_string())
    );
}

#[test]
fn status_codes_match_the_grpc_table() {
    assert_eq!(GrpcStatus::Success.code(), 0);
    assert_eq!(GrpcStatus::NotFound.code(), 5);
    assert_eq!(GrpcStatus::Unimplemented.code(), 12);
    assert_eq!(ServingStatus::NotServing.value(), 2);
}
