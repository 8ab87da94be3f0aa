//! The gRPC wire formats the health-check and reflection services speak:
//! the length-prefixed message envelope and the few Protocol Buffers
//! shapes (varints and length-delimited fields) of their messages.
use vstd::prelude::*;
use vstd::string::StringSliceAdditionalSpecFns;
use vstd::utf8::{encode_utf8, encode_utf8_valid_utf8, encode_utf8_decode_utf8};
use bytes::{Bytes, BytesMut};
use crate::buf::{
    bytes_view, bytes_mut_view, bytes_mut_new, bytes_mut_extend, bytes_mut_freeze,
    bytes_mut_as_slice, bytes_new,
};

verus! {

/// gRPC status codes used by these services.
#[derive(Debug, Clone, Copy, PartialEq, Eq, Structural)]
pub enum GrpcStatus {
    Success,
    Unknown,
    InvalidArgument,
    NotFound,
    Unimplemented,
    Internal,
}

impl GrpcStatus {
    pub open spec fn spec_code(self) -> u32 {
        match self {
            GrpcStatus::Success => 0,
            GrpcStatus::Unknown => 2,
            GrpcStatus::InvalidArgument => 3,
            GrpcStatus::NotFound => 5,
            GrpcStatus::Unimplemented => 12,
            GrpcStatus::Internal => 13,
        }
    }

    /// The numeric code sent in the `grpc-status` trailer.
    pub fn code(&self) -> (c: u32)
        ensures
            c == self.spec_code(),
    {
        match self {
            GrpcStatus::Success => 0,
            GrpcStatus::Unknown => 2,
            GrpcStatus::InvalidArgument => 3,
            GrpcStatus::NotFound => 5,
            GrpcStatus::Unimplemented => 12,
            GrpcStatus::Internal => 13,
        }
    }
}

/// `grpc.health.v1.HealthCheckResponse.ServingStatus`.
#[derive(Debug, Clone, Copy, PartialEq, Eq, Structural)]
pub enum ServingStatus {
    Unknown,
    Serving,
    NotServing,
}

impl ServingStatus {
    pub open spec fn spec_value(self) -> u64 {
        match self {
            ServingStatus::Unknown => 0,
            ServingStatus::Serving => 1,
            ServingStatus::NotServing => 2,
        }
    }

    /// The enum's number on the wire.
    pub fn value(&self) -> (v: u64)
        ensures
            v == self.spec_value(),
    {
        match self {
            ServingStatus::Unknown => 0,
            ServingStatus::Serving => 1,
            ServingStatus::NotServing => 2,
        }
    }
}

// ---------------------------------------------------------------------------
// Message envelope: one flag byte (0 = uncompressed), a big-endian u32
// length, then the message.
// ---------------------------------------------------------------------------

pub open spec fn be32(b0: u8, b1: u8, b2: u8, b3: u8) -> nat {
    (b0 as nat) * 16777216 + (b1 as nat) * 65536 + (b2 as nat) * 256 + (b3 as nat)
}

pub open spec fn be32_bytes(n: nat) -> Seq<u8> {
    seq![
        ((n / 16777216) % 256) as u8,
        ((n / 65536) % 256) as u8,
        ((n / 256) % 256) as u8,
        (n % 256) as u8,
    ]
}

/// The message inside a framed body: `InvalidArgument` for a body shorter
/// than the header or than its declared length, `Unimplemented` for a
/// compressed frame.
pub open spec fn frame_message(body: Seq<u8>) -> Result<Seq<u8>, GrpcStatus> {
    if body.len() < 5 {
        Err(GrpcStatus::InvalidArgument)
    } else if body[0] != 0 {
        Err(GrpcStatus::Unimplemented)
    } else {
        let n = be32(body[1], body[2], body[3], body[4]);
        if 5 + n > body.len() {
            Err(GrpcStatus::InvalidArgument)
        } else {
            Ok(body.subrange(5, 5 + n as int))
        }
    }
}

/// An uncompressed frame around `m`; the length field holds the length
/// modulo 2^32.
pub open spec fn frame(m: Seq<u8>) -> Seq<u8> {
    seq![0u8] + be32_bytes(m.len() % 4294967296) + m
}

/// Strips the frame header off `body` and returns the message.
pub fn decode_grpc_frame(body: &[u8]) -> (r: Result<&[u8], GrpcStatus>)
    ensures
        match frame_message(body@) {
            Ok(m) => r matches Ok(s) && s@ == m,
            Err(e) => r == Err::<&[u8], GrpcStatus>(e),
        },
{
    if body.len() < 5 {
        return Err(GrpcStatus::InvalidArgument);
    }
    if body[0] != 0 {
        return Err(GrpcStatus::Unimplemented);
    }
    let len: u64 = (body[1] as u64) * 16777216 + (body[2] as u64) * 65536 + (body[3] as u64) * 256
        + (body[4] as u64);
    if len > (body.len() - 5) as u64 {
        return Err(GrpcStatus::InvalidArgument);
    }
    let n = len as usize;
    Ok(vstd::slice::slice_subrange(body, 5, 5 + n))
}

/// Wraps `message` in an uncompressed frame.
pub fn encode_grpc_frame(message: &[u8]) -> (r: Bytes)
    ensures
        bytes_view(r) == frame(message@),
{
    let n: u64 = (message.len() as u64) % 4294967296;
    let header: [u8; 5] = [
        0u8,
        ((n / 16777216) % 256) as u8,
        ((n / 65536) % 256) as u8,
        ((n / 256) % 256) as u8,
        (n % 256) as u8,
    ];
    let mut out = bytes_mut_new();
    bytes_mut_extend(&mut out, header.as_slice());
    bytes_mut_extend(&mut out, message);
    assert(bytes_mut_view(out) =~= frame(message@));
    bytes_mut_freeze(out)
}

/// Unframing a frame gives back its message.
pub proof fn frame_round_trip(m: Seq<u8>)
    requires
        m.len() < 4294967296,
    ensures
        frame_message(frame(m)) == Ok::<Seq<u8>, GrpcStatus>(m),
{
    let f = frame(m);
    let n = m.len();
    assert(n % 4294967296 == n);
    assert(be32(f[1], f[2], f[3], f[4]) == n);
    assert(f.subrange(5, 5 + n as int) =~= m);
}

// ---------------------------------------------------------------------------
// Varints: seven bits per byte, least significant first, high bit set on
// every byte but the last.
// ---------------------------------------------------------------------------

pub open spec fn varint(v: nat) -> Seq<u8>
    decreases v,
{
    if v < 128 {
        seq![v as u8]
    } else {
        seq![((v % 128) + 128) as u8] + varint(v / 128)
    }
}

/// The number the low seven bits of each byte spell, least significant
/// first.
pub open spec fn varint_value(bs: Seq<u8>) -> nat
    decreases bs.len(),
{
    if bs.len() == 0 {
        0
    } else {
        (bs[0] % 128) as nat + 128 * varint_value(bs.drop_first())
    }
}

/// Index of the first byte at or after `i`, among the first ten, whose
/// high bit is clear.
pub open spec fn varint_end(bs: Seq<u8>, i: int) -> Option<int>
    decreases 10 - i,
{
    if i < 0 || i >= 10 || i >= bs.len() {
        None
    } else if bs[i] < 128 {
        Some(i)
    } else {
        varint_end(bs, i + 1)
    }
}

/// A varint at the start of `bs` (at most ten bytes; its value taken
/// modulo 2^64) and the bytes after it.
pub open spec fn read_varint(bs: Seq<u8>) -> Option<(u64, Seq<u8>)> {
    match varint_end(bs, 0) {
        Some(e) => Some(
            (
                (varint_value(bs.subrange(0, e + 1)) % 18446744073709551616) as u64,
                bs.subrange(e + 1, bs.len() as int),
            ),
        ),
        None => None,
    }
}

pub open spec fn pow128(n: nat) -> nat
    decreases n,
{
    if n == 0 {
        1
    } else {
        128 * pow128((n - 1) as nat)
    }
}

proof fn lemma_varint_value_push(bs: Seq<u8>, x: u8)
    ensures
        varint_value(bs.push(x)) == varint_value(bs) + (x % 128) as nat * pow128(bs.len()),
    decreases bs.len(),
{
    if bs.len() == 0 {
        assert(seq![x].drop_first() =~= Seq::<u8>::empty());
        assert(bs.push(x) =~= seq![x]);
        assert(varint_value(Seq::<u8>::empty()) == 0);
        assert(varint_value(seq![x]) == (x % 128) as nat + 128 * varint_value(Seq::<u8>::empty()));
        assert(pow128(0) == 1);
    } else {
        let d = bs.drop_first();
        lemma_varint_value_push(d, x);
        assert(bs.push(x).drop_first() =~= d.push(x));
        let a = varint_value(d);
        let c = (x % 128) as nat;
        let p = pow128(d.len());
        assert(pow128(bs.len()) == 128 * p);
        assert(bs.push(x)[0] == bs[0]);
        assert(varint_value(bs.push(x)) == (bs[0] % 128) as nat + 128 * varint_value(d.push(x)));
        assert(varint_value(bs) == (bs[0] % 128) as nat + 128 * a);
        assert(128 * (a + c * p) == 128 * a + c * (128 * p)) by (nonlinear_arith);
    }
}

/// Appends the varint encoding of `value`.
pub fn encode_varint(value: u64, out: &mut BytesMut)
    ensures
        bytes_mut_view(*final(out)) == bytes_mut_view(*old(out)) + varint(value as nat),
    decreases value,
{
    if value < 128 {
        let b: [u8; 1] = [value as u8];
        bytes_mut_extend(out, b.as_slice());
        assert(b@ =~= varint(value as nat));
    } else {
        let b: [u8; 1] = [((value % 128) + 128) as u8];
        bytes_mut_extend(out, b.as_slice());
        let ghost mid = bytes_mut_view(*out);
        encode_varint(value / 128, out);
        assert(bytes_mut_view(*out) =~= bytes_mut_view(*old(out)) + varint(value as nat));
    }
}

/// Reads a varint off the front of `buf`.
pub fn decode_varint(buf: &[u8]) -> (r: Option<(u64, &[u8])>)
    ensures
        match read_varint(buf@) {
            Some((v, rest)) => r matches Some((x, s)) && x == v && s@ == rest,
            None => r is None,
        },
{
    let mut value: u64 = 0;
    let mut weight: u64 = 1;
    let mut i: usize = 0;
    while i < 10 && i < buf.len()
        invariant
            i <= 10,
            i <= buf@.len(),
            varint_end(buf@, 0) == varint_end(buf@, i as int),
            i <= 9 ==> value == varint_value(buf@.subrange(0, i as int)),
            i <= 9 ==> weight == pow128(i as nat),
            i <= 9 ==> value < pow128(i as nat),
        decreases 10 - i,
    {
        let byte = buf[i];
        let ghost pre = buf@.subrange(0, i as int);
        proof {
            lemma_varint_value_push(pre, byte);
            assert(buf@.subrange(0, i + 1) =~= pre.push(byte));
            reveal_with_fuel(pow128, 10);
        }
        let low: u64 = (byte % 128) as u64;
        if i < 9 {
            assert(low * weight <= 127 * weight) by (nonlinear_arith)
                requires
                    low < 128,
                    weight > 0,
            ;
            assert(pow128((i + 1) as nat) == 128 * pow128(i as nat));
            assert(pow128(i as nat) <= pow128(8));
            value = value + low * weight;
            if byte < 128 {
                proof {
                    assert(varint_value(buf@.subrange(0, i + 1)) < 18446744073709551616);
                }
                return Some((value, vstd::slice::slice_subrange(buf, i + 1, buf.len())));
            }
            weight = weight * 128;
        } else {
            if byte < 128 {
                let v = value + ((byte % 2) as u64) * weight;
                proof {
                    let full = varint_value(buf@.subrange(0, i + 1));
                    let b = byte as int;
                    assert(full == value + (b % 128) * 9223372036854775808);
                    assert((value + (b % 128) * 9223372036854775808) % 18446744073709551616 == value + (b
                        % 2) * 9223372036854775808) by (nonlinear_arith)
                        requires
                            0 <= value < 9223372036854775808,
                            0 <= b < 256,
                    {
                        assert((b % 128) * 9223372036854775808 == (b % 2) * 9223372036854775808 + ((b
                            % 128) / 2) * 18446744073709551616);
                    }
                }
                return Some((v, vstd::slice::slice_subrange(buf, i + 1, buf.len())));
            }
        }
        i = i + 1;
    }
    None
}

proof fn lemma_varint_value_varint(v: nat)
    ensures
        varint_value(varint(v)) == v,
        varint(v).len() >= 1,
        varint(v)[varint(v).len() - 1] < 128,
        forall|j: int| 0 <= j < varint(v).len() - 1 ==> varint(v)[j] >= 128,
    decreases v,
{
    if v < 128 {
        assert(seq![v as u8].drop_first() =~= Seq::<u8>::empty());
        assert(varint_value(Seq::<u8>::empty()) == 0);
    } else {
        lemma_varint_value_varint(v / 128);
        let s = varint(v);
        assert(s.drop_first() =~= varint(v / 128));
        assert(s[0] == ((v % 128) + 128) as u8);
        assert((s[0] % 128) as nat == v % 128);
        assert(v % 128 + 128 * (v / 128) == v);
    }
}

proof fn lemma_varint_len(v: nat, k: nat)
    requires
        k >= 1,
        v < pow128(k),
    ensures
        varint(v).len() <= k,
    decreases k,
{
    if v >= 128 {
        assert(k >= 2) by {
            if k == 1 {
                assert(pow128(1) == 128) by {
                    reveal_with_fuel(pow128, 2);
                }
            }
        }
        assert(v / 128 < pow128((k - 1) as nat)) by (nonlinear_arith)
            requires
                v < pow128(k),
                pow128(k) == 128 * pow128((k - 1) as nat),
        ;
        lemma_varint_len(v / 128, (k - 1) as nat);
    }
}

proof fn lemma_varint_end_at(s: Seq<u8>, i: int, e: int)
    requires
        0 <= i <= e < 10,
        e < s.len(),
        s[e] < 128,
        forall|j: int| i <= j < e ==> s[j] >= 128,
    ensures
        varint_end(s, i) == Some(e),
    decreases e - i,
{
    if i < e {
        lemma_varint_end_at(s, i + 1, e);
    }
}

/// Reading a varint back gives the value written, and the bytes after it.
pub proof fn varint_round_trip(v: u64, rest: Seq<u8>)
    ensures
        read_varint(varint(v as nat) + rest) == Some((v, rest)),
{
    let s = varint(v as nat);
    let all = s + rest;
    lemma_varint_value_varint(v as nat);
    assert(pow128(10) == 1180591620717411303424nat) by {
        reveal_with_fuel(pow128, 11);
    }
    lemma_varint_len(v as nat, 10);
    lemma_varint_end_at(all, 0, s.len() - 1);
    assert(all.subrange(0, s.len() as int) =~= s);
    assert(all.subrange(s.len() as int, all.len() as int) =~= rest);
}

} // verus!

verus! {

proof fn lemma_varint_end_bound(bs: Seq<u8>, i: int)
    ensures
        varint_end(bs, i) matches Some(e) ==> i <= e < bs.len() && e < 10,
    decreases 10 - i,
{
    if 0 <= i < 10 && i < bs.len() && bs[i] >= 128 {
        lemma_varint_end_bound(bs, i + 1);
    }
}

/// What follows a varint is shorter than what held it.
pub proof fn lemma_read_varint_shorter(bs: Seq<u8>)
    ensures
        read_varint(bs) matches Some((_, rest)) ==> rest.len() < bs.len(),
{
    lemma_varint_end_bound(bs, 0);
}

// ---------------------------------------------------------------------------
// Protocol Buffers fields
// ---------------------------------------------------------------------------

/// A length-delimited field (wire type 2): tag, length, bytes.
pub open spec fn string_field(field: nat, value: Seq<u8>) -> Seq<u8> {
    varint(field * 8 + 2) + varint(value.len()) + value
}

/// Encodes a `string` field.
pub fn encode_string_field(field_number: u32, value: &str) -> (r: BytesMut)
    ensures
        bytes_mut_view(r) == string_field(field_number as nat, value.spec_bytes()),
{
    let mut out = bytes_mut_new();
    encode_varint((field_number as u64) * 8 + 2, &mut out);
    let b = value.as_bytes();
    encode_varint(b.len() as u64, &mut out);
    bytes_mut_extend(&mut out, b);
    assert(bytes_mut_view(out) =~= string_field(field_number as nat, value.spec_bytes()));
    out
}

/// Encodes an embedded message field (same framing as a string).
pub fn encode_embedded_message(field_number: u32, submessage: &[u8]) -> (r: BytesMut)
    ensures
        bytes_mut_view(r) == string_field(field_number as nat, submessage@),
{
    let mut out = bytes_mut_new();
    encode_varint((field_number as u64) * 8 + 2, &mut out);
    encode_varint(submessage.len() as u64, &mut out);
    bytes_mut_extend(&mut out, submessage);
    assert(bytes_mut_view(out) =~= string_field(field_number as nat, submessage@));
    out
}

/// Encodes a `string` field, frozen.
pub fn encode_string_field_bytes(field_number: u32, value: &str) -> (r: Bytes)
    ensures
        bytes_view(r) == string_field(field_number as nat, value.spec_bytes()),
{
    bytes_mut_freeze(encode_string_field(field_number, value))
}

/// Whether a `ServerReflectionRequest` sets field 7 (`list_services`) with
/// wire type 2. Varint fields and other length-delimited fields are
/// skipped; a malformed field or another wire type answers `false`.
pub open spec fn lists_services(buf: Seq<u8>) -> bool
    decreases buf.len(),
{
    if buf.len() == 0 {
        false
    } else {
        proof {
            lemma_read_varint_shorter(buf);
        }
        match read_varint(buf) {
            None => false,
            Some((tag, rest)) => {
                proof {
                    lemma_read_varint_shorter(rest);
                }
                if tag % 8 == 2 {
                    match read_varint(rest) {
                        None => false,
                        Some((len, r2)) => if r2.len() < len {
                            false
                        } else if tag / 8 == 7 {
                            true
                        } else {
                            lists_services(r2.subrange(len as int, r2.len() as int))
                        },
                    }
                } else if tag % 8 == 0 {
                    match read_varint(rest) {
                        None => false,
                        Some((_, r2)) => lists_services(r2),
                    }
                } else {
                    false
                }
            },
        }
    }
}

pub fn request_is_list_services(bytes: &[u8]) -> (r: bool)
    ensures
        r == lists_services(bytes@),
{
    let mut buf = bytes;
    while buf.len() > 0
        invariant
            lists_services(bytes@) == lists_services(buf@),
        decreases buf@.len(),
    {
        proof {
            lemma_read_varint_shorter(buf@);
        }
        let (tag, rest) = match decode_varint(buf) {
            Some(p) => p,
            None => return false,
        };
        proof {
            lemma_read_varint_shorter(rest@);
        }
        let wire_type = tag % 8;
        if wire_type == 2 {
            let (len, rest2) = match decode_varint(rest) {
                Some(p) => p,
                None => return false,
            };
            if (rest2.len() as u64) < len {
                return false;
            }
            if tag / 8 == 7 {
                return true;
            }
            buf = vstd::slice::slice_subrange(rest2, len as usize, rest2.len());
        } else if wire_type == 0 {
            let (_, rest2) = match decode_varint(rest) {
                Some(p) => p,
                None => return false,
            };
            buf = rest2;
        } else {
            return false;
        }
    }
    false
}

/// Each name as a `ServiceResponse { string name = 1; }` in field 1.
pub open spec fn service_entries(names: Seq<&str>) -> Seq<u8>
    decreases names.len(),
{
    if names.len() == 0 {
        Seq::empty()
    } else {
        service_entries(names.drop_last()) + string_field(1, string_field(1, names.last().spec_bytes()))
    }
}

/// `ServerReflectionResponse` answering `list_services`: field 6 holding a
/// `ListServiceResponse` with one entry per name.
pub open spec fn list_services_response(names: Seq<&str>) -> Seq<u8> {
    string_field(6, service_entries(names))
}

pub fn encode_list_services_response(service_names: &[&str]) -> (r: Bytes)
    ensures
        bytes_view(r) == list_services_response(service_names@),
{
    let mut list_response = bytes_mut_new();
    let mut i: usize = 0;
    while i < service_names.len()
        invariant
            i <= service_names@.len(),
            bytes_mut_view(list_response) == service_entries(service_names@.subrange(0, i as int)),
        decreases service_names@.len() - i,
    {
        let service_response = encode_string_field(1, service_names[i]);
        let entry = encode_embedded_message(1, bytes_mut_as_slice(&service_response));
        bytes_mut_extend(&mut list_response, bytes_mut_as_slice(&entry));
        assert(service_names@.subrange(0, i + 1).drop_last() =~= service_names@.subrange(0, i as int));
        i = i + 1;
    }
    assert(service_names@.subrange(0, service_names@.len() as int) =~= service_names@);
    let response = encode_embedded_message(6, bytes_mut_as_slice(&list_response));
    bytes_mut_freeze(response)
}

// ---------------------------------------------------------------------------
// grpc.health.v1 messages
// ---------------------------------------------------------------------------

/// `HealthCheckRequest { string service = 1; }`.
pub struct HealthCheckRequest {
    pub service: String,
}

/// The `service` a `HealthCheckRequest` names, reading fields from `buf`
/// with `service` the value so far: field 1 (length-delimited) sets it
/// (decoded leniently), other varint and length-delimited fields are
/// skipped, anything else is `InvalidArgument`.
pub open spec fn health_service(buf: Seq<u8>, service: Seq<char>) -> Result<Seq<char>, GrpcStatus>
    decreases buf.len(),
{
    if buf.len() == 0 {
        Ok(service)
    } else {
        proof {
            lemma_read_varint_shorter(buf);
        }
        match read_varint(buf) {
            None => Err(GrpcStatus::InvalidArgument),
            Some((tag, rest)) => {
                proof {
                    lemma_read_varint_shorter(rest);
                }
                if tag % 8 == 2 {
                    match read_varint(rest) {
                        None => Err(GrpcStatus::InvalidArgument),
                        Some((len, r2)) => if r2.len() < len {
                            Err(GrpcStatus::InvalidArgument)
                        } else if tag / 8 == 1 {
                            health_service(
                                r2.subrange(len as int, r2.len() as int),
                                crate::text::lossy_text(r2.subrange(0, len as int)),
                            )
                        } else {
                            health_service(r2.subrange(len as int, r2.len() as int), service)
                        },
                    }
                } else if tag % 8 == 0 {
                    match read_varint(rest) {
                        None => Err(GrpcStatus::InvalidArgument),
                        Some((_, r2)) => health_service(r2, service),
                    }
                } else {
                    Err(GrpcStatus::InvalidArgument)
                }
            },
        }
    }
}

pub fn decode_health_check_request(bytes: &[u8]) -> (r: Result<HealthCheckRequest, GrpcStatus>)
    ensures
        match health_service(bytes@, Seq::empty()) {
            Ok(s) => r matches Ok(req) && req.service@ == s,
            Err(e) => r matches Err(x) && x == e,
        },
{
    let mut service = String::new();
    let mut buf = bytes;
    while buf.len() > 0
        invariant
            health_service(bytes@, Seq::empty()) == health_service(buf@, service@),
        decreases buf@.len(),
    {
        proof {
            lemma_read_varint_shorter(buf@);
        }
        let (tag, rest) = match decode_varint(buf) {
            Some(p) => p,
            None => return Err(GrpcStatus::InvalidArgument),
        };
        proof {
            lemma_read_varint_shorter(rest@);
        }
        let wire_type = tag % 8;
        if wire_type == 2 {
            let (len, rest2) = match decode_varint(rest) {
                Some(p) => p,
                None => return Err(GrpcStatus::InvalidArgument),
            };
            if (rest2.len() as u64) < len {
                return Err(GrpcStatus::InvalidArgument);
            }
            let n = len as usize;
            if tag / 8 == 1 {
                service = crate::text::string_from_utf8_lossy(vstd::slice::slice_subrange(rest2, 0, n));
            }
            buf = vstd::slice::slice_subrange(rest2, n, rest2.len());
        } else if wire_type == 0 {
            let (_, rest2) = match decode_varint(rest) {
                Some(p) => p,
                None => return Err(GrpcStatus::InvalidArgument),
            };
            buf = rest2;
        } else {
            return Err(GrpcStatus::InvalidArgument);
        }
    }
    Ok(HealthCheckRequest { service })
}

/// `HealthCheckResponse { ServingStatus status = 1; }`: tag 0x08 and the
/// status as a varint.
pub open spec fn health_response(status: ServingStatus) -> Seq<u8> {
    varint(8) + varint(status.spec_value() as nat)
}

pub fn encode_health_check_response(status: ServingStatus) -> (r: Bytes)
    ensures
        bytes_view(r) == health_response(status),
{
    let mut out = bytes_mut_new();
    encode_varint(8, &mut out);
    encode_varint(status.value(), &mut out);
    assert(bytes_mut_view(out) =~= health_response(status));
    bytes_mut_freeze(out)
}

/// `HealthCheckRequest` naming `service`: no bytes at all for an empty
/// name, else field 1.
pub open spec fn health_request(service: &str) -> Seq<u8> {
    if service@.len() == 0 {
        Seq::empty()
    } else {
        string_field(1, service.spec_bytes())
    }
}

pub fn encode_health_check_request(service: &str) -> (r: Bytes)
    ensures
        bytes_view(r) == health_request(service),
{
    if service.is_empty() {
        return bytes_new();
    }
    encode_string_field_bytes(1, service)
}

pub open spec fn status_of(v: u64) -> ServingStatus {
    if v == 1 {
        ServingStatus::Serving
    } else if v == 2 {
        ServingStatus::NotServing
    } else {
        ServingStatus::Unknown
    }
}

pub open spec fn unsupported_field_message(field: u64, wire_type: u64) -> Seq<char> {
    "unsupported field in HealthCheckResponse: field "@ + crate::text::u64_chars(field) + ", wire type "@
        + crate::text::u64_chars(wire_type)
}

/// The status a `HealthCheckResponse` reports, reading fields from `buf`
/// with `status` the value so far (absent means `Unknown`); any field but
/// a varint field 1 is an error.
pub open spec fn health_status(buf: Seq<u8>, status: ServingStatus) -> Result<ServingStatus, Seq<char>>
    decreases buf.len(),
{
    if buf.len() == 0 {
        Ok(status)
    } else {
        proof {
            lemma_read_varint_shorter(buf);
        }
        match read_varint(buf) {
            None => Err("malformed HealthCheckResponse: bad tag varint"@),
            Some((tag, rest)) => {
                proof {
                    lemma_read_varint_shorter(rest);
                }
                if tag / 8 == 1 && tag % 8 == 0 {
                    match read_varint(rest) {
                        None => Err("malformed HealthCheckResponse: bad status varint"@),
                        Some((v, r2)) => health_status(r2, status_of(v)),
                    }
                } else {
                    Err(unsupported_field_message(tag / 8, tag % 8))
                }
            },
        }
    }
}

pub fn decode_health_check_response(bytes: &[u8]) -> (r: Result<ServingStatus, String>)
    ensures
        match health_status(bytes@, ServingStatus::Unknown) {
            Ok(s) => r == Ok::<ServingStatus, String>(s),
            Err(m) => r matches Err(x) && x@ == m,
        },
{
    let mut status = ServingStatus::Unknown;
    let mut buf = bytes;
    while buf.len() > 0
        invariant
            health_status(bytes@, ServingStatus::Unknown) == health_status(buf@, status),
        decreases buf@.len(),
    {
        proof {
            lemma_read_varint_shorter(buf@);
        }
        let (tag, rest) = match decode_varint(buf) {
            Some(p) => p,
            None => return Err("malformed HealthCheckResponse: bad tag varint".to_owned()),
        };
        proof {
            lemma_read_varint_shorter(rest@);
        }
        let field_number = tag / 8;
        let wire_type = tag % 8;
        if field_number == 1 && wire_type == 0 {
            let (value, rest2) = match decode_varint(rest) {
                Some(p) => p,
                None => return Err("malformed HealthCheckResponse: bad status varint".to_owned()),
            };
            status = if value == 1 {
                ServingStatus::Serving
            } else if value == 2 {
                ServingStatus::NotServing
            } else {
                ServingStatus::Unknown
            };
            buf = rest2;
        } else {
            let mut m = "unsupported field in HealthCheckResponse: field ".to_owned();
            crate::text::write_u64(field_number, &mut m);
            m.append(", wire type ");
            crate::text::write_u64(wire_type, &mut m);
            return Err(m);
        }
    }
    Ok(status)
}

// ---------------------------------------------------------------------------
// The services' answers
// ---------------------------------------------------------------------------

/// The services this server exposes.
pub fn known_services() -> (r: [&'static str; 2])
    ensures
        r@ == seq!["grpc.health.v1.Health", "grpc.reflection.v1.ServerReflection"],
        r@.map_values(|n: &str| n@) == exposed_services(),
{
    ["grpc.health.v1.Health", "grpc.reflection.v1.ServerReflection"]
}

/// The services this server exposes, as [`known_services`] lists them.
pub open spec fn exposed_services() -> Seq<Seq<char>> {
    seq!["grpc.health.v1.Health"@, "grpc.reflection.v1.ServerReflection"@]
}

pub open spec fn is_known_service(s: Seq<char>) -> bool {
    s == "grpc.health.v1.Health"@ || s == "grpc.reflection.v1.ServerReflection"@
}

/// The answer to a framed `Health/Check` (or `Watch`) request body: the
/// frame's error, `InvalidArgument` for an undecodable request, `NotFound`
/// for a named service this server does not expose, else `SERVING`.
pub open spec fn health_check_answer(body: Seq<u8>) -> Result<Seq<u8>, GrpcStatus> {
    match frame_message(body) {
        Err(e) => Err(e),
        Ok(m) => match health_service(m, Seq::empty()) {
            Err(_) => Err(GrpcStatus::InvalidArgument),
            Ok(s) => if s.len() > 0 && !is_known_service(s) {
                Err(GrpcStatus::NotFound)
            } else {
                Ok(health_response(ServingStatus::Serving))
            },
        },
    }
}

pub fn health_check_reply(body: &[u8]) -> (r: Result<Bytes, GrpcStatus>)
    ensures
        match health_check_answer(body@) {
            Ok(m) => r matches Ok(b) && bytes_view(b) == m,
            Err(e) => r matches Err(x) && x == e,
        },
{
    let message = match decode_grpc_frame(body) {
        Ok(m) => m,
        Err(status) => return Err(status),
    };
    let request = match decode_health_check_request(message) {
        Ok(r) => r,
        Err(_) => return Err(GrpcStatus::InvalidArgument),
    };
    if !request.service.as_str().is_empty() {
        let known = request.service == "grpc.health.v1.Health".to_owned() || request.service
            == "grpc.reflection.v1.ServerReflection".to_owned();
        if !known {
            return Err(GrpcStatus::NotFound);
        }
    }
    Ok(encode_health_check_response(ServingStatus::Serving))
}

/// The answer to a framed reflection request body: the frame's error,
/// `Unimplemented` unless it asks to list services, else the list.
pub open spec fn reflection_answer(body: Seq<u8>) -> Result<Seq<u8>, GrpcStatus> {
    match frame_message(body) {
        Err(e) => Err(e),
        Ok(m) => if lists_services(m) {
            Ok(list_services_response(seq!["grpc.health.v1.Health", "grpc.reflection.v1.ServerReflection"]))
        } else {
            Err(GrpcStatus::Unimplemented)
        },
    }
}

pub fn reflection_reply(body: &[u8]) -> (r: Result<Bytes, GrpcStatus>)
    ensures
        match reflection_answer(body@) {
            Ok(m) => r matches Ok(b) && bytes_view(b) == m,
            Err(e) => r matches Err(x) && x == e,
        },
{
    let message = match decode_grpc_frame(body) {
        Ok(m) => m,
        Err(status) => return Err(status),
    };
    if !request_is_list_services(message) {
        return Err(GrpcStatus::Unimplemented);
    }
    let names = known_services();
    Ok(encode_list_services_response(names.as_slice()))
}

} // verus!

verus! {

/// Decoding an encoded `HealthCheckResponse` gives back its status.
pub proof fn health_response_round_trip(status: ServingStatus)
    ensures
        health_status(health_response(status), ServingStatus::Unknown) == Ok::<ServingStatus, Seq<char>>(status),
{
    let v = status.spec_value();
    let bs = health_response(status);
    varint_round_trip(8, varint(v as nat));
    varint_round_trip(v, Seq::empty());
    assert(varint(8) == seq![8u8]);
    assert(varint(v as nat) + Seq::<u8>::empty() =~= varint(v as nat));
    let (tag, rest) = read_varint(bs)->0;
    assert(rest == varint(v as nat));
    assert(read_varint(rest) == Some((v, Seq::<u8>::empty())));
    assert(health_status(Seq::<u8>::empty(), status_of(v)) == Ok::<ServingStatus, Seq<char>>(status_of(v)));
}

/// A request whose only field is the service name reads as that name.
proof fn lemma_health_service_of_name(v: Seq<u8>)
    requires
        v.len() < 18446744073709551616,
    ensures
        health_service(string_field(1, v), Seq::empty()) == Ok::<Seq<char>, GrpcStatus>(
            crate::text::lossy_text(v),
        ),
{
    let m = string_field(1, v);
    let rest = varint(v.len()) + v;
    varint_round_trip(10, rest);
    varint_round_trip(v.len() as u64, v);
    assert(m =~= varint(10) + rest);
    assert(varint(v.len()) + v =~= varint((v.len() as u64) as nat) + v);
    assert(read_varint(m) == Some((10u64, rest)));
    assert(read_varint(rest) == Some((v.len() as u64, v)));
    assert(v.subrange(0, v.len() as int) =~= v);
    assert(v.subrange(v.len() as int, v.len() as int) =~= Seq::<u8>::empty());
    assert(health_service(Seq::<u8>::empty(), crate::text::lossy_text(v)) == Ok::<Seq<char>, GrpcStatus>(
        crate::text::lossy_text(v),
    ));
}

proof fn lemma_answer_for_name(name: Seq<char>)
    requires
        string_field(1, encode_utf8(name)).len() < 4294967296,
        name.len() > 0,
    ensures
        health_check_answer(frame(string_field(1, encode_utf8(name)))) == if is_known_service(name) {
            Ok::<Seq<u8>, GrpcStatus>(health_response(ServingStatus::Serving))
        } else {
            Err(GrpcStatus::NotFound)
        },
{
    let v = encode_utf8(name);
    encode_utf8_valid_utf8(name);
    encode_utf8_decode_utf8(name);
    let m = string_field(1, v);
    frame_round_trip(m);
    lemma_health_service_of_name(v);
    assert(crate::text::lossy_text(v) == name);
}

proof fn lemma_exposed(name: Seq<char>)
    ensures
        exposed_services().contains(name) == is_known_service(name),
{
    if is_known_service(name) {
        if name == "grpc.health.v1.Health"@ {
            assert(exposed_services()[0] == name);
        } else {
            assert(exposed_services()[1] == name);
        }
    }
}

/// A framed `Health/Check` request naming `name` is answered `SERVING`
/// exactly when the server exposes a service of that name (one that
/// [`known_services`] lists), and `NotFound` otherwise; a request naming no
/// service (an empty message) is answered `SERVING`.
pub proof fn health_check_serves_exactly_the_known_services(name: Seq<char>)
    requires
        string_field(1, encode_utf8(name)).len() < 4294967296,
    ensures
        health_check_answer(frame(Seq::empty())) == Ok::<Seq<u8>, GrpcStatus>(
            health_response(ServingStatus::Serving),
        ),
        name.len() > 0 ==> health_check_answer(frame(string_field(1, encode_utf8(name)))) == if exposed_services().contains(
            name,
        ) {
            Ok::<Seq<u8>, GrpcStatus>(health_response(ServingStatus::Serving))
        } else {
            Err(GrpcStatus::NotFound)
        },
{
    assert(health_check_answer(frame(Seq::empty())) == Ok::<Seq<u8>, GrpcStatus>(
        health_response(ServingStatus::Serving),
    )) by {
        frame_round_trip(Seq::empty());
        assert(health_service(Seq::<u8>::empty(), Seq::empty()) == Ok::<Seq<char>, GrpcStatus>(Seq::empty()));
    }
    lemma_exposed(name);
    if name.len() > 0 {
        lemma_answer_for_name(name);
    }
}

/// A request whose first field is a well-formed field 7 asks to list
/// services, whatever follows.
pub proof fn list_services_detected(value: Seq<u8>, rest: Seq<u8>)
    requires
        value.len() < 18446744073709551616,
    ensures
        lists_services(string_field(7, value) + rest),
{
    let bs = string_field(7, value) + rest;
    varint_round_trip(58, varint(value.len()) + value + rest);
    varint_round_trip(value.len() as u64, value + rest);
    assert(bs =~= varint(58) + (varint(value.len()) + value + rest));
    assert(varint(value.len()) + value + rest =~= varint((value.len() as u64) as nat) + (value + rest));
}

} // verus!

verus! {

/// The number the decimal digits `s` spell.
pub open spec fn digits_value(s: Seq<char>) -> nat
    decreases s.len(),
{
    if s.len() == 0 {
        0
    } else {
        digits_value(s.drop_last()) * 10 + (s.last() as nat - 0x30) as nat
    }
}

pub open spec fn all_digits(s: Seq<char>) -> bool {
    s.len() > 0 && forall|i: int| 0 <= i < s.len() ==> '0' <= #[trigger] s[i] <= '9'
}

/// What `i32::from_str` accepts: an optional sign and one or more decimal
/// digits whose value fits.
pub open spec fn decimal_i32(s: Seq<char>) -> Option<i32> {
    let neg = s.len() > 0 && s[0] == '-';
    let body = if s.len() > 0 && (s[0] == '-' || s[0] == '+') {
        s.drop_first()
    } else {
        s
    };
    let v: int = if neg {
        0 - digits_value(body)
    } else {
        digits_value(body) as int
    };
    if all_digits(body) && i32::MIN <= v <= i32::MAX {
        Some(v as i32)
    } else {
        None
    }
}

/// `str::parse::<i32>`: succeeds exactly on an optional `+`/`-` followed
/// by decimal digits whose value is in range.
#[verifier::external_body]
fn parse_i32(s: &str) -> (r: Option<i32>)
    ensures
        r == decimal_i32(s@),
{
    s.parse().ok()
}

/// The outcome of a remote `Health/Check` call, from the `grpc-status`
/// trailer's text (a missing or unparsable trailer counts as `UNKNOWN`,
/// 2) and the response body: an error naming the status unless it is 0,
/// an error naming the frame's status for a malformed frame, else the
/// decoded response.
pub open spec fn remote_health(status_text: Option<Seq<char>>, body: Seq<u8>) -> Result<ServingStatus, Seq<char>> {
    let code: i32 = match status_text {
        Some(t) => match decimal_i32(t) {
            Some(v) => v,
            None => 2,
        },
        None => 2,
    };
    if code != 0 {
        Err("remote service returned grpc-status "@ + crate::rustjson::int_chars(code as int))
    } else {
        match frame_message(body) {
            Err(e) => Err("malformed gRPC response frame (status "@ + crate::rustjson::int_chars(
                e.spec_code() as int,
            ) + ")"@),
            Ok(m) => health_status(m, ServingStatus::Unknown),
        }
    }
}

pub fn remote_health_outcome(status_text: Option<&str>, body: &[u8]) -> (r: Result<ServingStatus, String>)
    ensures
        match remote_health(
            match status_text {
                Some(t) => Some(t@),
                None => None,
            },
            body@,
        ) {
            Ok(s) => r == Ok::<ServingStatus, String>(s),
            Err(m) => r matches Err(x) && x@ == m,
        },
{
    let code: i32 = match status_text {
        Some(t) => match parse_i32(t) {
            Some(v) => v,
            None => 2,
        },
        None => 2,
    };
    if code != 0 {
        let mut m = "remote service returned grpc-status ".to_owned();
        crate::rustjson::write_int(code as i64, &mut m);
        return Err(m);
    }
    match decode_grpc_frame(body) {
        Err(e) => {
            let mut m = "malformed gRPC response frame (status ".to_owned();
            crate::rustjson::write_int(e.code() as i64, &mut m);
            m.append(")");
            Err(m)
        },
        Ok(message) => decode_health_check_response(message),
    }
}

} // verus!
