//! WebSocket framing (RFC 6455): reading and writing frames, and the
//! receiving side's decisions (answer pings, echo a close, reassemble
//! fragmented messages).
use vstd::prelude::*;
use crate::text::{utf8_lossy, string_from_utf8_lossy};

verus! {

pub const OP_CONTINUATION: u8 = 0x0;
pub const OP_TEXT: u8 = 0x1;
pub const OP_BINARY: u8 = 0x2;
pub const OP_CLOSE: u8 = 0x8;
pub const OP_PING: u8 = 0x9;
pub const OP_PONG: u8 = 0xA;

/// One message delivered to the application.
#[derive(Debug, Clone, PartialEq, Eq)]
pub enum WsMessage {
    Text(String),
    Binary(Vec<u8>),
}

/// One frame as read off the wire, payload unmasked.
pub struct RawFrame {
    pub fin: bool,
    pub opcode: u8,
    pub payload: Vec<u8>,
}

/// Big-endian value of `b`.
pub open spec fn be_value(b: Seq<u8>) -> nat
    decreases b.len(),
{
    if b.len() == 0 {
        0
    } else {
        be_value(b.drop_last()) * 256 + b.last() as nat
    }
}

/// `n` as `k` big-endian bytes (modulo 256^k).
pub open spec fn be_bytes(n: nat, k: nat) -> Seq<u8>
    decreases k,
{
    if k == 0 {
        Seq::empty()
    } else {
        be_bytes(n / 256, (k - 1) as nat).push((n % 256) as u8)
    }
}

/// A server frame: FIN set, never masked, the length in 7 bits, or 16 or
/// 64 bits after a marker.
pub open spec fn frame_bytes(opcode: u8, payload: Seq<u8>) -> Seq<u8> {
    let n = payload.len();
    seq![0x80u8 | opcode] + (if n < 126 {
        seq![n as u8]
    } else if n <= 65535 {
        seq![126u8] + be_bytes(n, 2)
    } else {
        seq![127u8] + be_bytes(n, 8)
    }) + payload
}

fn push_be(out: &mut Vec<u8>, n: u64, k: usize)
    requires
        k <= 8,
    ensures
        final(out)@ == old(out)@ + be_bytes(n as nat, k as nat),
    decreases k,
{
    if k > 0 {
        push_be(out, n / 256, k - 1);
        out.push((n % 256) as u8);
    }
}

/// The bytes of a frame carrying `payload` (see [`frame_bytes`]).
pub fn encode_frame(opcode: u8, payload: &[u8]) -> (r: Vec<u8>)
    ensures
        r@ == frame_bytes(opcode, payload@),
{
    let mut buf: Vec<u8> = Vec::new();
    buf.push(0x80 | opcode);
    let len = payload.len();
    if len < 126 {
        buf.push(len as u8);
    } else if len <= 65535 {
        buf.push(126);
        push_be(&mut buf, len as u64, 2);
    } else {
        buf.push(127);
        push_be(&mut buf, len as u64, 8);
    }
    let mut i: usize = 0;
    let ghost head = buf@;
    while i < payload.len()
        invariant
            i <= payload@.len(),
            buf@ == head + payload@.subrange(0, i as int),
        decreases payload@.len() - i,
    {
        buf.push(payload[i]);
        i = i + 1;
        assert(buf@ =~= head + payload@.subrange(0, i as int));
    }
    assert(payload@.subrange(0, payload@.len() as int) =~= payload@);
    assert(buf@ =~= frame_bytes(opcode, payload@));
    buf
}

/// The payload length a frame header declares, and where the payload
/// starts (after the 16- or 64-bit length and the mask, when present);
/// `None` if `b` is too short to hold all that.
pub open spec fn frame_layout(b: Seq<u8>) -> Option<(nat, int)> {
    if b.len() < 2 {
        None
    } else {
        let len7 = b[1] % 128;
        let masked = b[1] >= 128;
        let ext: int = if len7 == 126 {
            2
        } else if len7 == 127 {
            8
        } else {
            0
        };
        let mask_len: int = if masked {
            4
        } else {
            0
        };
        if b.len() < 2 + ext + mask_len {
            None
        } else {
            let n: nat = if ext == 0 {
                len7 as nat
            } else {
                be_value(b.subrange(2, 2 + ext))
            };
            Some((n, 2 + ext + mask_len))
        }
    }
}

/// The payload of a frame unmasked: each byte XORed with the mask byte at
/// its position modulo 4.
pub open spec fn unmasked(p: Seq<u8>, mask: Seq<u8>) -> Seq<u8> {
    Seq::new(p.len(), |i: int| p[i] ^ mask[i % 4])
}

/// Reading a frame from the start of `b`: `Err(k)` when at least `k`
/// bytes are needed in all, else the frame (its payload unmasked) and the
/// number of bytes it took.
pub open spec fn read_frame_spec(b: Seq<u8>) -> Result<(bool, u8, Seq<u8>, int), int> {
    if b.len() < 2 {
        Err(2)
    } else {
        match frame_layout(b) {
            None => {
                let len7 = b[1] % 128;
                let ext: int = if len7 == 126 {
                    2
                } else if len7 == 127 {
                    8
                } else {
                    0
                };
                Err(2 + ext + if b[1] >= 128 {
                    4int
                } else {
                    0int
                })
            },
            Some((n, start)) => if b.len() < start + n {
                Err(start + n)
            } else {
                let raw = b.subrange(start, start + n);
                let payload = if b[1] >= 128 {
                    unmasked(raw, b.subrange(start - 4, start))
                } else {
                    raw
                };
                Ok((b[0] >= 128, b[0] % 16, payload, start + n))
            },
        }
    }
}

fn be_value_of(b: &[u8], s: usize, e: usize) -> (r: u64)
    requires
        s <= e <= b@.len(),
        e - s <= 8,
    ensures
        r == be_value(b@.subrange(s as int, e as int)),
{
    let mut v: u64 = 0;
    let mut i = s;
    assert(b@.subrange(s as int, s as int) =~= Seq::<u8>::empty());
    while i < e
        invariant
            s <= i <= e <= b@.len(),
            e - s <= 8,
            v == be_value(b@.subrange(s as int, i as int)),
            v < pow256((i - s) as nat),
        decreases e - i,
    {
        assert(b@.subrange(s as int, i + 1).drop_last() =~= b@.subrange(s as int, i as int));
        proof {
            reveal_with_fuel(pow256, 9);
            assert(pow256((i - s) as nat) <= pow256(7)) by {
                lemma_pow256_mono((i - s) as nat, 7);
            }
            assert(pow256(7) == 72057594037927936);
            assert(v * 256 + 255 < pow256((i + 1 - s) as nat)) by (nonlinear_arith)
                requires
                    v < pow256((i - s) as nat),
                    pow256((i + 1 - s) as nat) == 256 * pow256((i - s) as nat),
            ;
        }
        v = v * 256 + b[i] as u64;
        i = i + 1;
    }
    v
}

pub open spec fn pow256(n: nat) -> nat
    decreases n,
{
    if n == 0 {
        1
    } else {
        256 * pow256((n - 1) as nat)
    }
}

proof fn lemma_pow256_mono(a: nat, b: nat)
    requires
        a <= b,
    ensures
        pow256(a) <= pow256(b),
    decreases b,
{
    if a < b {
        lemma_pow256_mono(a, (b - 1) as nat);
    }
}

/// What reading a frame off `buf` gives.
pub enum FrameRead {
    /// At least this many bytes (from the frame's start) are needed.
    NeedBytes(usize),
    /// The frame, and how many bytes it took.
    Frame(RawFrame, usize),
    /// The header announces a frame longer than memory can hold.
    TooLong,
}

/// Reads one frame from the start of `buf` (see [`read_frame_spec`]); a
/// header whose frame would end past `usize::MAX` bytes gives `TooLong`.
pub fn read_frame(buf: &[u8]) -> (r: FrameRead)
    ensures
        match frame_layout(buf@) {
            Some((n, start)) => start + n > usize::MAX,
            None => false,
        } ==> r is TooLong,
        match frame_layout(buf@) {
            Some((n, start)) => start + n <= usize::MAX,
            None => true,
        } ==> match read_frame_spec(buf@) {
            Err(k) => r matches FrameRead::NeedBytes(x) && x == k,
            Ok((fin, op, p, used)) => r matches FrameRead::Frame(f, u) && f.fin == fin && f.opcode == op
                && f.payload@ == p && u == used,
        },
{
    if buf.len() < 2 {
        return FrameRead::NeedBytes(2);
    }
    let b0 = buf[0];
    let b1 = buf[1];
    let len7 = b1 % 128;
    let masked = b1 >= 128;
    let ext: usize = if len7 == 126 {
        2
    } else if len7 == 127 {
        8
    } else {
        0
    };
    let mask_len: usize = if masked {
        4
    } else {
        0
    };
    if buf.len() < 2 + ext + mask_len {
        return FrameRead::NeedBytes(2 + ext + mask_len);
    }
    let n: u64 = if ext == 0 {
        len7 as u64
    } else {
        be_value_of(buf, 2, 2 + ext)
    };
    let start = 2 + ext + mask_len;
    if n > (usize::MAX - start) as u64 {
        return FrameRead::TooLong;
    }
    let n = n as usize;
    if buf.len() - start < n {
        return FrameRead::NeedBytes(start + n);
    }
    let mut payload: Vec<u8> = Vec::new();
    let mut i: usize = 0;
    while i < n
        invariant
            i <= n,
            start + n <= buf@.len(),
            start + n <= usize::MAX,
            start >= 2,
            masked ==> start >= 6,
            masked == (buf@[1] >= 128),
            payload@.len() == i,
            forall|j: int|
                0 <= j < i ==> #[trigger] payload@[j] == if masked {
                    buf@[start + j] ^ buf@[start - 4 + (j % 4)]
                } else {
                    buf@[start + j]
                },
        decreases n - i,
    {
        assert(start + i < start + n);
        let x = buf[start + i];
        let y = if masked {
            x ^ buf[start - 4 + i % 4]
        } else {
            x
        };
        payload.push(y);
        i = i + 1;
    }
    proof {
        let raw = buf@.subrange(start as int, start + n);
        if masked {
            assert(payload@ =~= unmasked(raw, buf@.subrange(start - 4, start as int)));
        } else {
            assert(payload@ =~= raw);
        }
    }
    FrameRead::Frame(RawFrame { fin: b0 >= 128, opcode: b0 % 16, payload }, start + n)
}

proof fn lemma_be_round(n: nat, k: nat)
    requires
        n < pow256(k),
    ensures
        be_bytes(n, k).len() == k,
        be_value(be_bytes(n, k)) == n,
    decreases k,
{
    if k > 0 {
        let q = n / 256;
        assert(q < pow256((k - 1) as nat)) by (nonlinear_arith)
            requires
                n < pow256(k),
                pow256(k) == 256 * pow256((k - 1) as nat),
                q == n / 256,
        ;
        lemma_be_round(q, (k - 1) as nat);
        let b = be_bytes(n, k);
        assert(b.drop_last() =~= be_bytes(q, (k - 1) as nat));
        assert(q * 256 + n % 256 == n) by (nonlinear_arith)
            requires
                q == n / 256,
        ;
    }
}

/// What a server frame carries is what the reader gives back: reading the
/// bytes of a frame with opcode `opcode` and payload `payload` (followed by
/// anything) yields a final frame with that opcode and payload, and
/// consumes exactly the frame's bytes.
pub proof fn frame_bytes_read_back(opcode: u8, payload: Seq<u8>, rest: Seq<u8>)
    requires
        opcode < 16,
        payload.len() < pow256(8),
    ensures
        read_frame_spec(frame_bytes(opcode, payload) + rest) == Ok::<(bool, u8, Seq<u8>, int), int>(
            (true, opcode, payload, frame_bytes(opcode, payload).len() as int),
        ),
{
    let n = payload.len();
    let head = 0x80u8 | opcode;
    assert(head >= 128 && head % 16 == opcode) by (bit_vector)
        requires
            head == 0x80u8 | opcode,
            opcode < 16,
    ;
    let f = frame_bytes(opcode, payload);
    let b = f + rest;
    reveal_with_fuel(pow256, 9);
    if n < 126 {
        assert(f =~= seq![head] + seq![n as u8] + payload);
        assert(b[1] == n as u8);
        assert(frame_layout(b) == Some((n, 2int)));
        assert(b.subrange(2, 2 + n as int) =~= payload);
    } else if n <= 65535 {
        lemma_be_round(n, 2);
        let len = be_bytes(n, 2);
        assert(f =~= seq![head] + (seq![126u8] + len) + payload);
        assert(b.subrange(2, 4) =~= len);
        assert(frame_layout(b) == Some((n, 4int)));
        assert(b.subrange(4, 4 + n as int) =~= payload);
    } else {
        lemma_be_round(n, 8);
        let len = be_bytes(n, 8);
        assert(f =~= seq![head] + (seq![127u8] + len) + payload);
        assert(b.subrange(2, 10) =~= len);
        assert(frame_layout(b) == Some((n, 10int)));
        assert(b.subrange(10, 10 + n as int) =~= payload);
    }
}

// ---------------------------------------------------------------------------
// Receiving
// ---------------------------------------------------------------------------

/// What the receiver does with a frame.
pub enum WsAction {
    /// Answer a ping with a pong carrying the same payload, keep reading.
    Pong(Vec<u8>),
    /// Echo a close frame with this payload and stop.
    Close(Vec<u8>),
    /// Hand a complete message to the application.
    Deliver(WsMessage),
    /// Keep reading.
    Continue,
}

/// A message being reassembled from fragments.
pub struct Reassembly {
    pub fragments: Vec<u8>,
    pub opcode: u8,
}

impl Reassembly {
    pub fn new() -> (r: Reassembly)
        ensures
            r.fragments@ == Seq::<u8>::empty(),
            r.opcode == OP_CONTINUATION,
    {
        Reassembly { fragments: Vec::new(), opcode: OP_CONTINUATION }
    }

    /// Whether no message is being reassembled.
    pub open spec fn is_fresh(self) -> bool {
        self.fragments@ == Seq::<u8>::empty() && self.opcode == OP_CONTINUATION
    }

    /// Takes one frame: pings are answered, pongs and unknown opcodes
    /// ignored, a close echoed; a text or binary frame starts a message
    /// (dropping any unfinished one) and a continuation frame extends it;
    /// a final frame delivers the message (text read leniently as UTF-8),
    /// unless none was started, and the next frame starts afresh.
    pub fn on_frame(&mut self, frame: RawFrame) -> (a: WsAction)
        ensures
            frame.opcode == OP_PING ==> (a matches WsAction::Pong(p) && p@ == frame.payload@ && *final(self)
                == *old(self)),
            frame.opcode == OP_PONG ==> a is Continue && *final(self) == *old(self),
            frame.opcode == OP_CLOSE ==> (a matches WsAction::Close(p) && p@ == frame.payload@ && *final(self)
                == *old(self)),
            !(frame.opcode == OP_PING || frame.opcode == OP_PONG || frame.opcode == OP_CLOSE
                || frame.opcode == OP_TEXT || frame.opcode == OP_BINARY || frame.opcode == OP_CONTINUATION)
                ==> a is Continue && *final(self) == *old(self),
            (frame.opcode == OP_TEXT || frame.opcode == OP_BINARY || frame.opcode == OP_CONTINUATION) ==> ({
                let op = assembled_opcode(*old(self), frame);
                let bytes = assembled_bytes(*old(self), frame);
                if frame.fin && op == OP_TEXT {
                    &&& a matches WsAction::Deliver(WsMessage::Text(s)) && s@ == utf8_lossy(bytes)
                    &&& final(self).is_fresh()
                } else if frame.fin && op == OP_BINARY {
                    &&& a matches WsAction::Deliver(WsMessage::Binary(b)) && b@ == bytes
                    &&& final(self).is_fresh()
                } else {
                    &&& a is Continue
                    &&& final(self).opcode == op
                    &&& final(self).fragments@ == bytes
                }
            }),
    {
        let op = frame.opcode;
        if op == OP_PING {
            return WsAction::Pong(frame.payload);
        }
        if op == OP_PONG {
            return WsAction::Continue;
        }
        if op == OP_CLOSE {
            return WsAction::Close(frame.payload);
        }
        if op == OP_TEXT || op == OP_BINARY {
            self.opcode = op;
            self.fragments = frame.payload;
        } else if op == OP_CONTINUATION {
            let mut i: usize = 0;
            let ghost start = self.fragments@;
            while i < frame.payload.len()
                invariant
                    i <= frame.payload@.len(),
                    self.fragments@ == start + frame.payload@.subrange(0, i as int),
                    self.opcode == old(self).opcode,
                decreases frame.payload@.len() - i,
            {
                self.fragments.push(frame.payload[i]);
                i = i + 1;
                assert(self.fragments@ =~= start + frame.payload@.subrange(0, i as int));
            }
            assert(frame.payload@.subrange(0, frame.payload@.len() as int) =~= frame.payload@);
        } else {
            return WsAction::Continue;
        }
        if frame.fin && (self.opcode == OP_TEXT || self.opcode == OP_BINARY) {
            let text = self.opcode == OP_TEXT;
            let mut data: Vec<u8> = Vec::new();
            std::mem::swap(&mut data, &mut self.fragments);
            self.opcode = OP_CONTINUATION;
            if text {
                return WsAction::Deliver(WsMessage::Text(string_from_utf8_lossy(data.as_slice())));
            } else {
                return WsAction::Deliver(WsMessage::Binary(data));
            }
        }
        WsAction::Continue
    }
}

/// The opcode of the message after taking a data frame.
pub open spec fn assembled_opcode(s: Reassembly, f: RawFrame) -> u8 {
    if f.opcode == OP_CONTINUATION {
        s.opcode
    } else {
        f.opcode
    }
}

/// The message's bytes after taking a data frame.
pub open spec fn assembled_bytes(s: Reassembly, f: RawFrame) -> Seq<u8> {
    if f.opcode == OP_CONTINUATION {
        s.fragments@ + f.payload@
    } else {
        f.payload@
    }
}

} // verus!
