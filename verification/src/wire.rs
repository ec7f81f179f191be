//! The wire framing between distributer and processor.
//!
//! A data connection carries a sequence of frames. A chunk frame is the
//! five-byte magic `chunk`, a big-endian `u32` payload length, and exactly
//! that many payload bytes. A health frame is the twelve bytes
//! `health-check`, answered with the seven bytes `healthy`. Anything else,
//! and any truncated frame, closes the connection without publishing
//! anything.

use vstd::prelude::*;
use crate::codec::lemma_take_prefix;

verus! {

/// The five magic bytes `chunk`.
pub open spec fn chunk_magic() -> Seq<u8> {
    seq![99u8, 104u8, 117u8, 110u8, 107u8]
}

/// The twelve bytes `health-check`.
pub open spec fn health_request() -> Seq<u8> {
    seq![104u8, 101u8, 97u8, 108u8, 116u8, 104u8, 45u8, 99u8, 104u8, 101u8, 99u8, 107u8]
}

/// The seven bytes `healthy`.
pub open spec fn healthy_response() -> Seq<u8> {
    seq![104u8, 101u8, 97u8, 108u8, 116u8, 104u8, 121u8]
}

/// A `u32` as four big-endian bytes.
pub open spec fn be_u32(x: u32) -> Seq<u8> {
    seq![
        ((x >> 24) & 0xff) as u8,
        ((x >> 16) & 0xff) as u8,
        ((x >> 8) & 0xff) as u8,
        (x & 0xff) as u8,
    ]
}

/// One chunk frame: magic, big-endian payload length, payload.
pub open spec fn chunk_frame(payload: Seq<u8>) -> Seq<u8> {
    chunk_magic() + be_u32(payload.len() as u32) + payload
}

fn byte_at(data: &[u8], i: usize) -> (r: u8)
    requires
        i < data@.len(),
    ensures
        r == data@[i as int],
{
    *vstd::slice::slice_index_get(data, i)
}

/// Builds the frame for one compressed payload.
pub fn build_chunk_frame(payload: &Vec<u8>) -> (r: Vec<u8>)
    requires
        payload@.len() <= u32::MAX,
    ensures
        r@ == chunk_frame(payload@),
{
    let mut out: Vec<u8> = Vec::new();
    out.push(99u8);
    out.push(104u8);
    out.push(117u8);
    out.push(110u8);
    out.push(107u8);
    let x = payload.len() as u32;
    out.push(((x >> 24) & 0xff) as u8);
    out.push(((x >> 16) & 0xff) as u8);
    out.push(((x >> 8) & 0xff) as u8);
    out.push((x & 0xff) as u8);
    out.extend_from_slice(payload.as_slice());
    proof {
        assert(out@ =~= chunk_frame(payload@));
    }
    out
}

/// The probe the heartbeat supervisor writes to each endpoint.
pub fn health_probe_bytes() -> (r: Vec<u8>)
    ensures
        r@ == health_request(),
{
    let mut out: Vec<u8> = Vec::new();
    out.push(104u8);
    out.push(101u8);
    out.push(97u8);
    out.push(108u8);
    out.push(116u8);
    out.push(104u8);
    out.push(45u8);
    out.push(99u8);
    out.push(104u8);
    out.push(101u8);
    out.push(99u8);
    out.push(107u8);
    proof {
        assert(out@ =~= health_request());
    }
    out
}

/// The reply a processor writes to a health frame.
pub fn healthy_reply_bytes() -> (r: Vec<u8>)
    ensures
        r@ == healthy_response(),
{
    let mut out: Vec<u8> = Vec::new();
    out.push(104u8);
    out.push(101u8);
    out.push(97u8);
    out.push(108u8);
    out.push(116u8);
    out.push(104u8);
    out.push(121u8);
    proof {
        assert(out@ =~= healthy_response());
    }
    out
}

/// An endpoint is healthy exactly when its reply is the seven bytes
/// `healthy`, nothing more and nothing less.
pub fn is_healthy_response(resp: &[u8]) -> (r: bool)
    ensures
        r == (resp@ == healthy_response()),
{
    if resp.len() != 7 {
        proof {
            assert(resp@ != healthy_response());
        }
        return false;
    }
    let ok = byte_at(resp, 0) == 104u8 && byte_at(resp, 1) == 101u8 && byte_at(resp, 2) == 97u8
        && byte_at(resp, 3) == 108u8 && byte_at(resp, 4) == 116u8 && byte_at(resp, 5) == 104u8
        && byte_at(resp, 6) == 121u8;
    proof {
        if ok {
            assert(resp@ =~= healthy_response());
        }
    }
    ok
}

/// What the ingress reader finds at one position of the byte stream.
pub enum FrameParse {
    /// A complete chunk frame: its payload and the position after the frame.
    Chunk(Vec<u8>, usize),
    /// A complete health frame; the position after it. Answer `healthy`.
    Health(usize),
    /// The input ends exactly here: nothing left to read.
    End,
    /// A malformed or truncated frame: close the connection, publish nothing.
    Close,
}

/// Reads one frame at `pos`. A chunk frame is returned exactly when the
/// bytes from `pos` are a complete frame of the grammar; a truncated or
/// malformed frame yields `Close` and no partial payload ever escapes.
pub fn parse_frame(data: &[u8], pos: usize) -> (r: FrameParse)
    requires
        pos <= data@.len(),
    ensures
        (r is End) <==> pos == data@.len(),
        r matches FrameParse::Chunk(p, end) ==> pos + 9 <= end <= data@.len() && p@.len()
            <= u32::MAX && end == pos + 9 + p@.len() && data@.subrange(pos as int, end as int)
            == chunk_frame(p@),
        forall|payload: Seq<u8>, end: int|
            pos as int <= end <= data@.len() && payload.len() <= u32::MAX && data@.subrange(
                pos as int,
                end,
            ) == chunk_frame(payload) ==> (r matches FrameParse::Chunk(p, e) && p@ == payload
                && e == end),
        r matches FrameParse::Health(end) ==> end == pos + 12 && end <= data@.len()
            && data@.subrange(pos as int, end as int) == health_request(),
        pos + 12 <= data@.len() && data@.subrange(pos as int, pos as int + 12)
            == health_request() ==> (r matches FrameParse::Health(end) && end == pos + 12),
{
    let len = data.len();
    if pos == len {
        proof {
            lemma_no_chunk_here(data@, pos as int);
        }
        return FrameParse::End;
    }
    if len - pos < 5 {
        proof {
            lemma_no_chunk_here(data@, pos as int);
        }
        return FrameParse::Close;
    }
    let b0 = byte_at(data, pos);
    let b1 = byte_at(data, pos + 1);
    let b2 = byte_at(data, pos + 2);
    let b3 = byte_at(data, pos + 3);
    let b4 = byte_at(data, pos + 4);
    if b0 == 99u8 && b1 == 104u8 && b2 == 117u8 && b3 == 110u8 && b4 == 107u8 {
        // A chunk frame: length, then payload.
        if len - pos < 9 {
            proof {
                lemma_no_chunk_here(data@, pos as int);
            }
            return FrameParse::Close;
        }
        let l0 = byte_at(data, pos + 5);
        let l1 = byte_at(data, pos + 6);
        let l2 = byte_at(data, pos + 7);
        let l3 = byte_at(data, pos + 8);
        let x: u32 = (l0 as u32) << 24u32 | (l1 as u32) << 16u32 | (l2 as u32) << 8u32 | (
        l3 as u32);
        proof {
            lemma_be_u32_bytes(x, l0, l1, l2, l3);
        }
        if (x as usize) <= len - (pos + 9) {
            let end = pos + 9 + x as usize;
            let p = vstd::slice::slice_to_vec(vstd::slice::slice_subrange(data, pos + 9, end));
            proof {
                assert(data@.subrange(pos as int, end as int) =~= chunk_frame(p@));
                lemma_chunk_unique(data@, pos as int, p@, end as int);
            }
            return FrameParse::Chunk(p, end);
        } else {
            proof {
                assert forall|payload: Seq<u8>, end: int|
                    !(pos as int <= end <= data@.len() && payload.len() <= u32::MAX
                        && data@.subrange(pos as int, end) == chunk_frame(payload)) by {
                    if pos as int <= end <= data@.len() && payload.len() <= u32::MAX
                        && data@.subrange(pos as int, end) == chunk_frame(payload) {
                        lemma_chunk_header(data@, pos as int, payload, end);
                        assert(data@[pos as int + 5 + 0] == be_u32(payload.len() as u32)[0]);
                        assert(data@[pos as int + 5 + 1] == be_u32(payload.len() as u32)[1]);
                        assert(data@[pos as int + 5 + 2] == be_u32(payload.len() as u32)[2]);
                        assert(data@[pos as int + 5 + 3] == be_u32(payload.len() as u32)[3]);
                        assert(l0 == be_u32(payload.len() as u32)[0]);
                        assert(l1 == be_u32(payload.len() as u32)[1]);
                        assert(l2 == be_u32(payload.len() as u32)[2]);
                        assert(l3 == be_u32(payload.len() as u32)[3]);
                        lemma_be_u32_inverse(payload.len() as u32, l0, l1, l2, l3);
                        assert(x == payload.len() as u32);
                    }
                }
            }
            return FrameParse::Close;
        }
    } else if b0 == 104u8 && b1 == 101u8 && b2 == 97u8 && b3 == 108u8 && b4 == 116u8 {
        // Possibly a health frame: it must match `health-check` in full.
        proof {
            lemma_no_chunk_here(data@, pos as int);
        }
        if len - pos < 12 {
            return FrameParse::Close;
        }
        let ok = byte_at(data, pos + 5) == 104u8 && byte_at(data, pos + 6) == 45u8 && byte_at(
            data,
            pos + 7,
        ) == 99u8 && byte_at(data, pos + 8) == 104u8 && byte_at(data, pos + 9) == 101u8
            && byte_at(data, pos + 10) == 99u8 && byte_at(data, pos + 11) == 107u8;
        if ok {
            proof {
                assert(data@.subrange(pos as int, pos as int + 12) =~= health_request());
            }
            return FrameParse::Health(pos + 12);
        } else {
            proof {
                assert(data@.subrange(pos as int, pos as int + 12) != health_request()) by {
                    if data@.subrange(pos as int, pos as int + 12) == health_request() {
                        assert(forall|i: int| 0 <= i < 12 ==> data@.subrange(
                            pos as int,
                            pos as int + 12,
                        )[i] == health_request()[i]);
                    }
                }
            }
            return FrameParse::Close;
        }
    } else {
        proof {
            lemma_no_chunk_here(data@, pos as int);
            assert(pos + 12 <= data@.len() ==> data@.subrange(pos as int, pos as int + 12)
                != health_request()) by {
                if pos + 12 <= data@.len() && data@.subrange(pos as int, pos as int + 12)
                    == health_request() {
                    assert(data@[pos as int] == health_request()[0]);
                    assert(data@[pos as int + 1] == health_request()[1]);
                    assert(data@[pos as int + 2] == health_request()[2]);
                    assert(data@[pos as int + 3] == health_request()[3]);
                    assert(data@[pos as int + 4] == health_request()[4]);
                }
            }
        }
        return FrameParse::Close;
    }
}

/// The header facts every complete chunk frame at `pos` forces on the bytes.
proof fn lemma_chunk_header(data: Seq<u8>, pos: int, payload: Seq<u8>, end: int)
    requires
        0 <= pos <= end <= data.len(),
        payload.len() <= u32::MAX,
        data.subrange(pos, end) == chunk_frame(payload),
    ensures
        end == pos + 9 + payload.len(),
        forall|i: int| 0 <= i < 5 ==> #[trigger] data[pos + i] == chunk_magic()[i],
        forall|i: int| 0 <= i < 4 ==> #[trigger] data[pos + 5 + i] == be_u32(payload.len() as u32)[i],
        data.subrange(pos + 9, end) == payload,
{
    lemma_take_prefix(data, pos, end, chunk_magic() + be_u32(payload.len() as u32), payload);
    lemma_take_prefix(data, pos, pos + 9, chunk_magic(), be_u32(payload.len() as u32));
    assert forall|i: int| 0 <= i < 5 implies #[trigger] data[pos + i] == chunk_magic()[i] by {
        assert(data.subrange(pos, pos + 5)[i] == data[pos + i]);
    }
    assert forall|i: int| 0 <= i < 4 implies #[trigger] data[pos + 5 + i] == be_u32(
        payload.len() as u32,
    )[i] by {
        assert(data.subrange(pos + 5, pos + 9)[i] == data[pos + 5 + i]);
    }
}

/// When no complete chunk frame can start at `pos` because the magic is
/// absent or the bytes run out before five: nothing matches the grammar.
proof fn lemma_no_chunk_here(data: Seq<u8>, pos: int)
    requires
        0 <= pos <= data.len(),
        pos + 9 > data.len() || data[pos] != 99u8 || data[pos + 1] != 104u8 || data[pos + 2]
            != 117u8 || data[pos + 3] != 110u8 || data[pos + 4] != 107u8,
    ensures
        forall|payload: Seq<u8>, end: int|
            !(pos <= end <= data.len() && payload.len() <= u32::MAX && data.subrange(pos, end)
                == chunk_frame(payload)),
{
    assert forall|payload: Seq<u8>, end: int|
        !(pos <= end <= data.len() && payload.len() <= u32::MAX && data.subrange(pos, end)
            == chunk_frame(payload)) by {
        if pos <= end <= data.len() && payload.len() <= u32::MAX && data.subrange(pos, end)
            == chunk_frame(payload) {
            lemma_chunk_header(data, pos, payload, end);
            assert(data[pos + 0] == chunk_magic()[0]);
            assert(data[pos + 1] == chunk_magic()[1]);
            assert(data[pos + 2] == chunk_magic()[2]);
            assert(data[pos + 3] == chunk_magic()[3]);
            assert(data[pos + 4] == chunk_magic()[4]);
        }
    }
}

/// At most one chunk frame starts at a given position: the length field
/// pins the payload.
proof fn lemma_chunk_unique(data: Seq<u8>, pos: int, p: Seq<u8>, e: int)
    requires
        0 <= pos,
        pos + 9 <= e <= data.len(),
        p.len() <= u32::MAX,
        e == pos + 9 + p.len(),
        data.subrange(pos, e) == chunk_frame(p),
    ensures
        forall|payload: Seq<u8>, end: int|
            pos <= end <= data.len() && payload.len() <= u32::MAX && data.subrange(pos, end)
                == chunk_frame(payload) ==> (payload == p && end == e),
{
    assert forall|payload: Seq<u8>, end: int|
        pos <= end <= data.len() && payload.len() <= u32::MAX && data.subrange(pos, end)
            == chunk_frame(payload) implies (payload == p && end == e) by {
        lemma_chunk_header(data, pos, payload, end);
        lemma_chunk_header(data, pos, p, e);
        assert forall|i: int| 0 <= i < 4 implies #[trigger] be_u32(payload.len() as u32)[i]
            == be_u32(p.len() as u32)[i] by {
            assert(data[pos + 5 + i] == be_u32(payload.len() as u32)[i]);
            assert(data[pos + 5 + i] == be_u32(p.len() as u32)[i]);
        }
        assert(be_u32(payload.len() as u32) =~= be_u32(p.len() as u32));
        lemma_be_u32_injective(payload.len() as u32, p.len() as u32);
        assert(payload.len() == p.len());
        assert(payload =~= p);
    }
}

/// Big-endian decomposition: composing four bytes and taking them apart
/// again are inverse.
proof fn lemma_be_u32_bytes(x: u32, l0: u8, l1: u8, l2: u8, l3: u8)
    requires
        x == (l0 as u32) << 24u32 | (l1 as u32) << 16u32 | (l2 as u32) << 8u32 | (l3 as u32),
    ensures
        be_u32(x) == seq![l0, l1, l2, l3],
{
    let y = (l0 as u32) << 24u32 | (l1 as u32) << 16u32 | (l2 as u32) << 8u32 | (l3 as u32);
    assert((((y >> 24) & 0xff) as u8) == l0 && (((y >> 16) & 0xff) as u8) == l1 && (((y >> 8)
        & 0xff) as u8) == l2 && ((y & 0xff) as u8) == l3) by (bit_vector)
        requires
            y == (l0 as u32) << 24u32 | (l1 as u32) << 16u32 | (l2 as u32) << 8u32 | (l3 as u32),
    ;
    assert(be_u32(x) =~= seq![l0, l1, l2, l3]);
}

/// If the four header bytes spell `be_u32(v)`, the composed word is `v`.
proof fn lemma_be_u32_inverse(v: u32, l0: u8, l1: u8, l2: u8, l3: u8)
    requires
        l0 == be_u32(v)[0],
        l1 == be_u32(v)[1],
        l2 == be_u32(v)[2],
        l3 == be_u32(v)[3],
    ensures
        v == (l0 as u32) << 24u32 | (l1 as u32) << 16u32 | (l2 as u32) << 8u32 | (l3 as u32),
{
    assert(((((v >> 24) & 0xff) as u8) as u32) << 24u32 | ((((v >> 16) & 0xff) as u8) as u32)
        << 16u32 | ((((v >> 8) & 0xff) as u8) as u32) << 8u32 | (((v & 0xff) as u8) as u32)
        == v) by (bit_vector);
}

/// Two equal big-endian encodings come from the same word.
proof fn lemma_be_u32_injective(a: u32, b: u32)
    requires
        be_u32(a) == be_u32(b),
    ensures
        a == b,
{
    assert(be_u32(a)[0] == be_u32(b)[0]);
    assert(be_u32(a)[1] == be_u32(b)[1]);
    assert(be_u32(a)[2] == be_u32(b)[2]);
    assert(be_u32(a)[3] == be_u32(b)[3]);
    assert((((a >> 24) & 0xff) as u8 == ((b >> 24) & 0xff) as u8 && ((a >> 16) & 0xff) as u8 == ((b
        >> 16) & 0xff) as u8 && ((a >> 8) & 0xff) as u8 == ((b >> 8) & 0xff) as u8 && (a
        & 0xff) as u8 == (b & 0xff) as u8) ==> a == b) by (bit_vector);
}

} // verus!
