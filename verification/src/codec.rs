//! The batch byte codec: a fixed, deterministic binary encoding of a sequence
//! of flow records, held stable across the distributer and the processor.
//!
//! The format: a sequence is length-prefixed by a little-endian `u64` count;
//! integers are fixed-width little-endian; a string is a little-endian `u64`
//! byte length followed by its UTF-8 bytes; a nullable field is a one-byte tag
//! (0 absent, 1 present) followed by the value when present.
//!
//! `enc_batch` is the one written definition of the format. The executable
//! encoder produces exactly `enc_batch`, and the executable decoder accepts a
//! byte string exactly when it is `enc_batch` of some batch, which it returns:
//! together they make the encoding lossless end to end.

use vstd::prelude::*;
use vstd::bytes::*;
use vstd::utf8::{decode_utf8, encode_utf8, encode_utf8_decode_utf8, decode_utf8_encode_utf8,
    encode_utf8_valid_utf8, valid_utf8};
use vstd::slice::slice_subrange;
use vstd::string::StrSliceExecFns;
use crate::flow::{FlowModel, Netflow, batch_model};

verus! {

// ---------------------------------------------------------------------------
// The encoding, as spec functions over models.
// ---------------------------------------------------------------------------
pub open spec fn enc_u64(x: u64) -> Seq<u8> {
    spec_u64_to_le_bytes(x)
}

pub open spec fn enc_i64(x: i64) -> Seq<u8> {
    spec_u64_to_le_bytes(x as u64)
}

pub open spec fn enc_i32(x: i32) -> Seq<u8> {
    spec_u32_to_le_bytes(x as u32)
}

pub open spec fn enc_i16(x: i16) -> Seq<u8> {
    spec_u16_to_le_bytes(x as u16)
}

pub open spec fn enc_str(s: Seq<char>) -> Seq<u8> {
    enc_u64(encode_utf8(s).len() as u64) + encode_utf8(s)
}

pub open spec fn enc_opt_str(o: Option<Seq<char>>) -> Seq<u8> {
    match o {
        None => seq![0u8],
        Some(s) => seq![1u8] + enc_str(s),
    }
}

pub open spec fn enc_opt_i64(o: Option<i64>) -> Seq<u8> {
    match o {
        None => seq![0u8],
        Some(x) => seq![1u8] + enc_i64(x),
    }
}

pub open spec fn enc_opt_i32(o: Option<i32>) -> Seq<u8> {
    match o {
        None => seq![0u8],
        Some(x) => seq![1u8] + enc_i32(x),
    }
}

pub open spec fn enc_opt_i16(o: Option<i16>) -> Seq<u8> {
    match o {
        None => seq![0u8],
        Some(x) => seq![1u8] + enc_i16(x),
    }
}

// The record encoding, written as a right-nested chain so that proofs can
// peel one field at a time: `enc_from_x` is the encoding of the record from
// field `x` to the end.
pub open spec fn enc_from_dst_asn(m: FlowModel) -> Seq<u8> {
    enc_opt_i32(m.dst_asn)
}

pub open spec fn enc_from_src_asn(m: FlowModel) -> Seq<u8> {
    enc_opt_i32(m.src_asn) + enc_from_dst_asn(m)
}

pub open spec fn enc_from_end_ts(m: FlowModel) -> Seq<u8> {
    enc_opt_i64(m.end_ts) + enc_from_src_asn(m)
}

pub open spec fn enc_from_start_ts(m: FlowModel) -> Seq<u8> {
    enc_opt_i64(m.start_ts) + enc_from_end_ts(m)
}

pub open spec fn enc_from_packets(m: FlowModel) -> Seq<u8> {
    enc_opt_i64(m.packets) + enc_from_start_ts(m)
}

pub open spec fn enc_from_bytes(m: FlowModel) -> Seq<u8> {
    enc_opt_i64(m.bytes) + enc_from_packets(m)
}

pub open spec fn enc_from_protocol(m: FlowModel) -> Seq<u8> {
    enc_opt_i16(m.protocol) + enc_from_bytes(m)
}

pub open spec fn enc_from_dst_port(m: FlowModel) -> Seq<u8> {
    enc_opt_i32(m.dst_port) + enc_from_protocol(m)
}

pub open spec fn enc_from_src_port(m: FlowModel) -> Seq<u8> {
    enc_opt_i32(m.src_port) + enc_from_dst_port(m)
}

pub open spec fn enc_from_dst_ip(m: FlowModel) -> Seq<u8> {
    enc_opt_str(m.dst_ip) + enc_from_src_port(m)
}

pub open spec fn enc_from_src_ip(m: FlowModel) -> Seq<u8> {
    enc_opt_str(m.src_ip) + enc_from_dst_ip(m)
}

/// The encoding of one record: twelve fields in declaration order.
pub open spec fn enc_record(m: FlowModel) -> Seq<u8> {
    enc_i64(m.flow_id) + enc_from_src_ip(m)
}

/// The concatenated encodings of a sequence of records.
pub open spec fn enc_records(ms: Seq<FlowModel>) -> Seq<u8>
    decreases ms.len(),
{
    if ms.len() == 0 {
        Seq::empty()
    } else {
        enc_record(ms[0]) + enc_records(ms.drop_first())
    }
}

/// The encoding of a whole batch: the record count, then the records.
pub open spec fn enc_batch(ms: Seq<FlowModel>) -> Seq<u8> {
    enc_u64(ms.len() as u64) + enc_records(ms)
}

// ---------------------------------------------------------------------------
// The decoder, as spec functions: each consumes from position `pos` and
// yields the decoded value with the position one past it, or nothing.
// ---------------------------------------------------------------------------
pub open spec fn dec_u64(s: Seq<u8>, pos: int) -> Option<(u64, int)> {
    if 0 <= pos && pos + 8 <= s.len() {
        Some((spec_u64_from_le_bytes(s.subrange(pos, pos + 8)), pos + 8))
    } else {
        None
    }
}

pub open spec fn dec_i64(s: Seq<u8>, pos: int) -> Option<(i64, int)> {
    match dec_u64(s, pos) {
        None => None,
        Some((x, p)) => Some((x as i64, p)),
    }
}

pub open spec fn dec_i32(s: Seq<u8>, pos: int) -> Option<(i32, int)> {
    if 0 <= pos && pos + 4 <= s.len() {
        Some((spec_u32_from_le_bytes(s.subrange(pos, pos + 4)) as i32, pos + 4))
    } else {
        None
    }
}

pub open spec fn dec_i16(s: Seq<u8>, pos: int) -> Option<(i16, int)> {
    if 0 <= pos && pos + 2 <= s.len() {
        Some((spec_u16_from_le_bytes(s.subrange(pos, pos + 2)) as i16, pos + 2))
    } else {
        None
    }
}

pub open spec fn dec_tag(s: Seq<u8>, pos: int) -> Option<(bool, int)> {
    if 0 <= pos && pos + 1 <= s.len() {
        if s[pos] == 0u8 {
            Some((false, pos + 1))
        } else if s[pos] == 1u8 {
            Some((true, pos + 1))
        } else {
            None
        }
    } else {
        None
    }
}

pub open spec fn dec_str(s: Seq<u8>, pos: int) -> Option<(Seq<char>, int)> {
    match dec_u64(s, pos) {
        None => None,
        Some((l, p)) => if p + l <= s.len() && valid_utf8(s.subrange(p, p + l)) {
            Some((decode_utf8(s.subrange(p, p + l)), p + l))
        } else {
            None
        },
    }
}

pub open spec fn dec_opt_str(s: Seq<u8>, pos: int) -> Option<(Option<Seq<char>>, int)> {
    match dec_tag(s, pos) {
        None => None,
        Some((false, p)) => Some((None, p)),
        Some((true, p)) => match dec_str(s, p) {
            None => None,
            Some((cs, p2)) => Some((Some(cs), p2)),
        },
    }
}

pub open spec fn dec_opt_i64(s: Seq<u8>, pos: int) -> Option<(Option<i64>, int)> {
    match dec_tag(s, pos) {
        None => None,
        Some((false, p)) => Some((None, p)),
        Some((true, p)) => match dec_i64(s, p) {
            None => None,
            Some((x, p2)) => Some((Some(x), p2)),
        },
    }
}

pub open spec fn dec_opt_i32(s: Seq<u8>, pos: int) -> Option<(Option<i32>, int)> {
    match dec_tag(s, pos) {
        None => None,
        Some((false, p)) => Some((None, p)),
        Some((true, p)) => match dec_i32(s, p) {
            None => None,
            Some((x, p2)) => Some((Some(x), p2)),
        },
    }
}

pub open spec fn dec_opt_i16(s: Seq<u8>, pos: int) -> Option<(Option<i16>, int)> {
    match dec_tag(s, pos) {
        None => None,
        Some((false, p)) => Some((None, p)),
        Some((true, p)) => match dec_i16(s, p) {
            None => None,
            Some((x, p2)) => Some((Some(x), p2)),
        },
    }
}

// ---------------------------------------------------------------------------
// Sequence bookkeeping lemmas.
// ---------------------------------------------------------------------------
/// A subrange splits at any midpoint into the two adjacent subranges.
pub proof fn lemma_subrange_cat(s: Seq<u8>, a: int, b: int, c: int)
    requires
        0 <= a <= b <= c <= s.len(),
    ensures
        s.subrange(a, c) == s.subrange(a, b) + s.subrange(b, c),
{
    assert(s.subrange(a, c) =~= s.subrange(a, b) + s.subrange(b, c));
}

/// Sequence concatenation is associative.
pub proof fn lemma_add_assoc(a: Seq<u8>, b: Seq<u8>, c: Seq<u8>)
    ensures
        (a + b) + c == a + (b + c),
{
    assert((a + b) + c =~= a + (b + c));
}

/// When a subrange equals a concatenation, each part is itself a subrange.
pub proof fn lemma_take_prefix(s: Seq<u8>, pos: int, end: int, x: Seq<u8>, y: Seq<u8>)
    requires
        0 <= pos <= end <= s.len(),
        s.subrange(pos, end) == x + y,
    ensures
        pos + x.len() <= end,
        s.subrange(pos, pos + x.len() as int) == x,
        s.subrange(pos + x.len() as int, end) == y,
{
    assert(s.subrange(pos, end).len() == end - pos);
    assert((x + y).len() == x.len() + y.len());
    assert(end - pos == x.len() + y.len());
    assert(s.subrange(pos, pos + x.len() as int) =~= x) by {
        assert forall|i: int| 0 <= i < x.len() implies s.subrange(pos, pos + x.len() as int)[i]
            == x[i] by {
            assert((x + y)[i] == x[i]);
            assert(s.subrange(pos, end)[i] == s[pos + i]);
        }
    }
    assert(s.subrange(pos + x.len() as int, end) =~= y) by {
        assert forall|i: int| 0 <= i < y.len() implies s.subrange(pos + x.len() as int, end)[i]
            == y[i] by {
            assert((x + y)[x.len() + i] == y[i]);
            assert(s.subrange(pos, end)[x.len() + i] == s[pos + x.len() + i]);
        }
    }
}

// ---------------------------------------------------------------------------
// Each decoder accepts exactly the corresponding encoding, and returns
// exactly the encoded value: one soundness and one completeness lemma apiece.
// ---------------------------------------------------------------------------
proof fn lemma_dec_u64_sound(s: Seq<u8>, pos: int)
    ensures
        dec_u64(s, pos) matches Some((x, p)) ==> 0 <= pos && p == pos + 8 && p <= s.len()
            && s.subrange(pos, p) == enc_u64(x),
{
    lemma_auto_spec_u64_to_from_le_bytes();
}

proof fn lemma_dec_u64_complete(s: Seq<u8>, pos: int, x: u64, end: int)
    requires
        0 <= pos,
        end == pos + 8 <= s.len(),
        s.subrange(pos, end) == enc_u64(x),
    ensures
        dec_u64(s, pos) == Some((x, end)),
{
    lemma_auto_spec_u64_to_from_le_bytes();
}

proof fn lemma_dec_i64_sound(s: Seq<u8>, pos: int)
    ensures
        dec_i64(s, pos) matches Some((x, p)) ==> 0 <= pos && p == pos + 8 && p <= s.len()
            && s.subrange(pos, p) == enc_i64(x),
{
    lemma_auto_spec_u64_to_from_le_bytes();
    if dec_u64(s, pos) is Some {
        let (u, p) = dec_u64(s, pos)->Some_0;
        assert((u as i64) as u64 == u) by (bit_vector);
    }
}

proof fn lemma_dec_i64_complete(s: Seq<u8>, pos: int, x: i64, end: int)
    requires
        0 <= pos,
        end == pos + 8 <= s.len(),
        s.subrange(pos, end) == enc_i64(x),
    ensures
        dec_i64(s, pos) == Some((x, end)),
{
    lemma_auto_spec_u64_to_from_le_bytes();
    assert((x as u64) as i64 == x) by (bit_vector);
}

proof fn lemma_dec_i32_sound(s: Seq<u8>, pos: int)
    ensures
        dec_i32(s, pos) matches Some((x, p)) ==> 0 <= pos && p == pos + 4 && p <= s.len()
            && s.subrange(pos, p) == enc_i32(x),
{
    lemma_auto_spec_u32_to_from_le_bytes();
    if 0 <= pos && pos + 4 <= s.len() {
        let u = spec_u32_from_le_bytes(s.subrange(pos, pos + 4));
        assert((u as i32) as u32 == u) by (bit_vector);
    }
}

proof fn lemma_dec_i32_complete(s: Seq<u8>, pos: int, x: i32, end: int)
    requires
        0 <= pos,
        end == pos + 4 <= s.len(),
        s.subrange(pos, end) == enc_i32(x),
    ensures
        dec_i32(s, pos) == Some((x, end)),
{
    lemma_auto_spec_u32_to_from_le_bytes();
    assert(spec_u32_to_le_bytes(x as u32).len() == 4);
    assert(spec_u32_from_le_bytes(spec_u32_to_le_bytes(x as u32)) == x as u32);
    assert(s.subrange(pos, pos + 4) == enc_i32(x));
    assert((x as u32) as i32 == x) by (bit_vector);
}

proof fn lemma_dec_i16_sound(s: Seq<u8>, pos: int)
    ensures
        dec_i16(s, pos) matches Some((x, p)) ==> 0 <= pos && p == pos + 2 && p <= s.len()
            && s.subrange(pos, p) == enc_i16(x),
{
    lemma_auto_spec_u16_to_from_le_bytes();
    if 0 <= pos && pos + 2 <= s.len() {
        let u = spec_u16_from_le_bytes(s.subrange(pos, pos + 2));
        assert((u as i16) as u16 == u) by (bit_vector);
    }
}

proof fn lemma_dec_i16_complete(s: Seq<u8>, pos: int, x: i16, end: int)
    requires
        0 <= pos,
        end == pos + 2 <= s.len(),
        s.subrange(pos, end) == enc_i16(x),
    ensures
        dec_i16(s, pos) == Some((x, end)),
{
    lemma_auto_spec_u16_to_from_le_bytes();
    assert(spec_u16_to_le_bytes(x as u16).len() == 2);
    assert(spec_u16_from_le_bytes(spec_u16_to_le_bytes(x as u16)) == x as u16);
    assert(s.subrange(pos, pos + 2) == enc_i16(x));
    assert((x as u16) as i16 == x) by (bit_vector);
}

proof fn lemma_dec_str_sound(s: Seq<u8>, pos: int)
    ensures
        dec_str(s, pos) matches Some((cs, p)) ==> 0 <= pos && pos <= p <= s.len()
            && s.subrange(pos, p) == enc_str(cs),
{
    lemma_dec_u64_sound(s, pos);
    if dec_str(s, pos) is Some {
        let (l, p) = dec_u64(s, pos)->Some_0;
        let body = s.subrange(p, p + l);
        let cs = decode_utf8(body);
        decode_utf8_encode_utf8(body);
        assert(encode_utf8(cs) == body);
        assert(encode_utf8(cs).len() as u64 == l);
        lemma_subrange_cat(s, pos, p, p + l);
        assert(s.subrange(pos, p + l) == enc_u64(l) + body);
    }
}

proof fn lemma_dec_str_complete(s: Seq<u8>, pos: int, cs: Seq<char>, end: int)
    requires
        0 <= pos <= end <= s.len(),
        s.len() <= u64::MAX,
        s.subrange(pos, end) == enc_str(cs),
    ensures
        dec_str(s, pos) == Some((cs, end)),
{
    let body = encode_utf8(cs);
    lemma_auto_spec_u64_to_from_le_bytes();
    assert(enc_u64(body.len() as u64).len() == 8);
    lemma_take_prefix(s, pos, end, enc_u64(body.len() as u64), body);
    assert(body.len() <= s.len());
    let l = body.len() as u64;
    lemma_dec_u64_complete(s, pos, l, pos + 8);
    assert(l as int == body.len() as int);
    assert(s.subrange(pos + 8, end) == body);
    assert(end == pos + 8 + l);
    encode_utf8_valid_utf8(cs);
    encode_utf8_decode_utf8(cs);
}

proof fn lemma_dec_opt_str_sound(s: Seq<u8>, pos: int)
    ensures
        dec_opt_str(s, pos) matches Some((o, p)) ==> 0 <= pos && pos <= p <= s.len()
            && s.subrange(pos, p) == enc_opt_str(o),
{
    lemma_dec_str_sound(s, pos + 1);
    if dec_opt_str(s, pos) is Some {
        let (o, p) = dec_opt_str(s, pos)->Some_0;
        match o {
            None => {
                assert(s.subrange(pos, pos + 1) =~= seq![0u8]);
            },
            Some(cs) => {
                lemma_subrange_cat(s, pos, pos + 1, p);
                assert(s.subrange(pos, pos + 1) =~= seq![1u8]);
            },
        }
    }
}

proof fn lemma_dec_opt_str_complete(s: Seq<u8>, pos: int, o: Option<Seq<char>>, end: int)
    requires
        0 <= pos <= end <= s.len(),
        s.len() <= u64::MAX,
        s.subrange(pos, end) == enc_opt_str(o),
    ensures
        dec_opt_str(s, pos) == Some((o, end)),
{
    match o {
        None => {
            assert(s.subrange(pos, end).len() == end - pos);
            assert(enc_opt_str(o).len() == 1);
            assert(end == pos + 1);
            assert(s[pos] == s.subrange(pos, end)[0]);
        },
        Some(cs) => {
            lemma_auto_spec_u64_to_from_le_bytes();
            assert(s.subrange(pos, end).len() == end - pos);
            assert((seq![1u8] + enc_str(cs)).len() == 1 + enc_str(cs).len());
            lemma_take_prefix(s, pos, end, seq![1u8], enc_str(cs));
            assert(s[pos] == s.subrange(pos, pos + 1)[0]);
            lemma_dec_str_complete(s, pos + 1, cs, end);
        },
    }
}

proof fn lemma_dec_opt_i64_sound(s: Seq<u8>, pos: int)
    ensures
        dec_opt_i64(s, pos) matches Some((o, p)) ==> 0 <= pos && pos <= p <= s.len()
            && s.subrange(pos, p) == enc_opt_i64(o),
{
    lemma_dec_i64_sound(s, pos + 1);
    if dec_opt_i64(s, pos) is Some {
        let (o, p) = dec_opt_i64(s, pos)->Some_0;
        match o {
            None => {
                assert(s.subrange(pos, pos + 1) =~= seq![0u8]);
            },
            Some(x) => {
                lemma_subrange_cat(s, pos, pos + 1, p);
                assert(s.subrange(pos, pos + 1) =~= seq![1u8]);
            },
        }
    }
}

proof fn lemma_dec_opt_i64_complete(s: Seq<u8>, pos: int, o: Option<i64>, end: int)
    requires
        0 <= pos <= end <= s.len(),
        s.subrange(pos, end) == enc_opt_i64(o),
    ensures
        dec_opt_i64(s, pos) == Some((o, end)),
{
    match o {
        None => {
            assert(s.subrange(pos, end).len() == end - pos);
            assert(enc_opt_i64(o).len() == 1);
            assert(end == pos + 1);
            assert(s[pos] == s.subrange(pos, end)[0]);
        },
        Some(x) => {
            lemma_auto_spec_u64_to_from_le_bytes();
            assert(s.subrange(pos, end).len() == end - pos);
            assert((seq![1u8] + enc_i64(x)).len() == 8 + 1);
            lemma_take_prefix(s, pos, end, seq![1u8], enc_i64(x));
            assert(s[pos] == s.subrange(pos, pos + 1)[0]);
            lemma_dec_i64_complete(s, pos + 1, x, end);
        },
    }
}

proof fn lemma_dec_opt_i32_sound(s: Seq<u8>, pos: int)
    ensures
        dec_opt_i32(s, pos) matches Some((o, p)) ==> 0 <= pos && pos <= p <= s.len()
            && s.subrange(pos, p) == enc_opt_i32(o),
{
    lemma_dec_i32_sound(s, pos + 1);
    if dec_opt_i32(s, pos) is Some {
        let (o, p) = dec_opt_i32(s, pos)->Some_0;
        match o {
            None => {
                assert(s.subrange(pos, pos + 1) =~= seq![0u8]);
            },
            Some(x) => {
                lemma_subrange_cat(s, pos, pos + 1, p);
                assert(s.subrange(pos, pos + 1) =~= seq![1u8]);
            },
        }
    }
}

proof fn lemma_dec_opt_i32_complete(s: Seq<u8>, pos: int, o: Option<i32>, end: int)
    requires
        0 <= pos <= end <= s.len(),
        s.subrange(pos, end) == enc_opt_i32(o),
    ensures
        dec_opt_i32(s, pos) == Some((o, end)),
{
    match o {
        None => {
            assert(s.subrange(pos, end).len() == end - pos);
            assert(enc_opt_i32(o).len() == 1);
            assert(end == pos + 1);
            assert(s[pos] == s.subrange(pos, end)[0]);
        },
        Some(x) => {
            lemma_auto_spec_u32_to_from_le_bytes();
            assert(s.subrange(pos, end).len() == end - pos);
            assert((seq![1u8] + enc_i32(x)).len() == 4 + 1);
            lemma_take_prefix(s, pos, end, seq![1u8], enc_i32(x));
            assert(s[pos] == s.subrange(pos, pos + 1)[0]);
            lemma_dec_i32_complete(s, pos + 1, x, end);
        },
    }
}

proof fn lemma_dec_opt_i16_sound(s: Seq<u8>, pos: int)
    ensures
        dec_opt_i16(s, pos) matches Some((o, p)) ==> 0 <= pos && pos <= p <= s.len()
            && s.subrange(pos, p) == enc_opt_i16(o),
{
    lemma_dec_i16_sound(s, pos + 1);
    if dec_opt_i16(s, pos) is Some {
        let (o, p) = dec_opt_i16(s, pos)->Some_0;
        match o {
            None => {
                assert(s.subrange(pos, pos + 1) =~= seq![0u8]);
            },
            Some(x) => {
                lemma_subrange_cat(s, pos, pos + 1, p);
                assert(s.subrange(pos, pos + 1) =~= seq![1u8]);
            },
        }
    }
}

proof fn lemma_dec_opt_i16_complete(s: Seq<u8>, pos: int, o: Option<i16>, end: int)
    requires
        0 <= pos <= end <= s.len(),
        s.subrange(pos, end) == enc_opt_i16(o),
    ensures
        dec_opt_i16(s, pos) == Some((o, end)),
{
    match o {
        None => {
            assert(s.subrange(pos, end).len() == end - pos);
            assert(enc_opt_i16(o).len() == 1);
            assert(end == pos + 1);
            assert(s[pos] == s.subrange(pos, end)[0]);
        },
        Some(x) => {
            lemma_auto_spec_u16_to_from_le_bytes();
            assert(s.subrange(pos, end).len() == end - pos);
            assert((seq![1u8] + enc_i16(x)).len() == 2 + 1);
            lemma_take_prefix(s, pos, end, seq![1u8], enc_i16(x));
            assert(s[pos] == s.subrange(pos, pos + 1)[0]);
            lemma_dec_i16_complete(s, pos + 1, x, end);
        },
    }
}

// ---------------------------------------------------------------------------
// Record, record-sequence and batch decoding.
// ---------------------------------------------------------------------------
pub open spec fn dec_record(s: Seq<u8>, pos: int) -> Option<(FlowModel, int)> {
    match dec_i64(s, pos) {
        None => None,
        Some((flow_id, p1)) => match dec_opt_str(s, p1) {
            None => None,
            Some((src_ip, p2)) => match dec_opt_str(s, p2) {
                None => None,
                Some((dst_ip, p3)) => match dec_opt_i32(s, p3) {
                    None => None,
                    Some((src_port, p4)) => match dec_opt_i32(s, p4) {
                        None => None,
                        Some((dst_port, p5)) => match dec_opt_i16(s, p5) {
                            None => None,
                            Some((protocol, p6)) => match dec_opt_i64(s, p6) {
                                None => None,
                                Some((bytes, p7)) => match dec_opt_i64(s, p7) {
                                    None => None,
                                    Some((packets, p8)) => match dec_opt_i64(s, p8) {
                                        None => None,
                                        Some((start_ts, p9)) => match dec_opt_i64(s, p9) {
                                            None => None,
                                            Some((end_ts, p10)) => match dec_opt_i32(s, p10) {
                                                None => None,
                                                Some((src_asn, p11)) => match dec_opt_i32(
                                                    s,
                                                    p11,
                                                ) {
                                                    None => None,
                                                    Some((dst_asn, p12)) => Some(
                                                        (
                                                            FlowModel {
                                                                flow_id,
                                                                src_ip,
                                                                dst_ip,
                                                                src_port,
                                                                dst_port,
                                                                protocol,
                                                                bytes,
                                                                packets,
                                                                start_ts,
                                                                end_ts,
                                                                src_asn,
                                                                dst_asn,
                                                            },
                                                            p12,
                                                        ),
                                                    ),
                                                },
                                            },
                                        },
                                    },
                                },
                            },
                        },
                    },
                },
            },
        },
    }
}

pub open spec fn dec_records(s: Seq<u8>, pos: int, n: nat) -> Option<(Seq<FlowModel>, int)>
    decreases n,
{
    if n == 0 {
        if 0 <= pos <= s.len() {
            Some((Seq::empty(), pos))
        } else {
            None
        }
    } else {
        match dec_record(s, pos) {
            None => None,
            Some((m, p)) => match dec_records(s, p, (n - 1) as nat) {
                None => None,
                Some((ms, p2)) => Some((seq![m] + ms, p2)),
            },
        }
    }
}

pub open spec fn dec_batch(s: Seq<u8>) -> Option<Seq<FlowModel>> {
    match dec_u64(s, 0) {
        None => None,
        Some((n, p)) => match dec_records(s, p, n as nat) {
            None => None,
            Some((ms, p2)) => if p2 == s.len() {
                Some(ms)
            } else {
                None
            },
        },
    }
}

proof fn lemma_dec_record_sound(s: Seq<u8>, pos: int)
    ensures
        dec_record(s, pos) matches Some((m, p)) ==> 0 <= pos <= p <= s.len() && s.subrange(
            pos,
            p,
        ) == enc_record(m),
{
    if dec_record(s, pos) is Some {
        let (m, p12) = dec_record(s, pos)->Some_0;
        let (fid, p1) = dec_i64(s, pos)->Some_0;
        let (sip, p2) = dec_opt_str(s, p1)->Some_0;
        let (dip, p3) = dec_opt_str(s, p2)->Some_0;
        let (spo, p4) = dec_opt_i32(s, p3)->Some_0;
        let (dpo, p5) = dec_opt_i32(s, p4)->Some_0;
        let (pro, p6) = dec_opt_i16(s, p5)->Some_0;
        let (byt, p7) = dec_opt_i64(s, p6)->Some_0;
        let (pkt, p8) = dec_opt_i64(s, p7)->Some_0;
        let (sts, p9) = dec_opt_i64(s, p8)->Some_0;
        let (ets, p10) = dec_opt_i64(s, p9)->Some_0;
        let (sas, p11) = dec_opt_i32(s, p10)->Some_0;
        lemma_dec_i64_sound(s, pos);
        lemma_dec_opt_str_sound(s, p1);
        lemma_dec_opt_str_sound(s, p2);
        lemma_dec_opt_i32_sound(s, p3);
        lemma_dec_opt_i32_sound(s, p4);
        lemma_dec_opt_i16_sound(s, p5);
        lemma_dec_opt_i64_sound(s, p6);
        lemma_dec_opt_i64_sound(s, p7);
        lemma_dec_opt_i64_sound(s, p8);
        lemma_dec_opt_i64_sound(s, p9);
        lemma_dec_opt_i32_sound(s, p10);
        lemma_dec_opt_i32_sound(s, p11);
        assert(s.subrange(p11, p12) == enc_from_dst_asn(m));
        lemma_subrange_cat(s, p10, p11, p12);
        assert(s.subrange(p10, p12) == enc_from_src_asn(m));
        lemma_subrange_cat(s, p9, p10, p12);
        assert(s.subrange(p9, p12) == enc_from_end_ts(m));
        lemma_subrange_cat(s, p8, p9, p12);
        assert(s.subrange(p8, p12) == enc_from_start_ts(m));
        lemma_subrange_cat(s, p7, p8, p12);
        assert(s.subrange(p7, p12) == enc_from_packets(m));
        lemma_subrange_cat(s, p6, p7, p12);
        assert(s.subrange(p6, p12) == enc_from_bytes(m));
        lemma_subrange_cat(s, p5, p6, p12);
        assert(s.subrange(p5, p12) == enc_from_protocol(m));
        lemma_subrange_cat(s, p4, p5, p12);
        assert(s.subrange(p4, p12) == enc_from_dst_port(m));
        lemma_subrange_cat(s, p3, p4, p12);
        assert(s.subrange(p3, p12) == enc_from_src_port(m));
        lemma_subrange_cat(s, p2, p3, p12);
        assert(s.subrange(p2, p12) == enc_from_dst_ip(m));
        lemma_subrange_cat(s, p1, p2, p12);
        assert(s.subrange(p1, p12) == enc_from_src_ip(m));
        lemma_subrange_cat(s, pos, p1, p12);
        assert(s.subrange(pos, p12) == enc_record(m));
    }
}

proof fn lemma_dec_record_complete(s: Seq<u8>, pos: int, m: FlowModel, end: int)
    requires
        0 <= pos <= end <= s.len(),
        s.len() <= u64::MAX,
        s.subrange(pos, end) == enc_record(m),
    ensures
        dec_record(s, pos) == Some((m, end)),
{
    lemma_auto_spec_u64_to_from_le_bytes();
    lemma_take_prefix(s, pos, end, enc_i64(m.flow_id), enc_from_src_ip(m));
    let p1 = pos + 8;
    lemma_dec_i64_complete(s, pos, m.flow_id, p1);
    lemma_take_prefix(s, p1, end, enc_opt_str(m.src_ip), enc_from_dst_ip(m));
    let p2 = p1 + enc_opt_str(m.src_ip).len();
    lemma_dec_opt_str_complete(s, p1, m.src_ip, p2);
    lemma_take_prefix(s, p2, end, enc_opt_str(m.dst_ip), enc_from_src_port(m));
    let p3 = p2 + enc_opt_str(m.dst_ip).len();
    lemma_dec_opt_str_complete(s, p2, m.dst_ip, p3);
    lemma_take_prefix(s, p3, end, enc_opt_i32(m.src_port), enc_from_dst_port(m));
    let p4 = p3 + enc_opt_i32(m.src_port).len();
    lemma_dec_opt_i32_complete(s, p3, m.src_port, p4);
    lemma_take_prefix(s, p4, end, enc_opt_i32(m.dst_port), enc_from_protocol(m));
    let p5 = p4 + enc_opt_i32(m.dst_port).len();
    lemma_dec_opt_i32_complete(s, p4, m.dst_port, p5);
    lemma_take_prefix(s, p5, end, enc_opt_i16(m.protocol), enc_from_bytes(m));
    let p6 = p5 + enc_opt_i16(m.protocol).len();
    lemma_dec_opt_i16_complete(s, p5, m.protocol, p6);
    lemma_take_prefix(s, p6, end, enc_opt_i64(m.bytes), enc_from_packets(m));
    let p7 = p6 + enc_opt_i64(m.bytes).len();
    lemma_dec_opt_i64_complete(s, p6, m.bytes, p7);
    lemma_take_prefix(s, p7, end, enc_opt_i64(m.packets), enc_from_start_ts(m));
    let p8 = p7 + enc_opt_i64(m.packets).len();
    lemma_dec_opt_i64_complete(s, p7, m.packets, p8);
    lemma_take_prefix(s, p8, end, enc_opt_i64(m.start_ts), enc_from_end_ts(m));
    let p9 = p8 + enc_opt_i64(m.start_ts).len();
    lemma_dec_opt_i64_complete(s, p8, m.start_ts, p9);
    lemma_take_prefix(s, p9, end, enc_opt_i64(m.end_ts), enc_from_src_asn(m));
    let p10 = p9 + enc_opt_i64(m.end_ts).len();
    lemma_dec_opt_i64_complete(s, p9, m.end_ts, p10);
    lemma_take_prefix(s, p10, end, enc_opt_i32(m.src_asn), enc_from_dst_asn(m));
    let p11 = p10 + enc_opt_i32(m.src_asn).len();
    lemma_dec_opt_i32_complete(s, p10, m.src_asn, p11);
    lemma_dec_opt_i32_complete(s, p11, m.dst_asn, end);
}

proof fn lemma_dec_records_sound(s: Seq<u8>, pos: int, n: nat)
    ensures
        dec_records(s, pos, n) matches Some((ms, p)) ==> 0 <= pos <= p <= s.len() && ms.len()
            == n && s.subrange(pos, p) == enc_records(ms),
    decreases n,
{
    if n == 0 {
        if 0 <= pos <= s.len() {
            assert(s.subrange(pos, pos) =~= Seq::<u8>::empty());
        }
    } else if dec_records(s, pos, n) is Some {
        let (m, p1) = dec_record(s, pos)->Some_0;
        lemma_dec_record_sound(s, pos);
        let (ms2, p2) = dec_records(s, p1, (n - 1) as nat)->Some_0;
        lemma_dec_records_sound(s, p1, (n - 1) as nat);
        let ms = seq![m] + ms2;
        assert(ms[0] == m);
        assert(ms.drop_first() =~= ms2);
        lemma_subrange_cat(s, pos, p1, p2);
        assert(s.subrange(pos, p2) == enc_record(m) + enc_records(ms2));
    }
}

proof fn lemma_dec_records_complete(s: Seq<u8>, pos: int, ms: Seq<FlowModel>, end: int)
    requires
        0 <= pos <= end <= s.len(),
        s.len() <= u64::MAX,
        s.subrange(pos, end) == enc_records(ms),
    ensures
        dec_records(s, pos, ms.len()) == Some((ms, end)),
    decreases ms.len(),
{
    if ms.len() == 0 {
        assert(s.subrange(pos, end).len() == end - pos);
        assert(end == pos);
    } else {
        lemma_take_prefix(s, pos, end, enc_record(ms[0]), enc_records(ms.drop_first()));
        let p1 = pos + enc_record(ms[0]).len();
        lemma_dec_record_complete(s, pos, ms[0], p1);
        lemma_dec_records_complete(s, p1, ms.drop_first(), end);
        assert(seq![ms[0]] + ms.drop_first() =~= ms);
    }
}

/// Each record encoding is non-empty, so a count can never overstate what a
/// real byte string can hold.
proof fn lemma_enc_records_len(ms: Seq<FlowModel>)
    ensures
        enc_records(ms).len() >= ms.len(),
    decreases ms.len(),
{
    if ms.len() > 0 {
        lemma_enc_records_len(ms.drop_first());
        lemma_auto_spec_u64_to_from_le_bytes();
        assert(enc_record(ms[0]).len() >= 1);
    }
}

/// A byte string decodes to a batch only if it is exactly that batch's
/// encoding.
pub proof fn lemma_dec_batch_sound(s: Seq<u8>)
    ensures
        dec_batch(s) matches Some(ms) ==> s == enc_batch(ms),
{
    if dec_batch(s) is Some {
        let (n, p) = dec_u64(s, 0)->Some_0;
        lemma_dec_u64_sound(s, 0);
        let (ms, p2) = dec_records(s, p, n as nat)->Some_0;
        lemma_dec_records_sound(s, p, n as nat);
        assert(ms.len() as u64 == n);
        lemma_subrange_cat(s, 0, p, p2);
        assert(s.subrange(0, s.len() as int) =~= s);
    }
}

/// Every encoded batch decodes, and decodes to itself.
pub proof fn lemma_dec_batch_complete(s: Seq<u8>, ms: Seq<FlowModel>)
    requires
        s == enc_batch(ms),
        s.len() <= u64::MAX,
    ensures
        dec_batch(s) == Some(ms),
{
    lemma_auto_spec_u64_to_from_le_bytes();
    assert(s.subrange(0, s.len() as int) =~= s);
    lemma_take_prefix(s, 0, s.len() as int, enc_u64(ms.len() as u64), enc_records(ms));
    lemma_dec_u64_complete(s, 0, ms.len() as u64, 8);
    lemma_enc_records_len(ms);
    assert((ms.len() as u64) as nat == ms.len());
    lemma_dec_records_complete(s, 8, ms, s.len() as int);
}

// ---------------------------------------------------------------------------
// Executable decoder.
// ---------------------------------------------------------------------------
/// Relies on core::str::from_utf8: it succeeds exactly on valid UTF-8 input,
/// and the returned string spells exactly the input bytes.
#[verifier::external_body]
fn bytes_to_string(b: &[u8]) -> (r: Option<String>)
    ensures
        r matches Some(s) ==> s@ == decode_utf8(b@),
        r is Some <==> valid_utf8(b@),
{
    match core::str::from_utf8(b) {
        Ok(s) => Some(s.to_owned()),
        Err(_) => None,
    }
}

fn read_u64(bytes: &[u8], pos: usize) -> (r: Option<(u64, usize)>)
    requires
        pos <= bytes@.len(),
    ensures
        (r is Some) == (dec_u64(bytes@, pos as int) is Some),
        r matches Some((x, p)) ==> dec_u64(bytes@, pos as int) == Some((x, p as int)),
{
    if bytes.len() - pos >= 8 {
        let sub = slice_subrange(bytes, pos, pos + 8);
        let x = u64_from_le_bytes(sub);
        Some((x, pos + 8))
    } else {
        None
    }
}

fn read_i64(bytes: &[u8], pos: usize) -> (r: Option<(i64, usize)>)
    requires
        pos <= bytes@.len(),
    ensures
        (r is Some) == (dec_i64(bytes@, pos as int) is Some),
        r matches Some((x, p)) ==> dec_i64(bytes@, pos as int) == Some((x, p as int)),
{
    match read_u64(bytes, pos) {
        None => None,
        Some((x, p)) => Some((x as i64, p)),
    }
}

fn read_i32(bytes: &[u8], pos: usize) -> (r: Option<(i32, usize)>)
    requires
        pos <= bytes@.len(),
    ensures
        (r is Some) == (dec_i32(bytes@, pos as int) is Some),
        r matches Some((x, p)) ==> dec_i32(bytes@, pos as int) == Some((x, p as int)),
{
    if bytes.len() - pos >= 4 {
        let sub = slice_subrange(bytes, pos, pos + 4);
        let x = u32_from_le_bytes(sub);
        Some((x as i32, pos + 4))
    } else {
        None
    }
}

fn read_i16(bytes: &[u8], pos: usize) -> (r: Option<(i16, usize)>)
    requires
        pos <= bytes@.len(),
    ensures
        (r is Some) == (dec_i16(bytes@, pos as int) is Some),
        r matches Some((x, p)) ==> dec_i16(bytes@, pos as int) == Some((x, p as int)),
{
    if bytes.len() - pos >= 2 {
        let sub = slice_subrange(bytes, pos, pos + 2);
        let x = u16_from_le_bytes(sub);
        Some((x as i16, pos + 2))
    } else {
        None
    }
}

fn read_tag(bytes: &[u8], pos: usize) -> (r: Option<(bool, usize)>)
    requires
        pos <= bytes@.len(),
    ensures
        (r is Some) == (dec_tag(bytes@, pos as int) is Some),
        r matches Some((b, p)) ==> dec_tag(bytes@, pos as int) == Some((b, p as int)),
{
    if pos < bytes.len() {
        let b = *vstd::slice::slice_index_get(bytes, pos);
        if b == 0u8 {
            Some((false, pos + 1))
        } else if b == 1u8 {
            Some((true, pos + 1))
        } else {
            None
        }
    } else {
        None
    }
}

fn read_string(bytes: &[u8], pos: usize) -> (r: Option<(String, usize)>)
    requires
        pos <= bytes@.len(),
    ensures
        (r is Some) == (dec_str(bytes@, pos as int) is Some),
        r matches Some((s, p)) ==> dec_str(bytes@, pos as int) == Some((s@, p as int)),
{
    match read_u64(bytes, pos) {
        None => None,
        Some((l, p)) => {
            if l <= (bytes.len() - p) as u64 {
                let end = p + l as usize;
                let sub = slice_subrange(bytes, p, end);
                match bytes_to_string(sub) {
                    None => None,
                    Some(s) => Some((s, end)),
                }
            } else {
                None
            }
        },
    }
}

fn read_opt_string(bytes: &[u8], pos: usize) -> (r: Option<(Option<String>, usize)>)
    requires
        pos <= bytes@.len(),
    ensures
        (r is Some) == (dec_opt_str(bytes@, pos as int) is Some),
        r matches Some((o, p)) ==> dec_opt_str(bytes@, pos as int) == Some(
            (crate::flow::opt_string_model(o), p as int),
        ),
{
    match read_tag(bytes, pos) {
        None => None,
        Some((false, p)) => Some((None, p)),
        Some((true, p)) => match read_string(bytes, p) {
            None => None,
            Some((s, p2)) => Some((Some(s), p2)),
        },
    }
}

fn read_opt_i64(bytes: &[u8], pos: usize) -> (r: Option<(Option<i64>, usize)>)
    requires
        pos <= bytes@.len(),
    ensures
        (r is Some) == (dec_opt_i64(bytes@, pos as int) is Some),
        r matches Some((o, p)) ==> dec_opt_i64(bytes@, pos as int) == Some((o, p as int)),
{
    match read_tag(bytes, pos) {
        None => None,
        Some((false, p)) => Some((None, p)),
        Some((true, p)) => match read_i64(bytes, p) {
            None => None,
            Some((x, p2)) => Some((Some(x), p2)),
        },
    }
}

fn read_opt_i32(bytes: &[u8], pos: usize) -> (r: Option<(Option<i32>, usize)>)
    requires
        pos <= bytes@.len(),
    ensures
        (r is Some) == (dec_opt_i32(bytes@, pos as int) is Some),
        r matches Some((o, p)) ==> dec_opt_i32(bytes@, pos as int) == Some((o, p as int)),
{
    match read_tag(bytes, pos) {
        None => None,
        Some((false, p)) => Some((None, p)),
        Some((true, p)) => match read_i32(bytes, p) {
            None => None,
            Some((x, p2)) => Some((Some(x), p2)),
        },
    }
}

fn read_opt_i16(bytes: &[u8], pos: usize) -> (r: Option<(Option<i16>, usize)>)
    requires
        pos <= bytes@.len(),
    ensures
        (r is Some) == (dec_opt_i16(bytes@, pos as int) is Some),
        r matches Some((o, p)) ==> dec_opt_i16(bytes@, pos as int) == Some((o, p as int)),
{
    match read_tag(bytes, pos) {
        None => None,
        Some((false, p)) => Some((None, p)),
        Some((true, p)) => match read_i16(bytes, p) {
            None => None,
            Some((x, p2)) => Some((Some(x), p2)),
        },
    }
}

fn read_record(bytes: &[u8], pos: usize) -> (r: Option<(Netflow, usize)>)
    requires
        pos <= bytes@.len(),
    ensures
        (r is Some) == (dec_record(bytes@, pos as int) is Some),
        r matches Some((n, p)) ==> dec_record(bytes@, pos as int) == Some((n@, p as int))
            && p <= bytes@.len(),
{
    let (flow_id, p1) = match read_i64(bytes, pos) {
        Some(t) => t,
        None => { return None; },
    };
    proof {
        lemma_dec_i64_sound(bytes@, pos as int);
    }
    let (src_ip, p2) = match read_opt_string(bytes, p1) {
        Some(t) => t,
        None => { return None; },
    };
    proof {
        lemma_dec_opt_str_sound(bytes@, p1 as int);
    }
    let (dst_ip, p3) = match read_opt_string(bytes, p2) {
        Some(t) => t,
        None => { return None; },
    };
    proof {
        lemma_dec_opt_str_sound(bytes@, p2 as int);
    }
    let (src_port, p4) = match read_opt_i32(bytes, p3) {
        Some(t) => t,
        None => { return None; },
    };
    proof {
        lemma_dec_opt_i32_sound(bytes@, p3 as int);
    }
    let (dst_port, p5) = match read_opt_i32(bytes, p4) {
        Some(t) => t,
        None => { return None; },
    };
    proof {
        lemma_dec_opt_i32_sound(bytes@, p4 as int);
    }
    let (protocol, p6) = match read_opt_i16(bytes, p5) {
        Some(t) => t,
        None => { return None; },
    };
    proof {
        lemma_dec_opt_i16_sound(bytes@, p5 as int);
    }
    let (nbytes, p7) = match read_opt_i64(bytes, p6) {
        Some(t) => t,
        None => { return None; },
    };
    proof {
        lemma_dec_opt_i64_sound(bytes@, p6 as int);
    }
    let (packets, p8) = match read_opt_i64(bytes, p7) {
        Some(t) => t,
        None => { return None; },
    };
    proof {
        lemma_dec_opt_i64_sound(bytes@, p7 as int);
    }
    let (start_ts, p9) = match read_opt_i64(bytes, p8) {
        Some(t) => t,
        None => { return None; },
    };
    proof {
        lemma_dec_opt_i64_sound(bytes@, p8 as int);
    }
    let (end_ts, p10) = match read_opt_i64(bytes, p9) {
        Some(t) => t,
        None => { return None; },
    };
    proof {
        lemma_dec_opt_i64_sound(bytes@, p9 as int);
    }
    let (src_asn, p11) = match read_opt_i32(bytes, p10) {
        Some(t) => t,
        None => { return None; },
    };
    proof {
        lemma_dec_opt_i32_sound(bytes@, p10 as int);
    }
    let (dst_asn, p12) = match read_opt_i32(bytes, p11) {
        Some(t) => t,
        None => { return None; },
    };
    proof {
        lemma_dec_opt_i32_sound(bytes@, p11 as int);
    }
    let n = Netflow {
        flow_id,
        src_ip,
        dst_ip,
        src_port,
        dst_port,
        protocol,
        bytes: nbytes,
        packets,
        start_ts,
        end_ts,
        src_asn,
        dst_asn,
    };
    Some((n, p12))
}

/// Decodes a byte string as a batch of flow records. Succeeds exactly when
/// the bytes are `enc_batch` of some batch, and then returns that batch: no
/// truncated, padded or otherwise malformed input is accepted.
pub fn decode_batch(bytes: &[u8]) -> (r: Option<Vec<Netflow>>)
    ensures
        r matches Some(v) ==> bytes@ == enc_batch(batch_model(v@)),
        forall|ms: Seq<FlowModel>| bytes@ == enc_batch(ms) ==> (r matches Some(v)
            && batch_model(v@) == ms),
{
    let blen = bytes.len();
    proof {
        assert(bytes@.len() == blen as nat);
        assert(bytes@.len() <= u64::MAX);
    }
    let (count, start) = match read_u64(bytes, 0) {
        Some(t) => t,
        None => {
            proof {
                assert forall|ms: Seq<FlowModel>| bytes@ != enc_batch(ms) by {
                    if bytes@ == enc_batch(ms) {
                        lemma_dec_batch_complete(bytes@, ms);
                    }
                }
            }
            return None;
        },
    };
    let mut acc: Vec<Netflow> = Vec::new();
    let mut pos: usize = start;
    let mut i: u64 = 0;
    while i < count
        invariant
            bytes@.len() <= u64::MAX,
            pos <= bytes@.len(),
            i <= count,
            acc@.len() == i,
            dec_u64(bytes@, 0) == Some((count, start as int)),
            ({
                let tail = dec_records(bytes@, pos as int, (count - i) as nat);
                dec_records(bytes@, start as int, count as nat) == (match tail {
                    None => None::<(Seq<FlowModel>, int)>,
                    Some((ms, p)) => Some((batch_model(acc@) + ms, p)),
                })
            }),
        decreases count - i,
    {
        proof {
            assert(batch_model(acc@).len() == i);
        }
        match read_record(bytes, pos) {
            Some((n, p2)) => {
                proof {
                    let k = (count - i) as nat;
                    assert(dec_record(bytes@, pos as int) == Some((n@, p2 as int)));
                    let tail2 = dec_records(bytes@, p2 as int, (k - 1) as nat);
                    if tail2 is Some {
                        let (ms, pe) = tail2->Some_0;
                        assert(batch_model(acc@.push(n)) =~= batch_model(acc@) + seq![n@]);
                        assert((batch_model(acc@) + seq![n@]) + ms =~= batch_model(acc@) + (
                        seq![n@] + ms));
                    }
                }
                acc.push(n);
                pos = p2;
                i = i + 1;
            },
            None => {
                proof {
                    let k = (count - i) as nat;
                    assert(dec_records(bytes@, pos as int, k) is None);
                    assert(dec_batch(bytes@) is None);
                    assert forall|ms: Seq<FlowModel>| bytes@ != enc_batch(ms) by {
                        if bytes@ == enc_batch(ms) {
                            lemma_dec_batch_complete(bytes@, ms);
                        }
                    }
                }
                return None;
            },
        }
    }
    proof {
        assert(dec_records(bytes@, pos as int, 0) == Some((Seq::<FlowModel>::empty(), pos as int)));
        assert(batch_model(acc@) + Seq::<FlowModel>::empty() =~= batch_model(acc@));
        assert(dec_records(bytes@, start as int, count as nat) == Some(
            (batch_model(acc@), pos as int),
        ));
    }
    if pos == bytes.len() {
        proof {
            assert(dec_batch(bytes@) == Some(batch_model(acc@)));
            lemma_dec_batch_sound(bytes@);
            assert forall|ms: Seq<FlowModel>| bytes@ == enc_batch(ms) implies batch_model(acc@)
                == ms by {
                lemma_dec_batch_complete(bytes@, ms);
            }
        }
        Some(acc)
    } else {
        proof {
            assert(dec_batch(bytes@) is None);
            assert forall|ms: Seq<FlowModel>| bytes@ != enc_batch(ms) by {
                if bytes@ == enc_batch(ms) {
                    lemma_dec_batch_complete(bytes@, ms);
                }
            }
        }
        None
    }
}

// ---------------------------------------------------------------------------
// Executable encoder.
// ---------------------------------------------------------------------------
fn push_u64v(out: &mut Vec<u8>, x: u64)
    ensures
        final(out)@ == old(out)@ + enc_u64(x),
{
    let mut b = u64_to_le_bytes(x);
    out.append(&mut b);
}

fn push_i64v(out: &mut Vec<u8>, x: i64)
    ensures
        final(out)@ == old(out)@ + enc_i64(x),
{
    push_u64v(out, x as u64);
}

fn push_i32v(out: &mut Vec<u8>, x: i32)
    ensures
        final(out)@ == old(out)@ + enc_i32(x),
{
    let mut b = u32_to_le_bytes(x as u32);
    out.append(&mut b);
}

fn push_i16v(out: &mut Vec<u8>, x: i16)
    ensures
        final(out)@ == old(out)@ + enc_i16(x),
{
    let mut b = u16_to_le_bytes(x as u16);
    out.append(&mut b);
}

fn push_opt_string(out: &mut Vec<u8>, o: &Option<String>)
    ensures
        final(out)@ == old(out)@ + enc_opt_str(crate::flow::opt_string_model(*o)),
{
    match o {
        None => {
            out.push(0u8);
            proof {
                assert(out@ =~= old(out)@ + seq![0u8]);
            }
        },
        Some(s) => {
            out.push(1u8);
            let mut b = s.as_str().as_bytes_vec();
            push_u64v(out, b.len() as u64);
            out.append(&mut b);
            proof {
                assert(out@ =~= old(out)@ + enc_opt_str(Some(s@)));
            }
        },
    }
}

fn push_opt_i64(out: &mut Vec<u8>, o: &Option<i64>)
    ensures
        final(out)@ == old(out)@ + enc_opt_i64(*o),
{
    match o {
        None => {
            out.push(0u8);
            proof {
                assert(out@ =~= old(out)@ + seq![0u8]);
            }
        },
        Some(x) => {
            out.push(1u8);
            push_i64v(out, *x);
            proof {
                assert(out@ =~= old(out)@ + enc_opt_i64(Some(*x)));
            }
        },
    }
}

fn push_opt_i32(out: &mut Vec<u8>, o: &Option<i32>)
    ensures
        final(out)@ == old(out)@ + enc_opt_i32(*o),
{
    match o {
        None => {
            out.push(0u8);
            proof {
                assert(out@ =~= old(out)@ + seq![0u8]);
            }
        },
        Some(x) => {
            out.push(1u8);
            push_i32v(out, *x);
            proof {
                assert(out@ =~= old(out)@ + enc_opt_i32(Some(*x)));
            }
        },
    }
}

fn push_opt_i16(out: &mut Vec<u8>, o: &Option<i16>)
    ensures
        final(out)@ == old(out)@ + enc_opt_i16(*o),
{
    match o {
        None => {
            out.push(0u8);
            proof {
                assert(out@ =~= old(out)@ + seq![0u8]);
            }
        },
        Some(x) => {
            out.push(1u8);
            push_i16v(out, *x);
            proof {
                assert(out@ =~= old(out)@ + enc_opt_i16(Some(*x)));
            }
        },
    }
}

#[verifier::rlimit(50)]
fn push_record(out: &mut Vec<u8>, n: &Netflow)
    ensures
        final(out)@ == old(out)@ + enc_record(n@),
{
    push_i64v(out, n.flow_id);
    push_opt_string(out, &n.src_ip);
    push_opt_string(out, &n.dst_ip);
    push_opt_i32(out, &n.src_port);
    push_opt_i32(out, &n.dst_port);
    push_opt_i16(out, &n.protocol);
    push_opt_i64(out, &n.bytes);
    push_opt_i64(out, &n.packets);
    push_opt_i64(out, &n.start_ts);
    push_opt_i64(out, &n.end_ts);
    push_opt_i32(out, &n.src_asn);
    push_opt_i32(out, &n.dst_asn);
    proof {
        let m = n@;
        let o0 = old(out)@;
        lemma_add_assoc(o0, enc_i64(m.flow_id), enc_from_src_ip(m));
        let a1 = o0 + enc_i64(m.flow_id);
        lemma_add_assoc(a1, enc_opt_str(m.src_ip), enc_from_dst_ip(m));
        let a2 = a1 + enc_opt_str(m.src_ip);
        lemma_add_assoc(a2, enc_opt_str(m.dst_ip), enc_from_src_port(m));
        let a3 = a2 + enc_opt_str(m.dst_ip);
        lemma_add_assoc(a3, enc_opt_i32(m.src_port), enc_from_dst_port(m));
        let a4 = a3 + enc_opt_i32(m.src_port);
        lemma_add_assoc(a4, enc_opt_i32(m.dst_port), enc_from_protocol(m));
        let a5 = a4 + enc_opt_i32(m.dst_port);
        lemma_add_assoc(a5, enc_opt_i16(m.protocol), enc_from_bytes(m));
        let a6 = a5 + enc_opt_i16(m.protocol);
        lemma_add_assoc(a6, enc_opt_i64(m.bytes), enc_from_packets(m));
        let a7 = a6 + enc_opt_i64(m.bytes);
        lemma_add_assoc(a7, enc_opt_i64(m.packets), enc_from_start_ts(m));
        let a8 = a7 + enc_opt_i64(m.packets);
        lemma_add_assoc(a8, enc_opt_i64(m.start_ts), enc_from_end_ts(m));
        let a9 = a8 + enc_opt_i64(m.start_ts);
        lemma_add_assoc(a9, enc_opt_i64(m.end_ts), enc_from_src_asn(m));
        let a10 = a9 + enc_opt_i64(m.end_ts);
        lemma_add_assoc(a10, enc_opt_i32(m.src_asn), enc_from_dst_asn(m));
        let a11 = a10 + enc_opt_i32(m.src_asn);
        assert(out@ == a11 + enc_opt_i32(m.dst_asn));
        assert(out@ == o0 + enc_record(m));
    }
}

proof fn lemma_enc_records_push(ms: Seq<FlowModel>, m: FlowModel)
    ensures
        enc_records(ms.push(m)) == enc_records(ms) + enc_record(m),
    decreases ms.len(),
{
    if ms.len() == 0 {
        assert(ms.push(m).len() == 1);
        assert(ms.push(m)[0] == m);
        assert(ms.push(m).drop_first() =~= Seq::<FlowModel>::empty());
        assert(enc_records(Seq::<FlowModel>::empty()) == Seq::<u8>::empty());
        assert(ms =~= Seq::<FlowModel>::empty());
        assert(enc_records(ms.push(m)) =~= enc_record(m) + Seq::<u8>::empty());
        assert(enc_record(m) + Seq::<u8>::empty() =~= enc_record(m));
        assert(enc_records(ms) + enc_record(m) =~= enc_record(m));
    } else {
        assert(ms.push(m)[0] == ms[0]);
        assert(ms.push(m).drop_first() =~= ms.drop_first().push(m));
        lemma_enc_records_push(ms.drop_first(), m);
        assert(enc_record(ms[0]) + (enc_records(ms.drop_first()) + enc_record(m)) =~= (enc_record(
            ms[0],
        ) + enc_records(ms.drop_first())) + enc_record(m));
    }
}

/// Encodes a batch of flow records as exactly `enc_batch` of its models.
pub fn encode_batch(items: &Vec<Netflow>) -> (r: Vec<u8>)
    ensures
        r@ == enc_batch(batch_model(items@)),
{
    let mut out: Vec<u8> = Vec::new();
    push_u64v(&mut out, items.len() as u64);
    proof {
        assert(batch_model(items@).len() == items@.len());
        assert(out@ =~= enc_u64(items@.len() as u64));
        assert(batch_model(items@.take(0)) =~= Seq::<FlowModel>::empty());
        assert(out@ + enc_records(batch_model(items@.take(0))) =~= out@);
    }
    let ghost header = out@;
    let mut idx: usize = 0;
    while idx < items.len()
        invariant
            idx <= items@.len(),
            header == enc_u64(items@.len() as u64),
            out@ == header + enc_records(batch_model(items@.take(idx as int))),
        decreases items@.len() - idx,
    {
        push_record(&mut out, &items[idx]);
        proof {
            let prefix = batch_model(items@.take(idx as int));
            assert(batch_model(items@.take(idx as int + 1)) =~= prefix.push(items@[idx as int]@));
            lemma_enc_records_push(prefix, items@[idx as int]@);
            assert((header + enc_records(prefix)) + enc_record(items@[idx as int]@) =~= header
                + enc_records(prefix.push(items@[idx as int]@)));
        }
        idx = idx + 1;
    }
    proof {
        assert(items@.take(items@.len() as int) =~= items@);
    }
    out
}

} // verus!
