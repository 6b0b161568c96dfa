use vstd::prelude::*;
use vstd::utf8::encode_utf8;
use vstd::utf8::valid_utf8;

use crate::command::CommandRequest;
use crate::command::CommandResponse;
use crate::command::Hdel;
use crate::command::Hexist;
use crate::command::Hget;
use crate::command::Hgetall;
use crate::command::Hset;
use crate::command::ReqDataView;
use crate::command::RequestData;
use crate::value::Kvpair;
use crate::value::KvpairView;
use crate::value::Value;
use crate::value::ValueView;

verus! {

// The wire format, version 1: every message is one length-prefixed frame
// holding a tagged payload. All integers travel little-endian in eight
// bytes (four for a response status); strings and blobs travel as a byte
// count followed by the bytes, strings in UTF-8. The format is
// self-describing through one leading tag byte per tagged union, so a
// message encoded by one process decodes identically in another, with the
// discriminant and the numeric payloads preserved exactly.

/// The eight little-endian bytes of `x`.
pub open spec fn enc_u64(x: u64) -> Seq<u8> {
    seq![
        (x & 0xff) as u8,
        ((x >> 8) & 0xff) as u8,
        ((x >> 16) & 0xff) as u8,
        ((x >> 24) & 0xff) as u8,
        ((x >> 32) & 0xff) as u8,
        ((x >> 40) & 0xff) as u8,
        ((x >> 48) & 0xff) as u8,
        ((x >> 56) & 0xff) as u8,
    ]
}

/// The four little-endian bytes of `x`.
pub open spec fn enc_u32(x: u32) -> Seq<u8> {
    seq![
        (x & 0xff) as u8,
        ((x >> 8) & 0xff) as u8,
        ((x >> 16) & 0xff) as u8,
        ((x >> 24) & 0xff) as u8,
    ]
}

/// A counted run of bytes: the count, then the bytes. This is also the
/// frame: a frame is one counted run whose bytes are the payload.
pub open spec fn enc_bytes(b: Seq<u8>) -> Seq<u8> {
    enc_u64(b.len() as u64) + b
}

/// A string: its UTF-8 bytes as a counted run.
pub open spec fn enc_str(s: Seq<char>) -> Seq<u8> {
    enc_bytes(encode_utf8(s))
}

/// A value: one tag byte, then the variant's payload.
pub open spec fn enc_value(v: ValueView) -> Seq<u8> {
    match v {
        ValueView::Empty => seq![0u8],
        ValueView::Str(s) => seq![1u8] + enc_str(s),
        ValueView::Int(i) => seq![2u8] + enc_u64(i as u64),
        ValueView::Float(bits) => seq![3u8] + enc_u64(bits),
        ValueView::Bool(b) => seq![4u8, if b { 1u8 } else { 0u8 }],
        ValueView::Bytes(bs) => seq![5u8] + enc_bytes(bs),
    }
}

/// A pair: the key, then the value.
pub open spec fn enc_pair(p: KvpairView) -> Seq<u8> {
    enc_str(p.key) + enc_value(p.value)
}

/// The values of a list, back to back.
pub open spec fn enc_value_list(vs: Seq<ValueView>) -> Seq<u8>
    decreases vs.len(),
{
    if vs.len() == 0 {
        Seq::empty()
    } else {
        enc_value_list(vs.drop_last()) + enc_value(vs.last())
    }
}

/// The pairs of a list, back to back.
pub open spec fn enc_pair_list(ps: Seq<KvpairView>) -> Seq<u8>
    decreases ps.len(),
{
    if ps.len() == 0 {
        Seq::empty()
    } else {
        enc_pair_list(ps.drop_last()) + enc_pair(ps.last())
    }
}

/// A request: one tag byte for the operation, then its fields.
pub open spec fn enc_req(r: crate::command::ReqView) -> Seq<u8> {
    match r.data {
        None => seq![0u8],
        Some(ReqDataView::Hget { table, key }) => seq![1u8] + enc_str(table) + enc_str(key),
        Some(ReqDataView::Hgetall { table }) => seq![2u8] + enc_str(table),
        Some(ReqDataView::Hset { table, pair }) => seq![3u8] + enc_str(table) + enc_pair(pair),
        Some(ReqDataView::Hdel { table, key }) => seq![4u8] + enc_str(table) + enc_str(key),
        Some(ReqDataView::Hexist { table, key }) => seq![5u8] + enc_str(table) + enc_str(key),
    }
}

/// A response: status, message, the counted values, the counted pairs.
pub open spec fn enc_resp(r: crate::command::RespView) -> Seq<u8> {
    enc_u32(r.status) + enc_str(r.message) + enc_u64(r.values.len() as u64) + enc_value_list(
        r.values,
    ) + enc_u64(r.pairs.len() as u64) + enc_pair_list(r.pairs)
}

/// Equal eight-byte encodings come from equal numbers.
pub proof fn lemma_enc_u64_injective(a: u64, b: u64)
    requires
        enc_u64(a) == enc_u64(b),
    ensures
        a == b,
{
    assert((a & 0xff) as u8 == (b & 0xff) as u8 && ((a >> 8) & 0xff) as u8 == ((b >> 8) & 0xff) as u8
        && ((a >> 16) & 0xff) as u8 == ((b >> 16) & 0xff) as u8 && ((a >> 24) & 0xff) as u8 == ((b
        >> 24) & 0xff) as u8 && ((a >> 32) & 0xff) as u8 == ((b >> 32) & 0xff) as u8 && ((a >> 40)
        & 0xff) as u8 == ((b >> 40) & 0xff) as u8 && ((a >> 48) & 0xff) as u8 == ((b >> 48)
        & 0xff) as u8 && ((a >> 56) & 0xff) as u8 == ((b >> 56) & 0xff) as u8 ==> a == b)
        by (bit_vector);
    assert(enc_u64(a)[0] == enc_u64(b)[0]);
    assert(enc_u64(a)[1] == enc_u64(b)[1]);
    assert(enc_u64(a)[2] == enc_u64(b)[2]);
    assert(enc_u64(a)[3] == enc_u64(b)[3]);
    assert(enc_u64(a)[4] == enc_u64(b)[4]);
    assert(enc_u64(a)[5] == enc_u64(b)[5]);
    assert(enc_u64(a)[6] == enc_u64(b)[6]);
    assert(enc_u64(a)[7] == enc_u64(b)[7]);
}

/// Equal four-byte encodings come from equal numbers.
pub proof fn lemma_enc_u32_injective(a: u32, b: u32)
    requires
        enc_u32(a) == enc_u32(b),
    ensures
        a == b,
{
    assert((a & 0xff) as u8 == (b & 0xff) as u8 && ((a >> 8) & 0xff) as u8 == ((b >> 8) & 0xff) as u8
        && ((a >> 16) & 0xff) as u8 == ((b >> 16) & 0xff) as u8 && ((a >> 24) & 0xff) as u8 == ((b
        >> 24) & 0xff) as u8 ==> a == b) by (bit_vector);
    assert(enc_u32(a)[0] == enc_u32(b)[0]);
    assert(enc_u32(a)[1] == enc_u32(b)[1]);
    assert(enc_u32(a)[2] == enc_u32(b)[2]);
    assert(enc_u32(a)[3] == enc_u32(b)[3]);
}

/// No value encodes to nothing.
proof fn lemma_enc_value_nonempty(v: ValueView)
    ensures
        enc_value(v).len() >= 1,
{
    match v {
        ValueView::Empty => {},
        ValueView::Str(s) => {},
        ValueView::Int(i) => {},
        ValueView::Float(bits) => {},
        ValueView::Bool(b) => {},
        ValueView::Bytes(bs) => {},
    }
}

/// A value list's encoding is at least one byte per value.
proof fn lemma_enc_value_list_len(vs: Seq<ValueView>)
    ensures
        enc_value_list(vs).len() >= vs.len(),
    decreases vs.len(),
{
    if vs.len() > 0 {
        lemma_enc_value_list_len(vs.drop_last());
        lemma_enc_value_nonempty(vs.last());
    }
}

/// Inside a value list's encoding, the first `t` values' encodings come
/// first, and the `t`-th value's encoding follows them.
proof fn lemma_value_list_prefix(vs: Seq<ValueView>, t: int)
    requires
        0 <= t < vs.len(),
    ensures
        enc_value_list(vs.take(t)).len() + enc_value(vs[t]).len() <= enc_value_list(vs).len(),
        enc_value_list(vs).subrange(0, enc_value_list(vs.take(t)).len() as int) == enc_value_list(
            vs.take(t),
        ),
        enc_value_list(vs).subrange(
            enc_value_list(vs.take(t)).len() as int,
            enc_value_list(vs.take(t)).len() + enc_value(vs[t]).len() as int,
        ) == enc_value(vs[t]),
    decreases vs.len(),
{
    let e = enc_value_list(vs);
    let pre = enc_value_list(vs.take(t));
    let mid = enc_value(vs[t]);
    if t == vs.len() - 1 {
        assert(vs.take(t) =~= vs.drop_last());
        assert(e == pre + mid);
        assert(e.subrange(0, pre.len() as int) =~= pre);
        assert(e.subrange(pre.len() as int, pre.len() + mid.len() as int) =~= mid);
    } else {
        let vs2 = vs.drop_last();
        assert(vs2.take(t) =~= vs.take(t));
        assert(vs2[t] == vs[t]);
        lemma_value_list_prefix(vs2, t);
        assert(e.subrange(0, pre.len() as int) =~= enc_value_list(vs2).subrange(
            0,
            pre.len() as int,
        ));
        assert(e.subrange(pre.len() as int, pre.len() + mid.len() as int) =~= enc_value_list(
            vs2,
        ).subrange(pre.len() as int, pre.len() + mid.len() as int));
    }
}

/// No pair encodes to nothing: its key's count field alone is eight bytes.
proof fn lemma_enc_pair_nonempty(p: KvpairView)
    ensures
        enc_pair(p).len() >= 1,
{
}

/// A pair list's encoding is at least one byte per pair.
proof fn lemma_enc_pair_list_len(ps: Seq<KvpairView>)
    ensures
        enc_pair_list(ps).len() >= ps.len(),
    decreases ps.len(),
{
    if ps.len() > 0 {
        lemma_enc_pair_list_len(ps.drop_last());
        lemma_enc_pair_nonempty(ps.last());
    }
}

/// Inside a pair list's encoding, the first `t` pairs' encodings come
/// first, and the `t`-th pair's encoding follows them.
proof fn lemma_pair_list_prefix(ps: Seq<KvpairView>, t: int)
    requires
        0 <= t < ps.len(),
    ensures
        enc_pair_list(ps.take(t)).len() + enc_pair(ps[t]).len() <= enc_pair_list(ps).len(),
        enc_pair_list(ps).subrange(0, enc_pair_list(ps.take(t)).len() as int) == enc_pair_list(
            ps.take(t),
        ),
        enc_pair_list(ps).subrange(
            enc_pair_list(ps.take(t)).len() as int,
            enc_pair_list(ps.take(t)).len() + enc_pair(ps[t]).len() as int,
        ) == enc_pair(ps[t]),
    decreases ps.len(),
{
    let e = enc_pair_list(ps);
    let pre = enc_pair_list(ps.take(t));
    let mid = enc_pair(ps[t]);
    if t == ps.len() - 1 {
        assert(ps.take(t) =~= ps.drop_last());
        assert(e == pre + mid);
        assert(e.subrange(0, pre.len() as int) =~= pre);
        assert(e.subrange(pre.len() as int, pre.len() + mid.len() as int) =~= mid);
    } else {
        let ps2 = ps.drop_last();
        assert(ps2.take(t) =~= ps.take(t));
        assert(ps2[t] == ps[t]);
        lemma_pair_list_prefix(ps2, t);
        assert(e.subrange(0, pre.len() as int) =~= enc_pair_list(ps2).subrange(
            0,
            pre.len() as int,
        ));
        assert(e.subrange(pre.len() as int, pre.len() + mid.len() as int) =~= enc_pair_list(
            ps2,
        ).subrange(pre.len() as int, pre.len() + mid.len() as int));
    }
}

/// Whether a counted value list stands encoded at `pos` of `b`.
pub open spec fn values_at(b: Seq<u8>, pos: int, vs: Seq<ValueView>) -> bool {
    &&& 0 <= pos
    &&& pos + 8 + enc_value_list(vs).len() <= b.len()
    &&& b.subrange(pos, pos + 8 + enc_value_list(vs).len() as int) == enc_u64(vs.len() as u64)
        + enc_value_list(vs)
}

/// Whether a counted pair list stands encoded at `pos` of `b`.
pub open spec fn pairs_at(b: Seq<u8>, pos: int, ps: Seq<KvpairView>) -> bool {
    &&& 0 <= pos
    &&& pos + 8 + enc_pair_list(ps).len() <= b.len()
    &&& b.subrange(pos, pos + 8 + enc_pair_list(ps).len() as int) == enc_u64(ps.len() as u64)
        + enc_pair_list(ps)
}

/// Append the eight little-endian bytes of `x`.
pub fn encode_u64(out: &mut Vec<u8>, x: u64)
    ensures
        final(out)@ == old(out)@ + enc_u64(x),
{
    out.push((x & 0xff) as u8);
    out.push(((x >> 8) & 0xff) as u8);
    out.push(((x >> 16) & 0xff) as u8);
    out.push(((x >> 24) & 0xff) as u8);
    out.push(((x >> 32) & 0xff) as u8);
    out.push(((x >> 40) & 0xff) as u8);
    out.push(((x >> 48) & 0xff) as u8);
    out.push(((x >> 56) & 0xff) as u8);
    proof {
        assert(out@ =~= old(out)@ + enc_u64(x));
    }
}

/// Append the four little-endian bytes of `x`.
pub fn encode_u32(out: &mut Vec<u8>, x: u32)
    ensures
        final(out)@ == old(out)@ + enc_u32(x),
{
    out.push((x & 0xff) as u8);
    out.push(((x >> 8) & 0xff) as u8);
    out.push(((x >> 16) & 0xff) as u8);
    out.push(((x >> 24) & 0xff) as u8);
    proof {
        assert(out@ =~= old(out)@ + enc_u32(x));
    }
}

/// Append a counted run of bytes. This is also how a frame is written: the
/// payload's length, then the payload, so the receiver can split a stream
/// into messages without reading ahead.
pub fn encode_bytes(out: &mut Vec<u8>, b: &[u8])
    ensures
        final(out)@ == old(out)@ + enc_bytes(b@),
{
    encode_u64(out, b.len() as u64);
    let mut t: usize = 0;
    while t < b.len()
        invariant
            t <= b@.len(),
            out@ == old(out)@ + enc_u64(b@.len() as u64) + b@.take(t as int),
        decreases b@.len() - t,
    {
        out.push(b[t]);
        proof {
            assert(b@.take(t + 1 as int) =~= b@.take(t as int).push(b@[t as int]));
            assert(out@ =~= old(out)@ + enc_u64(b@.len() as u64) + b@.take(t + 1 as int));
        }
        t += 1;
    }
    proof {
        assert(b@.take(b@.len() as int) =~= b@);
        assert(out@ =~= old(out)@ + enc_bytes(b@));
    }
}

/// Append a string as its counted UTF-8 bytes.
pub fn encode_str(out: &mut Vec<u8>, s: &str)
    ensures
        final(out)@ == old(out)@ + enc_str(s@),
{
    encode_bytes(out, s.as_bytes());
}

/// Append one value.
pub fn encode_value(out: &mut Vec<u8>, v: &Value)
    ensures
        final(out)@ == old(out)@ + enc_value(v@),
{
    match v {
        Value::Empty => {
            out.push(0u8);
            proof {
                assert(out@ =~= old(out)@ + enc_value(v@));
            }
        },
        Value::Str(s) => {
            out.push(1u8);
            encode_str(out, s.as_str());
            proof {
                assert(out@ =~= old(out)@ + enc_value(v@));
            }
        },
        Value::Int(i) => {
            out.push(2u8);
            encode_u64(out, *i as u64);
            proof {
                assert(out@ =~= old(out)@ + enc_value(v@));
            }
        },
        Value::Float(bits) => {
            out.push(3u8);
            encode_u64(out, *bits);
            proof {
                assert(out@ =~= old(out)@ + enc_value(v@));
            }
        },
        Value::Bool(b) => {
            out.push(4u8);
            out.push(if *b { 1u8 } else { 0u8 });
            proof {
                assert(out@ =~= old(out)@ + enc_value(v@));
            }
        },
        Value::Bytes(bs) => {
            out.push(5u8);
            encode_bytes(out, bs.as_slice());
            proof {
                assert(out@ =~= old(out)@ + enc_value(v@));
            }
        },
    }
}

/// Append one pair: key, then value.
pub fn encode_pair(out: &mut Vec<u8>, p: &Kvpair)
    ensures
        final(out)@ == old(out)@ + enc_pair(p@),
{
    encode_str(out, p.key.as_str());
    encode_value(out, &p.value);
    proof {
        assert(out@ =~= old(out)@ + enc_pair(p@));
    }
}

/// Append a counted list of values.
pub fn encode_values(out: &mut Vec<u8>, vs: &Vec<Value>)
    ensures
        final(out)@ == old(out)@ + enc_u64(vs@.len() as u64) + enc_value_list(vs.deep_view()),
{
    encode_u64(out, vs.len() as u64);
    let mut t: usize = 0;
    while t < vs.len()
        invariant
            t <= vs@.len(),
            out@ == old(out)@ + enc_u64(vs@.len() as u64) + enc_value_list(
                vs.deep_view().take(t as int),
            ),
        decreases vs@.len() - t,
    {
        encode_value(out, &vs[t]);
        proof {
            let dv = vs.deep_view();
            assert(dv.take(t + 1 as int).drop_last() =~= dv.take(t as int));
            assert(dv.take(t + 1 as int).last() == dv[t as int]);
            assert(dv[t as int] == vs@[t as int].deep_view());
            assert(out@ =~= old(out)@ + enc_u64(vs@.len() as u64) + enc_value_list(
                dv.take(t + 1 as int),
            ));
        }
        t += 1;
    }
    proof {
        assert(vs.deep_view().take(vs@.len() as int) =~= vs.deep_view());
    }
}

/// Append a counted list of pairs.
pub fn encode_pairs(out: &mut Vec<u8>, ps: &Vec<Kvpair>)
    ensures
        final(out)@ == old(out)@ + enc_u64(ps@.len() as u64) + enc_pair_list(ps.deep_view()),
{
    encode_u64(out, ps.len() as u64);
    let mut t: usize = 0;
    while t < ps.len()
        invariant
            t <= ps@.len(),
            out@ == old(out)@ + enc_u64(ps@.len() as u64) + enc_pair_list(
                ps.deep_view().take(t as int),
            ),
        decreases ps@.len() - t,
    {
        encode_pair(out, &ps[t]);
        proof {
            let dv = ps.deep_view();
            assert(dv.take(t + 1 as int).drop_last() =~= dv.take(t as int));
            assert(dv.take(t + 1 as int).last() == dv[t as int]);
            assert(dv[t as int] == ps@[t as int].deep_view());
            assert(out@ =~= old(out)@ + enc_u64(ps@.len() as u64) + enc_pair_list(
                dv.take(t + 1 as int),
            ));
        }
        t += 1;
    }
    proof {
        assert(ps.deep_view().take(ps@.len() as int) =~= ps.deep_view());
    }
}

/// Encode one request payload.
pub fn encode_request(req: &CommandRequest) -> (r: Vec<u8>)
    ensures
        r@ == enc_req(req@),
{
    let mut out: Vec<u8> = Vec::new();
    match &req.request_data {
        None => {
            out.push(0u8);
        },
        Some(RequestData::Hget(p)) => {
            out.push(1u8);
            encode_str(&mut out, p.table.as_str());
            encode_str(&mut out, p.key.as_str());
        },
        Some(RequestData::Hgetall(p)) => {
            out.push(2u8);
            encode_str(&mut out, p.table.as_str());
        },
        Some(RequestData::Hset(p)) => {
            out.push(3u8);
            encode_str(&mut out, p.table.as_str());
            encode_pair(&mut out, &p.pair);
        },
        Some(RequestData::Hdel(p)) => {
            out.push(4u8);
            encode_str(&mut out, p.table.as_str());
            encode_str(&mut out, p.key.as_str());
        },
        Some(RequestData::Hexist(p)) => {
            out.push(5u8);
            encode_str(&mut out, p.table.as_str());
            encode_str(&mut out, p.key.as_str());
        },
    }
    proof {
        assert(out@ =~= enc_req(req@));
    }
    out
}

/// Encode one response payload.
pub fn encode_response(resp: &CommandResponse) -> (r: Vec<u8>)
    ensures
        r@ == enc_resp(resp@),
{
    let mut out: Vec<u8> = Vec::new();
    encode_u32(&mut out, resp.status);
    encode_str(&mut out, resp.message.as_str());
    encode_values(&mut out, &resp.values);
    encode_pairs(&mut out, &resp.pairs);
    proof {
        assert(out@ =~= enc_resp(resp@));
    }
    out
}

/// Wrap one encoded payload in a frame.
pub fn write_frame(out: &mut Vec<u8>, payload: &[u8])
    ensures
        final(out)@ == old(out)@ + enc_bytes(payload@),
{
    encode_bytes(out, payload);
}

/// Relies on `String::from_utf8`: it succeeds exactly on valid UTF-8, and
/// returns the string whose UTF-8 encoding is the input.
#[verifier::external_body]
fn string_from_utf8(bytes: Vec<u8>) -> (r: Option<String>)
    ensures
        r matches Some(s) ==> encode_utf8(s@) == bytes@,
        valid_utf8(bytes@) ==> r is Some,
{
    match String::from_utf8(bytes) {
        Ok(s) => Some(s),
        Err(_) => None,
    }
}

/// Read eight little-endian bytes at `pos`; succeeds exactly when they are
/// there, and what was read re-encodes to the bytes consumed.
pub fn decode_u64(buf: &Vec<u8>, pos: usize) -> (r: Option<(u64, usize)>)
    ensures
        r matches Some((x, end)) ==> end == pos + 8 && end <= buf@.len() && buf@.subrange(
            pos as int,
            end as int,
        ) == enc_u64(x),
        r is Some <==> pos + 8 <= buf@.len(),
{
    if pos >= buf.len() || buf.len() - pos < 8 {
        return None;
    }
    let x: u64 = (buf[pos] as u64) | ((buf[pos + 1] as u64) << 8) | ((buf[pos + 2] as u64) << 16)
        | ((buf[pos + 3] as u64) << 24) | ((buf[pos + 4] as u64) << 32) | ((buf[pos + 5] as u64)
        << 40) | ((buf[pos + 6] as u64) << 48) | ((buf[pos + 7] as u64) << 56);
    proof {
        let b0 = buf@[pos as int];
        let b1 = buf@[pos + 1];
        let b2 = buf@[pos + 2];
        let b3 = buf@[pos + 3];
        let b4 = buf@[pos + 4];
        let b5 = buf@[pos + 5];
        let b6 = buf@[pos + 6];
        let b7 = buf@[pos + 7];
        let y = (b0 as u64) | ((b1 as u64) << 8) | ((b2 as u64) << 16) | ((b3 as u64) << 24) | ((
        b4 as u64) << 32) | ((b5 as u64) << 40) | ((b6 as u64) << 48) | ((b7 as u64) << 56);
        assert(y == (b0 as u64) | ((b1 as u64) << 8) | ((b2 as u64) << 16) | ((b3 as u64) << 24)
            | ((b4 as u64) << 32) | ((b5 as u64) << 40) | ((b6 as u64) << 48) | ((b7 as u64) << 56)
            ==> ((y & 0xff) as u8 == b0 && ((y >> 8) & 0xff) as u8 == b1 && ((y >> 16)
            & 0xff) as u8 == b2 && ((y >> 24) & 0xff) as u8 == b3 && ((y >> 32) & 0xff) as u8 == b4
            && ((y >> 40) & 0xff) as u8 == b5 && ((y >> 48) & 0xff) as u8 == b6 && ((y >> 56)
            & 0xff) as u8 == b7)) by (bit_vector);
        assert(buf@.subrange(pos as int, pos + 8 as int) =~= enc_u64(y));
    }
    Some((x, pos + 8))
}

/// Read a counted run of bytes at `pos`; succeeds exactly when the count
/// and that many bytes are there.
pub fn decode_bytes(buf: &Vec<u8>, pos: usize) -> (r: Option<(Vec<u8>, usize)>)
    ensures
        r matches Some((b, end)) ==> pos <= end <= buf@.len() && buf@.subrange(
            pos as int,
            end as int,
        ) == enc_bytes(b@),
        forall|b: Seq<u8>|
            pos + 8 + b.len() <= buf@.len() && buf@.subrange(pos as int, pos + 8 + b.len())
                == #[trigger] enc_bytes(b) ==> (r matches Some(v) && v.0@ == b && v.1 == pos + 8
                + b.len()),
{
    let bl0 = buf.len();
    let (n, p) = match decode_u64(buf, pos) {
        Some(v) => v,
        None => {
            return None;
        },
    };
    proof {
        assert forall|b: Seq<u8>|
            pos + 8 + b.len() <= buf@.len() && buf@.subrange(pos as int, pos + 8 + b.len())
                == #[trigger] enc_bytes(b) implies n == b.len() by {
            assert(b.len() <= bl0);
            let whole = buf@.subrange(pos as int, pos + 8 + b.len());
            assert(enc_u64(b.len() as u64).len() == 8);
            assert forall|i: int| 0 <= i < 8 implies buf@[pos + i] == #[trigger] enc_u64(
                b.len() as u64,
            )[i] by {
                assert(whole[i] == buf@[pos + i]);
                assert(enc_bytes(b)[i] == enc_u64(b.len() as u64)[i]);
            }
            assert(buf@.subrange(pos as int, pos + 8) =~= enc_u64(b.len() as u64));
            lemma_enc_u64_injective(n, b.len() as u64);
        }
    }
    if n > (buf.len() - p) as u64 {
        return None;
    }
    let count: usize = n as usize;
    let bl = buf.len();
    let mut b: Vec<u8> = Vec::new();
    let mut t: usize = 0;
    while t < count
        invariant
            t <= count,
            p + count <= buf@.len(),
            buf@.len() == bl,
            b@ == buf@.subrange(p as int, p + t as int),
        decreases count - t,
    {
        b.push(buf[p + t]);
        proof {
            assert(b@ =~= buf@.subrange(p as int, p + t + 1 as int));
        }
        t += 1;
    }
    proof {
        assert(b@.len() == count);
        assert(buf@.subrange(pos as int, p + count as int) =~= enc_u64(n) + b@);
        assert(enc_bytes(b@) == enc_u64(b@.len() as u64) + b@);
        assert forall|bb: Seq<u8>|
            pos + 8 + bb.len() <= buf@.len() && buf@.subrange(pos as int, pos + 8 + bb.len())
                == #[trigger] enc_bytes(bb) implies b@ == bb by {
            assert(bb.len() == count);
            assert(bb =~= buf@.subrange(pos as int, pos + 8 + bb.len()).subrange(
                8,
                8 + bb.len() as int,
            ));
            assert(bb =~= buf@.subrange(p as int, p + count as int));
        }
    }
    Some((b, p + count))
}

/// Read a string at `pos`: a counted run that must be valid UTF-8.
pub fn decode_str(buf: &Vec<u8>, pos: usize) -> (r: Option<(String, usize)>)
    ensures
        r matches Some((s, end)) ==> pos <= end <= buf@.len() && buf@.subrange(
            pos as int,
            end as int,
        ) == enc_str(s@),
        forall|s: Seq<char>|
            pos + enc_str(s).len() <= buf@.len() && buf@.subrange(pos as int, pos + enc_str(s).len())
                == #[trigger] enc_str(s) ==> (r matches Some(v) && v.0@ == s && v.1 == pos
                + enc_str(s).len()),
{
    let (b, end) = match decode_bytes(buf, pos) {
        Some(v) => v,
        None => {
            return None;
        },
    };
    let ghost bv = b@;
    proof {
        assert forall|s: Seq<char>|
            pos + enc_str(s).len() <= buf@.len() && buf@.subrange(pos as int, pos + enc_str(s).len())
                == #[trigger] enc_str(s) implies bv == encode_utf8(s) && end == pos + enc_str(
            s,
        ).len() by {
            assert(enc_str(s) == enc_bytes(encode_utf8(s)));
        }
    }
    match string_from_utf8(b) {
        Some(s) => {
            proof {
                assert(enc_str(s@) == enc_bytes(encode_utf8(s@)));
                assert forall|s2: Seq<char>|
                    pos + enc_str(s2).len() <= buf@.len() && buf@.subrange(
                        pos as int,
                        pos + enc_str(s2).len(),
                    ) == #[trigger] enc_str(s2) implies s@ == s2 by {
                    crate::value::lemma_encode_utf8_injective(s@, s2);
                }
            }
            Some((s, end))
        },
        None => {
            proof {
                assert forall|s: Seq<char>|
                    !(pos + enc_str(s).len() <= buf@.len() && buf@.subrange(
                        pos as int,
                        pos + enc_str(s).len(),
                    ) == #[trigger] enc_str(s)) by {
                    if pos + enc_str(s).len() <= buf@.len() && buf@.subrange(
                        pos as int,
                        pos + enc_str(s).len(),
                    ) == enc_str(s) {
                        vstd::utf8::encode_utf8_valid_utf8(s);
                    }
                }
            }
            None
        },
    }
}

/// Read one value at `pos`.
pub fn decode_value(buf: &Vec<u8>, pos: usize) -> (r: Option<(Value, usize)>)
    ensures
        r matches Some((v, end)) ==> pos <= end <= buf@.len() && buf@.subrange(
            pos as int,
            end as int,
        ) == enc_value(v@),
        forall|v: ValueView|
            pos + enc_value(v).len() <= buf@.len() && buf@.subrange(
                pos as int,
                pos + enc_value(v).len(),
            ) == #[trigger] enc_value(v) ==> (r matches Some(x) && x.0@ == v && x.1 == pos
                + enc_value(v).len()),
{
    let r = decode_value_inner(buf, pos);
    proof {
        assert forall|v: ValueView|
            pos + enc_value(v).len() <= buf@.len() && buf@.subrange(
                pos as int,
                pos + enc_value(v).len(),
            ) == #[trigger] enc_value(v) implies (r matches Some(x) && x.0@ == v && x.1 == pos
            + enc_value(v).len()) by {
            let e = enc_value(v);
            let w = buf@.subrange(pos as int, pos + e.len());
            assert(w[0] == buf@[pos as int]);
            match v {
                ValueView::Empty => {
                    assert(e[0] == 0);
                },
                ValueView::Str(s) => {
                    assert(e[0] == 1);
                    lemma_split_at(buf@, pos as int, seq![1u8], enc_str(s));
                    lemma_enc_str_len(s);
                },
                ValueView::Int(i) => {
                    assert(e[0] == 2);
                    lemma_split_at(buf@, pos as int, seq![2u8], enc_u64(i as u64));
                    assert(i as u64 as i64 == i) by (bit_vector);
                    lemma_decoded_u64_at(buf@, pos + 1, i as u64);
                },
                ValueView::Float(bits) => {
                    assert(e[0] == 3);
                    lemma_split_at(buf@, pos as int, seq![3u8], enc_u64(bits));
                    lemma_decoded_u64_at(buf@, pos + 1, bits);
                },
                ValueView::Bool(bb) => {
                    assert(e[0] == 4);
                    assert(w[1] == buf@[pos + 1]);
                    assert(buf@[pos + 1] == e[1]);
                },
                ValueView::Bytes(bs) => {
                    assert(e[0] == 5);
                    lemma_split_at(buf@, pos as int, seq![5u8], enc_bytes(bs));
                },
            }
        }
    }
    r
}

/// A fact the list decoders lean on: an encoded string is never shorter than
/// its count field.
proof fn lemma_enc_str_len(s: Seq<char>)
    ensures
        enc_str(s).len() == 8 + encode_utf8(s).len(),
{
}

/// When a window of `buf` spells `head + tail`, the two halves stand at
/// their own offsets.
proof fn lemma_split_at(buf: Seq<u8>, pos: int, head: Seq<u8>, tail: Seq<u8>)
    requires
        0 <= pos,
        pos + head.len() + tail.len() <= buf.len(),
        buf.subrange(pos, pos + head.len() + tail.len()) == head + tail,
    ensures
        buf.subrange(pos, pos + head.len() as int) == head,
        buf.subrange(pos + head.len() as int, pos + head.len() + tail.len()) == tail,
{
    let w = buf.subrange(pos, pos + head.len() + tail.len());
    assert forall|i: int| 0 <= i < head.len() implies buf[pos + i] == head[i] by {
        assert(w[i] == buf[pos + i]);
        assert((head + tail)[i] == head[i]);
    }
    assert forall|i: int| 0 <= i < tail.len() implies buf[pos + head.len() + i] == tail[i] by {
        assert(w[head.len() + i] == buf[pos + head.len() + i]);
        assert((head + tail)[head.len() + i] == tail[i]);
    }
    assert(buf.subrange(pos, pos + head.len() as int) =~= head);
    assert(buf.subrange(pos + head.len() as int, pos + head.len() + tail.len()) =~= tail);
}

fn decode_value_inner(buf: &Vec<u8>, pos: usize) -> (r: Option<(Value, usize)>)
    ensures
        r matches Some((v, end)) ==> pos <= end <= buf@.len() && buf@.subrange(
            pos as int,
            end as int,
        ) == enc_value(v@),
        r matches Some((v, end)) ==> {
            &&& buf@.len() > pos
            &&& buf@[pos as int] == enc_value(v@)[0]
        },
        pos < buf@.len() && buf@[pos as int] == 0 ==> (r matches Some(x) && x.0@
            == ValueView::Empty && x.1 == pos + 1),
        pos < buf@.len() && buf@[pos as int] == 1 ==> (forall|s: Seq<char>|
            pos + 1 + enc_str(s).len() <= buf@.len() && buf@.subrange(
                pos + 1,
                pos + 1 + enc_str(s).len(),
            ) == #[trigger] enc_str(s) ==> (r matches Some(x) && x.0@ == ValueView::Str(s) && x.1
                == pos + 1 + enc_str(s).len())),
        pos < buf@.len() && buf@[pos as int] == 2 && pos + 9 <= buf@.len() ==> (r matches Some(x)
            && x.0@ == ValueView::Int(decoded_u64_at(buf@, pos + 1) as i64) && x.1 == pos + 9),
        pos < buf@.len() && buf@[pos as int] == 3 && pos + 9 <= buf@.len() ==> (r matches Some(x)
            && x.0@ == ValueView::Float(decoded_u64_at(buf@, pos + 1)) && x.1 == pos + 9),
        pos < buf@.len() && buf@[pos as int] == 4 && pos + 2 <= buf@.len() && (buf@[pos + 1] == 0
            || buf@[pos + 1] == 1) ==> (r matches Some(x) && x.0@ == ValueView::Bool(
            buf@[pos + 1] == 1,
        ) && x.1 == pos + 2),
        pos < buf@.len() && buf@[pos as int] == 5 ==> (forall|bs: Seq<u8>|
            pos + 9 + bs.len() <= buf@.len() && buf@.subrange(pos + 1, pos + 9 + bs.len() as int)
                == #[trigger] enc_bytes(bs) ==> (r matches Some(x) && x.0@ == ValueView::Bytes(bs)
                && x.1 == pos + 9 + bs.len())),
{
    if pos >= buf.len() {
        return None;
    }
    let tag = buf[pos];
    if tag == 0 {
        proof {
            assert(buf@.subrange(pos as int, pos + 1 as int) =~= enc_value(ValueView::Empty));
        }
        Some((Value::Empty, pos + 1))
    } else if tag == 1 {
        match decode_str(buf, pos + 1) {
            Some((s, end)) => {
                proof {
                    assert(buf@.subrange(pos as int, end as int) =~= enc_value(
                        ValueView::Str(s@),
                    ));
                    assert forall|s2: Seq<char>|
                        pos + 1 + enc_str(s2).len() <= buf@.len() && buf@.subrange(
                            pos + 1,
                            pos + 1 + enc_str(s2).len(),
                        ) == #[trigger] enc_str(s2) implies s2 == s@ && end == pos + 1 + enc_str(
                        s2,
                    ).len() by {}
                }
                Some((Value::Str(s), end))
            },
            None => None,
        }
    } else if tag == 2 {
        match decode_u64(buf, pos + 1) {
            Some((x, end)) => {
                proof {
                    assert(x as i64 as u64 == x) by (bit_vector);
                    assert(buf@.subrange(pos as int, end as int) =~= enc_value(
                        ValueView::Int(x as i64),
                    ));
                    lemma_decoded_u64_at(buf@, pos + 1, x);
                }
                Some((Value::Int(x as i64), end))
            },
            None => None,
        }
    } else if tag == 3 {
        match decode_u64(buf, pos + 1) {
            Some((x, end)) => {
                proof {
                    assert(buf@.subrange(pos as int, end as int) =~= enc_value(
                        ValueView::Float(x),
                    ));
                    lemma_decoded_u64_at(buf@, pos + 1, x);
                }
                Some((Value::Float(x), end))
            },
            None => None,
        }
    } else if tag == 4 {
        if pos + 1 >= buf.len() {
            return None;
        }
        let bb = buf[pos + 1];
        if bb == 0 || bb == 1 {
            let v = Value::Bool(bb == 1);
            proof {
                assert(buf@.subrange(pos as int, pos + 2 as int) =~= enc_value(
                    ValueView::Bool(bb == 1),
                ));
            }
            Some((v, pos + 2))
        } else {
            None
        }
    } else if tag == 5 {
        match decode_bytes(buf, pos + 1) {
            Some((bs, end)) => {
                proof {
                    assert(buf@.subrange(pos as int, end as int) =~= enc_value(
                        ValueView::Bytes(bs@),
                    ));
                }
                Some((Value::Bytes(bs), end))
            },
            None => None,
        }
    } else {
        None
    }
}

/// The number whose eight little-endian bytes stand at `pos`.
pub open spec fn decoded_u64_at(b: Seq<u8>, pos: int) -> u64
    recommends
        0 <= pos,
        pos + 8 <= b.len(),
{
    choose|x: u64| b.subrange(pos, pos + 8) == enc_u64(x)
}

proof fn lemma_decoded_u64_at(b: Seq<u8>, pos: int, x: u64)
    requires
        0 <= pos,
        pos + 8 <= b.len(),
        b.subrange(pos, pos + 8) == enc_u64(x),
    ensures
        decoded_u64_at(b, pos) == x,
{
    let y = decoded_u64_at(b, pos);
    assert(b.subrange(pos, pos + 8) == enc_u64(y));
    lemma_enc_u64_injective(x, y);
}

/// Read one pair at `pos`: key, then value.
pub fn decode_pair(buf: &Vec<u8>, pos: usize) -> (r: Option<(Kvpair, usize)>)
    ensures
        r matches Some((p, end)) ==> pos <= end <= buf@.len() && buf@.subrange(
            pos as int,
            end as int,
        ) == enc_pair(p@),
        forall|p: KvpairView|
            pos + enc_pair(p).len() <= buf@.len() && buf@.subrange(
                pos as int,
                pos + enc_pair(p).len(),
            ) == #[trigger] enc_pair(p) ==> (r matches Some(x) && x.0@ == p && x.1 == pos
                + enc_pair(p).len()),
{
    let (key, mid) = match decode_str(buf, pos) {
        Some(v) => v,
        None => {
            proof {
                assert forall|p: KvpairView|
                    !(pos + enc_pair(p).len() <= buf@.len() && buf@.subrange(
                        pos as int,
                        pos + enc_pair(p).len(),
                    ) == #[trigger] enc_pair(p)) by {
                    if pos + enc_pair(p).len() <= buf@.len() && buf@.subrange(
                        pos as int,
                        pos + enc_pair(p).len(),
                    ) == enc_pair(p) {
                        lemma_split_at(buf@, pos as int, enc_str(p.key), enc_value(p.value));
                    }
                }
            }
            return None;
        },
    };
    let (value, end) = match decode_value(buf, mid) {
        Some(v) => v,
        None => {
            proof {
                assert forall|p: KvpairView|
                    !(pos + enc_pair(p).len() <= buf@.len() && buf@.subrange(
                        pos as int,
                        pos + enc_pair(p).len(),
                    ) == #[trigger] enc_pair(p)) by {
                    if pos + enc_pair(p).len() <= buf@.len() && buf@.subrange(
                        pos as int,
                        pos + enc_pair(p).len(),
                    ) == enc_pair(p) {
                        lemma_split_at(buf@, pos as int, enc_str(p.key), enc_value(p.value));
                    }
                }
            }
            return None;
        },
    };
    let p = Kvpair { key, value };
    proof {
        assert(buf@.subrange(pos as int, end as int) =~= enc_pair(p@));
        assert forall|p2: KvpairView|
            pos + enc_pair(p2).len() <= buf@.len() && buf@.subrange(
                pos as int,
                pos + enc_pair(p2).len(),
            ) == #[trigger] enc_pair(p2) implies p@ == p2 && end == pos + enc_pair(p2).len() by {
            lemma_split_at(buf@, pos as int, enc_str(p2.key), enc_value(p2.value));
        }
    }
    Some((p, end))
}

/// Read a counted list of values at `pos`.
pub fn decode_values(buf: &Vec<u8>, pos: usize) -> (r: Option<(Vec<Value>, usize)>)
    ensures
        r matches Some((vs, end)) ==> pos <= end <= buf@.len() && buf@.subrange(
            pos as int,
            end as int,
        ) == enc_u64(vs@.len() as u64) + enc_value_list(vs.deep_view()),
        forall|vs2: Seq<ValueView>| #[trigger] values_at(buf@, pos as int, vs2) ==> (
        r matches Some(x) && x.0.deep_view() == vs2 && x.1 == pos + 8 + enc_value_list(vs2).len()),
{
    let bl = buf.len();
    let (n, p) = match decode_u64(buf, pos) {
        Some(v) => v,
        None => {
            return None;
        },
    };
    proof {
        assert forall|vs2: Seq<ValueView>| #[trigger] values_at(buf@, pos as int, vs2) implies (
        vs2.len() == n && buf@.subrange(p as int, p + enc_value_list(vs2).len() as int)
            == enc_value_list(vs2)) by {
            lemma_enc_value_list_len(vs2);
            lemma_split_at(buf@, pos as int, enc_u64(vs2.len() as u64), enc_value_list(vs2));
            lemma_enc_u64_injective(n, vs2.len() as u64);
        }
    }
    if n > buf.len() as u64 {
        proof {
            assert forall|vs2: Seq<ValueView>| !values_at(buf@, pos as int, vs2) by {
                if values_at(buf@, pos as int, vs2) {
                    lemma_enc_value_list_len(vs2);
                }
            }
        }
        return None;
    }
    let count: usize = n as usize;
    let mut vs: Vec<Value> = Vec::new();
    let mut q: usize = p;
    let mut t: usize = 0;
    proof {
        assert(vs.deep_view() =~= Seq::<ValueView>::empty());
        assert(buf@.subrange(p as int, p as int) =~= Seq::<u8>::empty());
        assert forall|vs2: Seq<ValueView>| #[trigger] values_at(buf@, pos as int, vs2) implies (
        vs.deep_view() == vs2.take(0) && q == p + enc_value_list(vs2.take(0)).len()) by {
            assert(vs2.take(0) =~= Seq::<ValueView>::empty());
        }
    }
    while t < count
        invariant
            t <= count,
            p == pos + 8,
            p <= q <= buf@.len(),
            buf@.len() == bl,
            count as u64 == n,
            vs@.len() == t,
            buf@.subrange(p as int, q as int) == enc_value_list(vs.deep_view()),
            forall|vs2: Seq<ValueView>| #[trigger] values_at(buf@, pos as int, vs2) ==> (vs2.len()
                == n && buf@.subrange(p as int, p + enc_value_list(vs2).len() as int)
                == enc_value_list(vs2) && vs.deep_view() == vs2.take(t as int) && q == p
                + enc_value_list(vs2.take(t as int)).len()),
        decreases count - t,
    {
        proof {
            assert forall|vs2: Seq<ValueView>| #[trigger] values_at(buf@, pos as int, vs2) implies (
            t < vs2.len() && q + enc_value(vs2[t as int]).len() <= buf@.len() && buf@.subrange(
                q as int,
                q + enc_value(vs2[t as int]).len() as int,
            ) == enc_value(vs2[t as int])) by {
                lemma_value_list_prefix(vs2, t as int);
                let el = enc_value_list(vs2);
                let lt = enc_value_list(vs2.take(t as int)).len();
                assert forall|i: int|
                    0 <= i < enc_value(vs2[t as int]).len() implies buf@[q + i]
                        == #[trigger] enc_value(vs2[t as int])[i] by {
                    assert(buf@.subrange(p as int, p + el.len() as int)[lt + i] == buf@[p + lt
                        + i]);
                    assert(el.subrange(lt as int, lt + enc_value(vs2[t as int]).len() as int)[i]
                        == el[lt + i]);
                }
                assert(buf@.subrange(q as int, q + enc_value(vs2[t as int]).len() as int)
                    =~= enc_value(vs2[t as int]));
            }
        }
        let (v, q2) = match decode_value(buf, q) {
            Some(x) => x,
            None => {
                return None;
            },
        };
        let ghost dv0 = vs.deep_view();
        vs.push(v);
        proof {
            let dv = vs.deep_view();
            assert(dv.drop_last() =~= dv0);
            assert(dv.last() == v@);
            assert(buf@.subrange(p as int, q2 as int) =~= buf@.subrange(p as int, q as int)
                + buf@.subrange(q as int, q2 as int));
            assert(enc_value_list(dv) == enc_value_list(dv0) + enc_value(v@));
            assert forall|vs2: Seq<ValueView>| #[trigger] values_at(buf@, pos as int, vs2) implies (
            dv == vs2.take(t + 1 as int) && q2 == p + enc_value_list(vs2.take(t + 1 as int)).len())
                by {
                assert(vs2.take(t + 1 as int).drop_last() =~= vs2.take(t as int));
                assert(vs2.take(t + 1 as int).last() == vs2[t as int]);
                assert(dv =~= vs2.take(t + 1 as int));
            }
        }
        q = q2;
        t += 1;
    }
    proof {
        assert(count as u64 == n);
        assert(buf@.subrange(pos as int, q as int) =~= buf@.subrange(pos as int, p as int)
            + buf@.subrange(p as int, q as int));
        assert forall|vs2: Seq<ValueView>| #[trigger] values_at(buf@, pos as int, vs2) implies (
        vs.deep_view() == vs2 && q == p + enc_value_list(vs2).len()) by {
            assert(vs2.take(vs2.len() as int) =~= vs2);
        }
    }
    Some((vs, q))
}

/// Read a counted list of pairs at `pos`.
pub fn decode_pairs(buf: &Vec<u8>, pos: usize) -> (r: Option<(Vec<Kvpair>, usize)>)
    ensures
        r matches Some((ps, end)) ==> pos <= end <= buf@.len() && buf@.subrange(
            pos as int,
            end as int,
        ) == enc_u64(ps@.len() as u64) + enc_pair_list(ps.deep_view()),
        forall|ps2: Seq<KvpairView>| #[trigger] pairs_at(buf@, pos as int, ps2) ==> (
        r matches Some(x) && x.0.deep_view() == ps2 && x.1 == pos + 8 + enc_pair_list(ps2).len()),
{
    let bl = buf.len();
    let (n, p) = match decode_u64(buf, pos) {
        Some(v) => v,
        None => {
            return None;
        },
    };
    proof {
        assert forall|ps2: Seq<KvpairView>| #[trigger] pairs_at(buf@, pos as int, ps2) implies (
        ps2.len() == n && buf@.subrange(p as int, p + enc_pair_list(ps2).len() as int)
            == enc_pair_list(ps2)) by {
            lemma_enc_pair_list_len(ps2);
            lemma_split_at(buf@, pos as int, enc_u64(ps2.len() as u64), enc_pair_list(ps2));
            lemma_enc_u64_injective(n, ps2.len() as u64);
        }
    }
    if n > buf.len() as u64 {
        proof {
            assert forall|ps2: Seq<KvpairView>| !pairs_at(buf@, pos as int, ps2) by {
                if pairs_at(buf@, pos as int, ps2) {
                    lemma_enc_pair_list_len(ps2);
                }
            }
        }
        return None;
    }
    let count: usize = n as usize;
    let mut ps: Vec<Kvpair> = Vec::new();
    let mut q: usize = p;
    let mut t: usize = 0;
    proof {
        assert(ps.deep_view() =~= Seq::<KvpairView>::empty());
        assert(buf@.subrange(p as int, p as int) =~= Seq::<u8>::empty());
        assert forall|ps2: Seq<KvpairView>| #[trigger] pairs_at(buf@, pos as int, ps2) implies (
        ps.deep_view() == ps2.take(0) && q == p + enc_pair_list(ps2.take(0)).len()) by {
            assert(ps2.take(0) =~= Seq::<KvpairView>::empty());
        }
    }
    while t < count
        invariant
            t <= count,
            p == pos + 8,
            p <= q <= buf@.len(),
            buf@.len() == bl,
            count as u64 == n,
            ps@.len() == t,
            buf@.subrange(p as int, q as int) == enc_pair_list(ps.deep_view()),
            forall|ps2: Seq<KvpairView>| #[trigger] pairs_at(buf@, pos as int, ps2) ==> (ps2.len()
                == n && buf@.subrange(p as int, p + enc_pair_list(ps2).len() as int)
                == enc_pair_list(ps2) && ps.deep_view() == ps2.take(t as int) && q == p
                + enc_pair_list(ps2.take(t as int)).len()),
        decreases count - t,
    {
        proof {
            assert forall|ps2: Seq<KvpairView>| #[trigger] pairs_at(buf@, pos as int, ps2) implies (
            t < ps2.len() && q + enc_pair(ps2[t as int]).len() <= buf@.len() && buf@.subrange(
                q as int,
                q + enc_pair(ps2[t as int]).len() as int,
            ) == enc_pair(ps2[t as int])) by {
                lemma_pair_list_prefix(ps2, t as int);
                let el = enc_pair_list(ps2);
                let lt = enc_pair_list(ps2.take(t as int)).len();
                assert forall|i: int|
                    0 <= i < enc_pair(ps2[t as int]).len() implies buf@[q + i]
                        == #[trigger] enc_pair(ps2[t as int])[i] by {
                    assert(buf@.subrange(p as int, p + el.len() as int)[lt + i] == buf@[p + lt
                        + i]);
                    assert(el.subrange(lt as int, lt + enc_pair(ps2[t as int]).len() as int)[i]
                        == el[lt + i]);
                }
                assert(buf@.subrange(q as int, q + enc_pair(ps2[t as int]).len() as int)
                    =~= enc_pair(ps2[t as int]));
            }
        }
        let (v, q2) = match decode_pair(buf, q) {
            Some(x) => x,
            None => {
                return None;
            },
        };
        let ghost dv0 = ps.deep_view();
        ps.push(v);
        proof {
            let dv = ps.deep_view();
            assert(dv.drop_last() =~= dv0);
            assert(dv.last() == v@);
            assert(buf@.subrange(p as int, q2 as int) =~= buf@.subrange(p as int, q as int)
                + buf@.subrange(q as int, q2 as int));
            assert(enc_pair_list(dv) == enc_pair_list(dv0) + enc_pair(v@));
            assert forall|ps2: Seq<KvpairView>| #[trigger] pairs_at(buf@, pos as int, ps2) implies (
            dv == ps2.take(t + 1 as int) && q2 == p + enc_pair_list(ps2.take(t + 1 as int)).len())
                by {
                assert(ps2.take(t + 1 as int).drop_last() =~= ps2.take(t as int));
                assert(ps2.take(t + 1 as int).last() == ps2[t as int]);
                assert(dv =~= ps2.take(t + 1 as int));
            }
        }
        q = q2;
        t += 1;
    }
    proof {
        assert(count as u64 == n);
        assert(buf@.subrange(pos as int, q as int) =~= buf@.subrange(pos as int, p as int)
            + buf@.subrange(p as int, q as int));
        assert forall|ps2: Seq<KvpairView>| #[trigger] pairs_at(buf@, pos as int, ps2) implies (
        ps.deep_view() == ps2 && q == p + enc_pair_list(ps2).len()) by {
            assert(ps2.take(ps2.len() as int) =~= ps2);
        }
    }
    Some((ps, q))
}

/// Decode one whole request payload; the payload must hold exactly one
/// request and nothing more. Decoding succeeds exactly on well-formed
/// encodings, and it inverts them: the request that comes back is the one
/// whose encoding was sent.
#[verifier::rlimit(100)]
#[verifier::spinoff_prover]
pub fn decode_request(buf: &Vec<u8>) -> (r: Option<CommandRequest>)
    ensures
        r matches Some(req) ==> buf@ == enc_req(req@),
        forall|rv: crate::command::ReqView| buf@ == #[trigger] enc_req(rv) ==> (r matches Some(req)
            && req@ == rv),
{
    if buf.len() == 0 {
        proof {
            assert forall|rv: crate::command::ReqView| buf@ != #[trigger] enc_req(rv) by {
                req_enc_shape(rv);
            }
        }
        return None;
    }
    let tag = buf[0];
    proof {
        assert forall|rv: crate::command::ReqView| buf@ == #[trigger] enc_req(rv) implies {
            &&& enc_req(rv)[0] == tag
            &&& buf@.subrange(0, buf@.len() as int) == buf@
        } by {
            assert(buf@.subrange(0, buf@.len() as int) =~= buf@);
        }
    }
    if tag == 0 {
        proof {
            assert forall|rv: crate::command::ReqView| buf@ == #[trigger] enc_req(rv) implies rv
                == (crate::command::ReqView { data: None }) && buf@.len() == 1 by {
                req_enc_shape(rv);
                if rv.data is Some {
                    assert(enc_req(rv)[0] != 0);
                }
                assert(rv =~= (crate::command::ReqView { data: None }));
            }
        }
        if buf.len() != 1 {
            return None;
        }
        let req = CommandRequest { request_data: None };
        proof {
            assert(buf@ =~= enc_req(req@));
        }
        Some(req)
    } else if tag == 2 {
        proof {
            assert forall|rv: crate::command::ReqView| buf@ == #[trigger] enc_req(rv) implies (
            rv.data matches Some(ReqDataView::Hgetall { table }) && buf@.len() == 1 + enc_str(
                table,
            ).len() && buf@.subrange(1, 1 + enc_str(table).len() as int) == enc_str(table)) by {
                req_enc_shape(rv);
                match rv.data {
                    Some(ReqDataView::Hgetall { table }) => {
                        lemma_split_at(buf@, 0, seq![2u8], enc_str(table));
                    },
                    _ => {
                        assert(enc_req(rv)[0] != 2);
                    },
                }
            }
        }
        let (table, end) = match decode_str(buf, 1) {
            Some(v) => v,
            None => {
                return None;
            },
        };
        if end != buf.len() {
            return None;
        }
        let req = CommandRequest {
            request_data: Some(RequestData::Hgetall(Hgetall { table })),
        };
        proof {
            assert(buf@ =~= enc_req(req@));
            assert forall|rv: crate::command::ReqView| buf@ == #[trigger] enc_req(rv) implies req@
                == rv by {
                assert(req@ =~= rv);
            }
        }
        Some(req)
    } else if tag == 3 {
        proof {
            assert forall|rv: crate::command::ReqView| buf@ == #[trigger] enc_req(rv) implies (
            rv.data matches Some(ReqDataView::Hset { table, pair }) && buf@.len() == 1 + enc_str(
                table,
            ).len() + enc_pair(pair).len() && buf@.subrange(1, 1 + enc_str(table).len() as int)
                == enc_str(table) && buf@.subrange(
                1 + enc_str(table).len() as int,
                1 + enc_str(table).len() + enc_pair(pair).len() as int,
            ) == enc_pair(pair)) by {
                req_enc_shape(rv);
                match rv.data {
                    Some(ReqDataView::Hset { table, pair }) => {
                        let rest = enc_str(table) + enc_pair(pair);
                        assert(buf@.subrange(0, 1 + rest.len() as int) =~= seq![3u8] + rest);
                        lemma_split_at(buf@, 0, seq![3u8], rest);
                        lemma_split_at(buf@, 1, enc_str(table), enc_pair(pair));
                    },
                    _ => {
                        assert(enc_req(rv)[0] != 3);
                    },
                }
            }
        }
        let (table, mid) = match decode_str(buf, 1) {
            Some(v) => v,
            None => {
                return None;
            },
        };
        let (pair, end) = match decode_pair(buf, mid) {
            Some(v) => v,
            None => {
                return None;
            },
        };
        if end != buf.len() {
            return None;
        }
        let req = CommandRequest { request_data: Some(RequestData::Hset(Hset { table, pair })) };
        proof {
            assert(buf@ =~= enc_req(req@));
            assert forall|rv: crate::command::ReqView| buf@ == #[trigger] enc_req(rv) implies req@
                == rv by {
                assert(req@ =~= rv);
            }
        }
        Some(req)
    } else if tag == 1 || tag == 4 || tag == 5 {
        proof {
            assert forall|rv: crate::command::ReqView| buf@ == #[trigger] enc_req(rv) implies
                two_field_shape(rv, buf@, tag) by {
                req_enc_shape(rv);
                match rv.data {
                    Some(ReqDataView::Hget { table, key }) => {
                        let rest = enc_str(table) + enc_str(key);
                        assert(buf@.subrange(0, 1 + rest.len() as int) =~= seq![1u8] + rest);
                        lemma_split_at(buf@, 0, seq![1u8], rest);
                        lemma_split_at(buf@, 1, enc_str(table), enc_str(key));
                    },
                    Some(ReqDataView::Hdel { table, key }) => {
                        let rest = enc_str(table) + enc_str(key);
                        assert(buf@.subrange(0, 1 + rest.len() as int) =~= seq![4u8] + rest);
                        lemma_split_at(buf@, 0, seq![4u8], rest);
                        lemma_split_at(buf@, 1, enc_str(table), enc_str(key));
                    },
                    Some(ReqDataView::Hexist { table, key }) => {
                        let rest = enc_str(table) + enc_str(key);
                        assert(buf@.subrange(0, 1 + rest.len() as int) =~= seq![5u8] + rest);
                        lemma_split_at(buf@, 0, seq![5u8], rest);
                        lemma_split_at(buf@, 1, enc_str(table), enc_str(key));
                    },
                    _ => {
                        assert(enc_req(rv)[0] != 1 && enc_req(rv)[0] != 4 && enc_req(rv)[0] != 5);
                    },
                }
            }
        }
        let (table, mid) = match decode_str(buf, 1) {
            Some(v) => v,
            None => {
                return None;
            },
        };
        let (key, end) = match decode_str(buf, mid) {
            Some(v) => v,
            None => {
                return None;
            },
        };
        if end != buf.len() {
            return None;
        }
        let req = if tag == 1 {
            CommandRequest { request_data: Some(RequestData::Hget(Hget { table, key })) }
        } else if tag == 4 {
            CommandRequest { request_data: Some(RequestData::Hdel(Hdel { table, key })) }
        } else {
            CommandRequest { request_data: Some(RequestData::Hexist(Hexist { table, key })) }
        };
        proof {
            assert(buf@ =~= enc_req(req@));
            assert forall|rv: crate::command::ReqView| buf@ == #[trigger] enc_req(rv) implies req@
                == rv by {
                assert(req@ =~= rv);
            }
        }
        Some(req)
    } else {
        proof {
            assert forall|rv: crate::command::ReqView| buf@ != #[trigger] enc_req(rv) by {
                req_enc_shape(rv);
                if buf@ == enc_req(rv) {
                    if rv.data is Some {
                        assert(enc_req(rv)[0] == 1 || enc_req(rv)[0] == 2 || enc_req(rv)[0] == 3
                            || enc_req(rv)[0] == 4 || enc_req(rv)[0] == 5);
                    }
                }
            }
        }
        None
    }
}

/// The layout shared by the three table-and-key requests.
pub open spec fn two_field_shape(rv: crate::command::ReqView, b: Seq<u8>, tag: u8) -> bool {
    match rv.data {
        Some(ReqDataView::Hget { table, key }) => tag == 1 && b.len() == 1 + enc_str(table).len()
            + enc_str(key).len() && b.subrange(1, 1 + enc_str(table).len() as int) == enc_str(table)
            && b.subrange(
            1 + enc_str(table).len() as int,
            1 + enc_str(table).len() + enc_str(key).len() as int,
        ) == enc_str(key),
        Some(ReqDataView::Hdel { table, key }) => tag == 4 && b.len() == 1 + enc_str(table).len()
            + enc_str(key).len() && b.subrange(1, 1 + enc_str(table).len() as int) == enc_str(table)
            && b.subrange(
            1 + enc_str(table).len() as int,
            1 + enc_str(table).len() + enc_str(key).len() as int,
        ) == enc_str(key),
        Some(ReqDataView::Hexist { table, key }) => tag == 5 && b.len() == 1 + enc_str(table).len()
            + enc_str(key).len() && b.subrange(1, 1 + enc_str(table).len() as int) == enc_str(table)
            && b.subrange(
            1 + enc_str(table).len() as int,
            1 + enc_str(table).len() + enc_str(key).len() as int,
        ) == enc_str(key),
        _ => false,
    }
}

/// Every request encoding opens with its variant's tag byte.
proof fn req_enc_shape(rv: crate::command::ReqView)
    ensures
        enc_req(rv).len() >= 1,
        rv.data is None ==> enc_req(rv) == seq![0u8] && enc_req(rv)[0] == 0,
        rv.data matches Some(d) ==> match d {
            ReqDataView::Hget { table, key } => enc_req(rv)[0] == 1 && enc_req(rv).len() == 1
                + enc_str(table).len() + enc_str(key).len(),
            ReqDataView::Hgetall { table } => enc_req(rv)[0] == 2 && enc_req(rv).len() == 1
                + enc_str(table).len(),
            ReqDataView::Hset { table, pair } => enc_req(rv)[0] == 3 && enc_req(rv).len() == 1
                + enc_str(table).len() + enc_pair(pair).len(),
            ReqDataView::Hdel { table, key } => enc_req(rv)[0] == 4 && enc_req(rv).len() == 1
                + enc_str(table).len() + enc_str(key).len(),
            ReqDataView::Hexist { table, key } => enc_req(rv)[0] == 5 && enc_req(rv).len() == 1
                + enc_str(table).len() + enc_str(key).len(),
        },
{
}

/// Decode one whole response payload; the payload must hold exactly one
/// response and nothing more. Decoding succeeds exactly on well-formed
/// encodings, and it inverts them: the response that comes back is the one
/// whose encoding was sent.
#[verifier::rlimit(100)]
#[verifier::spinoff_prover]
pub fn decode_response(buf: &Vec<u8>) -> (r: Option<CommandResponse>)
    ensures
        r matches Some(resp) ==> buf@ == enc_resp(resp@),
        forall|rv: crate::command::RespView| buf@ == #[trigger] enc_resp(rv) ==> (r matches Some(
            resp,
        ) && resp@ == rv),
{
    proof {
        assert forall|rv: crate::command::RespView| buf@ == #[trigger] enc_resp(rv) implies (
        buf@.len() == 4 + enc_str(rv.message).len() + 8 + enc_value_list(rv.values).len() + 8
            + enc_pair_list(rv.pairs).len() && buf@.subrange(0, 4) == enc_u32(rv.status)
            && buf@.subrange(4, 4 + enc_str(rv.message).len() as int) == enc_str(rv.message)
            && values_at(buf@, 4 + enc_str(rv.message).len() as int, rv.values) && pairs_at(
            buf@,
            4 + enc_str(rv.message).len() + 8 + enc_value_list(rv.values).len() as int,
            rv.pairs,
        )) by {
            let s1 = enc_u32(rv.status);
            let s2 = enc_str(rv.message);
            let s3 = enc_u64(rv.values.len() as u64) + enc_value_list(rv.values);
            let s4 = enc_u64(rv.pairs.len() as u64) + enc_pair_list(rv.pairs);
            assert(buf@.subrange(0, buf@.len() as int) =~= buf@);
            assert(buf@.subrange(0, (s1.len() + s2.len() + s3.len() + s4.len()) as int) =~= s1 + (
            s2 + (s3 + s4)));
            lemma_split_at(buf@, 0, s1, s2 + (s3 + s4));
            lemma_split_at(buf@, s1.len() as int, s2, s3 + s4);
            lemma_split_at(buf@, (s1.len() + s2.len()) as int, s3, s4);
        }
    }
    let (status, p1) = match decode_u32(buf, 0) {
        Some(v) => v,
        None => {
            return None;
        },
    };
    let (message, p2) = match decode_str(buf, p1) {
        Some(v) => v,
        None => {
            return None;
        },
    };
    let (values, p3) = match decode_values(buf, p2) {
        Some(v) => v,
        None => {
            return None;
        },
    };
    let (pairs, p4) = match decode_pairs(buf, p3) {
        Some(v) => v,
        None => {
            return None;
        },
    };
    if p4 != buf.len() {
        return None;
    }
    let resp = CommandResponse { status, message, values, pairs };
    proof {
        assert(buf@.subrange(0, p4 as int) =~= buf@.subrange(0, p1 as int) + buf@.subrange(
            p1 as int,
            p2 as int,
        ) + buf@.subrange(p2 as int, p3 as int) + buf@.subrange(p3 as int, p4 as int));
        assert(buf@ =~= buf@.subrange(0, p4 as int));
        assert(buf@ =~= enc_resp(resp@));
        assert forall|rv: crate::command::RespView| buf@ == #[trigger] enc_resp(rv) implies resp@
            == rv by {
            lemma_enc_u32_injective(status, rv.status);
            assert(resp@ =~= rv);
        }
    }
    Some(resp)
}

/// Read four little-endian bytes at `pos`; succeeds exactly when they are
/// there, and what was read re-encodes to the bytes consumed.
pub fn decode_u32(buf: &Vec<u8>, pos: usize) -> (r: Option<(u32, usize)>)
    ensures
        r matches Some((x, end)) ==> end == pos + 4 && end <= buf@.len() && buf@.subrange(
            pos as int,
            end as int,
        ) == enc_u32(x),
        r is Some <==> pos + 4 <= buf@.len(),
{
    if pos >= buf.len() || buf.len() - pos < 4 {
        return None;
    }
    let x: u32 = (buf[pos] as u32) | ((buf[pos + 1] as u32) << 8) | ((buf[pos + 2] as u32) << 16)
        | ((buf[pos + 3] as u32) << 24);
    proof {
        let b0 = buf@[pos as int];
        let b1 = buf@[pos + 1];
        let b2 = buf@[pos + 2];
        let b3 = buf@[pos + 3];
        let y = (b0 as u32) | ((b1 as u32) << 8) | ((b2 as u32) << 16) | ((b3 as u32) << 24);
        assert(y == (b0 as u32) | ((b1 as u32) << 8) | ((b2 as u32) << 16) | ((b3 as u32) << 24)
            ==> ((y & 0xff) as u8 == b0 && ((y >> 8) & 0xff) as u8 == b1 && ((y >> 16)
            & 0xff) as u8 == b2 && ((y >> 24) & 0xff) as u8 == b3)) by (bit_vector);
        assert(buf@.subrange(pos as int, pos + 4 as int) =~= enc_u32(y));
    }
    Some((x, pos + 4))
}

/// Split the next frame off a stream prefix: the payload and where the next
/// frame starts. A failed decode of one payload never moves this boundary,
/// so later frames on the stream stay intact.
pub fn read_frame(buf: &Vec<u8>, pos: usize) -> (r: Option<(Vec<u8>, usize)>)
    ensures
        r matches Some((payload, end)) ==> pos <= end <= buf@.len() && buf@.subrange(
            pos as int,
            end as int,
        ) == enc_bytes(payload@),
        forall|b: Seq<u8>|
            pos + 8 + b.len() <= buf@.len() && buf@.subrange(pos as int, pos + 8 + b.len())
                == #[trigger] enc_bytes(b) ==> (r matches Some(v) && v.0@ == b && v.1 == pos + 8
                + b.len()),
{
    decode_bytes(buf, pos)
}

} // verus!
