use vstd::prelude::*;

use crate::bytes::{copy_range, opt_view};
use crate::replication::ReplicationState;

verus! {

/// The eight bytes of `n`, least significant first.
pub open spec fn u64_le(n: u64) -> Seq<u8> {
    seq![
        n as u8,
        (n >> 8u64) as u8,
        (n >> 16u64) as u8,
        (n >> 24u64) as u8,
        (n >> 32u64) as u8,
        (n >> 40u64) as u8,
        (n >> 48u64) as u8,
        (n >> 56u64) as u8,
    ]
}

/// The number whose eight bytes, least significant first, are `b0` to `b7`.
pub open spec fn le_u64(b0: u8, b1: u8, b2: u8, b3: u8, b4: u8, b5: u8, b6: u8, b7: u8) -> u64 {
    (b0 as u64) | ((b1 as u64) << 8u64) | ((b2 as u64) << 16u64) | ((b3 as u64) << 24u64) | ((
    b4 as u64) << 32u64) | ((b5 as u64) << 40u64) | ((b6 as u64) << 48u64) | ((b7 as u64)
        << 56u64)
}

/// An optional identifier: a zero byte for none; else a one byte, the
/// length in one byte, then the bytes.
pub open spec fn encode_opt(o: Option<Seq<u8>>) -> Seq<u8> {
    match o {
        None => seq![0u8],
        Some(b) => seq![1u8, b.len() as u8] + b,
    }
}

/// The record of a replication state: the last source identifier, the last
/// target identifier, then the count in eight bytes.
pub open spec fn record_bytes(src: Option<Seq<u8>>, tgt: Option<Seq<u8>>, count: u64) -> Seq<u8> {
    encode_opt(src) + encode_opt(tgt) + u64_le(count)
}

/// Reads an optional identifier at the start of `b`, with what follows it.
pub open spec fn parse_opt(b: Seq<u8>) -> Option<(Option<Seq<u8>>, Seq<u8>)> {
    if b.len() == 0 {
        None
    } else if b[0] == 0 {
        Some((None, b.drop_first()))
    } else if b[0] == 1 && b.len() >= 2 && b.len() >= 2 + b[1] {
        Some((Some(b.subrange(2, 2 + b[1])), b.subrange(2 + b[1], b.len() as int)))
    } else {
        None
    }
}

/// The state a record holds, or none if `b` is no record.
pub open spec fn decode_spec(b: Seq<u8>) -> Option<(Option<Seq<u8>>, Option<Seq<u8>>, u64)> {
    match parse_opt(b) {
        None => None,
        Some((src, r1)) => match parse_opt(r1) {
            None => None,
            Some((tgt, r2)) => if r2.len() == 8 {
                Some((src, tgt, le_u64(r2[0], r2[1], r2[2], r2[3], r2[4], r2[5], r2[6], r2[7])))
            } else {
                None
            },
        },
    }
}

/// An identifier fits in a record.
pub open spec fn fits(o: Option<Seq<u8>>) -> bool {
    match o {
        None => true,
        Some(b) => b.len() < 256,
    }
}

fn push_opt(out: &mut Vec<u8>, o: &Option<Vec<u8>>)
    requires
        fits(opt_view(*o)),
    ensures
        final(out)@ == old(out)@ + encode_opt(opt_view(*o)),
{
    match o {
        None => {
            out.push(0u8);
        },
        Some(b) => {
            out.push(1u8);
            out.push(b.len() as u8);
            let mut i: usize = 0;
            let ghost start = out@;
            while i < b.len()
                invariant
                    i <= b.len(),
                    out@ =~= start + b@.subrange(0, i as int),
                decreases b.len() - i,
            {
                out.push(b[i]);
                i = i + 1;
            }
            assert(b@.subrange(0, b@.len() as int) =~= b@);
            assert(out@ =~= old(out)@ + encode_opt(opt_view(*o)));
        },
    }
}

/// The record of `s`, to be persisted after each published commit.
pub fn encode_state(s: &ReplicationState) -> (r: Vec<u8>)
    requires
        fits(opt_view(s.last_source)),
        fits(opt_view(s.last_target)),
    ensures
        r@ == record_bytes(opt_view(s.last_source), opt_view(s.last_target), s.replicated_count),
{
    let mut out: Vec<u8> = Vec::new();
    push_opt(&mut out, &s.last_source);
    push_opt(&mut out, &s.last_target);
    let n = s.replicated_count;
    out.push(n as u8);
    out.push((n >> 8u64) as u8);
    out.push((n >> 16u64) as u8);
    out.push((n >> 24u64) as u8);
    out.push((n >> 32u64) as u8);
    out.push((n >> 40u64) as u8);
    out.push((n >> 48u64) as u8);
    out.push((n >> 56u64) as u8);
    assert(out@ =~= record_bytes(
        opt_view(s.last_source),
        opt_view(s.last_target),
        s.replicated_count,
    ));
    out
}

fn parse_opt_at(b: &Vec<u8>, pos: usize) -> (r: Option<(Option<Vec<u8>>, usize)>)
    requires
        pos <= b.len(),
    ensures
        match r {
            None => parse_opt(b@.subrange(pos as int, b@.len() as int)) is None,
            Some((v, np)) => {
                &&& pos <= np <= b.len()
                &&& parse_opt(b@.subrange(pos as int, b@.len() as int)) == Some(
                    (opt_view(v), b@.subrange(np as int, b@.len() as int)),
                )
            },
        },
{
    let ghost rest = b@.subrange(pos as int, b@.len() as int);
    if pos == b.len() {
        return None;
    }
    if b[pos] == 0 {
        assert(rest.drop_first() =~= b@.subrange(pos + 1, b@.len() as int));
        return Some((None, pos + 1));
    }
    if b[pos] == 1 && b.len() - pos >= 2 && b.len() - pos - 2 >= b[pos + 1] as usize {
        let end = pos + 2 + b[pos + 1] as usize;
        let v = copy_range(b, pos + 2, end);
        assert(rest.subrange(2, 2 + rest[1]) =~= b@.subrange(pos + 2, end as int));
        assert(rest.subrange(2 + rest[1], rest.len() as int) =~= b@.subrange(
            end as int,
            b@.len() as int,
        ));
        return Some((Some(v), end));
    }
    None
}

/// Reads back a persisted state; none if `b` is not a record.
pub fn decode_state(b: &Vec<u8>) -> (r: Option<ReplicationState>)
    ensures
        match r {
            None => decode_spec(b@) is None,
            Some(s) => decode_spec(b@) == Some(
                (opt_view(s.last_source), opt_view(s.last_target), s.replicated_count),
            ),
        },
{
    assert(b@.subrange(0, b@.len() as int) =~= b@);
    let (src, p1) = match parse_opt_at(b, 0) {
        None => return None,
        Some(x) => x,
    };
    let (tgt, p2) = match parse_opt_at(b, p1) {
        None => return None,
        Some(x) => x,
    };
    if b.len() - p2 != 8 {
        return None;
    }
    let n = (b[p2] as u64) | ((b[p2 + 1] as u64) << 8u64) | ((b[p2 + 2] as u64) << 16u64) | ((
    b[p2 + 3] as u64) << 24u64) | ((b[p2 + 4] as u64) << 32u64) | ((b[p2 + 5] as u64)
        << 40u64) | ((b[p2 + 6] as u64) << 48u64) | ((b[p2 + 7] as u64) << 56u64);
    Some(ReplicationState { last_source: src, last_target: tgt, replicated_count: n })
}

proof fn lemma_u64_le_round_trip(n: u64)
    ensures
        le_u64(
            n as u8,
            (n >> 8u64) as u8,
            (n >> 16u64) as u8,
            (n >> 24u64) as u8,
            (n >> 32u64) as u8,
            (n >> 40u64) as u8,
            (n >> 48u64) as u8,
            (n >> 56u64) as u8,
        ) == n,
{
    assert(((n as u8) as u64) | ((((n >> 8u64) as u8) as u64) << 8u64) | ((((n >> 16u64) as u8)
        as u64) << 16u64) | ((((n >> 24u64) as u8) as u64) << 24u64) | ((((n >> 32u64) as u8)
        as u64) << 32u64) | ((((n >> 40u64) as u8) as u64) << 40u64) | ((((n >> 48u64) as u8)
        as u64) << 48u64) | ((((n >> 56u64) as u8) as u64) << 56u64) == n) by (bit_vector);
}

proof fn lemma_parse_opt_round_trip(o: Option<Seq<u8>>, rest: Seq<u8>)
    requires
        fits(o),
    ensures
        parse_opt(encode_opt(o) + rest) == Some((o, rest)),
{
    let b = encode_opt(o) + rest;
    match o {
        None => {
            assert(b.drop_first() =~= rest);
        },
        Some(v) => {
            assert(b[1] == v.len());
            assert(b.subrange(2, 2 + b[1]) =~= v);
            assert(b.subrange(2 + b[1], b.len() as int) =~= rest);
        },
    }
}

/// Reading back the record of a state gives that state.
pub proof fn lemma_record_round_trip(src: Option<Seq<u8>>, tgt: Option<Seq<u8>>, count: u64)
    requires
        fits(src),
        fits(tgt),
    ensures
        decode_spec(record_bytes(src, tgt, count)) == Some((src, tgt, count)),
{
    let b = record_bytes(src, tgt, count);
    assert(b =~= encode_opt(src) + (encode_opt(tgt) + u64_le(count)));
    lemma_parse_opt_round_trip(src, encode_opt(tgt) + u64_le(count));
    lemma_parse_opt_round_trip(tgt, u64_le(count));
    lemma_u64_le_round_trip(count);
}

proof fn lemma_le_u64_bytes(b0: u8, b1: u8, b2: u8, b3: u8, b4: u8, b5: u8, b6: u8, b7: u8)
    ensures
        u64_le(le_u64(b0, b1, b2, b3, b4, b5, b6, b7)) == seq![b0, b1, b2, b3, b4, b5, b6, b7],
{
    let n = le_u64(b0, b1, b2, b3, b4, b5, b6, b7);
    assert(n == (b0 as u64) | ((b1 as u64) << 8u64) | ((b2 as u64) << 16u64) | ((b3 as u64)
        << 24u64) | ((b4 as u64) << 32u64) | ((b5 as u64) << 40u64) | ((b6 as u64) << 48u64) | ((
    b7 as u64) << 56u64));
    assert(n as u8 == b0 && (n >> 8u64) as u8 == b1 && (n >> 16u64) as u8 == b2 && (n >> 24u64) as u8
        == b3) by (bit_vector)
        requires
            n == (b0 as u64) | ((b1 as u64) << 8u64) | ((b2 as u64) << 16u64) | ((b3 as u64)
                << 24u64) | ((b4 as u64) << 32u64) | ((b5 as u64) << 40u64) | ((b6 as u64)
                << 48u64) | ((b7 as u64) << 56u64),
    ;
    assert((n >> 32u64) as u8 == b4 && (n >> 40u64) as u8 == b5 && (n >> 48u64) as u8 == b6 && (n
        >> 56u64) as u8 == b7) by (bit_vector)
        requires
            n == (b0 as u64) | ((b1 as u64) << 8u64) | ((b2 as u64) << 16u64) | ((b3 as u64)
                << 24u64) | ((b4 as u64) << 32u64) | ((b5 as u64) << 40u64) | ((b6 as u64)
                << 48u64) | ((b7 as u64) << 56u64),
    ;
    assert(u64_le(n) =~= seq![b0, b1, b2, b3, b4, b5, b6, b7]);
}

proof fn lemma_parse_opt_canonical(b: Seq<u8>)
    requires
        parse_opt(b) is Some,
    ensures
        ({
            let (o, rest) = parse_opt(b).unwrap();
            fits(o) && encode_opt(o) + rest == b
        }),
{
    if b[0] == 0 {
        assert(seq![0u8] + b.drop_first() =~= b);
    } else {
        let v = b.subrange(2, 2 + b[1]);
        assert(v.len() == b[1]);
        assert((v.len() as u8) == b[1]);
        assert(seq![1u8, v.len() as u8] + v + b.subrange(2 + b[1], b.len() as int) =~= b);
    }
}

/// A record is the one encoding of the state it holds.
pub proof fn lemma_record_canonical(b: Seq<u8>)
    requires
        decode_spec(b) is Some,
    ensures
        ({
            let (src, tgt, count) = decode_spec(b).unwrap();
            fits(src) && fits(tgt) && record_bytes(src, tgt, count) == b
        }),
{
    lemma_parse_opt_canonical(b);
    let (src, r1) = parse_opt(b).unwrap();
    lemma_parse_opt_canonical(r1);
    let (tgt, r2) = parse_opt(r1).unwrap();
    lemma_le_u64_bytes(r2[0], r2[1], r2[2], r2[3], r2[4], r2[5], r2[6], r2[7]);
    assert(r2 =~= seq![r2[0], r2[1], r2[2], r2[3], r2[4], r2[5], r2[6], r2[7]]);
    assert(record_bytes(src, tgt, decode_spec(b).unwrap().2) =~= encode_opt(src) + (encode_opt(tgt)
        + r2));
}

} // verus!
