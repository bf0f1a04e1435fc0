use vstd::prelude::*;
use crate::message::{Message, MessageState, MessageView};
use crate::event::{Event, EventView};
use crate::storage::{entries_view, LogEntry};
use vstd::utf8::{decode_utf8, decode_utf8_encode_utf8, encode_utf8, encode_utf8_decode_utf8, encode_utf8_valid_utf8, valid_utf8};

verus! {

// The wire and file format: integers are fixed size and little endian, byte
// strings and lists carry their length as a u64 first, and each variant of a
// tagged value starts with one tag byte.

/// Does `buf` hold the bytes `e` at `pos`.
pub open spec fn holds_at(buf: Seq<u8>, pos: int, e: Seq<u8>) -> bool {
    &&& 0 <= pos
    &&& pos + e.len() <= buf.len()
    &&& buf.subrange(pos, pos + e.len()) == e
}

pub open spec fn u64_le(x: u64) -> Seq<u8> {
    seq![
        x as u8,
        (x >> 8u64) as u8,
        (x >> 16u64) as u8,
        (x >> 24u64) as u8,
        (x >> 32u64) as u8,
        (x >> 40u64) as u8,
        (x >> 48u64) as u8,
        (x >> 56u64) as u8,
    ]
}

pub open spec fn u32_le(x: u32) -> Seq<u8> {
    seq![x as u8, (x >> 8u32) as u8, (x >> 16u32) as u8, (x >> 24u32) as u8]
}

pub open spec fn i64_le(x: i64) -> Seq<u8> {
    u64_le(x as u64)
}

pub open spec fn i32_le(x: i32) -> Seq<u8> {
    u32_le(x as u32)
}

/// Low half first.
pub open spec fn u128_le(x: u128) -> Seq<u8> {
    u64_le(x as u64) + u64_le((x >> 64u128) as u64)
}

/// A byte string behind its length.
pub open spec fn bytes_enc(b: Seq<u8>) -> Seq<u8> {
    u64_le(b.len() as u64) + b
}

pub open spec fn opt_i64_enc(o: Option<i64>) -> Seq<u8> {
    match o {
        None => seq![0u8],
        Some(x) => seq![1u8] + i64_le(x),
    }
}

pub open spec fn state_enc(s: MessageState) -> Seq<u8> {
    match s {
        MessageState::Available => seq![0u8],
        MessageState::InTransit(at) => seq![1u8] + i64_le(at),
    }
}

pub open spec fn message_enc(m: MessageView) -> Seq<u8> {
    u128_le(m.id) + bytes_enc(m.body) + i32_le(m.offset) + u32_le(m.max_tries) + u32_le(m.timeout)
        + opt_i64_enc(m.delay) + state_enc(m.state) + u32_le(m.tries)
}

proof fn lemma_u64_bytes(x: u64)
    ensures
        x == ((x as u8) as u64) | (((x >> 8u64) as u8) as u64) << 8u64 | (((x >> 16u64) as u8) as u64) << 16u64
            | (((x >> 24u64) as u8) as u64) << 24u64 | (((x >> 32u64) as u8) as u64) << 32u64 | (((x
            >> 40u64) as u8) as u64) << 40u64 | (((x >> 48u64) as u8) as u64) << 48u64 | (((x >> 56u64)
            as u8) as u64) << 56u64,
{
    assert(x == ((x as u8) as u64) | (((x >> 8u64) as u8) as u64) << 8u64 | (((x >> 16u64) as u8) as u64)
        << 16u64 | (((x >> 24u64) as u8) as u64) << 24u64 | (((x >> 32u64) as u8) as u64) << 32u64 | (((x
        >> 40u64) as u8) as u64) << 40u64 | (((x >> 48u64) as u8) as u64) << 48u64 | (((x >> 56u64) as u8)
        as u64) << 56u64) by (bit_vector);
}

proof fn lemma_u64_compose(b0: u8, b1: u8, b2: u8, b3: u8, b4: u8, b5: u8, b6: u8, b7: u8)
    ensures
        ({
            let x = (b0 as u64) | (b1 as u64) << 8u64 | (b2 as u64) << 16u64 | (b3 as u64) << 24u64 | (b4 as u64)
                << 32u64 | (b5 as u64) << 40u64 | (b6 as u64) << 48u64 | (b7 as u64) << 56u64;
            u64_le(x) == seq![b0, b1, b2, b3, b4, b5, b6, b7]
        }),
{
    let x = (b0 as u64) | (b1 as u64) << 8u64 | (b2 as u64) << 16u64 | (b3 as u64) << 24u64 | (b4 as u64)
        << 32u64 | (b5 as u64) << 40u64 | (b6 as u64) << 48u64 | (b7 as u64) << 56u64;
    assert(x as u8 == b0 && (x >> 8u64) as u8 == b1 && (x >> 16u64) as u8 == b2 && (x >> 24u64) as u8 == b3
        && (x >> 32u64) as u8 == b4 && (x >> 40u64) as u8 == b5 && (x >> 48u64) as u8 == b6 && (x >> 56u64)
        as u8 == b7) by (bit_vector)
        requires
            x == (b0 as u64) | (b1 as u64) << 8u64 | (b2 as u64) << 16u64 | (b3 as u64) << 24u64 | (b4 as u64)
                << 32u64 | (b5 as u64) << 40u64 | (b6 as u64) << 48u64 | (b7 as u64) << 56u64,
    ;
    assert(u64_le(x) =~= seq![b0, b1, b2, b3, b4, b5, b6, b7]);
}

proof fn lemma_u32_bytes(x: u32)
    ensures
        x == ((x as u8) as u32) | (((x >> 8u32) as u8) as u32) << 8u32 | (((x >> 16u32) as u8) as u32) << 16u32
            | (((x >> 24u32) as u8) as u32) << 24u32,
{
    assert(x == ((x as u8) as u32) | (((x >> 8u32) as u8) as u32) << 8u32 | (((x >> 16u32) as u8) as u32)
        << 16u32 | (((x >> 24u32) as u8) as u32) << 24u32) by (bit_vector);
}

proof fn lemma_u32_compose(b0: u8, b1: u8, b2: u8, b3: u8)
    ensures
        ({
            let x = (b0 as u32) | (b1 as u32) << 8u32 | (b2 as u32) << 16u32 | (b3 as u32) << 24u32;
            u32_le(x) == seq![b0, b1, b2, b3]
        }),
{
    let x = (b0 as u32) | (b1 as u32) << 8u32 | (b2 as u32) << 16u32 | (b3 as u32) << 24u32;
    assert(x as u8 == b0 && (x >> 8u32) as u8 == b1 && (x >> 16u32) as u8 == b2 && (x >> 24u32) as u8 == b3)
        by (bit_vector)
        requires
            x == (b0 as u32) | (b1 as u32) << 8u32 | (b2 as u32) << 16u32 | (b3 as u32) << 24u32,
    ;
    assert(u32_le(x) =~= seq![b0, b1, b2, b3]);
}

pub fn put_u64(out: &mut Vec<u8>, x: u64)
    ensures
        final(out)@ == old(out)@ + u64_le(x),
{
    out.push(x as u8);
    out.push((x >> 8u64) as u8);
    out.push((x >> 16u64) as u8);
    out.push((x >> 24u64) as u8);
    out.push((x >> 32u64) as u8);
    out.push((x >> 40u64) as u8);
    out.push((x >> 48u64) as u8);
    out.push((x >> 56u64) as u8);
    assert(out@ =~= old(out)@ + u64_le(x));
}

pub fn put_u32(out: &mut Vec<u8>, x: u32)
    ensures
        final(out)@ == old(out)@ + u32_le(x),
{
    out.push(x as u8);
    out.push((x >> 8u32) as u8);
    out.push((x >> 16u32) as u8);
    out.push((x >> 24u32) as u8);
    assert(out@ =~= old(out)@ + u32_le(x));
}

/// Reads a u64 at `pos`; `None` when fewer than 8 bytes are left.
pub fn get_u64(buf: &[u8], pos: usize) -> (r: Option<u64>)
    ensures
        r is Some ==> holds_at(buf@, pos as int, u64_le(r->0)) && pos + 8 <= buf@.len(),
        r is None <==> pos + 8 > buf@.len(),
        forall|x: u64| #[trigger] holds_at(buf@, pos as int, u64_le(x)) ==> r == Some(x),
{
    if pos > buf.len() || buf.len() - pos < 8 {
        return None;
    }
    let b0 = buf[pos];
    let b1 = buf[pos + 1];
    let b2 = buf[pos + 2];
    let b3 = buf[pos + 3];
    let b4 = buf[pos + 4];
    let b5 = buf[pos + 5];
    let b6 = buf[pos + 6];
    let b7 = buf[pos + 7];
    let x = (b0 as u64) | (b1 as u64) << 8u64 | (b2 as u64) << 16u64 | (b3 as u64) << 24u64 | (b4 as u64)
        << 32u64 | (b5 as u64) << 40u64 | (b6 as u64) << 48u64 | (b7 as u64) << 56u64;
    proof {
        lemma_u64_compose(b0, b1, b2, b3, b4, b5, b6, b7);
        assert(buf@.subrange(pos as int, pos + 8) =~= seq![b0, b1, b2, b3, b4, b5, b6, b7]);
        assert forall|y: u64| #[trigger] holds_at(buf@, pos as int, u64_le(y)) implies x == y by {
            assert(u64_le(y)[0] == b0 && u64_le(y)[1] == b1 && u64_le(y)[2] == b2 && u64_le(y)[3] == b3);
            assert(u64_le(y)[4] == b4 && u64_le(y)[5] == b5 && u64_le(y)[6] == b6 && u64_le(y)[7] == b7);
            lemma_u64_bytes(y);
        }
    }
    Some(x)
}

/// Reads a u32 at `pos`; `None` when fewer than 4 bytes are left.
pub fn get_u32(buf: &[u8], pos: usize) -> (r: Option<u32>)
    ensures
        r is Some ==> holds_at(buf@, pos as int, u32_le(r->0)) && pos + 4 <= buf@.len(),
        r is None <==> pos + 4 > buf@.len(),
        forall|x: u32| #[trigger] holds_at(buf@, pos as int, u32_le(x)) ==> r == Some(x),
{
    if pos > buf.len() || buf.len() - pos < 4 {
        return None;
    }
    let b0 = buf[pos];
    let b1 = buf[pos + 1];
    let b2 = buf[pos + 2];
    let b3 = buf[pos + 3];
    let x = (b0 as u32) | (b1 as u32) << 8u32 | (b2 as u32) << 16u32 | (b3 as u32) << 24u32;
    proof {
        lemma_u32_compose(b0, b1, b2, b3);
        assert(buf@.subrange(pos as int, pos + 4) =~= seq![b0, b1, b2, b3]);
        assert forall|y: u32| #[trigger] holds_at(buf@, pos as int, u32_le(y)) implies x == y by {
            assert(u32_le(y)[0] == b0 && u32_le(y)[1] == b1 && u32_le(y)[2] == b2 && u32_le(y)[3] == b3);
            lemma_u32_bytes(y);
        }
    }
    Some(x)
}

/// Bytes `a` then `b` at `pos` are `a` at `pos` and `b` right after.
pub proof fn lemma_holds_concat(buf: Seq<u8>, pos: int, a: Seq<u8>, b: Seq<u8>)
    ensures
        holds_at(buf, pos, a + b) <==> (holds_at(buf, pos, a) && holds_at(buf, pos + a.len(), b)),
{
    if holds_at(buf, pos, a + b) {
        assert(buf.subrange(pos, pos + a.len()) =~= (a + b).subrange(0, a.len() as int));
        assert(buf.subrange(pos + a.len(), pos + a.len() + b.len()) =~= (a + b).subrange(
            a.len() as int,
            (a.len() + b.len()) as int,
        ));
        assert((a + b).subrange(0, a.len() as int) =~= a);
        assert((a + b).subrange(a.len() as int, (a.len() + b.len()) as int) =~= b);
    }
    if holds_at(buf, pos, a) && holds_at(buf, pos + a.len(), b) {
        assert(buf.subrange(pos, pos + (a + b).len()) =~= a + b);
    }
}

pub fn put_i64(out: &mut Vec<u8>, x: i64)
    ensures
        final(out)@ == old(out)@ + i64_le(x),
{
    put_u64(out, x as u64);
}

pub fn put_i32(out: &mut Vec<u8>, x: i32)
    ensures
        final(out)@ == old(out)@ + i32_le(x),
{
    put_u32(out, x as u32);
}

pub fn put_u128(out: &mut Vec<u8>, x: u128)
    ensures
        final(out)@ == old(out)@ + u128_le(x),
{
    put_u64(out, x as u64);
    put_u64(out, (x >> 64u128) as u64);
    assert(out@ =~= old(out)@ + u128_le(x));
}

pub fn put_bytes(out: &mut Vec<u8>, b: &[u8])
    ensures
        final(out)@ == old(out)@ + bytes_enc(b@),
{
    put_u64(out, b.len() as u64);
    let ghost start = out@;
    let mut i: usize = 0;
    while i < b.len()
        invariant
            i <= b@.len(),
            out@ == start + b@.subrange(0, i as int),
        decreases b@.len() - i,
    {
        out.push(b[i]);
        i = i + 1;
        assert(out@ =~= start + b@.subrange(0, i as int));
    }
    assert(b@.subrange(0, b@.len() as int) =~= b@);
    assert(out@ =~= old(out)@ + bytes_enc(b@));
}

pub fn get_i64(buf: &[u8], pos: usize) -> (r: Option<i64>)
    ensures
        r is Some ==> holds_at(buf@, pos as int, i64_le(r->0)),
        forall|x: i64| #[trigger] holds_at(buf@, pos as int, i64_le(x)) ==> r == Some(x),
{
    match get_u64(buf, pos) {
        None => None,
        Some(v) => {
            let x = v as i64;
            proof {
                assert((x as u64) == v) by (bit_vector)
                    requires
                        x == v as i64,
                ;
                assert forall|y: i64| #[trigger] holds_at(buf@, pos as int, i64_le(y)) implies x == y by {
                    assert(holds_at(buf@, pos as int, u64_le(y as u64)));
                    let w = y as u64;
                    assert(v == w);
                    assert((w as i64) == y) by (bit_vector)
                        requires
                            w == y as u64,
                    ;
                }
            }
            Some(x)
        },
    }
}

pub fn get_i32(buf: &[u8], pos: usize) -> (r: Option<i32>)
    ensures
        r is Some ==> holds_at(buf@, pos as int, i32_le(r->0)),
        forall|x: i32| #[trigger] holds_at(buf@, pos as int, i32_le(x)) ==> r == Some(x),
{
    match get_u32(buf, pos) {
        None => None,
        Some(v) => {
            let x = v as i32;
            proof {
                assert((x as u32) == v) by (bit_vector)
                    requires
                        x == v as i32,
                ;
                assert forall|y: i32| #[trigger] holds_at(buf@, pos as int, i32_le(y)) implies x == y by {
                    assert(holds_at(buf@, pos as int, u32_le(y as u32)));
                    let w = y as u32;
                    assert(v == w);
                    assert((w as i32) == y) by (bit_vector)
                        requires
                            w == y as u32,
                    ;
                }
            }
            Some(x)
        },
    }
}

pub fn get_u128(buf: &[u8], pos: usize) -> (r: Option<u128>)
    ensures
        r is Some ==> holds_at(buf@, pos as int, u128_le(r->0)),
        forall|x: u128| #[trigger] holds_at(buf@, pos as int, u128_le(x)) ==> r == Some(x),
{
    let lo = match get_u64(buf, pos) {
        None => {
            proof {
                assert forall|y: u128| !#[trigger] holds_at(buf@, pos as int, u128_le(y)) by {
                    lemma_holds_concat(buf@, pos as int, u64_le(y as u64), u64_le((y >> 64u128) as u64));
                }
            }
            return None;
        },
        Some(v) => v,
    };
    let _ = buf.len();
    let hi = match get_u64(buf, pos + 8) {
        None => {
            proof {
                assert forall|y: u128| !#[trigger] holds_at(buf@, pos as int, u128_le(y)) by {
                    lemma_holds_concat(buf@, pos as int, u64_le(y as u64), u64_le((y >> 64u128) as u64));
                }
            }
            return None;
        },
        Some(v) => v,
    };
    let x = (hi as u128) << 64u128 | (lo as u128);
    proof {
        assert((x as u64) == lo && ((x >> 64u128) as u64) == hi) by (bit_vector)
            requires
                x == (hi as u128) << 64u128 | (lo as u128),
        ;
        lemma_holds_concat(buf@, pos as int, u64_le(lo), u64_le(hi));
        assert forall|y: u128| #[trigger] holds_at(buf@, pos as int, u128_le(y)) implies x == y by {
            lemma_holds_concat(buf@, pos as int, u64_le(y as u64), u64_le((y >> 64u128) as u64));
            let a = y as u64;
            let b = (y >> 64u128) as u64;
            assert(lo == a && hi == b);
            assert(y == (b as u128) << 64u128 | (a as u128)) by (bit_vector)
                requires
                    a == y as u64,
                    b == (y >> 64u128) as u64,
            ;
        }
    }
    Some(x)
}

/// Reads a length-prefixed byte string at `pos`, with the position after it.
pub fn get_bytes(buf: &[u8], pos: usize) -> (r: Option<(Vec<u8>, usize)>)
    ensures
        r is Some ==> holds_at(buf@, pos as int, bytes_enc((r->0).0@)) && (r->0).1 == pos + bytes_enc((r->0).0@).len(),
        forall|v: Seq<u8>| #[trigger] holds_at(buf@, pos as int, bytes_enc(v)) ==> r is Some && (r->0).0@ == v
            && (r->0).1 == pos + bytes_enc(v).len(),
{
    let n = match get_u64(buf, pos) {
        None => {
            proof {
                assert forall|v: Seq<u8>| !#[trigger] holds_at(buf@, pos as int, bytes_enc(v)) by {
                    lemma_holds_concat(buf@, pos as int, u64_le(v.len() as u64), v);
                }
            }
            return None;
        },
        Some(n) => n,
    };
    let _ = buf.len();
    let start = pos + 8;
    if n > (buf.len() - start) as u64 {
        proof {
            assert forall|v: Seq<u8>| !#[trigger] holds_at(buf@, pos as int, bytes_enc(v)) by {
                lemma_holds_concat(buf@, pos as int, u64_le(v.len() as u64), v);
                if holds_at(buf@, pos as int, bytes_enc(v)) {
                    assert(n == v.len() as u64);
                }
            }
        }
        return None;
    }
    let end = start + n as usize;
    let mut out: Vec<u8> = Vec::with_capacity(n as usize);
    let mut i: usize = start;
    while i < end
        invariant
            start <= i <= end,
            end <= buf@.len(),
            out@ == buf@.subrange(start as int, i as int),
        decreases end - i,
    {
        out.push(buf[i]);
        i = i + 1;
        assert(out@ =~= buf@.subrange(start as int, i as int));
    }
    proof {
        assert(out@.len() as u64 == n);
        lemma_holds_concat(buf@, pos as int, u64_le(n), out@);
        assert forall|v: Seq<u8>| #[trigger] holds_at(buf@, pos as int, bytes_enc(v)) implies out@ == v by {
            lemma_holds_concat(buf@, pos as int, u64_le(v.len() as u64), v);
            assert(n == v.len() as u64);
            assert(v.len() <= buf@.len());
        }
    }
    Some((out, end))
}

/// The tag byte at `pos`, if any.
fn get_tag(buf: &[u8], pos: usize) -> (r: Option<u8>)
    ensures
        r is Some ==> pos < buf@.len() && r->0 == buf@[pos as int],
        r is None ==> pos >= buf@.len(),
        buf@.len() <= usize::MAX,
{
    if pos < buf.len() {
        Some(buf[pos])
    } else {
        None
    }
}

proof fn lemma_tagged(buf: Seq<u8>, pos: int, t: u8, rest: Seq<u8>)
    ensures
        holds_at(buf, pos, seq![t] + rest) <==> (0 <= pos < buf.len() && buf[pos] == t && holds_at(buf, pos + 1, rest)),
{
    lemma_holds_concat(buf, pos, seq![t], rest);
    if 0 <= pos < buf.len() && buf[pos] == t {
        assert(buf.subrange(pos, pos + 1) =~= seq![t]);
    }
    if holds_at(buf, pos, seq![t]) {
        assert(buf.subrange(pos, pos + 1)[0] == buf[pos]);
    }
}

pub fn put_opt_i64(out: &mut Vec<u8>, o: Option<i64>)
    ensures
        final(out)@ == old(out)@ + opt_i64_enc(o),
{
    match o {
        None => {
            out.push(0u8);
            assert(out@ =~= old(out)@ + opt_i64_enc(o));
        },
        Some(x) => {
            out.push(1u8);
            put_i64(out, x);
            assert(out@ =~= old(out)@ + opt_i64_enc(o));
        },
    }
}

pub fn get_opt_i64(buf: &[u8], pos: usize) -> (r: Option<(Option<i64>, usize)>)
    ensures
        r is Some ==> holds_at(buf@, pos as int, opt_i64_enc((r->0).0)) && (r->0).1 == pos + opt_i64_enc((r->0).0).len(),
        forall|v: Option<i64>| #[trigger] holds_at(buf@, pos as int, opt_i64_enc(v)) ==> r == Some((v, (pos
            + opt_i64_enc(v).len()) as usize)),
{
    proof {
        assert forall|v: Option<i64>| #[trigger] holds_at(buf@, pos as int, opt_i64_enc(v)) implies buf@[pos as int] == (
        if v is Some { 1u8 } else { 0u8 }) && pos < buf@.len() by {
            match v {
                None => lemma_tagged(buf@, pos as int, 0u8, Seq::empty()),
                Some(x) => lemma_tagged(buf@, pos as int, 1u8, i64_le(x)),
            }
            assert(seq![0u8] =~= seq![0u8] + Seq::<u8>::empty());
        }
    }
    match get_tag(buf, pos) {
        Some(0u8) => {
            proof {
                lemma_tagged(buf@, pos as int, 0u8, Seq::empty());
                assert(seq![0u8] =~= seq![0u8] + Seq::<u8>::empty());
                assert(buf@.subrange(pos + 1, pos + 1) =~= Seq::<u8>::empty());
            }
            Some((None, pos + 1))
        },
        Some(1u8) => match get_i64(buf, pos + 1) {
            Some(x) => {
                proof {
                    lemma_tagged(buf@, pos as int, 1u8, i64_le(x));
                    assert forall|v: Option<i64>| #[trigger] holds_at(buf@, pos as int, opt_i64_enc(v)) implies v == Some(x) by {
                        lemma_tagged(buf@, pos as int, 1u8, i64_le(v->0));
                    }
                }
                Some((Some(x), pos + 9))
            },
            None => {
                proof {
                    assert forall|v: Option<i64>| !#[trigger] holds_at(buf@, pos as int, opt_i64_enc(v)) by {
                        if v is Some {
                            lemma_tagged(buf@, pos as int, 1u8, i64_le(v->0));
                        }
                    }
                }
                None
            },
        },
        _ => None,
    }
}

pub fn put_state(out: &mut Vec<u8>, s: MessageState)
    ensures
        final(out)@ == old(out)@ + state_enc(s),
{
    match s {
        MessageState::Available => {
            out.push(0u8);
            assert(out@ =~= old(out)@ + state_enc(s));
        },
        MessageState::InTransit(at) => {
            out.push(1u8);
            put_i64(out, at);
            assert(out@ =~= old(out)@ + state_enc(s));
        },
    }
}

pub fn get_state(buf: &[u8], pos: usize) -> (r: Option<(MessageState, usize)>)
    ensures
        r is Some ==> holds_at(buf@, pos as int, state_enc((r->0).0)) && (r->0).1 == pos + state_enc((r->0).0).len(),
        forall|v: MessageState| #[trigger] holds_at(buf@, pos as int, state_enc(v)) ==> r == Some((v, (pos
            + state_enc(v).len()) as usize)),
{
    proof {
        assert forall|v: MessageState| #[trigger] holds_at(buf@, pos as int, state_enc(v)) implies buf@[pos as int] == (
        if v is InTransit { 1u8 } else { 0u8 }) && pos < buf@.len() by {
            match v {
                MessageState::Available => lemma_tagged(buf@, pos as int, 0u8, Seq::empty()),
                MessageState::InTransit(x) => lemma_tagged(buf@, pos as int, 1u8, i64_le(x)),
            }
            assert(seq![0u8] =~= seq![0u8] + Seq::<u8>::empty());
        }
    }
    match get_tag(buf, pos) {
        Some(0u8) => {
            proof {
                lemma_tagged(buf@, pos as int, 0u8, Seq::empty());
                assert(seq![0u8] =~= seq![0u8] + Seq::<u8>::empty());
                assert(buf@.subrange(pos + 1, pos + 1) =~= Seq::<u8>::empty());
            }
            Some((MessageState::Available, pos + 1))
        },
        Some(1u8) => match get_i64(buf, pos + 1) {
            Some(x) => {
                proof {
                    lemma_tagged(buf@, pos as int, 1u8, i64_le(x));
                    assert forall|v: MessageState| #[trigger] holds_at(buf@, pos as int, state_enc(v)) implies v
                        == MessageState::InTransit(x) by {
                        lemma_tagged(buf@, pos as int, 1u8, i64_le(v->InTransit_0));
                    }
                }
                Some((MessageState::InTransit(x), pos + 9))
            },
            None => {
                proof {
                    assert forall|v: MessageState| !#[trigger] holds_at(buf@, pos as int, state_enc(v)) by {
                        if v is InTransit {
                            lemma_tagged(buf@, pos as int, 1u8, i64_le(v->InTransit_0));
                        }
                    }
                }
                None
            },
        },
        _ => None,
    }
}

proof fn lemma_message_parts(buf: Seq<u8>, pos: int, v: MessageView)
    ensures
        holds_at(buf, pos, message_enc(v)) <==> {
            let after_id = pos + 16;
            let after_body = after_id + bytes_enc(v.body).len();
            let at_delay = after_body + 12;
            let at_state = at_delay + opt_i64_enc(v.delay).len();
            let at_tries = at_state + state_enc(v.state).len();
            &&& holds_at(buf, pos, u128_le(v.id))
            &&& holds_at(buf, after_id, bytes_enc(v.body))
            &&& holds_at(buf, after_body, i32_le(v.offset))
            &&& holds_at(buf, after_body + 4, u32_le(v.max_tries))
            &&& holds_at(buf, after_body + 8, u32_le(v.timeout))
            &&& holds_at(buf, at_delay, opt_i64_enc(v.delay))
            &&& holds_at(buf, at_state, state_enc(v.state))
            &&& holds_at(buf, at_tries, u32_le(v.tries))
        },
{
    let a = u128_le(v.id);
    let b = bytes_enc(v.body);
    let c = i32_le(v.offset);
    let d = u32_le(v.max_tries);
    let e = u32_le(v.timeout);
    let f = opt_i64_enc(v.delay);
    let g = state_enc(v.state);
    let h = u32_le(v.tries);
    lemma_holds_concat(buf, pos, a + b + c + d + e + f + g, h);
    lemma_holds_concat(buf, pos, a + b + c + d + e + f, g);
    lemma_holds_concat(buf, pos, a + b + c + d + e, f);
    lemma_holds_concat(buf, pos, a + b + c + d, e);
    lemma_holds_concat(buf, pos, a + b + c, d);
    lemma_holds_concat(buf, pos, a + b, c);
    lemma_holds_concat(buf, pos, a, b);
}

pub fn put_message(out: &mut Vec<u8>, m: &Message)
    ensures
        final(out)@ == old(out)@ + message_enc(m@),
{
    put_u128(out, m.id);
    put_bytes(out, m.body.as_slice());
    put_i32(out, m.offset);
    put_u32(out, m.max_tries);
    put_u32(out, m.timeout);
    put_opt_i64(out, m.delay);
    put_state(out, m.state);
    put_u32(out, m.tries);
    assert(out@ =~= old(out)@ + message_enc(m@));
}

/// Reads a message at `pos`, with the position after it.
pub fn get_message(buf: &[u8], pos: usize) -> (r: Option<(Message, usize)>)
    ensures
        r is Some ==> holds_at(buf@, pos as int, message_enc((r->0).0@)) && (r->0).1 == pos + message_enc(
            (r->0).0@,
        ).len(),
        forall|v: MessageView| #[trigger] holds_at(buf@, pos as int, message_enc(v)) ==> r is Some && (r->0).0@ == v
            && (r->0).1 == pos + message_enc(v).len(),
{
    let _ = buf.len();
    let id = match get_u128(buf, pos) {
        Some(x) => x,
        None => {
            proof {
                assert forall|v: MessageView| !#[trigger] holds_at(buf@, pos as int, message_enc(v)) by {
                    lemma_message_parts(buf@, pos as int, v);
                }
            }
            return None;
        },
    };
    let (body, after_body) = match get_bytes(buf, pos + 16) {
        Some(x) => x,
        None => {
            proof {
                assert forall|v: MessageView| !#[trigger] holds_at(buf@, pos as int, message_enc(v)) by {
                    lemma_message_parts(buf@, pos as int, v);
                }
            }
            return None;
        },
    };
    let offset = match get_i32(buf, after_body) {
        Some(x) => x,
        None => {
            proof {
                assert forall|v: MessageView| !#[trigger] holds_at(buf@, pos as int, message_enc(v)) by {
                    lemma_message_parts(buf@, pos as int, v);
                }
            }
            return None;
        },
    };
    let max_tries = match get_u32(buf, after_body + 4) {
        Some(x) => x,
        None => {
            proof {
                assert forall|v: MessageView| !#[trigger] holds_at(buf@, pos as int, message_enc(v)) by {
                    lemma_message_parts(buf@, pos as int, v);
                }
            }
            return None;
        },
    };
    let timeout = match get_u32(buf, after_body + 8) {
        Some(x) => x,
        None => {
            proof {
                assert forall|v: MessageView| !#[trigger] holds_at(buf@, pos as int, message_enc(v)) by {
                    lemma_message_parts(buf@, pos as int, v);
                }
            }
            return None;
        },
    };
    let (delay, at_state) = match get_opt_i64(buf, after_body + 12) {
        Some(x) => x,
        None => {
            proof {
                assert forall|v: MessageView| !#[trigger] holds_at(buf@, pos as int, message_enc(v)) by {
                    lemma_message_parts(buf@, pos as int, v);
                }
            }
            return None;
        },
    };
    let (state, at_tries) = match get_state(buf, at_state) {
        Some(x) => x,
        None => {
            proof {
                assert forall|v: MessageView| !#[trigger] holds_at(buf@, pos as int, message_enc(v)) by {
                    lemma_message_parts(buf@, pos as int, v);
                }
            }
            return None;
        },
    };
    let tries = match get_u32(buf, at_tries) {
        Some(x) => x,
        None => {
            proof {
                assert forall|v: MessageView| !#[trigger] holds_at(buf@, pos as int, message_enc(v)) by {
                    lemma_message_parts(buf@, pos as int, v);
                }
            }
            return None;
        },
    };
    let m = Message { id, body, offset, max_tries, timeout, delay, state, tries };
    proof {
        lemma_message_parts(buf@, pos as int, m@);
        assert forall|v: MessageView| #[trigger] holds_at(buf@, pos as int, message_enc(v)) implies m@ == v by {
            lemma_message_parts(buf@, pos as int, v);
        }
    }
    Some((m, at_tries + 4))
}

pub open spec fn event_enc(e: EventView) -> Seq<u8> {
    match e {
        EventView::Push(m) => seq![0u8] + message_enc(m),
        EventView::Pop(t) => seq![1u8] + i64_le(t),
        EventView::Requeue(id) => seq![2u8] + u128_le(id),
        EventView::Delete(id) => seq![3u8] + u128_le(id),
        EventView::Gc(t) => seq![4u8] + i64_le(t),
        EventView::Clear => seq![5u8],
    }
}

pub fn put_event(out: &mut Vec<u8>, e: &Event)
    ensures
        final(out)@ == old(out)@ + event_enc(e@),
{
    match e {
        Event::Push(m) => {
            out.push(0u8);
            put_message(out, m);
        },
        Event::Pop(t) => {
            out.push(1u8);
            put_i64(out, *t);
        },
        Event::Requeue(id) => {
            out.push(2u8);
            put_u128(out, *id);
        },
        Event::Delete(id) => {
            out.push(3u8);
            put_u128(out, *id);
        },
        Event::Gc(t) => {
            out.push(4u8);
            put_i64(out, *t);
        },
        Event::Clear => {
            out.push(5u8);
        },
    }
    assert(out@ =~= old(out)@ + event_enc(e@));
}

/// The tag byte and the rest of an encoded event.
proof fn lemma_event_tag(buf: Seq<u8>, pos: int, v: EventView)
    ensures
        holds_at(buf, pos, event_enc(v)) <==> 0 <= pos < buf.len() && buf[pos] == event_enc(v)[0] && holds_at(
            buf,
            pos + 1,
            event_enc(v).drop_first(),
        ),
{
    let e = event_enc(v);
    assert(e =~= seq![e[0]] + e.drop_first());
    lemma_tagged(buf, pos, e[0], e.drop_first());
}

/// Reads an event at `pos`, with the position after it.
pub fn get_event(buf: &[u8], pos: usize) -> (r: Option<(Event, usize)>)
    ensures
        r is Some ==> holds_at(buf@, pos as int, event_enc((r->0).0@)) && (r->0).1 == pos + event_enc((r->0).0@).len(),
        forall|v: EventView| #[trigger] holds_at(buf@, pos as int, event_enc(v)) ==> r is Some && (r->0).0@ == v
            && (r->0).1 == pos + event_enc(v).len(),
{
    let _ = buf.len();
    let tag = match get_tag(buf, pos) {
        Some(t) => t,
        None => {
            proof {
                assert forall|v: EventView| !#[trigger] holds_at(buf@, pos as int, event_enc(v)) by {
                    lemma_event_tag(buf@, pos as int, v);
                }
            }
            return None;
        },
    };
    let p = pos + 1;
    proof {
        assert forall|v: EventView| #[trigger] holds_at(buf@, pos as int, event_enc(v)) implies event_enc(v)[0] == tag
            && holds_at(buf@, p as int, event_enc(v).drop_first()) by {
            lemma_event_tag(buf@, pos as int, v);
        }
        assert(forall|m: MessageView| (seq![0u8] + message_enc(m)).drop_first() =~= message_enc(m));
        assert(forall|t: i64, k: u8| (seq![k] + i64_le(t)).drop_first() =~= i64_le(t));
        assert(forall|t: u128, k: u8| (seq![k] + u128_le(t)).drop_first() =~= u128_le(t));
    }
    let r: Option<(Event, usize)> = if tag == 0u8 {
        match get_message(buf, p) {
            Some((m, q)) => {
                proof {
                    lemma_tagged(buf@, pos as int, tag, message_enc(m@));
                }
                Some((Event::Push(m), q))
            },
            None => None,
        }
    } else if tag == 1u8 || tag == 4u8 {
        match get_i64(buf, p) {
            Some(t) => {
                proof {
                    lemma_tagged(buf@, pos as int, tag, i64_le(t));
                }
                if tag == 1u8 {
                    Some((Event::Pop(t), p + 8))
                } else {
                    Some((Event::Gc(t), p + 8))
                }
            },
            None => None,
        }
    } else if tag == 2u8 || tag == 3u8 {
        match get_u128(buf, p) {
            Some(id) => {
                proof {
                    lemma_tagged(buf@, pos as int, tag, u128_le(id));
                }
                if tag == 2u8 {
                    Some((Event::Requeue(id), p + 16))
                } else {
                    Some((Event::Delete(id), p + 16))
                }
            },
            None => None,
        }
    } else if tag == 5u8 {
        proof {
            assert(buf@.subrange(p as int, p as int) =~= Seq::<u8>::empty());
            lemma_tagged(buf@, pos as int, tag, Seq::empty());
            assert(seq![5u8] =~= seq![5u8] + Seq::<u8>::empty());
        }
        Some((Event::Clear, p))
    } else {
        None
    };
    proof {
        assert forall|v: EventView| #[trigger] holds_at(buf@, pos as int, event_enc(v)) implies r is Some && (r->0).0@
            == v && (r->0).1 == pos + event_enc(v).len() by {
            lemma_event_tag(buf@, pos as int, v);
            assert(seq![5u8].drop_first() =~= Seq::<u8>::empty());
        }
    }
    r
}

/// Elements encoded one after the other.
pub open spec fn concat_enc<A>(s: Seq<A>, f: spec_fn(A) -> Seq<u8>) -> Seq<u8>
    decreases s.len(),
{
    if s.len() == 0 {
        Seq::empty()
    } else {
        concat_enc(s.drop_last(), f) + f(s.last())
    }
}

/// A list behind its length.
pub open spec fn list_enc<A>(s: Seq<A>, f: spec_fn(A) -> Seq<u8>) -> Seq<u8> {
    u64_le(s.len() as u64) + concat_enc(s, f)
}

pub proof fn lemma_concat_append<A>(a: Seq<A>, b: Seq<A>, f: spec_fn(A) -> Seq<u8>)
    ensures
        concat_enc(a + b, f) == concat_enc(a, f) + concat_enc(b, f),
    decreases b.len(),
{
    if b.len() == 0 {
        assert(a + b =~= a);
        assert(concat_enc(a, f) + concat_enc(b, f) =~= concat_enc(a, f));
    } else {
        lemma_concat_append(a, b.drop_last(), f);
        assert((a + b).drop_last() =~= a + b.drop_last());
        assert((a + b).last() == b.last());
        assert(concat_enc(a + b, f) =~= concat_enc(a, f) + concat_enc(b, f));
    }
}

/// Inside an encoded list, element `i` follows the elements before it.
pub proof fn lemma_concat_at<A>(buf: Seq<u8>, start: int, s: Seq<A>, f: spec_fn(A) -> Seq<u8>, i: int)
    requires
        0 <= i < s.len(),
        holds_at(buf, start, concat_enc(s, f)),
    ensures
        holds_at(buf, start + concat_enc(s.take(i), f).len(), f(s[i])),
{
    lemma_concat_append(s.take(i + 1), s.skip(i + 1), f);
    assert(s.take(i + 1) + s.skip(i + 1) =~= s);
    lemma_holds_concat(buf, start, concat_enc(s.take(i + 1), f), concat_enc(s.skip(i + 1), f));
    assert(s.take(i + 1).drop_last() =~= s.take(i));
    lemma_holds_concat(buf, start, concat_enc(s.take(i), f), f(s[i]));
}

/// Each element takes at least one byte.
pub proof fn lemma_concat_len<A>(s: Seq<A>, f: spec_fn(A) -> Seq<u8>)
    requires
        forall|x: A| #[trigger] f(x).len() >= 1,
    ensures
        concat_enc(s, f).len() >= s.len(),
    decreases s.len(),
{
    if s.len() > 0 {
        lemma_concat_len(s.drop_last(), f);
        assert(f(s.last()).len() >= 1);
    }
}

pub open spec fn entry_enc() -> spec_fn(LogEntry) -> Seq<u8> {
    |e: LogEntry| u64_le(e.0) + event_enc(e.1)
}

pub fn put_entries(out: &mut Vec<u8>, entries: &Vec<(u64, Event)>)
    ensures
        final(out)@ == old(out)@ + list_enc(entries_view(entries@), entry_enc()),
{
    put_u64(out, entries.len() as u64);
    let ghost start = out@;
    let ghost all = entries_view(entries@);
    let mut i: usize = 0;
    while i < entries.len()
        invariant
            i <= entries@.len(),
            all == entries_view(entries@),
            out@ == start + concat_enc(all.take(i as int), entry_enc()),
        decreases entries@.len() - i,
    {
        put_u64(out, entries[i].0);
        put_event(out, &entries[i].1);
        proof {
            assert(all.take(i + 1).drop_last() =~= all.take(i as int));
            assert(out@ =~= start + concat_enc(all.take(i + 1), entry_enc()));
        }
        i = i + 1;
    }
    assert(all.take(all.len() as int) =~= all);
    assert(out@ =~= old(out)@ + list_enc(all, entry_enc()));
}

/// Reads a list of log entries at `pos`, with the position after it.
pub fn get_entries(buf: &[u8], pos: usize) -> (r: Option<(Vec<(u64, Event)>, usize)>)
    ensures
        r is Some ==> holds_at(buf@, pos as int, list_enc(entries_view((r->0).0@), entry_enc())) && (r->0).1 == pos
            + list_enc(entries_view((r->0).0@), entry_enc()).len(),
        forall|v: Seq<LogEntry>| #[trigger] holds_at(buf@, pos as int, list_enc(v, entry_enc())) ==> r is Some
            && entries_view((r->0).0@) == v && (r->0).1 == pos + list_enc(v, entry_enc()).len(),
{
    let _ = buf.len();
    let n = match get_u64(buf, pos) {
        Some(n) => n,
        None => {
            proof {
                assert forall|v: Seq<LogEntry>| !#[trigger] holds_at(buf@, pos as int, list_enc(v, entry_enc())) by {
                    lemma_holds_concat(buf@, pos as int, u64_le(v.len() as u64), concat_enc(v, entry_enc()));
                }
            }
            return None;
        },
    };
    let start = pos + 8;
    let ghost f = entry_enc();
    proof {
        assert forall|v: Seq<LogEntry>| #[trigger] holds_at(buf@, pos as int, list_enc(v, f)) implies v.len() == n
            && holds_at(buf@, start as int, concat_enc(v, f)) by {
            lemma_holds_concat(buf@, pos as int, u64_le(v.len() as u64), concat_enc(v, f));
            assert forall|x: LogEntry| #[trigger] f(x).len() >= 1 by {
                assert(u64_le(x.0).len() == 8);
            }
            lemma_concat_len(v, f);
            assert(v.len() <= buf@.len());
        }
    }
    let mut out: Vec<(u64, Event)> = Vec::new();
    let mut p: usize = start;
    let mut i: u64 = 0;
    assert(concat_enc(entries_view(out@), f) =~= Seq::<u8>::empty());
    assert(buf@.subrange(start as int, start as int) =~= Seq::<u8>::empty());
    while i < n
        invariant
            i <= n,
            out@.len() == i,
            buf@.len() <= usize::MAX,
            start == pos + 8,
            holds_at(buf@, start as int, concat_enc(entries_view(out@), f)),
            p == start + concat_enc(entries_view(out@), f).len(),
            f == entry_enc(),
            forall|v: Seq<LogEntry>| #[trigger] holds_at(buf@, pos as int, list_enc(v, f)) ==> v.len() == n && holds_at(
                buf@,
                start as int,
                concat_enc(v, f),
            ),
            forall|v: Seq<LogEntry>| #[trigger] holds_at(buf@, pos as int, list_enc(v, f)) ==> entries_view(out@)
                == v.take(i as int),
        decreases n - i,
    {
        let ghost before = entries_view(out@);
        proof {
            assert forall|v: Seq<LogEntry>| #[trigger] holds_at(buf@, pos as int, list_enc(v, f)) implies holds_at(
                buf@,
                p as int,
                u64_le(v[i as int].0) + event_enc(v[i as int].1),
            ) by {
                lemma_concat_at(buf@, start as int, v, f, i as int);
            }
        }
        let idx = match get_u64(buf, p) {
            Some(x) => x,
            None => {
                proof {
                    assert forall|v: Seq<LogEntry>| !#[trigger] holds_at(buf@, pos as int, list_enc(v, f)) by {
                        if holds_at(buf@, pos as int, list_enc(v, f)) {
                            lemma_holds_concat(buf@, p as int, u64_le(v[i as int].0), event_enc(v[i as int].1));
                        }
                    }
                }
                return None;
            },
        };
        let (e, q) = match get_event(buf, p + 8) {
            Some(x) => x,
            None => {
                proof {
                    assert forall|v: Seq<LogEntry>| !#[trigger] holds_at(buf@, pos as int, list_enc(v, f)) by {
                        if holds_at(buf@, pos as int, list_enc(v, f)) {
                            lemma_holds_concat(buf@, p as int, u64_le(v[i as int].0), event_enc(v[i as int].1));
                        }
                    }
                }
                return None;
            },
        };
        let ghost item: LogEntry = (idx, e@);
        out.push((idx, e));
        proof {
            assert(entries_view(out@) =~= before.push(item));
            assert(before.push(item).drop_last() =~= before);
            lemma_holds_concat(buf@, p as int, u64_le(idx), event_enc(e@));
            lemma_holds_concat(buf@, start as int, concat_enc(before, f), f(item));
            assert forall|v: Seq<LogEntry>| #[trigger] holds_at(buf@, pos as int, list_enc(v, f)) implies entries_view(out@)
                == v.take(i + 1) by {
                lemma_holds_concat(buf@, p as int, u64_le(v[i as int].0), event_enc(v[i as int].1));
                assert(v.take(i + 1) =~= v.take(i as int).push(v[i as int]));
            }
        }
        p = q;
        i = i + 1;
    }
    proof {
        lemma_holds_concat(buf@, pos as int, u64_le(n), concat_enc(entries_view(out@), f));
        assert forall|v: Seq<LogEntry>| #[trigger] holds_at(buf@, pos as int, list_enc(v, f)) implies entries_view(out@)
            == v by {
            assert(v.take(n as int) =~= v);
        }
    }
    Some((out, p))
}


/// A name as its UTF-8 bytes behind their length.
pub open spec fn str_enc(c: Seq<char>) -> Seq<u8> {
    bytes_enc(encode_utf8(c))
}

/// A queue name with an index.
pub type NamedIndex = (Seq<char>, u64);

pub open spec fn names_view(v: Seq<(String, u64)>) -> Seq<NamedIndex> {
    v.map_values(|p: (String, u64)| (p.0@, p.1))
}

pub open spec fn pair_enc() -> spec_fn(NamedIndex) -> Seq<u8> {
    |p: NamedIndex| str_enc(p.0) + u64_le(p.1)
}

/// Relies on `String::from_utf8`: it succeeds exactly on valid UTF-8, and
/// the string then holds the characters the bytes encode.
#[verifier::external_body]
fn string_from_utf8(bytes: Vec<u8>) -> (r: Option<String>)
    ensures
        r is Some <==> valid_utf8(bytes@),
        r is Some ==> r->0@ == decode_utf8(bytes@),
{
    match String::from_utf8(bytes) {
        Ok(s) => Some(s),
        Err(_) => None,
    }
}

pub fn put_str(out: &mut Vec<u8>, s: &str)
    ensures
        final(out)@ == old(out)@ + str_enc(s@),
{
    put_bytes(out, s.as_bytes());
}

/// Reads a name at `pos`, with the position after it.
pub fn get_string(buf: &[u8], pos: usize) -> (r: Option<(String, usize)>)
    ensures
        r is Some ==> holds_at(buf@, pos as int, str_enc((r->0).0@)) && (r->0).1 == pos + str_enc((r->0).0@).len(),
        forall|v: Seq<char>| #[trigger] holds_at(buf@, pos as int, str_enc(v)) ==> r is Some && (r->0).0@ == v
            && (r->0).1 == pos + str_enc(v).len(),
{
    proof {
        assert forall|v: Seq<char>| #[trigger] holds_at(buf@, pos as int, str_enc(v)) implies holds_at(
            buf@,
            pos as int,
            bytes_enc(encode_utf8(v)),
        ) && valid_utf8(encode_utf8(v)) && decode_utf8(encode_utf8(v)) == v by {
            encode_utf8_valid_utf8(v);
            encode_utf8_decode_utf8(v);
        }
    }
    match get_bytes(buf, pos) {
        None => None,
        Some((b, end)) => {
            let ghost bv = b@;
            match string_from_utf8(b) {
                Some(s) => {
                    proof {
                        decode_utf8_encode_utf8(bv);
                    }
                    Some((s, end))
                },
                None => None,
            }
        },
    }
}

/// Reads a list of names with indices at `pos`, with the position after it.
pub fn get_pairs(buf: &[u8], pos: usize) -> (r: Option<(Vec<(String, u64)>, usize)>)
    ensures
        r is Some ==> holds_at(buf@, pos as int, list_enc(names_view((r->0).0@), pair_enc())) && (r->0).1 == pos
            + list_enc(names_view((r->0).0@), pair_enc()).len(),
        forall|v: Seq<NamedIndex>| #[trigger] holds_at(buf@, pos as int, list_enc(v, pair_enc())) ==> r is Some
            && names_view((r->0).0@) == v && (r->0).1 == pos + list_enc(v, pair_enc()).len(),
{
    let _ = buf.len();
    let n = match get_u64(buf, pos) {
        Some(n) => n,
        None => {
            proof {
                assert forall|v: Seq<NamedIndex>| !#[trigger] holds_at(buf@, pos as int, list_enc(v, pair_enc())) by {
                    lemma_holds_concat(buf@, pos as int, u64_le(v.len() as u64), concat_enc(v, pair_enc()));
                }
            }
            return None;
        },
    };
    let start = pos + 8;
    let ghost f = pair_enc();
    proof {
        assert forall|v: Seq<NamedIndex>| #[trigger] holds_at(buf@, pos as int, list_enc(v, f)) implies v.len() == n
            && holds_at(buf@, start as int, concat_enc(v, f)) by {
            lemma_holds_concat(buf@, pos as int, u64_le(v.len() as u64), concat_enc(v, f));
            assert forall|x: NamedIndex| #[trigger] f(x).len() >= 1 by {
                assert(u64_le(x.1).len() == 8);
            }
            lemma_concat_len(v, f);
            assert(v.len() <= buf@.len());
        }
    }
    let mut out: Vec<(String, u64)> = Vec::new();
    let mut p: usize = start;
    let mut i: u64 = 0;
    assert(concat_enc(names_view(out@), f) =~= Seq::<u8>::empty());
    assert(buf@.subrange(start as int, start as int) =~= Seq::<u8>::empty());
    while i < n
        invariant
            i <= n,
            out@.len() == i,
            buf@.len() <= usize::MAX,
            start == pos + 8,
            holds_at(buf@, start as int, concat_enc(names_view(out@), f)),
            p == start + concat_enc(names_view(out@), f).len(),
            f == pair_enc(),
            forall|v: Seq<NamedIndex>| #[trigger] holds_at(buf@, pos as int, list_enc(v, f)) ==> v.len() == n && holds_at(
                buf@,
                start as int,
                concat_enc(v, f),
            ),
            forall|v: Seq<NamedIndex>| #[trigger] holds_at(buf@, pos as int, list_enc(v, f)) ==> names_view(out@)
                == v.take(i as int),
        decreases n - i,
    {
        let ghost before = names_view(out@);
        proof {
            assert forall|v: Seq<NamedIndex>| #[trigger] holds_at(buf@, pos as int, list_enc(v, f)) implies holds_at(
                buf@,
                p as int,
                str_enc(v[i as int].0) + u64_le(v[i as int].1),
            ) by {
                lemma_concat_at(buf@, start as int, v, f, i as int);
            }
        }
        let (name, after_name) = match get_string(buf, p) {
            Some(x) => x,
            None => {
                proof {
                    assert forall|v: Seq<NamedIndex>| !#[trigger] holds_at(buf@, pos as int, list_enc(v, f)) by {
                        if holds_at(buf@, pos as int, list_enc(v, f)) {
                            lemma_holds_concat(buf@, p as int, str_enc(v[i as int].0), u64_le(v[i as int].1));
                        }
                    }
                }
                return None;
            },
        };
        let idx = match get_u64(buf, after_name) {
            Some(x) => x,
            None => {
                proof {
                    assert forall|v: Seq<NamedIndex>| !#[trigger] holds_at(buf@, pos as int, list_enc(v, f)) by {
                        if holds_at(buf@, pos as int, list_enc(v, f)) {
                            lemma_holds_concat(buf@, p as int, str_enc(v[i as int].0), u64_le(v[i as int].1));
                        }
                    }
                }
                return None;
            },
        };
        let q = after_name + 8;
        let ghost item: NamedIndex = (name@, idx);
        out.push((name, idx));
        proof {
            assert(names_view(out@) =~= before.push(item));
            assert(before.push(item).drop_last() =~= before);
            lemma_holds_concat(buf@, p as int, str_enc(name@), u64_le(idx));
            lemma_holds_concat(buf@, start as int, concat_enc(before, f), f(item));
            assert forall|v: Seq<NamedIndex>| #[trigger] holds_at(buf@, pos as int, list_enc(v, f)) implies names_view(out@)
                == v.take(i + 1) by {
                lemma_holds_concat(buf@, p as int, str_enc(v[i as int].0), u64_le(v[i as int].1));
                assert(v.take(i + 1) =~= v.take(i as int).push(v[i as int]));
            }
        }
        p = q;
        i = i + 1;
    }
    proof {
        lemma_holds_concat(buf@, pos as int, u64_le(n), concat_enc(names_view(out@), f));
        assert forall|v: Seq<NamedIndex>| #[trigger] holds_at(buf@, pos as int, list_enc(v, f)) implies names_view(out@)
            == v by {
            assert(v.take(n as int) =~= v);
        }
    }
    Some((out, p))
}

pub fn put_pairs(out: &mut Vec<u8>, entries: &Vec<(String, u64)>)
    ensures
        final(out)@ == old(out)@ + list_enc(names_view(entries@), pair_enc()),
{
    put_u64(out, entries.len() as u64);
    let ghost start = out@;
    let ghost all = names_view(entries@);
    let mut i: usize = 0;
    while i < entries.len()
        invariant
            i <= entries@.len(),
            all == names_view(entries@),
            out@ == start + concat_enc(all.take(i as int), pair_enc()),
        decreases entries@.len() - i,
    {
        put_str(out, entries[i].0.as_str());
        put_u64(out, entries[i].1);
        proof {
            assert(all.take(i + 1).drop_last() =~= all.take(i as int));
            assert(out@ =~= start + concat_enc(all.take(i + 1), pair_enc()));
        }
        i = i + 1;
    }
    assert(all.take(all.len() as int) =~= all);
    assert(out@ =~= old(out)@ + list_enc(all, pair_enc()));
}

/// Do two strings hold the same characters.
pub fn str_eq(a: &str, b: &str) -> (r: bool)
    ensures
        r == (a@ == b@),
{
    let x = a.as_bytes();
    let y = b.as_bytes();
    proof {
        vstd::utf8::encode_utf8_decode_utf8(a@);
        vstd::utf8::encode_utf8_decode_utf8(b@);
    }
    if x.len() != y.len() {
        assert(a@ != b@) by {
            if a@ == b@ {
                assert(vstd::utf8::encode_utf8(a@) == vstd::utf8::encode_utf8(b@));
            }
        }
        return false;
    }
    let mut i: usize = 0;
    while i < x.len()
        invariant
            x@ == vstd::utf8::encode_utf8(a@),
            y@ == vstd::utf8::encode_utf8(b@),
            x@.len() == y@.len(),
            i <= x@.len(),
            forall|k: int| 0 <= k < i ==> x@[k] == y@[k],
        decreases x@.len() - i,
    {
        if x[i] != y[i] {
            assert(x@ != y@);
            return false;
        }
        i = i + 1;
    }
    assert(x@ =~= y@);
    true
}

} // verus!
