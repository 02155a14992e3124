//! Byte-level primitives of the wire format.
//!
//! Payloads travel as little-endian fixed-width integers (the multicast
//! sequence number alone is big-endian) and length-prefixed byte strings.
//! Every encoder has a spec-level byte image, every decoder is proved to
//! invert it, so the message codecs built on top can state their round trips
//! exactly.

use vstd::prelude::*;

verus! {

pub open spec fn enc_u16_le(v: u16) -> Seq<u8> {
    seq![(v & 0xff) as u8, ((v >> 8) & 0xff) as u8]
}

pub open spec fn enc_u32_le(v: u32) -> Seq<u8> {
    seq![
        (v & 0xff) as u8,
        ((v >> 8) & 0xff) as u8,
        ((v >> 16) & 0xff) as u8,
        ((v >> 24) & 0xff) as u8,
    ]
}

pub open spec fn enc_u64_le(v: u64) -> Seq<u8> {
    seq![
        (v & 0xff) as u8,
        ((v >> 8) & 0xff) as u8,
        ((v >> 16) & 0xff) as u8,
        ((v >> 24) & 0xff) as u8,
        ((v >> 32) & 0xff) as u8,
        ((v >> 40) & 0xff) as u8,
        ((v >> 48) & 0xff) as u8,
        ((v >> 56) & 0xff) as u8,
    ]
}

pub open spec fn enc_u32_be(v: u32) -> Seq<u8> {
    seq![
        ((v >> 24) & 0xff) as u8,
        ((v >> 16) & 0xff) as u8,
        ((v >> 8) & 0xff) as u8,
        (v & 0xff) as u8,
    ]
}

/// A byte string prefixed with its length as a little-endian `u64`.
pub open spec fn enc_bytes(b: Seq<u8>) -> Seq<u8> {
    enc_u64_le(b.len() as u64) + b
}

pub open spec fn dec_u16_le(s: Seq<u8>, pos: int) -> u16
    recommends
        0 <= pos,
        pos + 2 <= s.len(),
{
    (s[pos] as u16) | ((s[pos + 1] as u16) << 8)
}

pub open spec fn dec_u32_le(s: Seq<u8>, pos: int) -> u32
    recommends
        0 <= pos,
        pos + 4 <= s.len(),
{
    (s[pos] as u32) | ((s[pos + 1] as u32) << 8) | ((s[pos + 2] as u32) << 16) | ((s[pos + 3]
        as u32) << 24)
}

pub open spec fn dec_u64_le(s: Seq<u8>, pos: int) -> u64
    recommends
        0 <= pos,
        pos + 8 <= s.len(),
{
    (s[pos] as u64) | ((s[pos + 1] as u64) << 8) | ((s[pos + 2] as u64) << 16) | ((s[pos + 3]
        as u64) << 24) | ((s[pos + 4] as u64) << 32) | ((s[pos + 5] as u64) << 40) | ((s[pos + 6]
        as u64) << 48) | ((s[pos + 7] as u64) << 56)
}

pub open spec fn dec_u32_be(s: Seq<u8>, pos: int) -> u32
    recommends
        0 <= pos,
        pos + 4 <= s.len(),
{
    ((s[pos] as u32) << 24) | ((s[pos + 1] as u32) << 16) | ((s[pos + 2] as u32) << 8) | (s[pos + 3]
        as u32)
}

/// Decoding the four little-endian bytes of `v` gives back `v`.
pub proof fn lemma_u32_le_roundtrip(s: Seq<u8>, pos: int, v: u32)
    requires
        0 <= pos,
        pos + 4 <= s.len(),
        s.subrange(pos, pos + 4) == enc_u32_le(v),
    ensures
        dec_u32_le(s, pos) == v,
{
    assert(s[pos] == enc_u32_le(v)[0]) by {
        assert(s.subrange(pos, pos + 4)[0] == s[pos]);
    }
    assert(s[pos + 1] == enc_u32_le(v)[1]) by {
        assert(s.subrange(pos, pos + 4)[1] == s[pos + 1]);
    }
    assert(s[pos + 2] == enc_u32_le(v)[2]) by {
        assert(s.subrange(pos, pos + 4)[2] == s[pos + 2]);
    }
    assert(s[pos + 3] == enc_u32_le(v)[3]) by {
        assert(s.subrange(pos, pos + 4)[3] == s[pos + 3]);
    }
    assert(((v & 0xff) as u8 as u32) | (((v >> 8) & 0xff) as u8 as u32) << 8 | (((v >> 16)
        & 0xff) as u8 as u32) << 16 | (((v >> 24) & 0xff) as u8 as u32) << 24 == v)
        by (bit_vector);
}

/// Decoding the two little-endian bytes of `v` gives back `v`.
pub proof fn lemma_u16_le_roundtrip(s: Seq<u8>, pos: int, v: u16)
    requires
        0 <= pos,
        pos + 2 <= s.len(),
        s.subrange(pos, pos + 2) == enc_u16_le(v),
    ensures
        dec_u16_le(s, pos) == v,
{
    assert(s[pos] == enc_u16_le(v)[0]) by {
        assert(s.subrange(pos, pos + 2)[0] == s[pos]);
    }
    assert(s[pos + 1] == enc_u16_le(v)[1]) by {
        assert(s.subrange(pos, pos + 2)[1] == s[pos + 1]);
    }
    assert(((v & 0xff) as u8 as u16) | (((v >> 8) & 0xff) as u8 as u16) << 8 == v)
        by (bit_vector);
}

/// Decoding the eight little-endian bytes of `v` gives back `v`.
pub proof fn lemma_u64_le_roundtrip(s: Seq<u8>, pos: int, v: u64)
    requires
        0 <= pos,
        pos + 8 <= s.len(),
        s.subrange(pos, pos + 8) == enc_u64_le(v),
    ensures
        dec_u64_le(s, pos) == v,
{
    assert forall|i: int| 0 <= i < 8 implies s[pos + i] == enc_u64_le(v)[i] by {
        assert(s.subrange(pos, pos + 8)[i] == s[pos + i]);
    }
    assert(((v & 0xff) as u8 as u64) | (((v >> 8) & 0xff) as u8 as u64) << 8 | (((v >> 16)
        & 0xff) as u8 as u64) << 16 | (((v >> 24) & 0xff) as u8 as u64) << 24 | (((v >> 32)
        & 0xff) as u8 as u64) << 32 | (((v >> 40) & 0xff) as u8 as u64) << 40 | (((v >> 48)
        & 0xff) as u8 as u64) << 48 | (((v >> 56) & 0xff) as u8 as u64) << 56 == v)
        by (bit_vector);
}

/// Decoding the four big-endian bytes of `v` gives back `v`.
pub proof fn lemma_u32_be_roundtrip(s: Seq<u8>, pos: int, v: u32)
    requires
        0 <= pos,
        pos + 4 <= s.len(),
        s.subrange(pos, pos + 4) == enc_u32_be(v),
    ensures
        dec_u32_be(s, pos) == v,
{
    assert forall|i: int| 0 <= i < 4 implies s[pos + i] == enc_u32_be(v)[i] by {
        assert(s.subrange(pos, pos + 4)[i] == s[pos + i]);
    }
    assert((((v >> 24) & 0xff) as u8 as u32) << 24 | (((v >> 16) & 0xff) as u8 as u32) << 16 | (((v
        >> 8) & 0xff) as u8 as u32) << 8 | ((v & 0xff) as u8 as u32) == v)
        by (bit_vector);
}

pub fn put_u16_le(buf: &mut Vec<u8>, v: u16)
    ensures
        final(buf)@ == old(buf)@ + enc_u16_le(v),
{
    buf.push((v & 0xff) as u8);
    buf.push(((v >> 8) & 0xff) as u8);
    assert(buf@ =~= old(buf)@ + enc_u16_le(v));
}

pub fn put_u32_le(buf: &mut Vec<u8>, v: u32)
    ensures
        final(buf)@ == old(buf)@ + enc_u32_le(v),
{
    buf.push((v & 0xff) as u8);
    buf.push(((v >> 8) & 0xff) as u8);
    buf.push(((v >> 16) & 0xff) as u8);
    buf.push(((v >> 24) & 0xff) as u8);
    assert(buf@ =~= old(buf)@ + enc_u32_le(v));
}

pub fn put_u64_le(buf: &mut Vec<u8>, v: u64)
    ensures
        final(buf)@ == old(buf)@ + enc_u64_le(v),
{
    buf.push((v & 0xff) as u8);
    buf.push(((v >> 8) & 0xff) as u8);
    buf.push(((v >> 16) & 0xff) as u8);
    buf.push(((v >> 24) & 0xff) as u8);
    buf.push(((v >> 32) & 0xff) as u8);
    buf.push(((v >> 40) & 0xff) as u8);
    buf.push(((v >> 48) & 0xff) as u8);
    buf.push(((v >> 56) & 0xff) as u8);
    assert(buf@ =~= old(buf)@ + enc_u64_le(v));
}

pub fn put_u32_be(buf: &mut Vec<u8>, v: u32)
    ensures
        final(buf)@ == old(buf)@ + enc_u32_be(v),
{
    buf.push(((v >> 24) & 0xff) as u8);
    buf.push(((v >> 16) & 0xff) as u8);
    buf.push(((v >> 8) & 0xff) as u8);
    buf.push((v & 0xff) as u8);
    assert(buf@ =~= old(buf)@ + enc_u32_be(v));
}

pub fn put_slice(buf: &mut Vec<u8>, b: &[u8])
    ensures
        final(buf)@ == old(buf)@ + b@,
{
    let n = b.len();
    let mut i: usize = 0;
    assert(buf@ =~= old(buf)@ + b@.subrange(0, 0));
    while i < n
        invariant
            i <= n,
            n == b@.len(),
            buf@ == old(buf)@ + b@.subrange(0, i as int),
        decreases n - i,
    {
        buf.push(b[i]);
        i = i + 1;
        assert(buf@ =~= old(buf)@ + b@.subrange(0, i as int));
    }
    assert(buf@ =~= old(buf)@ + b@);
}

/// A length-prefixed byte string: eight bytes of little-endian length, then
/// the bytes themselves.
pub fn put_bytes(buf: &mut Vec<u8>, b: &Vec<u8>)
    ensures
        final(buf)@ == old(buf)@ + enc_bytes(b@),
{
    put_u64_le(buf, b.len() as u64);
    put_slice(buf, b.as_slice());
    assert(buf@ =~= old(buf)@ + enc_bytes(b@));
}

pub fn get_u16_le(buf: &Vec<u8>, pos: usize) -> (r: u16)
    requires
        pos + 2 <= buf@.len(),
    ensures
        r == dec_u16_le(buf@, pos as int),
{
    let n = buf.len();
    assert(pos + 2 <= n);
    (buf[pos] as u16) | ((buf[pos + 1] as u16) << 8)
}

pub fn get_u32_le(buf: &Vec<u8>, pos: usize) -> (r: u32)
    requires
        pos + 4 <= buf@.len(),
    ensures
        r == dec_u32_le(buf@, pos as int),
{
    let n = buf.len();
    assert(pos + 4 <= n);
    (buf[pos] as u32) | ((buf[pos + 1] as u32) << 8) | ((buf[pos + 2] as u32) << 16) | ((buf[pos
        + 3] as u32) << 24)
}

pub fn get_u64_le(buf: &Vec<u8>, pos: usize) -> (r: u64)
    requires
        pos + 8 <= buf@.len(),
    ensures
        r == dec_u64_le(buf@, pos as int),
{
    let n = buf.len();
    assert(pos + 8 <= n);
    (buf[pos] as u64) | ((buf[pos + 1] as u64) << 8) | ((buf[pos + 2] as u64) << 16) | ((buf[pos
        + 3] as u64) << 24) | ((buf[pos + 4] as u64) << 32) | ((buf[pos + 5] as u64) << 40)
        | ((buf[pos + 6] as u64) << 48) | ((buf[pos + 7] as u64) << 56)
}

pub fn get_u32_be(buf: &Vec<u8>, pos: usize) -> (r: u32)
    requires
        pos + 4 <= buf@.len(),
    ensures
        r == dec_u32_be(buf@, pos as int),
{
    let n = buf.len();
    assert(pos + 4 <= n);
    ((buf[pos] as u32) << 24) | ((buf[pos + 1] as u32) << 16) | ((buf[pos + 2] as u32) << 8)
        | (buf[pos + 3] as u32)
}

/// Copy `n` bytes out of `buf` starting at `pos`.
pub fn get_vec(buf: &Vec<u8>, pos: usize, n: usize) -> (r: Vec<u8>)
    requires
        pos + n <= buf@.len(),
    ensures
        r@ == buf@.subrange(pos as int, pos + n),
{
    let total = buf.len();
    assert(pos + n <= total);
    let mut out: Vec<u8> = Vec::new();
    let mut i: usize = 0;
    assert(out@ =~= buf@.subrange(pos as int, pos as int));
    while i < n
        invariant
            i <= n,
            pos + n <= total,
            total == buf@.len(),
            out@ == buf@.subrange(pos as int, pos + i),
        decreases n - i,
    {
        out.push(buf[pos + i]);
        i = i + 1;
        assert(out@ =~= buf@.subrange(pos as int, pos + i));
    }
    out
}

/// A window equality transfers to any sub-window: if `s` carries `e` at
/// `pos`, then it carries `e.subrange(off, off + k)` at `pos + off`.
pub proof fn lemma_subrange_transfer(s: Seq<u8>, pos: int, e: Seq<u8>, off: int, k: int)
    requires
        0 <= pos,
        pos + e.len() <= s.len(),
        s.subrange(pos, pos + e.len() as int) == e,
        0 <= off,
        0 <= k,
        off + k <= e.len(),
    ensures
        s.subrange(pos + off, pos + off + k) == e.subrange(off, off + k),
{
    assert forall|j: int| 0 <= j < k implies #[trigger] s.subrange(pos + off, pos + off + k)[j]
        == e.subrange(off, off + k)[j] by {
        assert(s.subrange(pos, pos + e.len() as int)[off + j] == s[pos + (off + j)]);
        assert(s.subrange(pos + off, pos + off + k)[j] == s[pos + off + j]);
        assert(e.subrange(off, off + k)[j] == e[off + j]);
    }
    assert(s.subrange(pos + off, pos + off + k) =~= e.subrange(off, off + k));
}

/// Overwrite `buf[pos..pos + src.len()]` with `src`, leaving the rest.
pub fn splice(buf: &mut Vec<u8>, pos: usize, src: &[u8])
    requires
        pos + src@.len() <= old(buf)@.len(),
    ensures
        final(buf)@.len() == old(buf)@.len(),
        forall|i: int|
            0 <= i < old(buf)@.len() ==> #[trigger] final(buf)@[i] == if pos <= i < pos
                + src@.len() {
                src@[i - pos]
            } else {
                old(buf)@[i]
            },
{
    let n = src.len();
    let total = buf.len();
    let mut i: usize = 0;
    while i < n
        invariant
            i <= n,
            n == src@.len(),
            pos + n <= total,
            total == buf@.len(),
            buf@.len() == old(buf)@.len(),
            forall|j: int|
                0 <= j < buf@.len() ==> #[trigger] buf@[j] == if pos <= j < pos + i {
                    src@[j - pos]
                } else {
                    old(buf)@[j]
                },
        decreases n - i,
    {
        buf.set(pos + i, src[i]);
        i = i + 1;
    }
}

/// Spec-level parse of a length-prefixed byte string at `pos`.
pub open spec fn sp_bytes(s: Seq<u8>, pos: int) -> Option<(Seq<u8>, int)> {
    if pos < 0 || pos + 8 > s.len() {
        None
    } else {
        let n = dec_u64_le(s, pos) as int;
        if pos + 8 + n > s.len() {
            None
        } else {
            Some((s.subrange(pos + 8, pos + 8 + n), pos + 8 + n))
        }
    }
}

pub fn parse_bytes(buf: &Vec<u8>, pos: usize) -> (r: Option<(Vec<u8>, usize)>)
    ensures
        r matches Some(vp) ==> sp_bytes(buf@, pos as int) == Some((vp.0@, vp.1 as int)) && vp.1
            <= buf@.len(),
        r is None ==> sp_bytes(buf@, pos as int) is None,
{
    let len = buf.len();
    if pos > len || len - pos < 8 {
        return None;
    }
    let n64 = get_u64_le(buf, pos);
    if n64 > (len - (pos + 8)) as u64 {
        return None;
    }
    let n = n64 as usize;
    let v = get_vec(buf, pos + 8, n);
    Some((v, pos + 8 + n))
}

/// Parsing inverts encoding: a buffer that carries `enc_bytes(b)` at `pos`
/// parses to exactly `b`.
pub proof fn lemma_bytes_roundtrip(s: Seq<u8>, pos: int, b: Seq<u8>)
    requires
        0 <= pos,
        b.len() <= u64::MAX,
        pos + 8 + b.len() <= s.len(),
        s.subrange(pos, pos + 8 + b.len()) == enc_bytes(b),
    ensures
        sp_bytes(s, pos) == Some((b, pos + 8 + b.len())),
{
    let e = enc_bytes(b);
    assert forall|i: int| 0 <= i < 8 + b.len() implies s[pos + i] == e[i] by {
        assert(s.subrange(pos, pos + 8 + b.len())[i] == s[pos + i]);
    }
    assert(s.subrange(pos, pos + 8) =~= enc_u64_le(b.len() as u64));
    lemma_u64_le_roundtrip(s, pos, b.len() as u64);
    assert(dec_u64_le(s, pos) == b.len() as u64);
    let w = s.subrange(pos, pos + 8 + b.len());
    assert forall|j: int| 0 <= j < b.len() implies s.subrange(pos + 8, pos + 8 + b.len())[j]
        == b[j] by {
        assert(w[8 + j] == s[pos + (8 + j)]);
        assert(w[8 + j] == b[j]);
        assert(s.subrange(pos + 8, pos + 8 + b.len())[j] == s[pos + 8 + j]);
    }
    assert(s.subrange(pos + 8, pos + 8 + b.len()) =~= b);
}

} // verus!
