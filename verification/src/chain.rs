//! Blocks, client requests, and the deterministic block chain helper.
//!
//! A block digest is the sha-256 hash of the block's byte encoding; the
//! genesis block is the designated height-0 block whose stored form carries a
//! self-loop in `parent_digest`.

use vstd::prelude::*;

use crate::codec::{dec_u16_le, dec_u32_le, dec_u64_le, enc_bytes, enc_u16_le, enc_u32_le, enc_u64_le, get_u16_le, get_u32_le, get_u64_le, get_vec, lemma_bytes_roundtrip, lemma_u16_le_roundtrip, lemma_u32_le_roundtrip, lemma_u64_le_roundtrip, parse_bytes, put_bytes, put_slice, put_u16_le, put_u32_le, put_u64_le, sp_bytes};
use crate::crypto::{sha256, sha256_of};

verus! {

/// A 32-byte block digest, kept as plain bytes.
pub type BlockDigest = Vec<u8>;

/// An operation submitted by a client, batched into blocks by the primary.
pub struct Request {
    pub client_index: u16,
    pub request_num: u32,
    pub op: Vec<u8>,
}

pub struct RequestV {
    pub client_index: u16,
    pub request_num: u32,
    pub op: Seq<u8>,
}

impl View for Request {
    type V = RequestV;

    open spec fn view(&self) -> RequestV {
        RequestV { client_index: self.client_index, request_num: self.request_num, op: self.op@ }
    }
}

/// A batch of requests linked to its parent by digest.
pub struct Block {
    pub parent_digest: BlockDigest,
    pub height: u32,
    pub requests: Vec<Request>,
}

pub struct BlockV {
    pub parent_digest: Seq<u8>,
    pub height: u32,
    pub requests: Seq<RequestV>,
}

impl View for Block {
    type V = BlockV;

    open spec fn view(&self) -> BlockV {
        BlockV {
            parent_digest: self.parent_digest@,
            height: self.height,
            requests: self.requests@.map_values(|r: Request| r@),
        }
    }
}

pub open spec fn enc_request(r: RequestV) -> Seq<u8> {
    enc_u16_le(r.client_index) + enc_u32_le(r.request_num) + enc_bytes(r.op)
}

pub open spec fn enc_request_list(rs: Seq<RequestV>) -> Seq<u8>
    decreases rs.len(),
{
    if rs.len() == 0 {
        Seq::empty()
    } else {
        enc_request(rs[0]) + enc_request_list(rs.drop_first())
    }
}

pub open spec fn enc_block(b: BlockV) -> Seq<u8> {
    b.parent_digest + enc_u32_le(b.height) + enc_u64_le(b.requests.len() as u64)
        + enc_request_list(b.requests)
}

/// The digest of a block: the sha-256 hash of its byte encoding.
pub open spec fn block_digest_of(b: BlockV) -> Seq<u8> {
    sha256_of(enc_block(b))
}

/// Appending one request to a list extends the list's encoding by that
/// request's encoding.
pub proof fn lemma_enc_request_list_snoc(rs: Seq<RequestV>, r: RequestV)
    ensures
        enc_request_list(rs.push(r)) == enc_request_list(rs) + enc_request(r),
    decreases rs.len(),
{
    let s = rs.push(r);
    if rs.len() == 0 {
        assert(s[0] == r);
        assert(s.drop_first() =~= rs);
        assert(enc_request_list(s) == enc_request(r) + enc_request_list(rs));
        assert(enc_request(r) + enc_request_list(rs) =~= enc_request_list(rs) + enc_request(r));
    } else {
        assert(s[0] == rs[0]);
        assert(s.drop_first() =~= rs.drop_first().push(r));
        lemma_enc_request_list_snoc(rs.drop_first(), r);
        assert(enc_request_list(s) == enc_request(rs[0]) + (enc_request_list(rs.drop_first())
            + enc_request(r)));
        assert(enc_request(rs[0]) + (enc_request_list(rs.drop_first()) + enc_request(r)) =~= (
        enc_request(rs[0]) + enc_request_list(rs.drop_first())) + enc_request(r));
    }
}

pub fn encode_request(buf: &mut Vec<u8>, r: &Request)
    ensures
        final(buf)@ == old(buf)@ + enc_request(r@),
{
    put_u16_le(buf, r.client_index);
    put_u32_le(buf, r.request_num);
    put_bytes(buf, &r.op);
    assert(buf@ =~= old(buf)@ + enc_request(r@));
}

pub fn encode_block(buf: &mut Vec<u8>, b: &Block)
    ensures
        final(buf)@ == old(buf)@ + enc_block(b@),
{
    put_slice(buf, b.parent_digest.as_slice());
    put_u32_le(buf, b.height);
    put_u64_le(buf, b.requests.len() as u64);
    let ghost base = buf@;
    let n = b.requests.len();
    let mut i: usize = 0;
    assert(buf@ =~= base + enc_request_list(b@.requests.subrange(0, 0)));
    while i < n
        invariant
            i <= n,
            n == b.requests.len(),
            buf@ == base + enc_request_list(b@.requests.subrange(0, i as int)),
        decreases n - i,
    {
        encode_request(buf, &b.requests[i]);
        proof {
            assert(b@.requests.subrange(0, i + 1) =~= b@.requests.subrange(0, i as int).push(
                b.requests[i as int]@));
            lemma_enc_request_list_snoc(b@.requests.subrange(0, i as int), b.requests[i as int]@);
        }
        i = i + 1;
        assert(buf@ =~= base + enc_request_list(b@.requests.subrange(0, i as int)));
    }
    assert(b@.requests.subrange(0, n as int) =~= b@.requests);
    assert(buf@ =~= old(buf)@ + enc_block(b@));
}

/// Compute a block's digest by hashing its encoding.
pub fn block_digest(b: &Block) -> (r: BlockDigest)
    ensures
        r@ == block_digest_of(b@),
{
    let mut buf: Vec<u8> = Vec::new();
    encode_block(&mut buf, b);
    sha256(buf.as_slice())
}

/// Byte-for-byte equality of two digests.
pub fn digest_eq(a: &BlockDigest, b: &BlockDigest) -> (r: bool)
    ensures
        r == (a@ == b@),
{
    let n = a.len();
    if n != b.len() {
        return false;
    }
    let mut i: usize = 0;
    while i < n
        invariant
            i <= n,
            n == a@.len(),
            n == b@.len(),
            forall|j: int| 0 <= j < i ==> a@[j] == b@[j],
        decreases n - i,
    {
        if a[i] != b[i] {
            return false;
        }
        i = i + 1;
    }
    assert(a@ =~= b@);
    true
}

/// A fresh all-zero digest, the parent field of the genesis block as first
/// built.
pub fn zero_digest() -> (r: BlockDigest)
    ensures
        r@ == Seq::new(32, |i: int| 0u8),
{
    let mut d: Vec<u8> = Vec::new();
    let mut i: usize = 0;
    while i < 32
        invariant
            i <= 32,
            d@.len() == i,
            forall|j: int| 0 <= j < i ==> d@[j] == 0u8,
        decreases 32 - i,
    {
        d.push(0u8);
        i = i + 1;
    }
    assert(d@ =~= Seq::new(32, |j: int| 0u8));
    d
}

/// The genesis block as first constructed: height 0, no requests, an all-zero
/// parent digest.
pub fn genesis_block() -> (r: Block)
    ensures
        r@ == genesis_block_v(),
{
    let b = Block { parent_digest: zero_digest(), height: 0, requests: Vec::new() };
    proof {
        assert(b@.requests =~= genesis_block_v().requests);
    }
    b
}

pub open spec fn genesis_block_v() -> BlockV {
    BlockV { parent_digest: Seq::new(32, |i: int| 0u8), height: 0, requests: Seq::empty() }
}

/// The well-known digest that terminates every chain walk.
pub open spec fn genesis_digest() -> Seq<u8> {
    block_digest_of(genesis_block_v())
}

/// Deterministic block construction and the in-order execution cursor.
pub struct Chain {
    /// Digest of the block the next proposal extends.
    pub digest_parent: BlockDigest,
    /// Height of that block.
    pub parent_height: u32,
    /// Height of the next block expected to execute.
    pub execute_next: u32,
}

impl Chain {
    /// A chain rooted at genesis: proposals extend genesis until the replica
    /// re-points the parent, and the first block to execute has height 1.
    pub fn new(genesis: BlockDigest) -> (r: Chain)
        ensures
            r.digest_parent@ == genesis@,
            r.parent_height == 0,
            r.execute_next == 1,
    {
        Chain { digest_parent: genesis, parent_height: 0, execute_next: 1 }
    }

    /// Drain the pending requests into a block extending the current parent.
    pub fn propose(&mut self, requests: &mut Vec<Request>) -> (r: Block)
        requires
            old(self).parent_height < u32::MAX,
        ensures
            r@.parent_digest == old(self).digest_parent@,
            r.height == old(self).parent_height + 1,
            r@.requests == old(requests)@.map_values(|q: Request| q@),
            final(requests)@.len() == 0,
            *final(self) == *old(self),
    {
        let mut taken: Vec<Request> = Vec::new();
        std::mem::swap(requests, &mut taken);
        Block {
            parent_digest: self.digest_parent.clone(),
            height: self.parent_height + 1,
            requests: taken,
        }
    }

    /// Propose a block that carries no requests; it still advances the
    /// height.
    pub fn propose_empty(&mut self) -> (r: Block)
        requires
            old(self).parent_height < u32::MAX,
        ensures
            r@.parent_digest == old(self).digest_parent@,
            r.height == old(self).parent_height + 1,
            r@.requests.len() == 0,
            *final(self) == *old(self),
    {
        Block {
            parent_digest: self.digest_parent.clone(),
            height: self.parent_height + 1,
            requests: Vec::new(),
        }
    }

    /// Mark a block committed.  Returns whether the block is the next one to
    /// execute; a block already committed (or out of order) returns false, so
    /// committing is idempotent per block.
    pub fn commit(&mut self, block: &Block) -> (r: bool)
        ensures
            r == (block.height == old(self).execute_next && old(self).execute_next < u32::MAX),
            r ==> final(self).execute_next == old(self).execute_next + 1,
            !r ==> *final(self) == *old(self),
            final(self).digest_parent == old(self).digest_parent,
            final(self).parent_height == old(self).parent_height,
    {
        if block.height == self.execute_next && self.execute_next < u32::MAX {
            self.execute_next = self.execute_next + 1;
            true
        } else {
            false
        }
    }

    /// The next committable block not yet handed out.  Commits execute as
    /// they happen, so nothing is ever left queued.
    pub fn next_execute(&self) -> (r: Option<Block>)
        ensures
            r is None,
    {
        None
    }
}

/// Spec-level parse of one request at `pos`.
pub open spec fn sp_request(s: Seq<u8>, pos: int) -> Option<(RequestV, int)> {
    if pos < 0 || pos + 6 > s.len() {
        None
    } else {
        let client_index = dec_u16_le(s, pos);
        let request_num = dec_u32_le(s, pos + 2);
        match sp_bytes(s, pos + 6) {
            None => None,
            Some((op, end)) => Some((RequestV { client_index, request_num, op }, end)),
        }
    }
}

/// Spec-level parse of `n` consecutive requests starting at `pos`.
pub open spec fn sp_request_list(s: Seq<u8>, pos: int, n: int) -> Option<(Seq<RequestV>, int)>
    decreases n,
{
    if n <= 0 {
        Some((Seq::empty(), pos))
    } else {
        match sp_request(s, pos) {
            None => None,
            Some((r, p1)) => match sp_request_list(s, p1, n - 1) {
                None => None,
                Some((rest, end)) => Some((seq![r] + rest, end)),
            },
        }
    }
}

/// Spec-level parse of a block at `pos`.
pub open spec fn sp_block(s: Seq<u8>, pos: int) -> Option<(BlockV, int)> {
    if pos < 0 || pos + 44 > s.len() {
        None
    } else {
        let parent_digest = s.subrange(pos, pos + 32);
        let height = dec_u32_le(s, pos + 32);
        let n = dec_u64_le(s, pos + 36) as int;
        match sp_request_list(s, pos + 44, n) {
            None => None,
            Some((requests, end)) => Some((BlockV { parent_digest, height, requests }, end)),
        }
    }
}

pub fn parse_request(buf: &Vec<u8>, pos: usize) -> (r: Option<(Request, usize)>)
    ensures
        r matches Some(vp) ==> sp_request(buf@, pos as int) == Some((vp.0@, vp.1 as int)) && vp.1
            <= buf@.len(),
        r is None ==> sp_request(buf@, pos as int) is None,
{
    let len = buf.len();
    if pos > len || len - pos < 6 {
        return None;
    }
    let client_index = get_u16_le(buf, pos);
    let request_num = get_u32_le(buf, pos + 2);
    match parse_bytes(buf, pos + 6) {
        None => None,
        Some((op, end)) => Some((Request { client_index, request_num, op }, end)),
    }
}

/// Glue used while parsing a request list: the requests seen so far, joined
/// with what the rest of the buffer still parses to.
pub open spec fn sp_glue(prefix: Seq<RequestV>, rest: Option<(Seq<RequestV>, int)>) -> Option<
    (Seq<RequestV>, int),
> {
    match rest {
        None => None,
        Some((rs, end)) => Some((prefix + rs, end)),
    }
}

pub fn parse_block(buf: &Vec<u8>, pos: usize) -> (r: Option<(Block, usize)>)
    ensures
        r matches Some(vp) ==> sp_block(buf@, pos as int) == Some((vp.0@, vp.1 as int)) && vp.1
            <= buf@.len(),
        r is None ==> sp_block(buf@, pos as int) is None,
{
    let len = buf.len();
    if pos > len || len - pos < 44 {
        return None;
    }
    let parent_digest = get_vec(buf, pos, 32);
    let height = get_u32_le(buf, pos + 32);
    let n64 = get_u64_le(buf, pos + 36);
    let ghost n0 = n64 as int;
    let ghost pos0 = pos + 44;
    let mut requests: Vec<Request> = Vec::new();
    let mut p: usize = pos + 44;
    let mut i: u64 = 0;
    assert(requests@.map_values(|q: Request| q@) =~= Seq::<RequestV>::empty());
    while i < n64
        invariant
            i <= n64,
            p <= buf@.len(),
            n0 == n64 as int,
            pos0 == pos + 44,
            pos + 44 <= buf@.len(),
            n0 == dec_u64_le(buf@, pos + 36) as int,
            sp_request_list(buf@, pos0, n0) == sp_glue(
                requests@.map_values(|q: Request| q@),
                sp_request_list(buf@, p as int, n0 - i),
            ),
        decreases n64 - i,
    {
        let ghost prefix = requests@.map_values(|q: Request| q@);
        match parse_request(buf, p) {
            None => {
                assert(sp_request_list(buf@, p as int, n0 - i) is None);
                return None;
            },
            Some((q, p2)) => {
                proof {
                    let rest = sp_request_list(buf@, p2 as int, n0 - i - 1);
                    if rest is Some {
                        let (rs, end) = rest.unwrap();
                        assert(prefix + (seq![q@] + rs) =~= prefix.push(q@) + rs);
                    }
                }
                requests.push(q);
                assert(requests@.map_values(|qq: Request| qq@) =~= prefix.push(q@));
                p = p2;
            },
        }
        i = i + 1;
    }
    assert(sp_request_list(buf@, p as int, n0 - i) == Some((Seq::<RequestV>::empty(), p as int)));
    proof {
        let prefix = requests@.map_values(|q: Request| q@);
        assert(prefix + Seq::<RequestV>::empty() =~= prefix);
    }
    let b = Block { parent_digest, height, requests };
    assert(b@.parent_digest == buf@.subrange(pos as int, pos + 32));
    Some((b, p))
}

/// Parsing inverts encoding for a single request.
pub proof fn lemma_request_roundtrip(s: Seq<u8>, pos: int, r: RequestV)
    requires
        0 <= pos,
        r.op.len() <= u64::MAX,
        pos + enc_request(r).len() <= s.len(),
        s.subrange(pos, pos + enc_request(r).len() as int) == enc_request(r),
    ensures
        sp_request(s, pos) == Some((r, pos + enc_request(r).len())),
{
    let e = enc_request(r);
    assert(e.len() == 14 + r.op.len());
    assert forall|i: int| 0 <= i < e.len() implies s[pos + i] == e[i] by {
        assert(s.subrange(pos, pos + e.len() as int)[i] == s[pos + i]);
    }
    assert forall|j: int| 0 <= j < 2 implies s.subrange(pos, pos + 2)[j] == enc_u16_le(
        r.client_index,
    )[j] by {
        assert(s[pos + j] == e[j]);
        assert(s.subrange(pos, pos + 2)[j] == s[pos + j]);
    }
    assert(s.subrange(pos, pos + 2) =~= enc_u16_le(r.client_index));
    lemma_u16_le_roundtrip(s, pos, r.client_index);
    assert forall|j: int| 0 <= j < 4 implies s.subrange(pos + 2, pos + 6)[j] == enc_u32_le(
        r.request_num,
    )[j] by {
        assert(s[pos + (2 + j)] == e[2 + j]);
        assert(s.subrange(pos + 2, pos + 6)[j] == s[pos + 2 + j]);
    }
    assert(s.subrange(pos + 2, pos + 6) =~= enc_u32_le(r.request_num));
    lemma_u32_le_roundtrip(s, pos + 2, r.request_num);
    assert forall|j: int| 0 <= j < 8 + r.op.len() implies s.subrange(
        pos + 6,
        pos + 14 + r.op.len(),
    )[j] == enc_bytes(r.op)[j] by {
        assert(s[pos + (6 + j)] == e[6 + j]);
        assert(s.subrange(pos + 6, pos + 14 + r.op.len())[j] == s[pos + 6 + j]);
    }
    assert(s.subrange(pos + 6, pos + 6 + (8 + r.op.len() as int)) =~= enc_bytes(r.op));
    lemma_bytes_roundtrip(s, pos + 6, r.op);
}

/// Parsing inverts encoding for a request list.
pub proof fn lemma_request_list_roundtrip(s: Seq<u8>, pos: int, rs: Seq<RequestV>)
    requires
        0 <= pos,
        forall|i: int| 0 <= i < rs.len() ==> #[trigger] rs[i].op.len() <= u64::MAX,
        pos + enc_request_list(rs).len() <= s.len(),
        s.subrange(pos, pos + enc_request_list(rs).len() as int) == enc_request_list(rs),
    ensures
        sp_request_list(s, pos, rs.len() as int) == Some(
            (rs, pos + enc_request_list(rs).len()),
        ),
    decreases rs.len(),
{
    let e = enc_request_list(rs);
    if rs.len() == 0 {
        assert(rs =~= Seq::<RequestV>::empty());
    } else {
        let e0 = enc_request(rs[0]);
        let erest = enc_request_list(rs.drop_first());
        assert(e == e0 + erest);
        assert forall|i: int| 0 <= i < e.len() implies s[pos + i] == e[i] by {
            assert(s.subrange(pos, pos + e.len() as int)[i] == s[pos + i]);
        }
        assert forall|j: int| 0 <= j < e0.len() implies s.subrange(pos, pos + e0.len() as int)[j]
            == e0[j] by {
            assert(s[pos + j] == e[j]);
            assert(s.subrange(pos, pos + e0.len() as int)[j] == s[pos + j]);
        }
        assert(s.subrange(pos, pos + e0.len() as int) =~= e0);
        lemma_request_roundtrip(s, pos, rs[0]);
        let p1 = pos + e0.len() as int;
        assert forall|j: int| 0 <= j < erest.len() implies s.subrange(
            p1,
            p1 + erest.len() as int,
        )[j] == erest[j] by {
            assert(s[pos + (e0.len() + j)] == e[e0.len() + j]);
            assert(s.subrange(p1, p1 + erest.len() as int)[j] == s[p1 + j]);
        }
        assert(s.subrange(p1, p1 + erest.len() as int) =~= erest);
        lemma_request_list_roundtrip(s, p1, rs.drop_first());
        assert(seq![rs[0]] + rs.drop_first() =~= rs);
    }
}

/// Parsing inverts encoding for a block whose parent digest has the standard
/// width.
pub proof fn lemma_block_roundtrip(s: Seq<u8>, pos: int, b: BlockV)
    requires
        0 <= pos,
        b.parent_digest.len() == 32,
        b.requests.len() <= u64::MAX,
        forall|i: int| 0 <= i < b.requests.len() ==> #[trigger] b.requests[i].op.len() <= u64::MAX,
        pos + enc_block(b).len() <= s.len(),
        s.subrange(pos, pos + enc_block(b).len() as int) == enc_block(b),
    ensures
        sp_block(s, pos) == Some((b, pos + enc_block(b).len())),
{
    let e = enc_block(b);
    let el = enc_request_list(b.requests);
    assert(e.len() == 44 + el.len());
    assert forall|i: int| 0 <= i < e.len() implies s[pos + i] == e[i] by {
        assert(s.subrange(pos, pos + e.len() as int)[i] == s[pos + i]);
    }
    assert forall|j: int| 0 <= j < 32 implies s.subrange(pos, pos + 32)[j]
        == b.parent_digest[j] by {
        assert(s[pos + j] == e[j]);
        assert(s.subrange(pos, pos + 32)[j] == s[pos + j]);
    }
    assert(s.subrange(pos, pos + 32) =~= b.parent_digest);
    assert forall|j: int| 0 <= j < 4 implies s.subrange(pos + 32, pos + 36)[j] == enc_u32_le(
        b.height,
    )[j] by {
        assert(s[pos + (32 + j)] == e[32 + j]);
        assert(s.subrange(pos + 32, pos + 36)[j] == s[pos + 32 + j]);
    }
    assert(s.subrange(pos + 32, pos + 36) =~= enc_u32_le(b.height));
    lemma_u32_le_roundtrip(s, pos + 32, b.height);
    assert forall|j: int| 0 <= j < 8 implies #[trigger] s.subrange(pos + 36, pos + 44)[j]
        == enc_u64_le(b.requests.len() as u64)[j] by {
        assert(s[pos + (36 + j)] == e[36 + j]);
        assert(s.subrange(pos + 36, pos + 44)[j] == s[pos + 36 + j]);
    }
    assert(s.subrange(pos + 36, pos + 44) =~= enc_u64_le(b.requests.len() as u64));
    lemma_u64_le_roundtrip(s, pos + 36, b.requests.len() as u64);
    assert forall|j: int| 0 <= j < el.len() implies s.subrange(
        pos + 44,
        pos + 44 + el.len() as int,
    )[j] == el[j] by {
        assert(s[pos + (44 + j)] == e[44 + j]);
        assert(s.subrange(pos + 44, pos + 44 + el.len() as int)[j] == s[pos + 44 + j]);
    }
    assert(s.subrange(pos + 44, pos + 44 + el.len() as int) =~= el);
    lemma_request_list_roundtrip(s, pos + 44, b.requests);
}

} // verus!
