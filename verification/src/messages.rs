//! Message types of the three-chain consensus protocol and their wire codec.
//!
//! Every message is a tagged union over signed payloads.  The codec mirrors
//! the payload layout used everywhere else in the crate: little-endian
//! fixed-width integers, a `u64` length prefix before each byte string or
//! list, and a leading `u32` variant tag for the union.  Parsing is proved to
//! invert encoding.

use vstd::prelude::*;

use crate::chain::{
    enc_request, lemma_request_roundtrip, parse_request, sp_request, Block, BlockDigest, BlockV,
    Request, RequestV, enc_block, lemma_block_roundtrip, parse_block, sp_block,
};
use crate::codec::{
    dec_u32_le, enc_bytes, enc_u32_le, enc_u64_le, get_u32_le, get_u64_le, dec_u64_le,
    lemma_bytes_roundtrip, lemma_subrange_transfer, lemma_u32_le_roundtrip,
    lemma_u64_le_roundtrip, parse_bytes, put_bytes, put_slice, put_u32_le, put_u64_le, sp_bytes,
};
use crate::chain::{encode_block, encode_request};

verus! {

/// A payload together with the signature bytes its sender attached.  The
/// cryptographic schemes themselves are outside collaborators; the library
/// carries the signature as plain bytes.
pub struct Signed<M> {
    pub inner: M,
    pub signature: Vec<u8>,
}

pub struct SignedV<V> {
    pub inner: V,
    pub signature: Seq<u8>,
}

impl<M: View> View for Signed<M> {
    type V = SignedV<<M as View>::V>;

    open spec fn view(&self) -> SignedV<<M as View>::V> {
        SignedV { inner: self.inner@, signature: self.signature@ }
    }
}

/// A replica's answer to one client request.
pub struct Reply {
    pub request_num: u32,
    pub result: Vec<u8>,
    pub replica_index: u8,
}

pub struct ReplyV {
    pub request_num: u32,
    pub result: Seq<u8>,
    pub replica_index: u8,
}

impl View for Reply {
    type V = ReplyV;

    open spec fn view(&self) -> ReplyV {
        ReplyV {
            request_num: self.request_num,
            result: self.result@,
            replica_index: self.replica_index,
        }
    }
}

/// A replica's endorsement of one block.
pub struct Vote {
    pub block_digest: BlockDigest,
    pub replica_index: u8,
}

pub struct VoteV {
    pub block_digest: Seq<u8>,
    pub replica_index: u8,
}

impl View for Vote {
    type V = VoteV;

    open spec fn view(&self) -> VoteV {
        VoteV { block_digest: self.block_digest@, replica_index: self.replica_index }
    }
}

/// A proposal: a block, the digest it certifies, and the quorum certificate
/// backing that digest.
pub struct Generic {
    pub block: Block,
    pub certified_digest: BlockDigest,
    pub certificate: Vec<Signed<Vote>>,
    pub replica_index: u8,
}

pub struct GenericV {
    pub block: BlockV,
    pub certified_digest: Seq<u8>,
    pub certificate: Seq<SignedV<VoteV>>,
    pub replica_index: u8,
}

impl View for Generic {
    type V = GenericV;

    open spec fn view(&self) -> GenericV {
        GenericV {
            block: self.block@,
            certified_digest: self.certified_digest@,
            certificate: self.certificate@.map_values(|v: Signed<Vote>| v@),
            replica_index: self.replica_index,
        }
    }
}

/// The protocol's message union.
pub enum Message {
    Request(Signed<Request>),
    Reply(Signed<Reply>),
    Generic(Signed<Generic>),
    Vote(Signed<Vote>),
}

pub enum MessageV {
    Request(SignedV<RequestV>),
    Reply(SignedV<ReplyV>),
    Generic(SignedV<GenericV>),
    Vote(SignedV<VoteV>),
}

impl View for Message {
    type V = MessageV;

    open spec fn view(&self) -> MessageV {
        match self {
            Message::Request(m) => MessageV::Request(m@),
            Message::Reply(m) => MessageV::Reply(m@),
            Message::Generic(m) => MessageV::Generic(m@),
            Message::Vote(m) => MessageV::Vote(m@),
        }
    }
}

impl Request {
    /// A field-for-field copy.
    pub fn duplicate(&self) -> (r: Request)
        ensures
            r@ == self@,
    {
        Request {
            client_index: self.client_index,
            request_num: self.request_num,
            op: self.op.clone(),
        }
    }
}

impl Block {
    /// A field-for-field copy.
    pub fn duplicate(&self) -> (r: Block)
        ensures
            r@ == self@,
    {
        let mut requests: Vec<Request> = Vec::new();
        let n = self.requests.len();
        let mut i: usize = 0;
        while i < n
            invariant
                i <= n,
                n == self.requests.len(),
                requests@.len() == i,
                forall|j: int| 0 <= j < i ==> #[trigger] requests@[j]@ == self.requests@[j]@,
            decreases n - i,
        {
            requests.push(self.requests[i].duplicate());
            i = i + 1;
        }
        let b = Block {
            parent_digest: self.parent_digest.clone(),
            height: self.height,
            requests,
        };
        assert(b@.requests =~= self@.requests);
        b
    }
}

impl Reply {
    /// A field-for-field copy.
    pub fn duplicate(&self) -> (r: Reply)
        ensures
            r@ == self@,
    {
        Reply {
            request_num: self.request_num,
            result: self.result.clone(),
            replica_index: self.replica_index,
        }
    }
}

impl Vote {
    /// A field-for-field copy.
    pub fn duplicate(&self) -> (r: Vote)
        ensures
            r@ == self@,
    {
        Vote { block_digest: self.block_digest.clone(), replica_index: self.replica_index }
    }
}

impl Signed<Vote> {
    /// A field-for-field copy.
    pub fn duplicate(&self) -> (r: Signed<Vote>)
        ensures
            r@ == self@,
    {
        Signed { inner: self.inner.duplicate(), signature: self.signature.clone() }
    }
}

impl Generic {
    /// A field-for-field copy.
    pub fn duplicate(&self) -> (r: Generic)
        ensures
            r@ == self@,
    {
        let mut certificate: Vec<Signed<Vote>> = Vec::new();
        let n = self.certificate.len();
        let mut i: usize = 0;
        while i < n
            invariant
                i <= n,
                n == self.certificate.len(),
                certificate@.len() == i,
                forall|j: int| 0 <= j < i ==> #[trigger] certificate@[j]@
                    == self.certificate@[j]@,
            decreases n - i,
        {
            certificate.push(self.certificate[i].duplicate());
            i = i + 1;
        }
        let g = Generic {
            block: self.block.duplicate(),
            certified_digest: self.certified_digest.clone(),
            certificate,
            replica_index: self.replica_index,
        };
        assert(g@.certificate =~= self@.certificate);
        g
    }
}

impl Signed<Generic> {
    /// A field-for-field copy.
    pub fn duplicate(&self) -> (r: Signed<Generic>)
        ensures
            r@ == self@,
    {
        Signed { inner: self.inner.duplicate(), signature: self.signature.clone() }
    }
}

// ---------------------------------------------------------------------------
// Well-formedness: the machine-width bounds under which the codec is exact.

pub open spec fn request_wf(r: RequestV) -> bool {
    r.op.len() <= u64::MAX
}

pub open spec fn block_wf(b: BlockV) -> bool {
    &&& b.parent_digest.len() == 32
    &&& b.requests.len() <= u64::MAX
    &&& forall|i: int| 0 <= i < b.requests.len() ==> request_wf(#[trigger] b.requests[i])
}

pub open spec fn reply_wf(r: ReplyV) -> bool {
    r.result.len() <= u64::MAX
}

pub open spec fn vote_wf(v: VoteV) -> bool {
    v.block_digest.len() == 32
}

pub open spec fn signed_request_wf(m: SignedV<RequestV>) -> bool {
    request_wf(m.inner) && m.signature.len() <= u64::MAX
}

pub open spec fn signed_reply_wf(m: SignedV<ReplyV>) -> bool {
    reply_wf(m.inner) && m.signature.len() <= u64::MAX
}

pub open spec fn signed_vote_wf(m: SignedV<VoteV>) -> bool {
    vote_wf(m.inner) && m.signature.len() <= u64::MAX
}

pub open spec fn generic_wf(g: GenericV) -> bool {
    &&& block_wf(g.block)
    &&& g.certified_digest.len() == 32
    &&& g.certificate.len() <= u64::MAX
    &&& forall|i: int| 0 <= i < g.certificate.len() ==> signed_vote_wf(#[trigger] g.certificate[i])
}

pub open spec fn signed_generic_wf(m: SignedV<GenericV>) -> bool {
    generic_wf(m.inner) && m.signature.len() <= u64::MAX
}

pub open spec fn message_wf(m: MessageV) -> bool {
    match m {
        MessageV::Request(x) => signed_request_wf(x),
        MessageV::Reply(x) => signed_reply_wf(x),
        MessageV::Generic(x) => signed_generic_wf(x),
        MessageV::Vote(x) => signed_vote_wf(x),
    }
}

// ---------------------------------------------------------------------------
// Byte images.

pub open spec fn enc_reply(r: ReplyV) -> Seq<u8> {
    enc_u32_le(r.request_num) + enc_bytes(r.result) + seq![r.replica_index]
}

pub open spec fn enc_vote(v: VoteV) -> Seq<u8> {
    v.block_digest + seq![v.replica_index]
}

pub open spec fn enc_signed_request(m: SignedV<RequestV>) -> Seq<u8> {
    enc_request(m.inner) + enc_bytes(m.signature)
}

pub open spec fn enc_signed_reply(m: SignedV<ReplyV>) -> Seq<u8> {
    enc_reply(m.inner) + enc_bytes(m.signature)
}

pub open spec fn enc_signed_vote(m: SignedV<VoteV>) -> Seq<u8> {
    enc_vote(m.inner) + enc_bytes(m.signature)
}

pub open spec fn enc_vote_list(vs: Seq<SignedV<VoteV>>) -> Seq<u8>
    decreases vs.len(),
{
    if vs.len() == 0 {
        Seq::empty()
    } else {
        enc_signed_vote(vs[0]) + enc_vote_list(vs.drop_first())
    }
}

pub open spec fn enc_generic(g: GenericV) -> Seq<u8> {
    enc_block(g.block) + g.certified_digest + enc_u64_le(g.certificate.len() as u64)
        + enc_vote_list(g.certificate) + seq![g.replica_index]
}

pub open spec fn enc_signed_generic(m: SignedV<GenericV>) -> Seq<u8> {
    enc_generic(m.inner) + enc_bytes(m.signature)
}

pub open spec fn enc_message(m: MessageV) -> Seq<u8> {
    match m {
        MessageV::Request(x) => enc_u32_le(0) + enc_signed_request(x),
        MessageV::Reply(x) => enc_u32_le(1) + enc_signed_reply(x),
        MessageV::Generic(x) => enc_u32_le(2) + enc_signed_generic(x),
        MessageV::Vote(x) => enc_u32_le(3) + enc_signed_vote(x),
    }
}

// ---------------------------------------------------------------------------
// Spec-level parsers.

pub open spec fn sp_reply(s: Seq<u8>, pos: int) -> Option<(ReplyV, int)> {
    if pos < 0 || pos + 4 > s.len() {
        None
    } else {
        let request_num = dec_u32_le(s, pos);
        match sp_bytes(s, pos + 4) {
            None => None,
            Some((result, p1)) => if p1 + 1 > s.len() {
                None
            } else {
                Some((ReplyV { request_num, result, replica_index: s[p1] }, p1 + 1))
            },
        }
    }
}

pub open spec fn sp_vote(s: Seq<u8>, pos: int) -> Option<(VoteV, int)> {
    if pos < 0 || pos + 33 > s.len() {
        None
    } else {
        Some(
            (
                VoteV { block_digest: s.subrange(pos, pos + 32), replica_index: s[pos + 32] },
                pos + 33,
            ),
        )
    }
}

pub open spec fn sp_signed_request(s: Seq<u8>, pos: int) -> Option<(SignedV<RequestV>, int)> {
    match sp_request(s, pos) {
        None => None,
        Some((inner, p1)) => match sp_bytes(s, p1) {
            None => None,
            Some((signature, p2)) => Some((SignedV { inner, signature }, p2)),
        },
    }
}

pub open spec fn sp_signed_reply(s: Seq<u8>, pos: int) -> Option<(SignedV<ReplyV>, int)> {
    match sp_reply(s, pos) {
        None => None,
        Some((inner, p1)) => match sp_bytes(s, p1) {
            None => None,
            Some((signature, p2)) => Some((SignedV { inner, signature }, p2)),
        },
    }
}

pub open spec fn sp_signed_vote(s: Seq<u8>, pos: int) -> Option<(SignedV<VoteV>, int)> {
    match sp_vote(s, pos) {
        None => None,
        Some((inner, p1)) => match sp_bytes(s, p1) {
            None => None,
            Some((signature, p2)) => Some((SignedV { inner, signature }, p2)),
        },
    }
}

pub open spec fn sp_vote_list(s: Seq<u8>, pos: int, n: int) -> Option<(Seq<SignedV<VoteV>>, int)>
    decreases n,
{
    if n <= 0 {
        Some((Seq::empty(), pos))
    } else {
        match sp_signed_vote(s, pos) {
            None => None,
            Some((v, p1)) => match sp_vote_list(s, p1, n - 1) {
                None => None,
                Some((rest, end)) => Some((seq![v] + rest, end)),
            },
        }
    }
}

pub open spec fn sp_generic(s: Seq<u8>, pos: int) -> Option<(GenericV, int)> {
    match sp_block(s, pos) {
        None => None,
        Some((block, p1)) => if p1 + 40 > s.len() {
            None
        } else {
            let certified_digest = s.subrange(p1, p1 + 32);
            let n = dec_u64_le(s, p1 + 32) as int;
            match sp_vote_list(s, p1 + 40, n) {
                None => None,
                Some((certificate, p2)) => if p2 + 1 > s.len() {
                    None
                } else {
                    Some(
                        (
                            GenericV {
                                block,
                                certified_digest,
                                certificate,
                                replica_index: s[p2],
                            },
                            p2 + 1,
                        ),
                    )
                },
            }
        },
    }
}

pub open spec fn sp_signed_generic(s: Seq<u8>, pos: int) -> Option<(SignedV<GenericV>, int)> {
    match sp_generic(s, pos) {
        None => None,
        Some((inner, p1)) => match sp_bytes(s, p1) {
            None => None,
            Some((signature, p2)) => Some((SignedV { inner, signature }, p2)),
        },
    }
}

pub open spec fn sp_message(s: Seq<u8>, pos: int) -> Option<(MessageV, int)> {
    if pos < 0 || pos + 4 > s.len() {
        None
    } else {
        let tag = dec_u32_le(s, pos);
        if tag == 0 {
            match sp_signed_request(s, pos + 4) {
                None => None,
                Some((x, end)) => Some((MessageV::Request(x), end)),
            }
        } else if tag == 1 {
            match sp_signed_reply(s, pos + 4) {
                None => None,
                Some((x, end)) => Some((MessageV::Reply(x), end)),
            }
        } else if tag == 2 {
            match sp_signed_generic(s, pos + 4) {
                None => None,
                Some((x, end)) => Some((MessageV::Generic(x), end)),
            }
        } else if tag == 3 {
            match sp_signed_vote(s, pos + 4) {
                None => None,
                Some((x, end)) => Some((MessageV::Vote(x), end)),
            }
        } else {
            None
        }
    }
}

// ---------------------------------------------------------------------------
// Exec encoders.

/// Appending one signed vote extends a certificate's encoding by that vote's
/// encoding.
pub proof fn lemma_enc_vote_list_snoc(vs: Seq<SignedV<VoteV>>, v: SignedV<VoteV>)
    ensures
        enc_vote_list(vs.push(v)) == enc_vote_list(vs) + enc_signed_vote(v),
    decreases vs.len(),
{
    let s = vs.push(v);
    if vs.len() == 0 {
        assert(s[0] == v);
        assert(s.drop_first() =~= vs);
        assert(enc_vote_list(s) == enc_signed_vote(v) + enc_vote_list(vs));
        assert(enc_signed_vote(v) + enc_vote_list(vs) =~= enc_vote_list(vs) + enc_signed_vote(v));
    } else {
        assert(s[0] == vs[0]);
        assert(s.drop_first() =~= vs.drop_first().push(v));
        lemma_enc_vote_list_snoc(vs.drop_first(), v);
        assert(enc_vote_list(s) == enc_signed_vote(vs[0]) + (enc_vote_list(vs.drop_first())
            + enc_signed_vote(v)));
        assert(enc_signed_vote(vs[0]) + (enc_vote_list(vs.drop_first()) + enc_signed_vote(v)) =~= (
        enc_signed_vote(vs[0]) + enc_vote_list(vs.drop_first())) + enc_signed_vote(v));
    }
}

pub fn encode_reply(buf: &mut Vec<u8>, r: &Reply)
    ensures
        final(buf)@ == old(buf)@ + enc_reply(r@),
{
    put_u32_le(buf, r.request_num);
    put_bytes(buf, &r.result);
    buf.push(r.replica_index);
    assert(buf@ =~= old(buf)@ + enc_reply(r@));
}

pub fn encode_vote(buf: &mut Vec<u8>, v: &Vote)
    ensures
        final(buf)@ == old(buf)@ + enc_vote(v@),
{
    put_slice(buf, v.block_digest.as_slice());
    buf.push(v.replica_index);
    assert(buf@ =~= old(buf)@ + enc_vote(v@));
}

pub fn encode_signed_request(buf: &mut Vec<u8>, m: &Signed<Request>)
    ensures
        final(buf)@ == old(buf)@ + enc_signed_request(m@),
{
    encode_request(buf, &m.inner);
    put_bytes(buf, &m.signature);
    assert(buf@ =~= old(buf)@ + enc_signed_request(m@));
}

pub fn encode_signed_reply(buf: &mut Vec<u8>, m: &Signed<Reply>)
    ensures
        final(buf)@ == old(buf)@ + enc_signed_reply(m@),
{
    encode_reply(buf, &m.inner);
    put_bytes(buf, &m.signature);
    assert(buf@ =~= old(buf)@ + enc_signed_reply(m@));
}

pub fn encode_signed_vote(buf: &mut Vec<u8>, m: &Signed<Vote>)
    ensures
        final(buf)@ == old(buf)@ + enc_signed_vote(m@),
{
    encode_vote(buf, &m.inner);
    put_bytes(buf, &m.signature);
    assert(buf@ =~= old(buf)@ + enc_signed_vote(m@));
}

pub fn encode_generic(buf: &mut Vec<u8>, g: &Generic)
    ensures
        final(buf)@ == old(buf)@ + enc_generic(g@),
{
    encode_block(buf, &g.block);
    put_slice(buf, g.certified_digest.as_slice());
    put_u64_le(buf, g.certificate.len() as u64);
    let ghost base = buf@;
    let n = g.certificate.len();
    let mut i: usize = 0;
    assert(buf@ =~= base + enc_vote_list(g@.certificate.subrange(0, 0)));
    while i < n
        invariant
            i <= n,
            n == g.certificate.len(),
            buf@ == base + enc_vote_list(g@.certificate.subrange(0, i as int)),
        decreases n - i,
    {
        encode_signed_vote(buf, &g.certificate[i]);
        proof {
            assert(g@.certificate.subrange(0, i + 1) =~= g@.certificate.subrange(0, i as int).push(
                g.certificate[i as int]@));
            lemma_enc_vote_list_snoc(g@.certificate.subrange(0, i as int), g.certificate[
                i as int]@);
        }
        i = i + 1;
        assert(buf@ =~= base + enc_vote_list(g@.certificate.subrange(0, i as int)));
    }
    assert(g@.certificate.subrange(0, n as int) =~= g@.certificate);
    buf.push(g.replica_index);
    assert(buf@ =~= old(buf)@ + enc_generic(g@));
}

pub fn encode_signed_generic(buf: &mut Vec<u8>, m: &Signed<Generic>)
    ensures
        final(buf)@ == old(buf)@ + enc_signed_generic(m@),
{
    encode_generic(buf, &m.inner);
    put_bytes(buf, &m.signature);
    assert(buf@ =~= old(buf)@ + enc_signed_generic(m@));
}

/// Serialize a message: the tag, then the signed payload.
pub fn serialize_message(m: &Message) -> (r: Vec<u8>)
    ensures
        r@ == enc_message(m@),
{
    let mut buf: Vec<u8> = Vec::new();
    match m {
        Message::Request(x) => {
            put_u32_le(&mut buf, 0);
            encode_signed_request(&mut buf, x);
        },
        Message::Reply(x) => {
            put_u32_le(&mut buf, 1);
            encode_signed_reply(&mut buf, x);
        },
        Message::Generic(x) => {
            put_u32_le(&mut buf, 2);
            encode_signed_generic(&mut buf, x);
        },
        Message::Vote(x) => {
            put_u32_le(&mut buf, 3);
            encode_signed_vote(&mut buf, x);
        },
    }
    assert(buf@ =~= enc_message(m@));
    buf
}

// ---------------------------------------------------------------------------
// Exec parsers.

pub fn parse_reply(buf: &Vec<u8>, pos: usize) -> (r: Option<(Reply, usize)>)
    ensures
        r matches Some(vp) ==> sp_reply(buf@, pos as int) == Some((vp.0@, vp.1 as int)) && vp.1
            <= buf@.len(),
        r is None ==> sp_reply(buf@, pos as int) is None,
{
    let len = buf.len();
    if pos > len || len - pos < 4 {
        return None;
    }
    let request_num = get_u32_le(buf, pos);
    match parse_bytes(buf, pos + 4) {
        None => None,
        Some((result, p1)) => {
            if p1 >= len {
                return None;
            }
            let replica_index = buf[p1];
            Some((Reply { request_num, result, replica_index }, p1 + 1))
        },
    }
}

pub fn parse_vote(buf: &Vec<u8>, pos: usize) -> (r: Option<(Vote, usize)>)
    ensures
        r matches Some(vp) ==> sp_vote(buf@, pos as int) == Some((vp.0@, vp.1 as int)) && vp.1
            <= buf@.len(),
        r is None ==> sp_vote(buf@, pos as int) is None,
{
    let len = buf.len();
    if pos > len || len - pos < 33 {
        return None;
    }
    let block_digest = crate::codec::get_vec(buf, pos, 32);
    let replica_index = buf[pos + 32];
    Some((Vote { block_digest, replica_index }, pos + 33))
}

pub fn parse_signed_request(buf: &Vec<u8>, pos: usize) -> (r: Option<(Signed<Request>, usize)>)
    ensures
        r matches Some(vp) ==> sp_signed_request(buf@, pos as int) == Some((vp.0@, vp.1 as int))
            && vp.1 <= buf@.len(),
        r is None ==> sp_signed_request(buf@, pos as int) is None,
{
    match parse_request(buf, pos) {
        None => None,
        Some((inner, p1)) => match parse_bytes(buf, p1) {
            None => None,
            Some((signature, p2)) => Some((Signed { inner, signature }, p2)),
        },
    }
}

pub fn parse_signed_reply(buf: &Vec<u8>, pos: usize) -> (r: Option<(Signed<Reply>, usize)>)
    ensures
        r matches Some(vp) ==> sp_signed_reply(buf@, pos as int) == Some((vp.0@, vp.1 as int))
            && vp.1 <= buf@.len(),
        r is None ==> sp_signed_reply(buf@, pos as int) is None,
{
    match parse_reply(buf, pos) {
        None => None,
        Some((inner, p1)) => match parse_bytes(buf, p1) {
            None => None,
            Some((signature, p2)) => Some((Signed { inner, signature }, p2)),
        },
    }
}

pub fn parse_signed_vote(buf: &Vec<u8>, pos: usize) -> (r: Option<(Signed<Vote>, usize)>)
    ensures
        r matches Some(vp) ==> sp_signed_vote(buf@, pos as int) == Some((vp.0@, vp.1 as int))
            && vp.1 <= buf@.len(),
        r is None ==> sp_signed_vote(buf@, pos as int) is None,
{
    match parse_vote(buf, pos) {
        None => None,
        Some((inner, p1)) => match parse_bytes(buf, p1) {
            None => None,
            Some((signature, p2)) => Some((Signed { inner, signature }, p2)),
        },
    }
}

/// Glue used while parsing a certificate: the votes seen so far, joined with
/// what the rest of the buffer still parses to.
pub open spec fn sp_glue_votes(
    prefix: Seq<SignedV<VoteV>>,
    rest: Option<(Seq<SignedV<VoteV>>, int)>,
) -> Option<(Seq<SignedV<VoteV>>, int)> {
    match rest {
        None => None,
        Some((vs, end)) => Some((prefix + vs, end)),
    }
}

pub fn parse_vote_list(buf: &Vec<u8>, pos: usize, n64: u64) -> (r: Option<
    (Vec<Signed<Vote>>, usize),
>)
    requires
        pos <= buf@.len(),
    ensures
        r matches Some(vp) ==> sp_vote_list(buf@, pos as int, n64 as int) == Some(
            (vp.0@.map_values(|v: Signed<Vote>| v@), vp.1 as int),
        ) && vp.1 <= buf@.len(),
        r is None ==> sp_vote_list(buf@, pos as int, n64 as int) is None,
{
    let mut votes: Vec<Signed<Vote>> = Vec::new();
    let mut p: usize = pos;
    let mut i: u64 = 0;
    assert(votes@.map_values(|v: Signed<Vote>| v@) =~= Seq::<SignedV<VoteV>>::empty());
    while i < n64
        invariant
            i <= n64,
            p <= buf@.len(),
            sp_vote_list(buf@, pos as int, n64 as int) == sp_glue_votes(
                votes@.map_values(|v: Signed<Vote>| v@),
                sp_vote_list(buf@, p as int, n64 - i),
            ),
        decreases n64 - i,
    {
        let ghost prefix = votes@.map_values(|v: Signed<Vote>| v@);
        match parse_signed_vote(buf, p) {
            None => {
                assert(sp_vote_list(buf@, p as int, n64 - i) is None);
                return None;
            },
            Some((v, p2)) => {
                proof {
                    let rest = sp_vote_list(buf@, p2 as int, n64 - i - 1);
                    if rest is Some {
                        let (vs, end) = rest.unwrap();
                        assert(prefix + (seq![v@] + vs) =~= prefix.push(v@) + vs);
                    }
                }
                votes.push(v);
                assert(votes@.map_values(|vv: Signed<Vote>| vv@) =~= prefix.push(v@));
                p = p2;
            },
        }
        i = i + 1;
    }
    assert(sp_vote_list(buf@, p as int, n64 - i) == Some(
        (Seq::<SignedV<VoteV>>::empty(), p as int),
    ));
    proof {
        let prefix = votes@.map_values(|v: Signed<Vote>| v@);
        assert(prefix + Seq::<SignedV<VoteV>>::empty() =~= prefix);
    }
    Some((votes, p))
}

pub fn parse_generic(buf: &Vec<u8>, pos: usize) -> (r: Option<(Generic, usize)>)
    ensures
        r matches Some(vp) ==> sp_generic(buf@, pos as int) == Some((vp.0@, vp.1 as int)) && vp.1
            <= buf@.len(),
        r is None ==> sp_generic(buf@, pos as int) is None,
{
    let len = buf.len();
    match parse_block(buf, pos) {
        None => None,
        Some((block, p1)) => {
            if p1 > len || len - p1 < 40 {
                return None;
            }
            let certified_digest = crate::codec::get_vec(buf, p1, 32);
            let n64 = get_u64_le(buf, p1 + 32);
            match parse_vote_list(buf, p1 + 40, n64) {
                None => None,
                Some((certificate, p2)) => {
                    if p2 >= len {
                        return None;
                    }
                    let replica_index = buf[p2];
                    let g = Generic { block, certified_digest, certificate, replica_index };
                    assert(g@.certificate == certificate@.map_values(|v: Signed<Vote>| v@));
                    Some((g, p2 + 1))
                },
            }
        },
    }
}

pub fn parse_signed_generic(buf: &Vec<u8>, pos: usize) -> (r: Option<(Signed<Generic>, usize)>)
    ensures
        r matches Some(vp) ==> sp_signed_generic(buf@, pos as int) == Some((vp.0@, vp.1 as int))
            && vp.1 <= buf@.len(),
        r is None ==> sp_signed_generic(buf@, pos as int) is None,
{
    match parse_generic(buf, pos) {
        None => None,
        Some((inner, p1)) => match parse_bytes(buf, p1) {
            None => None,
            Some((signature, p2)) => Some((Signed { inner, signature }, p2)),
        },
    }
}

pub fn parse_message(buf: &Vec<u8>, pos: usize) -> (r: Option<(Message, usize)>)
    ensures
        r matches Some(vp) ==> sp_message(buf@, pos as int) == Some((vp.0@, vp.1 as int)) && vp.1
            <= buf@.len(),
        r is None ==> sp_message(buf@, pos as int) is None,
{
    let len = buf.len();
    if pos > len || len - pos < 4 {
        return None;
    }
    let tag = get_u32_le(buf, pos);
    if tag == 0 {
        match parse_signed_request(buf, pos + 4) {
            None => None,
            Some((x, end)) => Some((Message::Request(x), end)),
        }
    } else if tag == 1 {
        match parse_signed_reply(buf, pos + 4) {
            None => None,
            Some((x, end)) => Some((Message::Reply(x), end)),
        }
    } else if tag == 2 {
        match parse_signed_generic(buf, pos + 4) {
            None => None,
            Some((x, end)) => Some((Message::Generic(x), end)),
        }
    } else if tag == 3 {
        match parse_signed_vote(buf, pos + 4) {
            None => None,
            Some((x, end)) => Some((Message::Vote(x), end)),
        }
    } else {
        None
    }
}

/// Deserialize a message from the head of a buffer; trailing bytes are
/// allowed and ignored, as the transport hands over whole datagrams.
pub fn deserialize_message(buf: &Vec<u8>) -> (r: Option<Message>)
    ensures
        r matches Some(m) ==> sp_message(buf@, 0) matches Some(vp) && vp.0 == m@,
        r is None ==> sp_message(buf@, 0) is None,
{
    match parse_message(buf, 0) {
        None => None,
        Some((m, _end)) => Some(m),
    }
}

// ---------------------------------------------------------------------------
// Round trips: parsing inverts encoding for every message type.

pub proof fn lemma_reply_roundtrip(s: Seq<u8>, pos: int, r: ReplyV)
    requires
        0 <= pos,
        reply_wf(r),
        pos + enc_reply(r).len() <= s.len(),
        s.subrange(pos, pos + enc_reply(r).len() as int) == enc_reply(r),
    ensures
        sp_reply(s, pos) == Some((r, pos + enc_reply(r).len())),
{
    let e = enc_reply(r);
    let bl = 8 + r.result.len() as int;
    assert(e.len() == 4 + bl + 1);
    lemma_subrange_transfer(s, pos, e, 0, 4);
    assert(e.subrange(0, 4) =~= enc_u32_le(r.request_num));
    lemma_u32_le_roundtrip(s, pos, r.request_num);
    lemma_subrange_transfer(s, pos, e, 4, bl);
    assert(e.subrange(4, 4 + bl) =~= enc_bytes(r.result));
    lemma_bytes_roundtrip(s, pos + 4, r.result);
    assert(s.subrange(pos, pos + e.len() as int)[4 + bl] == s[pos + (4 + bl)]);
    assert(e[4 + bl] == r.replica_index);
}

pub proof fn lemma_vote_roundtrip(s: Seq<u8>, pos: int, v: VoteV)
    requires
        0 <= pos,
        vote_wf(v),
        pos + enc_vote(v).len() <= s.len(),
        s.subrange(pos, pos + enc_vote(v).len() as int) == enc_vote(v),
    ensures
        sp_vote(s, pos) == Some((v, pos + 33)),
{
    let e = enc_vote(v);
    assert(e.len() == 33);
    lemma_subrange_transfer(s, pos, e, 0, 32);
    assert(e.subrange(0, 32) =~= v.block_digest);
    assert(s.subrange(pos, pos + e.len() as int)[32] == s[pos + 32]);
    assert(e[32] == v.replica_index);
}

pub proof fn lemma_signed_request_roundtrip(s: Seq<u8>, pos: int, m: SignedV<RequestV>)
    requires
        0 <= pos,
        signed_request_wf(m),
        pos + enc_signed_request(m).len() <= s.len(),
        s.subrange(pos, pos + enc_signed_request(m).len() as int) == enc_signed_request(m),
    ensures
        sp_signed_request(s, pos) == Some((m, pos + enc_signed_request(m).len())),
{
    let e = enc_signed_request(m);
    let il = enc_request(m.inner).len() as int;
    let sl = 8 + m.signature.len() as int;
    assert(e.len() == il + sl);
    lemma_subrange_transfer(s, pos, e, 0, il);
    assert(e.subrange(0, il) =~= enc_request(m.inner));
    lemma_request_roundtrip(s, pos, m.inner);
    lemma_subrange_transfer(s, pos, e, il, sl);
    assert(e.subrange(il, il + sl) =~= enc_bytes(m.signature));
    lemma_bytes_roundtrip(s, pos + il, m.signature);
}

pub proof fn lemma_signed_reply_roundtrip(s: Seq<u8>, pos: int, m: SignedV<ReplyV>)
    requires
        0 <= pos,
        signed_reply_wf(m),
        pos + enc_signed_reply(m).len() <= s.len(),
        s.subrange(pos, pos + enc_signed_reply(m).len() as int) == enc_signed_reply(m),
    ensures
        sp_signed_reply(s, pos) == Some((m, pos + enc_signed_reply(m).len())),
{
    let e = enc_signed_reply(m);
    let il = enc_reply(m.inner).len() as int;
    let sl = 8 + m.signature.len() as int;
    assert(e.len() == il + sl);
    lemma_subrange_transfer(s, pos, e, 0, il);
    assert(e.subrange(0, il) =~= enc_reply(m.inner));
    lemma_reply_roundtrip(s, pos, m.inner);
    lemma_subrange_transfer(s, pos, e, il, sl);
    assert(e.subrange(il, il + sl) =~= enc_bytes(m.signature));
    lemma_bytes_roundtrip(s, pos + il, m.signature);
}

pub proof fn lemma_signed_vote_roundtrip(s: Seq<u8>, pos: int, m: SignedV<VoteV>)
    requires
        0 <= pos,
        signed_vote_wf(m),
        pos + enc_signed_vote(m).len() <= s.len(),
        s.subrange(pos, pos + enc_signed_vote(m).len() as int) == enc_signed_vote(m),
    ensures
        sp_signed_vote(s, pos) == Some((m, pos + enc_signed_vote(m).len())),
{
    let e = enc_signed_vote(m);
    let il = enc_vote(m.inner).len() as int;
    let sl = 8 + m.signature.len() as int;
    assert(e.len() == il + sl);
    lemma_subrange_transfer(s, pos, e, 0, il);
    assert(e.subrange(0, il) =~= enc_vote(m.inner));
    lemma_vote_roundtrip(s, pos, m.inner);
    lemma_subrange_transfer(s, pos, e, il, sl);
    assert(e.subrange(il, il + sl) =~= enc_bytes(m.signature));
    lemma_bytes_roundtrip(s, pos + il, m.signature);
}

pub proof fn lemma_vote_list_roundtrip(s: Seq<u8>, pos: int, vs: Seq<SignedV<VoteV>>)
    requires
        0 <= pos,
        forall|i: int| 0 <= i < vs.len() ==> signed_vote_wf(#[trigger] vs[i]),
        pos + enc_vote_list(vs).len() <= s.len(),
        s.subrange(pos, pos + enc_vote_list(vs).len() as int) == enc_vote_list(vs),
    ensures
        sp_vote_list(s, pos, vs.len() as int) == Some((vs, pos + enc_vote_list(vs).len())),
    decreases vs.len(),
{
    let e = enc_vote_list(vs);
    if vs.len() == 0 {
        assert(vs =~= Seq::<SignedV<VoteV>>::empty());
    } else {
        let e0 = enc_signed_vote(vs[0]);
        let erest = enc_vote_list(vs.drop_first());
        assert(e == e0 + erest);
        lemma_subrange_transfer(s, pos, e, 0, e0.len() as int);
        assert(e.subrange(0, e0.len() as int) =~= e0);
        lemma_signed_vote_roundtrip(s, pos, vs[0]);
        let p1 = pos + e0.len() as int;
        lemma_subrange_transfer(s, pos, e, e0.len() as int, erest.len() as int);
        assert(e.subrange(e0.len() as int, e0.len() + erest.len() as int) =~= erest);
        lemma_vote_list_roundtrip(s, p1, vs.drop_first());
        assert(seq![vs[0]] + vs.drop_first() =~= vs);
    }
}

pub proof fn lemma_generic_roundtrip(s: Seq<u8>, pos: int, g: GenericV)
    requires
        0 <= pos,
        generic_wf(g),
        pos + enc_generic(g).len() <= s.len(),
        s.subrange(pos, pos + enc_generic(g).len() as int) == enc_generic(g),
    ensures
        sp_generic(s, pos) == Some((g, pos + enc_generic(g).len())),
{
    let e = enc_generic(g);
    let bl = enc_block(g.block).len() as int;
    let vl = enc_vote_list(g.certificate).len() as int;
    assert(e.len() == bl + 32 + 8 + vl + 1);
    lemma_subrange_transfer(s, pos, e, 0, bl);
    assert(e.subrange(0, bl) =~= enc_block(g.block));
    lemma_block_roundtrip(s, pos, g.block);
    let p1 = pos + bl;
    lemma_subrange_transfer(s, pos, e, bl, 32);
    assert(e.subrange(bl, bl + 32) =~= g.certified_digest);
    lemma_subrange_transfer(s, pos, e, bl + 32, 8);
    assert(e.subrange(bl + 32, bl + 40) =~= enc_u64_le(g.certificate.len() as u64));
    lemma_u64_le_roundtrip(s, p1 + 32, g.certificate.len() as u64);
    lemma_subrange_transfer(s, pos, e, bl + 40, vl);
    assert(e.subrange(bl + 40, bl + 40 + vl) =~= enc_vote_list(g.certificate));
    lemma_vote_list_roundtrip(s, p1 + 40, g.certificate);
    assert(s.subrange(pos, pos + e.len() as int)[bl + 40 + vl] == s[pos + (bl + 40 + vl)]);
    assert(e[bl + 40 + vl] == g.replica_index);
}

pub proof fn lemma_signed_generic_roundtrip(s: Seq<u8>, pos: int, m: SignedV<GenericV>)
    requires
        0 <= pos,
        signed_generic_wf(m),
        pos + enc_signed_generic(m).len() <= s.len(),
        s.subrange(pos, pos + enc_signed_generic(m).len() as int) == enc_signed_generic(m),
    ensures
        sp_signed_generic(s, pos) == Some((m, pos + enc_signed_generic(m).len())),
{
    let e = enc_signed_generic(m);
    let il = enc_generic(m.inner).len() as int;
    let sl = 8 + m.signature.len() as int;
    assert(e.len() == il + sl);
    lemma_subrange_transfer(s, pos, e, 0, il);
    assert(e.subrange(0, il) =~= enc_generic(m.inner));
    lemma_generic_roundtrip(s, pos, m.inner);
    lemma_subrange_transfer(s, pos, e, il, sl);
    assert(e.subrange(il, il + sl) =~= enc_bytes(m.signature));
    lemma_bytes_roundtrip(s, pos + il, m.signature);
}

#[verifier::rlimit(60)]
pub proof fn lemma_message_roundtrip(s: Seq<u8>, pos: int, m: MessageV)
    requires
        0 <= pos,
        message_wf(m),
        pos + enc_message(m).len() <= s.len(),
        s.subrange(pos, pos + enc_message(m).len() as int) == enc_message(m),
    ensures
        sp_message(s, pos) == Some((m, pos + enc_message(m).len())),
{
    let e = enc_message(m);
    lemma_subrange_transfer(s, pos, e, 0, 4);
    match m {
        MessageV::Request(x) => {
            assert(e.subrange(0, 4) =~= enc_u32_le(0));
            lemma_u32_le_roundtrip(s, pos, 0);
            lemma_subrange_transfer(s, pos, e, 4, enc_signed_request(x).len() as int);
            assert(e.subrange(4, 4 + enc_signed_request(x).len() as int) =~= enc_signed_request(x));
            lemma_signed_request_roundtrip(s, pos + 4, x);
        },
        MessageV::Reply(x) => {
            assert(e.subrange(0, 4) =~= enc_u32_le(1));
            lemma_u32_le_roundtrip(s, pos, 1);
            lemma_subrange_transfer(s, pos, e, 4, enc_signed_reply(x).len() as int);
            assert(e.subrange(4, 4 + enc_signed_reply(x).len() as int) =~= enc_signed_reply(x));
            lemma_signed_reply_roundtrip(s, pos + 4, x);
        },
        MessageV::Generic(x) => {
            assert(e.subrange(0, 4) =~= enc_u32_le(2));
            lemma_u32_le_roundtrip(s, pos, 2);
            lemma_subrange_transfer(s, pos, e, 4, enc_signed_generic(x).len() as int);
            assert(e.subrange(4, 4 + enc_signed_generic(x).len() as int) =~= enc_signed_generic(x));
            lemma_signed_generic_roundtrip(s, pos + 4, x);
        },
        MessageV::Vote(x) => {
            assert(e.subrange(0, 4) =~= enc_u32_le(3));
            lemma_u32_le_roundtrip(s, pos, 3);
            lemma_subrange_transfer(s, pos, e, 4, enc_signed_vote(x).len() as int);
            assert(e.subrange(4, 4 + enc_signed_vote(x).len() as int) =~= enc_signed_vote(x));
            lemma_signed_vote_roundtrip(s, pos + 4, x);
        },
    }
}

/// Round trip at the top level: a serialized message, possibly followed by
/// trailing bytes, parses back to exactly that message.
pub proof fn lemma_message_codec_roundtrip(m: MessageV, rest: Seq<u8>)
    requires
        message_wf(m),
    ensures
        sp_message(enc_message(m) + rest, 0) == Some((m, enc_message(m).len() as int)),
{
    let s = enc_message(m) + rest;
    assert(s.subrange(0, enc_message(m).len() as int) =~= enc_message(m));
    lemma_message_roundtrip(s, 0, m);
}

// ---------------------------------------------------------------------------
// Signature obligations.

/// Who must have signed a payload: the issuing client (under the symmetric
/// scheme) or a replica's public key.
#[derive(Clone, Copy, Debug, PartialEq, Eq, Structural)]
pub enum Signer {
    Client,
    Replica(u8),
}

/// One signature check a message owes before dispatch: the signed payload
/// bytes, the signer they must verify under, and the signature itself.
pub struct Check {
    pub payload: Vec<u8>,
    pub signer: Signer,
    pub signature: Vec<u8>,
}

pub struct CheckV {
    pub payload: Seq<u8>,
    pub signer: Signer,
    pub signature: Seq<u8>,
}

impl View for Check {
    type V = CheckV;

    open spec fn view(&self) -> CheckV {
        CheckV { payload: self.payload@, signer: self.signer, signature: self.signature@ }
    }
}

/// The checks a message owes: the sender's signature over its payload, and,
/// for a proposal, one per certificate vote — the genesis certificate being
/// exempt by convention.
pub open spec fn checks_of(m: MessageV, genesis: Seq<u8>) -> Seq<CheckV> {
    match m {
        MessageV::Request(x) => seq![
            CheckV { payload: enc_request(x.inner), signer: Signer::Client, signature: x.signature },
        ],
        MessageV::Reply(x) => seq![
            CheckV {
                payload: enc_reply(x.inner),
                signer: Signer::Replica(x.inner.replica_index),
                signature: x.signature,
            },
        ],
        MessageV::Vote(x) => seq![
            CheckV {
                payload: enc_vote(x.inner),
                signer: Signer::Replica(x.inner.replica_index),
                signature: x.signature,
            },
        ],
        MessageV::Generic(x) => seq![
            CheckV {
                payload: enc_generic(x.inner),
                signer: Signer::Replica(x.inner.replica_index),
                signature: x.signature,
            },
        ] + (if x.inner.certified_digest == genesis {
            Seq::empty()
        } else {
            x.inner.certificate.map_values(
                |v: SignedV<VoteV>|
                    CheckV {
                        payload: enc_vote(v.inner),
                        signer: Signer::Replica(v.inner.replica_index),
                        signature: v.signature,
                    },
            )
        }),
    }
}

/// Name the signature checks a message owes, exactly per `checks_of`.  The
/// runtime discharges each against its verifier: replica signatures through
/// the asymmetric wrappers, client signatures through the symmetric
/// collaborator.
pub fn verification_checks(m: &Message, genesis: &Vec<u8>) -> (r: Vec<Check>)
    ensures
        r@.map_values(|c: Check| c@) == checks_of(m@, genesis@),
{
    let mut out: Vec<Check> = Vec::new();
    match m {
        Message::Request(x) => {
            let mut payload: Vec<u8> = Vec::new();
            crate::chain::encode_request(&mut payload, &x.inner);
            out.push(Check { payload, signer: Signer::Client, signature: x.signature.clone() });
        },
        Message::Reply(x) => {
            let mut payload: Vec<u8> = Vec::new();
            encode_reply(&mut payload, &x.inner);
            out.push(
                Check {
                    payload,
                    signer: Signer::Replica(x.inner.replica_index),
                    signature: x.signature.clone(),
                },
            );
        },
        Message::Vote(x) => {
            let mut payload: Vec<u8> = Vec::new();
            encode_vote(&mut payload, &x.inner);
            out.push(
                Check {
                    payload,
                    signer: Signer::Replica(x.inner.replica_index),
                    signature: x.signature.clone(),
                },
            );
        },
        Message::Generic(x) => {
            let mut payload: Vec<u8> = Vec::new();
            encode_generic(&mut payload, &x.inner);
            out.push(
                Check {
                    payload,
                    signer: Signer::Replica(x.inner.replica_index),
                    signature: x.signature.clone(),
                },
            );
            let exempt = crate::chain::digest_eq(&x.inner.certified_digest, genesis);
            if !exempt {
                let n = x.inner.certificate.len();
                let mut i: usize = 0;
                while i < n
                    invariant
                        i <= n,
                        n == x.inner.certificate@.len(),
                        out@.len() == 1 + i,
                        out@[0]@.signer == Signer::Replica(x.inner.replica_index),
                        out@[0]@.payload == enc_generic(x@.inner),
                        out@[0]@.signature == x.signature@,
                        forall|j: int|
                            0 <= j < i ==> (#[trigger] out@[j + 1])@ == (CheckV {
                                payload: enc_vote(x.inner.certificate@[j]@.inner),
                                signer: Signer::Replica(
                                    x.inner.certificate@[j].inner.replica_index,
                                ),
                                signature: x.inner.certificate@[j].signature@,
                            }),
                    decreases n - i,
                {
                    let vote = &x.inner.certificate[i];
                    let mut vp: Vec<u8> = Vec::new();
                    encode_vote(&mut vp, &vote.inner);
                    out.push(
                        Check {
                            payload: vp,
                            signer: Signer::Replica(vote.inner.replica_index),
                            signature: vote.signature.clone(),
                        },
                    );
                    i = i + 1;
                }
                proof {
                    let cs = checks_of(m@, genesis@);
                    let mapped = out@.map_values(|c: Check| c@);
                    assert(cs.len() == 1 + x.inner.certificate@.len());
                    assert forall|t: int| 0 <= t < cs.len() implies mapped[t] == cs[t] by {
                        if t > 0 {
                            let j = t - 1;
                            assert(out@[j + 1]@ == (CheckV {
                                payload: enc_vote(x.inner.certificate@[j]@.inner),
                                signer: Signer::Replica(
                                    x.inner.certificate@[j].inner.replica_index,
                                ),
                                signature: x.inner.certificate@[j].signature@,
                            }));
                            assert(out@[t]@ == out@[j + 1]@);
                            assert(cs[t] == x@.inner.certificate.map_values(
                                |v: SignedV<VoteV>|
                                    CheckV {
                                        payload: enc_vote(v.inner),
                                        signer: Signer::Replica(v.inner.replica_index),
                                        signature: v.signature,
                                    },
                            )[t - 1]);
                        }
                    }
                    assert(mapped =~= cs);
                }
            } else {
                proof {
                    assert(out@.map_values(|c: Check| c@) =~= checks_of(m@, genesis@));
                }
            }
        },
    }
    proof {
        assert(out@.map_values(|c: Check| c@) =~= checks_of(m@, genesis@));
    }
    out
}

} // verus!
