//! The unreplicated baseline protocol: one replica executes requests as they
//! arrive (or batches them into blocks when asked to), one client retries
//! until its reply comes back.

use vstd::prelude::*;

use crate::addr::{Action, Addr, To};
use crate::chain::{
    block_digest, block_digest_of, digest_eq, enc_request, genesis_block, genesis_digest,
    lemma_request_roundtrip, parse_request, sp_request, Block, BlockV, Chain, Request, RequestV,
};
use crate::codec::{
    dec_u32_le, enc_bytes, enc_u32_le, get_u32_le, lemma_bytes_roundtrip, lemma_subrange_transfer,
    lemma_u32_le_roundtrip, parse_bytes, put_bytes, put_u32_le, sp_bytes,
};
use crate::hotstuff::{app_after, batch_result, client_in_prefix, last_for_client,
    strictly_increasing, App};
use crate::kv::{DigestMap, IndexMap};
use crate::messages::{request_wf, Signed, SignedV};

verus! {

/// An unsigned payload handed to the runtime to sign and serialize.
pub enum Payload {
    Request(Request),
    Reply(Reply),
}

/// The single replica's answer to one request.
pub struct Reply {
    pub request_num: u32,
    pub result: Vec<u8>,
}

pub struct ReplyV {
    pub request_num: u32,
    pub result: Seq<u8>,
}

impl View for Reply {
    type V = ReplyV;

    open spec fn view(&self) -> ReplyV {
        ReplyV { request_num: self.request_num, result: self.result@ }
    }
}

impl Reply {
    /// A field-for-field copy.
    pub fn duplicate(&self) -> (r: Reply)
        ensures
            r@ == self@,
    {
        Reply { request_num: self.request_num, result: self.result.clone() }
    }
}

/// The protocol's message union.
pub enum Message {
    Request(Signed<Request>),
    Reply(Signed<Reply>),
}

pub enum MessageV {
    Request(SignedV<RequestV>),
    Reply(SignedV<ReplyV>),
}

impl View for Message {
    type V = MessageV;

    open spec fn view(&self) -> MessageV {
        match self {
            Message::Request(m) => MessageV::Request(m@),
            Message::Reply(m) => MessageV::Reply(m@),
        }
    }
}

pub open spec fn reply_wf(r: ReplyV) -> bool {
    r.result.len() <= u64::MAX
}

pub open spec fn message_wf(m: MessageV) -> bool {
    match m {
        MessageV::Request(x) => request_wf(x.inner) && x.signature.len() <= u64::MAX,
        MessageV::Reply(x) => reply_wf(x.inner) && x.signature.len() <= u64::MAX,
    }
}

pub open spec fn enc_reply(r: ReplyV) -> Seq<u8> {
    enc_u32_le(r.request_num) + enc_bytes(r.result)
}

pub open spec fn enc_message(m: MessageV) -> Seq<u8> {
    match m {
        MessageV::Request(x) => enc_u32_le(0) + enc_request(x.inner) + enc_bytes(x.signature),
        MessageV::Reply(x) => enc_u32_le(1) + enc_reply(x.inner) + enc_bytes(x.signature),
    }
}

pub open spec fn sp_reply(s: Seq<u8>, pos: int) -> Option<(ReplyV, int)> {
    if pos < 0 || pos + 4 > s.len() {
        None
    } else {
        let request_num = dec_u32_le(s, pos);
        match sp_bytes(s, pos + 4) {
            None => None,
            Some((result, p1)) => Some((ReplyV { request_num, result }, p1)),
        }
    }
}

pub open spec fn sp_message(s: Seq<u8>, pos: int) -> Option<(MessageV, int)> {
    if pos < 0 || pos + 4 > s.len() {
        None
    } else {
        let tag = dec_u32_le(s, pos);
        if tag == 0 {
            match sp_request(s, pos + 4) {
                None => None,
                Some((inner, p1)) => match sp_bytes(s, p1) {
                    None => None,
                    Some((signature, p2)) => Some(
                        (MessageV::Request(SignedV { inner, signature }), p2),
                    ),
                },
            }
        } else if tag == 1 {
            match sp_reply(s, pos + 4) {
                None => None,
                Some((inner, p1)) => match sp_bytes(s, p1) {
                    None => None,
                    Some((signature, p2)) => Some(
                        (MessageV::Reply(SignedV { inner, signature }), p2),
                    ),
                },
            }
        } else {
            None
        }
    }
}

pub fn encode_reply(buf: &mut Vec<u8>, r: &Reply)
    ensures
        final(buf)@ == old(buf)@ + enc_reply(r@),
{
    put_u32_le(buf, r.request_num);
    put_bytes(buf, &r.result);
    assert(buf@ =~= old(buf)@ + enc_reply(r@));
}

/// Serialize a message: the tag, the payload, the signature bytes.
pub fn serialize_message(m: &Message) -> (r: Vec<u8>)
    ensures
        r@ == enc_message(m@),
{
    let mut buf: Vec<u8> = Vec::new();
    match m {
        Message::Request(x) => {
            put_u32_le(&mut buf, 0);
            crate::chain::encode_request(&mut buf, &x.inner);
            put_bytes(&mut buf, &x.signature);
        },
        Message::Reply(x) => {
            put_u32_le(&mut buf, 1);
            encode_reply(&mut buf, &x.inner);
            put_bytes(&mut buf, &x.signature);
        },
    }
    assert(buf@ =~= enc_message(m@));
    buf
}

pub fn parse_reply(buf: &Vec<u8>, pos: usize) -> (r: Option<(Reply, usize)>)
    ensures
        r matches Some(vp) ==> sp_reply(buf@, pos as int) == Some((vp.0@, vp.1 as int)) && vp.1
            <= buf@.len(),
        r is None ==> sp_reply(buf@, pos as int) is None,
{
    let len = buf.len();
    if pos > len || len - pos < 4 {
        return None;
    }
    let request_num = get_u32_le(buf, pos);
    match parse_bytes(buf, pos + 4) {
        None => None,
        Some((result, p1)) => Some((Reply { request_num, result }, p1)),
    }
}

/// Deserialize a message from the head of a buffer; trailing bytes are
/// ignored.
pub fn deserialize_message(buf: &Vec<u8>) -> (r: Option<Message>)
    ensures
        r matches Some(m) ==> sp_message(buf@, 0) matches Some(vp) && vp.0 == m@,
        r is None ==> sp_message(buf@, 0) is None,
{
    let len = buf.len();
    if len < 4 {
        return None;
    }
    let tag = get_u32_le(buf, 0);
    if tag == 0 {
        match parse_request(buf, 4) {
            None => None,
            Some((inner, p1)) => match parse_bytes(buf, p1) {
                None => None,
                Some((signature, _p2)) => Some(Message::Request(Signed { inner, signature })),
            },
        }
    } else if tag == 1 {
        match parse_reply(buf, 4) {
            None => None,
            Some((inner, p1)) => match parse_bytes(buf, p1) {
                None => None,
                Some((signature, _p2)) => Some(Message::Reply(Signed { inner, signature })),
            },
        }
    } else {
        None
    }
}

pub proof fn lemma_reply_roundtrip(s: Seq<u8>, pos: int, r: ReplyV)
    requires
        0 <= pos,
        reply_wf(r),
        pos + enc_reply(r).len() <= s.len(),
        s.subrange(pos, pos + enc_reply(r).len() as int) == enc_reply(r),
    ensures
        sp_reply(s, pos) == Some((r, pos + enc_reply(r).len())),
{
    let e = enc_reply(r);
    let bl = 8 + r.result.len() as int;
    assert(e.len() == 4 + bl);
    lemma_subrange_transfer(s, pos, e, 0, 4);
    assert(e.subrange(0, 4) =~= enc_u32_le(r.request_num));
    lemma_u32_le_roundtrip(s, pos, r.request_num);
    lemma_subrange_transfer(s, pos, e, 4, bl);
    assert(e.subrange(4, 4 + bl) =~= enc_bytes(r.result));
    lemma_bytes_roundtrip(s, pos + 4, r.result);
}

/// Round trip: a serialized message, possibly followed by trailing bytes,
/// parses back to exactly that message.
#[verifier::rlimit(60)]
pub proof fn lemma_message_codec_roundtrip(m: MessageV, rest: Seq<u8>)
    requires
        message_wf(m),
    ensures
        sp_message(enc_message(m) + rest, 0) == Some((m, enc_message(m).len() as int)),
{
    let s = enc_message(m) + rest;
    let e = enc_message(m);
    assert(s.subrange(0, e.len() as int) =~= e);
    lemma_subrange_transfer(s, 0, e, 0, 4);
    match m {
        MessageV::Request(x) => {
            let ei = enc_request(x.inner);
            let sl = 8 + x.signature.len() as int;
            assert(e.subrange(0, 4) =~= enc_u32_le(0));
            lemma_u32_le_roundtrip(s, 0, 0);
            lemma_subrange_transfer(s, 0, e, 4, ei.len() as int);
            assert(e.subrange(4, 4 + ei.len() as int) =~= ei);
            lemma_request_roundtrip(s, 4, x.inner);
            lemma_subrange_transfer(s, 0, e, 4 + ei.len() as int, sl);
            assert(e.subrange(4 + ei.len() as int, 4 + ei.len() + sl) =~= enc_bytes(x.signature));
            lemma_bytes_roundtrip(s, 4 + ei.len() as int, x.signature);
        },
        MessageV::Reply(x) => {
            let ei = enc_reply(x.inner);
            let sl = 8 + x.signature.len() as int;
            assert(e.subrange(0, 4) =~= enc_u32_le(1));
            lemma_u32_le_roundtrip(s, 0, 1);
            lemma_subrange_transfer(s, 0, e, 4, ei.len() as int);
            assert(e.subrange(4, 4 + ei.len() as int) =~= ei);
            lemma_reply_roundtrip(s, 4, x.inner);
            lemma_subrange_transfer(s, 0, e, 4 + ei.len() as int, sl);
            assert(e.subrange(4 + ei.len() as int, 4 + ei.len() + sl) =~= enc_bytes(x.signature));
            lemma_bytes_roundtrip(s, 4 + ei.len() as int, x.signature);
        },
    }
}

/// The unreplicated client: one outstanding operation, completed by the
/// first reply carrying the current request number.
pub struct Client {
    pub index: u16,
    pub request_num: u32,
    /// The operation in flight, if any.
    pub invoke_op: Option<Vec<u8>>,
    /// Resend period in milliseconds.
    pub resend_millis: u64,
    /// History of delivered request numbers, oldest first.
    pub delivered: Ghost<Seq<u32>>,
}

impl Client {
    /// Delivered request numbers strictly increase: per-client FIFO.
    pub open spec fn wf(&self) -> bool {
        &&& strictly_increasing(self.delivered@)
        &&& forall|i: int| 0 <= i < self.delivered@.len() ==> #[trigger] self.delivered@[i]
            <= self.request_num
        &&& self.invoke_op is Some ==> forall|i: int|
            0 <= i < self.delivered@.len() ==> #[trigger] self.delivered@[i] < self.request_num
    }

    pub fn new(index: u16) -> (r: Client)
        ensures
            r.wf(),
            r.index == index,
            r.request_num == 0,
            r.invoke_op is None,
    {
        Client {
            index,
            request_num: 0,
            invoke_op: None,
            resend_millis: 100,
            delivered: Ghost(Seq::empty()),
        }
    }

    /// Start an invocation: send the signed request to the replica and arm
    /// the resend timer.
    pub fn invoke(&mut self, op: Vec<u8>, actions: &mut Vec<Action<Payload>>)
        requires
            old(self).wf(),
            old(self).invoke_op is None,
            old(self).request_num < u32::MAX,
        ensures
            final(self).wf(),
            final(self).request_num == old(self).request_num + 1,
            (final(self).invoke_op matches Some(o) && o@ == op@),
            final(actions)@.len() == old(actions)@.len() + 2,
            final(actions)@.subrange(0, old(actions)@.len() as int) == old(actions)@,
            (final(actions)@[old(actions)@.len() as int] matches Action::Send(
                t,
                Payload::Request(q),
            ) && t == To::Replica(0) && q.client_index == old(self).index && q.request_num == old(
                self,
            ).request_num + 1 && q.op@ == op@),
            final(actions)@.last() == Action::<Payload>::SetTimer(old(self).resend_millis),
    {
        self.request_num = self.request_num + 1;
        self.invoke_op = Some(op.clone());
        let request = Request {
            client_index: self.index,
            request_num: self.request_num,
            op,
        };
        actions.push(Action::Send(To::Replica(0), Payload::Request(request)));
        actions.push(Action::SetTimer(self.resend_millis));
        assert(actions@.subrange(0, old(actions)@.len() as int) =~= old(actions)@);
    }

    /// Take in one reply; the first one for the current request completes
    /// the invocation and cancels the timer.
    pub fn handle(&mut self, message: Message, actions: &mut Vec<Action<Payload>>) -> (r: Option<Vec<u8>>)
        requires
            old(self).wf(),
            message is Reply,
        ensures
            final(self).wf(),
            final(self).request_num == old(self).request_num,
            final(actions)@.len() >= old(actions)@.len(),
            final(actions)@.subrange(0, old(actions)@.len() as int) == old(actions)@,
            r matches Some(res) ==> old(self).invoke_op is Some && final(self).invoke_op is None
                && (message matches Message::Reply(m) && res@ == m.inner.result@
                && m.inner.request_num == old(self).request_num) && final(self).delivered@ == old(
                self,
            ).delivered@.push(old(self).request_num) && final(actions)@.last()
                == Action::<Payload>::UnsetTimer,
            r is None ==> *final(self) == *old(self) && final(actions)@ == old(actions)@,
            message matches Message::Reply(m) ==> ((r is Some) <==> (m.inner.request_num == old(
                self,
            ).request_num && old(self).invoke_op is Some)),
    {
        let m = match message {
            Message::Reply(m) => m,
            _ => {
                return None;
            },
        };
        if m.inner.request_num != self.request_num {
            return None;
        }
        if self.invoke_op.is_none() {
            return None;
        }
        actions.push(Action::UnsetTimer);
        self.invoke_op = None;
        proof {
            self.delivered@ = self.delivered@.push(self.request_num);
        }
        assert(actions@.subrange(0, old(actions)@.len() as int) =~= old(actions)@);
        Some(m.inner.result)
    }

    /// The resend timer fired: send the current request again, unchanged.
    pub fn on_timer(&mut self, actions: &mut Vec<Action<Payload>>)
        requires
            old(self).wf(),
            old(self).invoke_op is Some,
        ensures
            final(self).wf(),
            *final(self) == *old(self),
            final(actions)@.len() == old(actions)@.len() + 1,
            final(actions)@.subrange(0, old(actions)@.len() as int) == old(actions)@,
            (final(actions)@.last() matches Action::Send(t, Payload::Request(q)) && t
                == To::Replica(0) && q.client_index == old(self).index && q.request_num == old(
                self,
            ).request_num && (old(self).invoke_op matches Some(o) && q.op@ == o@)),
    {
        let op = match &self.invoke_op {
            Some(op) => op.clone(),
            None => {
                return ;
            },
        };
        let request = Request {
            client_index: self.index,
            request_num: self.request_num,
            op,
        };
        actions.push(Action::Send(To::Replica(0), Payload::Request(request)));
        assert(actions@.subrange(0, old(actions)@.len() as int) =~= old(actions)@);
    }
}

/// What executing a batched block does to the reply cache: clients not in
/// the batch keep their entries, and each client in it ends at its last
/// request of the batch, with the application's result.
#[verifier::opaque]
pub open spec fn u_committed_replies_ok<A: App>(
    pre: Map<u64, Reply>,
    post: Map<u64, Reply>,
    app: A,
    reqs: Seq<RequestV>,
) -> bool {
    &&& u_replies_frame_ok(pre, post, reqs, reqs.len() as int)
    &&& u_replies_entries_ok(post, app, reqs, reqs.len() as int)
}

/// What executing a batched block appends to the action list: one reply
/// send per request, in batch order.
#[verifier::opaque]
pub open spec fn u_committed_actions_ok<A: App>(
    base: Seq<Action<Payload>>,
    acts: Seq<Action<Payload>>,
    app: A,
    reqs: Seq<RequestV>,
) -> bool {
    &&& acts.len() == base.len() + reqs.len()
    &&& acts.subrange(0, base.len() as int) == base
    &&& u_actions_prefix_ok(base, acts, app, reqs, reqs.len() as int)
}

#[verifier::opaque]
pub open spec fn u_replies_frame_ok(
    pre: Map<u64, Reply>,
    post: Map<u64, Reply>,
    reqs: Seq<RequestV>,
    upto: int,
) -> bool {
    forall|c: u64|
        !client_in_prefix(reqs, upto, c) ==> (#[trigger] post.contains_key(c))
            == pre.contains_key(c) && (pre.contains_key(c) ==> post[c] == pre[c])
}

#[verifier::opaque]
pub open spec fn u_replies_entries_ok<A: App>(
    post: Map<u64, Reply>,
    app: A,
    reqs: Seq<RequestV>,
    upto: int,
) -> bool {
    forall|k: int|
        0 <= k < upto && last_for_client(reqs, upto, k) ==> post.contains_key(
            (#[trigger] reqs[k]).client_index as u64,
        ) && post[reqs[k].client_index as u64].request_num == reqs[k].request_num && post[
        reqs[k].client_index as u64].result@ == batch_result(app, reqs, k)
}

#[verifier::opaque]
pub open spec fn u_actions_prefix_ok<A: App>(
    base: Seq<Action<Payload>>,
    acts: Seq<Action<Payload>>,
    app: A,
    reqs: Seq<RequestV>,
    upto: int,
) -> bool {
    forall|k: int|
        0 <= k < upto ==> (#[trigger] acts[base.len() + k] matches Action::Send(
            t,
            Payload::Reply(rep),
        ) && t == To::Client(reqs[k].client_index) && rep.request_num == reqs[k].request_num
            && rep.result@ == batch_result(app, reqs, k))
}

/// The unreplicated replica: executes a request the moment it arrives, or,
/// in block mode, batches the backlog into a block at each pace and
/// executes the whole block.
pub struct Replica<A: App> {
    /// Blocks built in block mode, keyed by digest.
    pub blocks: DigestMap<Block>,
    pub chain: Chain,
    pub requests: Vec<Request>,
    /// The latest reply per client.
    pub replies: IndexMap<Reply>,
    pub app: A,
    pub make_blocks: bool,
}

impl<A: App> Replica<A> {
    pub open spec fn wf(&self) -> bool {
        &&& self.blocks.wf()
        &&& self.replies.wf()
    }

    pub fn new(app: A) -> (r: Replica<A>)
        ensures
            r.wf(),
            !r.make_blocks,
            r.requests@.len() == 0,
            r.replies.view_map() == Map::<u64, Reply>::empty(),
    {
        let genesis = genesis_block();
        let gd = block_digest(&genesis);
        Replica {
            blocks: DigestMap::new(),
            chain: Chain::new(gd),
            requests: Vec::new(),
            replies: IndexMap::new(),
            app,
            make_blocks: false,
        }
    }

    /// Take in one request: drop it if stale, resend the cached reply if it
    /// repeats the latest one, otherwise execute it (immediately, unless
    /// block mode batches it for the next pace).
    pub fn handle(&mut self, remote: Addr, message: Message, actions: &mut Vec<Action<Payload>>)
        requires
            old(self).wf(),
            message is Request,
        ensures
            final(self).wf(),
            final(actions)@.len() >= old(actions)@.len(),
            final(actions)@.subrange(0, old(actions)@.len() as int) == old(actions)@,
            message matches Message::Request(q) ==> ({
                let key = q.inner.client_index as u64;
                let m = old(self).replies.view_map();
                if m.contains_key(key) && m[key].request_num > q.inner.request_num {
                    *final(self) == *old(self) && final(actions)@ == old(actions)@
                } else if m.contains_key(key) && m[key].request_num == q.inner.request_num {
                    *final(self) == *old(self) && final(actions)@.len() == old(actions)@.len() + 1
                        && (final(actions)@.last() matches Action::Send(t, Payload::Reply(rep))
                        && t == To::Addr(remote) && rep@ == m[key]@)
                } else if old(self).make_blocks {
                    final(self).requests@ == old(self).requests@.push(q.inner) && final(self).replies == old(self).replies && final(actions)@ == old(actions)@
                } else {
                    final(self).replies.view_map().contains_key(key) && final(self).replies.view_map()[key].request_num == q.inner.request_num && final(self).replies.view_map()[key].result@ == old(self).app.app_result(q.inner.op@)
                        && final(actions)@.len() == old(actions)@.len() + 1 && (final(actions)@.last() matches Action::Send(t, Payload::Reply(rep)) && t == To::Client(
                        q.inner.client_index,
                    ) && rep.request_num == q.inner.request_num && rep.result@ == old(
                        self,
                    ).app.app_result(q.inner.op@))
                }
            }),
    {
        let request = match message {
            Message::Request(q) => q,
            _ => {
                return ;
            },
        };
        let key = request.inner.client_index as u64;
        match self.replies.get(key) {
            Some(reply) => {
                if reply.request_num > request.inner.request_num {
                    return ;
                }
                if reply.request_num == request.inner.request_num {
                    let rep = reply.duplicate();
                    actions.push(Action::Send(To::Addr(remote), Payload::Reply(rep)));
                    assert(actions@.subrange(0, old(actions)@.len() as int) =~= old(actions)@);
                    return ;
                }
            },
            None => {},
        }
        if self.make_blocks {
            self.requests.push(request.inner);
            return ;
        }
        let result = self.app.execute(&request.inner.op);
        let reply = Reply { request_num: request.inner.request_num, result };
        let stored = reply.duplicate();
        self.replies.insert(key, stored);
        actions.push(
            Action::Send(To::Client(request.inner.client_index), Payload::Reply(reply)),
        );
        assert(actions@.subrange(0, old(actions)@.len() as int) =~= old(actions)@);
    }

    /// In block mode, the pace point drains the backlog into a block,
    /// commits it, executes every request in it, and answers the clients.
    #[verifier::rlimit(100)]
    pub fn on_pace(&mut self, actions: &mut Vec<Action<Payload>>)
        requires
            old(self).wf(),
            old(self).chain.parent_height < u32::MAX,
        ensures
            final(self).wf(),
            final(actions)@.len() >= old(actions)@.len(),
            final(actions)@.subrange(0, old(actions)@.len() as int) == old(actions)@,
            !(old(self).make_blocks && old(self).requests@.len() > 0) ==> *final(self) == *old(
                self,
            ) && final(actions)@ == old(actions)@,
            (old(self).make_blocks && old(self).requests@.len() > 0) ==> final(self).requests@.len() == 0,
            (old(self).make_blocks && old(self).requests@.len() > 0) ==> ({
                let reqs = old(self).requests@.map_values(|q: Request| q@);
                let b = BlockV {
                    parent_digest: old(self).chain.digest_parent@,
                    height: (old(self).chain.parent_height + 1) as u32,
                    requests: reqs,
                };
                let executes = block_digest_of(b) != genesis_digest() && old(
                    self,
                ).chain.parent_height + 1 == old(self).chain.execute_next && old(
                    self,
                ).chain.execute_next < u32::MAX;
                executes ==> ({
                    &&& final(self).blocks.view_map().contains_key(block_digest_of(b))
                    &&& final(self).blocks.view_map()[block_digest_of(b)]@ == b
                    &&& final(self).chain.execute_next == old(self).chain.execute_next + 1
                    &&& final(self).app == app_after(old(self).app, reqs, reqs.len() as int)
                    &&& u_committed_replies_ok(
                        old(self).replies.view_map(),
                        final(self).replies.view_map(),
                        old(self).app,
                        reqs,
                    )
                    &&& u_committed_actions_ok(
                        old(actions)@,
                        final(actions)@,
                        old(self).app,
                        reqs,
                    )
                })
            }),
    {
        proof {
            reveal(u_committed_replies_ok);
            reveal(u_committed_actions_ok);
            reveal(u_replies_frame_ok);
            reveal(u_replies_entries_ok);
            reveal(u_actions_prefix_ok);
        }
        if !self.make_blocks {
            return ;
        }
        if self.requests.len() == 0 {
            return ;
        }
        let ghost reqs = self.requests@.map_values(|q: Request| q@);
        let block = self.chain.propose(&mut self.requests);
        proof {
            assert(block@.requests =~= reqs);
        }
        let d = block_digest(&block);
        let genesis = block_digest(&genesis_block());
        if digest_eq(&d, &genesis) {
            // a proposed block can never collide with genesis; treat a
            // collision as a dropped pace rather than progress
            return ;
        }
        let copy = block.duplicate();
        self.blocks.insert(d, copy);
        let executed = self.chain.commit(&block);
        if !executed {
            return ;
        }
        let ghost mid = *self;
        let ghost acts_mid = actions@;
        let n = block.requests.len();
        let mut i: usize = 0;
        while i < n
            invariant
                i <= n,
                n == block.requests.len(),
                reqs == block@.requests,
                self.replies.wf(),
                self.blocks == mid.blocks,
                self.chain == mid.chain,
                self.requests == mid.requests,
                self.make_blocks == mid.make_blocks,
                self.app == app_after(mid.app, reqs, i as int),
                actions@.len() == acts_mid.len() + i,
                actions@.subrange(0, acts_mid.len() as int) == acts_mid,
                u_actions_prefix_ok(acts_mid, actions@, mid.app, reqs, i as int),
                u_replies_frame_ok(
                    mid.replies.view_map(),
                    self.replies.view_map(),
                    reqs,
                    i as int,
                ),
                u_replies_entries_ok(self.replies.view_map(), mid.app, reqs, i as int),
            decreases n - i,
        {
            let req = &block.requests[i];
            let result = self.app.execute(&req.op);
            let reply = Reply { request_num: req.request_num, result };
            let stored = reply.duplicate();
            self.replies.insert(req.client_index as u64, stored);
            actions.push(Action::Send(To::Client(req.client_index), Payload::Reply(reply)));
            proof {
                reveal(u_replies_frame_ok);
                reveal(u_replies_entries_ok);
                reveal(u_actions_prefix_ok);
                assert(actions@.subrange(0, acts_mid.len() as int) =~= acts_mid);
                assert(req@ == reqs[i as int]);
                assert(self.app == app_after(mid.app, reqs, i + 1));
                assert(u_replies_frame_ok(
                    mid.replies.view_map(),
                    self.replies.view_map(),
                    reqs,
                    i + 1,
                )) by {
                    reveal(u_replies_frame_ok);
                    assert forall|c: u64|
                        !client_in_prefix(reqs, i + 1, c) implies (
                    #[trigger] self.replies.view_map().contains_key(c))
                        == mid.replies.view_map().contains_key(c) && (
                    mid.replies.view_map().contains_key(c) ==> self.replies.view_map()[c]
                        == mid.replies.view_map()[c]) by {
                        assert(!client_in_prefix(reqs, i as int, c));
                        assert(reqs[i as int].client_index as u64 != c);
                    }
                }
                assert(u_replies_entries_ok(self.replies.view_map(), mid.app, reqs, i + 1)) by {
                    reveal(u_replies_entries_ok);
                    assert forall|k: int|
                        0 <= k < i + 1 && last_for_client(reqs, i + 1, k)
                        implies self.replies.view_map().contains_key(
                        (#[trigger] reqs[k]).client_index as u64,
                    ) && self.replies.view_map()[reqs[k].client_index as u64].request_num == reqs[
                        k].request_num && self.replies.view_map()[
                        reqs[k].client_index as u64].result@ == batch_result(mid.app, reqs, k) by {
                        if k < i {
                            assert(reqs[i as int].client_index != reqs[k].client_index);
                            assert(last_for_client(reqs, i as int, k));
                        }
                    }
                }
            }
            i = i + 1;
        }
        proof {
            assert(acts_mid == old(actions)@);
            assert(mid.replies == old(self).replies);
            assert(mid.app == old(self).app);
            assert(self.wf());
        }
        let none = self.chain.next_execute();
        match none {
            Some(_) => {},
            None => {},
        }
    }
}

} // verus!
