//! The three-chain consensus replica and its client.
//!
//! One fixed primary proposes blocks; replicas vote; a quorum certificate
//! advances the certified digest, the locked digest trails one link behind,
//! and a three-chain of directly-certifying blocks commits its oldest block.
//! Handlers are pure state transitions that return the sends they decided
//! on.

use vstd::prelude::*;

use crate::addr::{Action, Addr, Payload, To};
use crate::chain::{
    block_digest, block_digest_of, digest_eq, genesis_block, genesis_digest, Block, BlockDigest,
    Chain, Request, RequestV,
};
use crate::kv::{lemma_digest_view_index, lemma_prefix_chain, lemma_stash_total_push,
    lemma_stash_total_remove, stash_total, DigestMap, IndexMap};
use crate::messages::{Generic, Message, Reply, Signed, Vote};

verus! {

/// The replicated application.  Its result is a function of the state and
/// the operation, so every replica that executes the same operations in the
/// same order produces the same replies.
pub trait App: Sized {
    /// What executing `op` returns in the current state.
    spec fn app_result(&self, op: Seq<u8>) -> Seq<u8>;

    /// The state after executing `op`.
    spec fn app_step(&self, op: Seq<u8>) -> Self;

    /// Execute one operation.
    fn execute(&mut self, op: &Vec<u8>) -> (r: Vec<u8>)
        ensures
            r@ == old(self).app_result(op@),
            *final(self) == old(self).app_step(op@),
    ;
}

/// The application used throughout the tests: it echoes its input.
pub struct EchoApp {}

impl App for EchoApp {
    open spec fn app_result(&self, op: Seq<u8>) -> Seq<u8> {
        op
    }

    open spec fn app_step(&self, op: Seq<u8>) -> EchoApp {
        EchoApp {  }
    }

    fn execute(&mut self, op: &Vec<u8>) -> (r: Vec<u8>) {
        op.clone()
    }
}

/// The application state after the first `k` requests of a batch.
pub open spec fn app_after<A: App>(app: A, reqs: Seq<RequestV>, k: int) -> A
    decreases k,
{
    if k <= 0 {
        app
    } else {
        app_after(app, reqs, k - 1).app_step(reqs[k - 1].op)
    }
}

/// Whether some request among the first `upto` belongs to client `c`.
pub open spec fn client_in_prefix(reqs: Seq<RequestV>, upto: int, c: u64) -> bool {
    exists|j: int| 0 <= j < upto && (#[trigger] reqs[j]).client_index as u64 == c
}

/// Whether request `k` is its client's last among the first `upto`.
pub open spec fn last_for_client(reqs: Seq<RequestV>, upto: int, k: int) -> bool {
    forall|j: int| k < j < upto ==> (#[trigger] reqs[j]).client_index != reqs[k].client_index
}

/// The reply computed for the `k`-th request of a committed batch.
pub open spec fn batch_result<A: App>(app: A, reqs: Seq<RequestV>, k: int) -> Seq<u8> {
    app_after(app, reqs, k).app_result(reqs[k].op)
}

/// One reply send to a client.
#[verifier::opaque]
pub open spec fn is_client_reply(
    a: Action<Payload>,
    c: u16,
    num: u32,
    idx: u8,
    res: Seq<u8>,
) -> bool {
    a matches Action::Send(t, Payload::Reply(rep)) && t == To::Client(c) && rep.request_num == num
        && rep.replica_index == idx && rep.result@ == res
}

/// One cached reply entry.
#[verifier::opaque]
pub open spec fn reply_entry_ok(e: (u32, Option<Reply>), num: u32, idx: u8, res: Seq<u8>) -> bool {
    e.0 == num && (e.1 matches Some(rep) && rep.request_num == num && rep.replica_index == idx
        && rep.result@ == res)
}

/// What executing a committed batch does to the reply cache: clients not in
/// the batch keep their entries, and each client in it ends at its last
/// request of the batch, with the reply computed by the application as the
/// batch ran.
#[verifier::opaque]
pub open spec fn replies_frame_ok(
    pre: Map<u64, (u32, Option<Reply>)>,
    post: Map<u64, (u32, Option<Reply>)>,
    reqs: Seq<RequestV>,
    upto: int,
) -> bool {
    forall|c: u64|
        !client_in_prefix(reqs, upto, c) ==> (#[trigger] post.contains_key(c))
            == pre.contains_key(c) && (pre.contains_key(c) ==> post[c] == pre[c])
}

#[verifier::opaque]
pub open spec fn replies_entries_ok<A: App>(
    post: Map<u64, (u32, Option<Reply>)>,
    app: A,
    reqs: Seq<RequestV>,
    upto: int,
    index: u8,
) -> bool {
    forall|k: int|
        0 <= k < upto && last_for_client(reqs, upto, k) ==> post.contains_key(
            (#[trigger] reqs[k]).client_index as u64,
        ) && reply_entry_ok(
            post[reqs[k].client_index as u64],
            reqs[k].request_num,
            index,
            batch_result(app, reqs, k),
        )
}

#[verifier::opaque]
pub open spec fn committed_replies_ok<A: App>(
    pre: Map<u64, (u32, Option<Reply>)>,
    post: Map<u64, (u32, Option<Reply>)>,
    app: A,
    reqs: Seq<RequestV>,
    index: u8,
) -> bool {
    &&& replies_frame_ok(pre, post, reqs, reqs.len() as int)
    &&& replies_entries_ok(post, app, reqs, reqs.len() as int, index)
}

/// What executing a committed batch appends to the action list: one reply
/// send per request, in batch order, addressed to the request's client and
/// carrying the application's result.
#[verifier::opaque]
pub open spec fn committed_actions_ok<A: App>(
    base: Seq<Action<Payload>>,
    acts: Seq<Action<Payload>>,
    app: A,
    reqs: Seq<RequestV>,
    index: u8,
) -> bool {
    &&& acts.len() == base.len() + reqs.len()
    &&& acts.subrange(0, base.len() as int) == base
    &&& forall|k: int|
        0 <= k < reqs.len() ==> is_client_reply(
            #[trigger] acts[base.len() + k],
            reqs[k].client_index,
            reqs[k].request_num,
            index,
            batch_result(app, reqs, k),
        )
}

/// The proposals a replica has accepted, keyed by block digest.
pub type GenericMap = Map<Seq<u8>, Signed<Generic>>;

/// Chain closure and height sanity of the accepted proposals: the genesis
/// entry is present, every referenced digest is present, and parent links
/// strictly descend in height away from genesis.
pub open spec fn chain_wf(m: GenericMap) -> bool {
    &&& m.contains_key(genesis_digest())
    &&& m[genesis_digest()].inner.block.height == 0
    &&& m[genesis_digest()].inner.block.parent_digest@ == genesis_digest()
    &&& m[genesis_digest()].inner.certified_digest@ == genesis_digest()
    &&& forall|d: Seq<u8>| #[trigger]
        m.contains_key(d) ==> m.contains_key(m[d].inner.block.parent_digest@) && m.contains_key(
            m[d].inner.certified_digest@,
        )
    &&& forall|d: Seq<u8>| #[trigger]
        m.contains_key(d) && d != genesis_digest()
            ==> m[m[d].inner.block.parent_digest@].inner.block.height < m[d].inner.block.height
}

/// Whether `base` lies on the parent chain of `b` (the walk stops at
/// genesis, whose self-loop would otherwise never terminate).
pub open spec fn extends_spec(m: GenericMap, b: Block, base: Seq<u8>) -> bool
    decreases b.height,
        when chain_wf(m) && m.contains_key(b.parent_digest@) && (b.parent_digest@
            != genesis_digest() ==> m[b.parent_digest@].inner.block.height < b.height)
{
    if b.parent_digest@ == base {
        true
    } else if b.parent_digest@ == genesis_digest() {
        false
    } else {
        extends_spec(m, m[b.parent_digest@].inner.block, base)
    }
}

/// The genesis self-loop terminates the chain walk: starting the walk from
/// the stored genesis block (whose parent is genesis itself) succeeds only
/// for genesis's own digest as the base, and in particular the walk ends
/// rather than following the loop.
pub proof fn lemma_genesis_walk_terminates(m: GenericMap, base: Seq<u8>)
    requires
        chain_wf(m),
    ensures
        extends_spec(m, m[genesis_digest()].inner.block, base) == (base == genesis_digest()),
{
}

/// Two disjoint finite sets have additive cardinality.
pub proof fn lemma_len_disjoint_union<T>(a: Set<T>, b: Set<T>)
    requires
        a.finite(),
        b.finite(),
        a.intersect(b) == Set::<T>::empty(),
    ensures
        a.union(b).len() == a.len() + b.len(),
    decreases a.len(),
{
    if a.is_empty() {
        assert(a.union(b) =~= b);
    } else {
        let x = a.choose();
        assert(a.intersect(b).contains(x) == (a.contains(x) && b.contains(x)));
        assert(!b.contains(x));
        assert(a.remove(x).intersect(b) =~= Set::<T>::empty());
        lemma_len_disjoint_union(a.remove(x), b);
        assert(a.union(b).remove(x) =~= a.remove(x).union(b));
        assert(a.union(b).contains(x));
    }
}

/// Within a finite universe, two subsets overlap in at least
/// `|a| + |b| - |u|` elements.
pub proof fn lemma_len_intersect_lower<T>(a: Set<T>, b: Set<T>, u: Set<T>)
    requires
        u.finite(),
        a.subset_of(u),
        b.subset_of(u),
    ensures
        a.intersect(b).len() + u.len() >= a.len() + b.len(),
{
    vstd::set_lib::lemma_len_subset(a, u);
    vstd::set_lib::lemma_len_subset(b, u);
    assert(a.intersect(b).subset_of(u));
    vstd::set_lib::lemma_len_subset(a.intersect(b), u);
    assert(a =~= a.intersect(b).union(a.difference(b)));
    assert(a.intersect(b).intersect(a.difference(b)) =~= Set::<T>::empty());
    assert(a.difference(b).subset_of(u));
    vstd::set_lib::lemma_len_subset(a.difference(b), u);
    lemma_len_disjoint_union(a.intersect(b), a.difference(b));
    assert(u =~= b.union(u.difference(b)));
    assert(b.intersect(u.difference(b)) =~= Set::<T>::empty());
    assert(u.difference(b).subset_of(u));
    vstd::set_lib::lemma_len_subset(u.difference(b), u);
    lemma_len_disjoint_union(b, u.difference(b));
    assert(a.difference(b).subset_of(u.difference(b)));
    vstd::set_lib::lemma_len_subset(a.difference(b), u.difference(b));
}

/// The safety core: two quorum certificates formed at the same height name
/// the same block.
///
/// With `n >= 3f + 1` replicas of which at most `f` are faulty, two sets of
/// at least `n - f` signers overlap in at least `f + 1` replicas, hence in
/// at least one correct one; and a correct replica votes for at most one
/// digest per height (its `view_height` rises to each height it votes at),
/// recorded here as the map from correct signers to the digest they voted
/// for at this height.  Two replicas therefore never certify conflicting
/// blocks at one height, which is what makes the committed chain agree
/// across replicas.
pub proof fn lemma_quorum_certificates_agree(
    replicas: Set<u8>,
    byzantine: Set<u8>,
    f: nat,
    q1: Set<u8>,
    q2: Set<u8>,
    vote_at: Map<u8, Seq<u8>>,
    d1: Seq<u8>,
    d2: Seq<u8>,
)
    requires
        replicas.finite(),
        byzantine.finite(),
        byzantine.subset_of(replicas),
        q1.subset_of(replicas),
        q2.subset_of(replicas),
        replicas.len() >= 3 * f + 1,
        byzantine.len() <= f,
        q1.len() + f >= replicas.len(),
        q2.len() + f >= replicas.len(),
        forall|i: u8|
            #[trigger] q1.contains(i) && !byzantine.contains(i) ==> vote_at.contains_key(i)
                && vote_at[i] == d1,
        forall|i: u8|
            #[trigger] q2.contains(i) && !byzantine.contains(i) ==> vote_at.contains_key(i)
                && vote_at[i] == d2,
    ensures
        d1 == d2,
{
    let inter = q1.intersect(q2);
    lemma_len_intersect_lower(q1, q2, replicas);
    assert(inter.len() >= f + 1);
    assert(inter.subset_of(replicas));
    vstd::set_lib::lemma_len_subset(inter, replicas);
    let honest = inter.difference(byzantine);
    assert(inter =~= inter.intersect(byzantine).union(honest));
    assert(inter.intersect(byzantine).intersect(honest) =~= Set::<u8>::empty());
    assert(honest.subset_of(replicas));
    vstd::set_lib::lemma_len_subset(honest, replicas);
    assert(inter.intersect(byzantine).subset_of(replicas));
    vstd::set_lib::lemma_len_subset(inter.intersect(byzantine), replicas);
    lemma_len_disjoint_union(inter.intersect(byzantine), honest);
    assert(inter.intersect(byzantine).subset_of(byzantine));
    vstd::set_lib::lemma_len_subset(inter.intersect(byzantine), byzantine);
    assert(honest.len() >= 1);
    assert(!honest.is_empty());
    let i = honest.choose();
    assert(honest.contains(i));
    assert(q1.contains(i) && q2.contains(i) && !byzantine.contains(i));
}

/// Vote uniqueness across a replica's lifetime: a vote raises
/// `view_height` to the voted block's height, which must exceed the old
/// `view_height`, and `view_height` never decreases between votes; so a
/// later vote is always for a strictly greater height — at most one vote
/// per height.
pub proof fn lemma_vote_heights_strictly_increase(
    view0: u32,
    h1: u32,
    view1: u32,
    view2: u32,
    h2: u32,
)
    requires
        h1 > view0,
        view1 == h1,
        view2 >= view1,
        h2 > view2,
    ensures
        h2 > h1,
{
}

/// A quorum certificate's vote list: distinct signers.
pub open spec fn signers_unique(vs: Seq<Signed<Vote>>) -> bool {
    forall|i: int, j: int|
        0 <= i < j < vs.len() ==> (#[trigger] vs[i]).inner.replica_index != (
        #[trigger] vs[j]).inner.replica_index
}

/// What taking in a client request does: a stale request is dropped, a
/// repeat of the latest one is answered from the cache, and a new one is
/// recorded (and queued for proposal at the primary).
#[verifier::opaque]
pub open spec fn handle_request_post<A: App>(
    pre: Replica<A>,
    post: Replica<A>,
    remote: Addr,
    message: Signed<Request>,
    a0: Seq<Action<Payload>>,
    a1: Seq<Action<Payload>>,
) -> bool {
    let key = message.inner.client_index as u64;
    let m = pre.replies.view_map();
    if m.contains_key(key) && m[key].0 > message.inner.request_num {
        post == pre && a1 == a0
    } else if m.contains_key(key) && m[key].0 == message.inner.request_num {
        post == pre && (match m[key].1 {
            Some(reply) => a1.len() == a0.len() + 1 && a1.subrange(0, a0.len() as int) == a0 && (
            a1.last() matches Action::Send(t, Payload::Reply(rep)) && t == To::Addr(remote) && rep@
                == reply@),
            None => a1 == a0,
        })
    } else {
        &&& post.replies.view_map() == m.insert(key, (message.inner.request_num, None))
        &&& a1 == a0
        &&& post.requests@ == if pre.index == 0 {
            pre.requests@.push(message.inner)
        } else {
            pre.requests@
        }
        &&& post.generics == pre.generics
        &&& post.digest_certified == pre.digest_certified
        &&& post.digest_lock == pre.digest_lock
        &&& post.view_height == pre.view_height
        &&& post.propose_height == pre.propose_height
        &&& post.votes == pre.votes
        &&& post.reordering_generics == pre.reordering_generics
        &&& post.chain == pre.chain
        &&& post.app == pre.app
        &&& post.index == pre.index
        &&& post.num_replica == pre.num_replica
        &&& post.num_faulty == pre.num_faulty
    }
}

/// A digest's vote tally, empty when none is recorded.
pub open spec fn votes_entry(m: Map<Seq<u8>, Vec<Signed<Vote>>>, d: Seq<u8>) -> Seq<Signed<Vote>> {
    if m.contains_key(d) {
        m[d]@
    } else {
        Seq::empty()
    }
}

/// What tallying a vote does: the vote joins its digest's tally (replacing
/// the same signer's earlier vote; a tally already at quorum is left
/// alone), and the moment the tally reaches quorum the certified digest is
/// raised if the newly certified block is higher.
#[verifier::opaque]
pub open spec fn handle_vote_post<A: App>(
    pre: Replica<A>,
    post: Replica<A>,
    message: Signed<Vote>,
    a0: Seq<Action<Payload>>,
    a1: Seq<Action<Payload>>,
) -> bool {
    let d = message.inner.block_digest@;
    let quorum = pre.num_replica - pre.num_faulty;
    let e0 = votes_entry(pre.votes.view_map(), d);
    &&& a1 == a0
    &&& post.generics == pre.generics
    &&& post.digest_lock == pre.digest_lock
    &&& post.view_height == pre.view_height
    &&& post.propose_height == pre.propose_height
    &&& post.requests == pre.requests
    &&& post.replies == pre.replies
    &&& post.reordering_generics == pre.reordering_generics
    &&& post.chain == pre.chain
    &&& post.app == pre.app
    &&& post.index == pre.index
    &&& post.num_replica == pre.num_replica
    &&& post.num_faulty == pre.num_faulty
    &&& e0.len() == quorum ==> post.votes.view_map() == pre.votes.view_map()
        && post.digest_certified == pre.digest_certified
    &&& e0.len() != quorum ==> ({
        let e1 = post.votes.view_map()[d]@;
        &&& post.votes.view_map().contains_key(d)
        &&& post.votes.view_map().remove(d) == pre.votes.view_map().remove(d)
        &&& ((exists|j: int|
            0 <= j < e0.len() && (#[trigger] e0[j]).inner.replica_index
                == message.inner.replica_index && e1 == e0.update(j, message)) || ((forall|j: int|
            0 <= j < e0.len() ==> (#[trigger] e0[j]).inner.replica_index
                != message.inner.replica_index) && e1 == e0.push(message)))
        &&& post.digest_certified@ == if e1.len() == quorum && pre.gmap()[d].inner.block.height
            > pre.gmap()[pre.digest_certified@].inner.block.height {
            d
        } else {
            pre.digest_certified@
        }
    })
}

/// Where a replica's vote goes: the primary votes to itself by loopback,
/// a backup sends to the primary.
pub open spec fn vote_dest(index: u8) -> To {
    if index == 0 {
        To::Loopback
    } else {
        To::Replica(0)
    }
}

/// The reorder buffer's frame when a proposal is parked: only the stash
/// changes, gaining the proposal at the end of the missing digest's list.
#[verifier::opaque]
pub open spec fn parked_post<A: App>(
    pre: Replica<A>,
    post: Replica<A>,
    key: Seq<u8>,
    generic: Signed<Generic>,
) -> bool {
    &&& post.generics == pre.generics
    &&& post.votes == pre.votes
    &&& post.replies == pre.replies
    &&& post.requests == pre.requests
    &&& post.digest_certified == pre.digest_certified
    &&& post.digest_lock == pre.digest_lock
    &&& post.view_height == pre.view_height
    &&& post.propose_height == pre.propose_height
    &&& post.chain == pre.chain
    &&& post.app == pre.app
    &&& post.index == pre.index
    &&& post.num_replica == pre.num_replica
    &&& post.num_faulty == pre.num_faulty
    &&& post.reordering_generics.view_map().contains_key(key)
    &&& post.reordering_generics.view_map()[key]@ == (if pre.reordering_generics.view_map().contains_key(key) {
        pre.reordering_generics.view_map()[key]@
    } else {
        Seq::empty()
    }).push(generic)
    &&& post.reordering_generics.view_map().remove(key) == pre.reordering_generics.view_map().remove(key)
}

/// Whether a proposal sits in some stash list.
pub open spec fn stashed_somewhere<A: App>(post: Replica<A>, g: Signed<Generic>) -> bool {
    exists|k: Seq<u8>| #[trigger]
        post.reordering_generics.view_map().contains_key(k)
            && post.reordering_generics.view_map()[k]@.contains(g)
}

/// A drained proposal is never lost: it has been accepted (its digest is
/// known), or re-parked on a still-missing digest, or dropped because it
/// does not rise above its known parent.
#[verifier::opaque]
pub open spec fn accounted<A: App>(post: Replica<A>, g: Signed<Generic>) -> bool {
    ||| post.gmap().contains_key(block_digest_of(g.inner.block@))
    ||| stashed_somewhere(post, g)
    ||| (post.gmap().contains_key(g.inner.block.parent_digest@) && post.gmap()[
        g.inner.block.parent_digest@].inner.block.height >= g.inner.block.height)
}

/// Parking one proposal preserves everything already stashed.
pub proof fn lemma_stash_preserved_by_park<A: App>(
    pre: Replica<A>,
    post: Replica<A>,
    key: Seq<u8>,
    g2: Signed<Generic>,
    item: Signed<Generic>,
)
    requires
        post.reordering_generics.view_map().contains_key(key),
        post.reordering_generics.view_map()[key]@ == (if pre.reordering_generics.view_map().contains_key(key) {
            pre.reordering_generics.view_map()[key]@
        } else {
            Seq::empty()
        }).push(g2),
        post.reordering_generics.view_map().remove(key) == pre.reordering_generics.view_map().remove(key),
        stashed_somewhere(pre, item),
    ensures
        stashed_somewhere(post, item),
{
    let k0 = choose|k0: Seq<u8>| #[trigger]
        pre.reordering_generics.view_map().contains_key(k0)
            && pre.reordering_generics.view_map()[k0]@.contains(item);
    if k0 == key {
        let s0 = pre.reordering_generics.view_map()[key]@;
        let x = choose|x: int| 0 <= x < s0.len() && s0[x] == item;
        assert(post.reordering_generics.view_map()[key]@[x] == item);
        assert(post.reordering_generics.view_map()[key]@.contains(item));
    } else {
        assert(pre.reordering_generics.view_map().remove(key).contains_key(k0));
        assert(pre.reordering_generics.view_map().remove(key)[k0]
            == pre.reordering_generics.view_map()[k0]);
        assert(post.reordering_generics.view_map().remove(key).contains_key(k0));
        assert(post.reordering_generics.view_map().remove(key)[k0]
            == pre.reordering_generics.view_map().remove(key)[k0]);
        assert(post.reordering_generics.view_map().contains_key(k0));
        assert(post.reordering_generics.view_map()[k0]
            == post.reordering_generics.view_map().remove(key)[k0]);
        assert(post.reordering_generics.view_map()[k0]@.contains(item));
    }
}

/// Removing one stash key preserves everything stashed under other keys.
pub proof fn lemma_stash_preserved_by_remove<A: App>(
    pre: Replica<A>,
    post: Replica<A>,
    key: Seq<u8>,
    item: Signed<Generic>,
)
    requires
        post.reordering_generics.view_map() == pre.reordering_generics.view_map().remove(key),
        stashed_somewhere(pre, item),
        !pre.reordering_generics.view_map().contains_key(key) || !pre.reordering_generics.view_map()[key]@.contains(item),
    ensures
        stashed_somewhere(post, item),
{
    let k0 = choose|k0: Seq<u8>| #[trigger]
        pre.reordering_generics.view_map().contains_key(k0)
            && pre.reordering_generics.view_map()[k0]@.contains(item);
    assert(k0 != key);
    assert(post.reordering_generics.view_map().contains_key(k0)
        && post.reordering_generics.view_map()[k0]@.contains(item));
}

/// What the reorder buffer does with an incoming proposal: park it under
/// its first missing ancestor, drop it if it does not rise above its
/// parent, and otherwise accept it — the map gains the proposal, the stash
/// on its digest is drained (and is never repopulated, its digest now being
/// known), the vote rule fires for it, and everything previously accepted
/// stays.
#[verifier::opaque]
pub open spec fn reorder_post<A: App>(
    pre: Replica<A>,
    post: Replica<A>,
    generic: Signed<Generic>,
    a0: Seq<Action<Payload>>,
    a1: Seq<Action<Payload>>,
) -> bool {
    let pd = generic.inner.block.parent_digest@;
    let cd = generic.inner.certified_digest@;
    let dd = block_digest_of(generic.inner.block@);
    if !pre.gmap().contains_key(pd) {
        parked_post(pre, post, pd, generic) && a1 == a0
    } else if !pre.gmap().contains_key(cd) {
        parked_post(pre, post, cd, generic) && a1 == a0
    } else if pre.gmap()[pd].inner.block.height >= generic.inner.block.height {
        post == pre && a1 == a0
    } else {
        &&& post.gmap().contains_key(dd)
        &&& post.gmap()[dd] == if pre.gmap().contains_key(dd) {
            pre.gmap()[dd]
        } else {
            generic
        }
        &&& forall|d: Seq<u8>| #[trigger]
            pre.gmap().contains_key(d) ==> post.gmap().contains_key(d) && post.gmap()[d]
                == pre.gmap()[d]
        &&& !post.reordering_generics.view_map().contains_key(dd)
        &&& forall|k: Seq<u8>, x: int|
            pre.reordering_generics.view_map().contains_key(k) && 0 <= x
                < pre.reordering_generics.view_map()[k]@.len() ==> accounted(
                post,
                #[trigger] pre.reordering_generics.view_map()[k]@[x],
            )
        &&& forall|k: Seq<u8>| #[trigger]
            pre.reordering_generics.view_map().contains_key(k) && k != dd ==> ((
            post.reordering_generics.view_map().contains_key(k)
                && pre.reordering_generics.view_map()[k]@.is_prefix_of(
                post.reordering_generics.view_map()[k]@,
            )) || post.gmap().contains_key(k))
        &&& ({
            let m1 = if pre.gmap().contains_key(dd) {
                pre.gmap()
            } else {
                pre.gmap().insert(dd, generic)
            };
            let voted = generic.inner.block.height > pre.view_height && (extends_spec(
                m1,
                generic.inner.block,
                pre.digest_lock@,
            ) || m1[cd].inner.block.height > m1[pre.digest_lock@].inner.block.height);
            voted ==> a1.len() > a0.len() && (a1[a0.len() as int] matches Action::Send(
                t,
                Payload::Vote(v),
            ) && v.block_digest@ == dd && v.replica_index == pre.index && t == vote_dest(
                pre.index,
            ))
        })
    }
}

/// What proposing does at the primary: the pending requests drain into a
/// block extending the certified digest (one height up, an empty batch
/// still advancing), broadcast with the certificate backing that digest.
#[verifier::opaque]
pub open spec fn do_propose_post<A: App>(
    pre: Replica<A>,
    post: Replica<A>,
    a0: Seq<Action<Payload>>,
    a1: Seq<Action<Payload>>,
) -> bool {
    let h = pre.gmap()[pre.digest_certified@].inner.block.height;
    &&& post.generics == pre.generics
    &&& post.votes == pre.votes
    &&& post.replies == pre.replies
    &&& post.reordering_generics == pre.reordering_generics
    &&& post.view_height == pre.view_height
    &&& post.digest_certified == pre.digest_certified
    &&& post.digest_lock == pre.digest_lock
    &&& post.app == pre.app
    &&& post.index == pre.index
    &&& post.num_replica == pre.num_replica
    &&& post.num_faulty == pre.num_faulty
    &&& h < u32::MAX ==> ({
        &&& post.propose_height == h + 1
        &&& post.requests@.len() == 0
        &&& a1.len() == a0.len() + 1
        &&& a1.subrange(0, a0.len() as int) == a0
        &&& (a1.last() matches Action::Send(t, Payload::Generic(g)) && t
            == To::AllReplicaWithLoopback && g.block.parent_digest@ == pre.digest_certified@
            && g.block.height == h + 1 && g.certified_digest@ == pre.digest_certified@
            && g.replica_index == pre.index && g.block@.requests == pre.requests@.map_values(
            |q: Request| q@,
        ) && g@.certificate == votes_entry(
            pre.votes.view_map(),
            pre.digest_certified@,
        ).map_values(|v: Signed<Vote>| v@))
    })
    &&& h == u32::MAX ==> post == pre && a1 == a0
}

/// The three-chain consensus replica.
pub struct Replica<A: App> {
    pub index: u8,
    pub num_replica: usize,
    pub num_faulty: usize,
    /// The highest block height this replica has voted for.
    pub view_height: u32,
    /// The height of the last proposal this replica issued (primary only).
    pub propose_height: u32,
    /// Digest of the highest certified block known (the high QC).
    pub digest_certified: BlockDigest,
    /// Digest of the locked block.
    pub digest_lock: BlockDigest,
    /// Requests waiting to be batched into a proposal (primary only).
    pub requests: Vec<Request>,
    /// Per client: the latest request number seen and, once the owning block
    /// committed, the reply.
    pub replies: IndexMap<(u32, Option<Reply>)>,
    /// Every accepted proposal, keyed by its block's digest.
    pub generics: DigestMap<Signed<Generic>>,
    /// Vote tallies per block digest, distinct signers, capped at quorum.
    pub votes: DigestMap<Vec<Signed<Vote>>>,
    /// Proposals parked on a digest this replica has not seen yet.
    pub reordering_generics: DigestMap<Vec<Signed<Generic>>>,
    pub chain: Chain,
    pub app: A,
}

impl<A: App> Replica<A> {
    pub open spec fn gmap(&self) -> GenericMap {
        self.generics.view_map()
    }

    /// The replica's structural invariant.
    pub open spec fn wf(&self) -> bool {
        &&& self.generics.wf()
        &&& self.votes.wf()
        &&& self.reordering_generics.wf()
        &&& self.replies.wf()
        &&& chain_wf(self.gmap())
        &&& self.gmap().contains_key(self.digest_certified@)
        &&& self.gmap().contains_key(self.digest_lock@)
        &&& 0 < self.num_replica
        &&& self.num_faulty < self.num_replica
        &&& forall|d: Seq<u8>| #[trigger]
            self.votes.view_map().contains_key(d) ==> signers_unique(self.votes.view_map()[d]@)
                && self.votes.view_map()[d]@.len() <= self.num_replica - self.num_faulty
    }

    /// Height of a known block.
    pub fn block_height(&self, d: &BlockDigest) -> (r: u32)
        requires
            self.wf(),
            self.gmap().contains_key(d@),
        ensures
            r == self.gmap()[d@].inner.block.height,
    {
        match self.generics.get(d) {
            Some(g) => g.inner.block.height,
            None => 0,
        }
    }

    /// Raise the certified digest if the new candidate is higher.
    fn do_update_certified(&mut self, d: &BlockDigest, actions: &mut Vec<Action<Payload>>)
        requires
            old(self).wf(),
            old(self).gmap().contains_key(d@),
        ensures
            final(self).wf(),
            final(actions)@ == old(actions)@,
            final(self).generics == old(self).generics,
            final(self).gmap() == old(self).gmap(),
            final(self).gmap().contains_key(final(self).digest_certified@),
            final(self).digest_certified@ == d@ || final(self).digest_certified@ == old(
                self,
            ).digest_certified@,
            final(self).gmap()[final(self).digest_certified@].inner.block.height >= old(
                self,
            ).gmap()[old(self).digest_certified@].inner.block.height,
            final(self).digest_certified@ == if old(self).gmap()[d@].inner.block.height > old(
                self,
            ).gmap()[old(self).digest_certified@].inner.block.height {
                d@
            } else {
                old(self).digest_certified@
            },
            final(self).digest_lock == old(self).digest_lock,
            final(self).view_height == old(self).view_height,
            final(self).propose_height == old(self).propose_height,
            final(self).requests == old(self).requests,
            final(self).replies == old(self).replies,
            final(self).votes == old(self).votes,
            final(self).reordering_generics == old(self).reordering_generics,
            final(self).chain == old(self).chain,
            final(self).app == old(self).app,
            final(self).index == old(self).index,
            final(self).num_replica == old(self).num_replica,
            final(self).num_faulty == old(self).num_faulty,
    {
        let new_height = self.block_height(d);
        let cur_height = self.block_height(&self.digest_certified);
        if new_height > cur_height {
            self.digest_certified = d.clone();
        }
    }

    /// Walk the parent chain of `block` looking for `base`.
    pub fn extend(&self, block: &Block, base: &BlockDigest) -> (r: bool)
        requires
            self.wf(),
            self.gmap().contains_key(block.parent_digest@),
            block.parent_digest@ != genesis_digest() ==> self.gmap()[
                block.parent_digest@].inner.block.height < block.height,
        ensures
            r == extends_spec(self.gmap(), *block, base@),
        decreases block.height,
    {
        if digest_eq(&block.parent_digest, base) {
            true
        } else {
            let genesis = self.genesis_digest_exec();
            if digest_eq(&block.parent_digest, &genesis) {
                false
            } else {
                match self.generics.get(&block.parent_digest) {
                    Some(parent) => self.extend(&parent.inner.block, base),
                    None => false,
                }
            }
        }
    }

    /// The digest that terminates chain walks.
    fn genesis_digest_exec(&self) -> (r: BlockDigest)
        ensures
            r@ == genesis_digest(),
    {
        block_digest(&genesis_block())
    }

    /// A fresh replica: the chain holds only the genesis self-loop, both
    /// pointers rest on genesis, and the genesis vote tally is empty.
    pub fn new(index: u8, num_replica: usize, num_faulty: usize, app: A) -> (r: Replica<A>)
        requires
            0 < num_replica,
            num_faulty < num_replica,
        ensures
            r.wf(),
            r.index == index,
            r.num_replica == num_replica,
            r.num_faulty == num_faulty,
            r.view_height == 0,
            r.propose_height == 0,
            r.digest_certified@ == genesis_digest(),
            r.digest_lock@ == genesis_digest(),
            r.requests@.len() == 0,
            r.replies.view_map() == Map::<u64, (u32, Option<Reply>)>::empty(),
            r.reordering_generics.view_map() == Map::<Seq<u8>, Vec<Signed<Generic>>>::empty(),
            r.gmap().dom() == Set::<Seq<u8>>::empty().insert(genesis_digest()),
            r.votes.view_map().dom() == Set::<Seq<u8>>::empty().insert(genesis_digest()),
            r.votes.view_map()[genesis_digest()]@.len() == 0,
            r.gmap()[genesis_digest()].inner.certificate@.len() == 0,
            r.gmap()[genesis_digest()].inner.block.height == 0,
            r.gmap()[genesis_digest()].inner.block.parent_digest@ == genesis_digest(),
            r.gmap()[genesis_digest()].inner.certified_digest@ == genesis_digest(),
            r.gmap()[genesis_digest()].inner.block@.requests.len() == 0,
    {
        let genesis = genesis_block();
        let gd = block_digest(&genesis);
        let mut stored = genesis;
        stored.parent_digest = gd.clone();
        let mut generics: DigestMap<Signed<Generic>> = DigestMap::new();
        generics.insert(
            gd.clone(),
            Signed {
                inner: Generic {
                    block: stored,
                    certified_digest: gd.clone(),
                    certificate: Vec::new(),
                    replica_index: 255,
                },
                signature: Vec::new(),
            },
        );
        let mut votes: DigestMap<Vec<Signed<Vote>>> = DigestMap::new();
        votes.insert(gd.clone(), Vec::new());
        let r = Replica {
            index,
            num_replica,
            num_faulty,
            view_height: 0,
            propose_height: 0,
            digest_certified: gd.clone(),
            digest_lock: gd.clone(),
            requests: Vec::new(),
            replies: IndexMap::new(),
            generics,
            votes,
            reordering_generics: DigestMap::new(),
            chain: Chain::new(gd),
            app,
        };
        assert(r.gmap().dom() =~= Set::<Seq<u8>>::empty().insert(genesis_digest()));
        assert(r.votes.view_map().dom() =~= Set::<Seq<u8>>::empty().insert(genesis_digest()));
        r
    }

    /// Record a client request: drop it if stale, answer from the cache if
    /// it repeats the latest one, otherwise remember it (and, at the
    /// primary, queue it for the next proposal).
    pub fn handle_request(
        &mut self,
        remote: Addr,
        message: Signed<Request>,
        actions: &mut Vec<Action<Payload>>,
    )
        requires
            old(self).wf(),
        ensures
            final(self).wf(),
            handle_request_post(*old(self), *final(self), remote, message, old(actions)@, final(actions)@),
    {
        proof {
            reveal(handle_request_post);
        }
        let key = message.inner.client_index as u64;
        match self.replies.get(key) {
            Some(entry) => {
                if entry.0 > message.inner.request_num {
                    return ;
                }
                if entry.0 == message.inner.request_num {
                    match &entry.1 {
                        Some(reply) => {
                            let rep = reply.duplicate();
                            actions.push(Action::Send(To::Addr(remote), Payload::Reply(rep)));
                        },
                        None => {},
                    }
                    proof {
                        let m = old(self).replies.view_map();
                        let k2 = message.inner.client_index as u64;
                        assert(m.contains_key(k2) && m[k2].0 == message.inner.request_num);
                        assert(*self == *old(self));
                        if m[k2].1 is Some {
                            assert(actions@.len() == old(actions)@.len() + 1);
                            assert(actions@.subrange(0, old(actions)@.len() as int) =~= old(
                                actions,
                            )@);
                            assert(actions@.last() matches Action::Send(t, Payload::Reply(rep2))
                                && t == To::Addr(remote) && rep2@ == m[k2].1.unwrap()@);
                        } else {
                            assert(actions@ == old(actions)@);
                        }
                    }
                    return ;
                }
            },
            None => {},
        }
        self.replies.insert(key, (message.inner.request_num, None));
        if self.index != self.primary_index() {
            return ;
        }
        self.requests.push(message.inner);
    }

    /// Tally a vote.  The tally for a digest stops growing at quorum; the
    /// moment it reaches quorum the digest becomes a candidate for the high
    /// QC.
    pub fn handle_vote(&mut self, message: Signed<Vote>, actions: &mut Vec<Action<Payload>>)
        requires
            old(self).wf(),
            old(self).gmap().contains_key(message.inner.block_digest@),
        ensures
            final(self).wf(),
            handle_vote_post(*old(self), *final(self), message, old(actions)@, final(actions)@),
            final(self).gmap().contains_key(final(self).digest_certified@),
            final(self).gmap()[final(self).digest_certified@].inner.block.height >= old(
                self,
            ).gmap()[old(self).digest_certified@].inner.block.height,
    {
        proof {
            reveal(handle_vote_post);
        }
        let digest = message.inner.block_digest.clone();
        let quorum = self.num_replica - self.num_faulty;
        let ghost v0 = self.votes.view_map();
        let removed = self.votes.remove(&digest);
        let ghost e0 = if v0.contains_key(digest@) {
            v0[digest@]@
        } else {
            Seq::<Signed<Vote>>::empty()
        };
        let mut entry: Vec<Signed<Vote>> = match removed {
            Some(v) => v,
            None => Vec::new(),
        };
        if entry.len() == quorum {
            self.votes.insert(digest, entry);
            proof {
                assert(self.votes.view_map() =~= v0);
            }
            return ;
        }
        let n = entry.len();
        let mut found: Option<usize> = None;
        let mut i: usize = 0;
        while i < n
            invariant
                i <= n,
                n == entry.len(),
                found matches Some(j) ==> j < n && entry@[j as int].inner.replica_index
                    == message.inner.replica_index,
                found is None ==> forall|j: int|
                    0 <= j < i ==> (#[trigger] entry@[j]).inner.replica_index
                        != message.inner.replica_index,
            decreases n - i,
        {
            if found.is_none() && entry[i].inner.replica_index == message.inner.replica_index {
                found = Some(i);
            }
            i = i + 1;
        }
        let ghost before = entry@;
        let ghost midx = message.inner.replica_index;
        match found {
            Some(j) => {
                entry.set(j, message);
                assert forall|a: int, b: int| 0 <= a < b < entry@.len() implies (
                #[trigger] entry@[a]).inner.replica_index != (
                #[trigger] entry@[b]).inner.replica_index by {
                    assert(before[a].inner.replica_index != before[b].inner.replica_index);
                    if a == j {
                        assert(entry@[a].inner.replica_index == before[
                            j as int].inner.replica_index);
                    }
                    if b == j {
                        assert(entry@[b].inner.replica_index == before[
                            j as int].inner.replica_index);
                    }
                }
            },
            None => {
                entry.push(message);
                assert forall|a: int, b: int| 0 <= a < b < entry@.len() implies (
                #[trigger] entry@[a]).inner.replica_index != (
                #[trigger] entry@[b]).inner.replica_index by {
                    if b < before.len() {
                        assert(before[a].inner.replica_index != before[b].inner.replica_index);
                    } else {
                        assert(before[a].inner.replica_index != midx);
                    }
                }
            },
        }
        let reached = entry.len() == quorum;
        assert(signers_unique(entry@));
        let ghost e1 = entry@;
        proof {
            assert(before == e0);
            if found is Some {
                let j = found.unwrap() as int;
                assert(e0[j].inner.replica_index == midx);
                assert(e1 == e0.update(j, message));
                assert(exists|jj: int|
                    0 <= jj < e0.len() && (#[trigger] e0[jj]).inner.replica_index == midx && e1
                        == e0.update(jj, message));
            } else {
                assert(e1 == e0.push(message));
            }
        }
        self.votes.insert(digest.clone(), entry);
        proof {
            assert(self.votes.view_map().remove(digest@) =~= v0.remove(digest@));
            assert(self.votes.view_map()[digest@]@ == e1);
        }
        if reached {
            self.do_update_certified(&digest, actions);
        }
        proof {
            let pre = *old(self);
            let d = message.inner.block_digest@;
            let quorum = pre.num_replica - pre.num_faulty;
            assert(e0.len() != quorum);
            assert(actions@ == old(actions)@);
            assert(self.generics == pre.generics);
            assert(self.digest_lock == pre.digest_lock);
            assert(self.view_height == pre.view_height);
            assert(self.replies == pre.replies);
            assert(self.chain == pre.chain);
            assert(self.app == pre.app);
            assert(self.votes.view_map().contains_key(d));
            assert(self.votes.view_map().remove(d) == pre.votes.view_map().remove(d));
            assert(self.votes.view_map()[d]@ == e1);
            assert(self.digest_certified@ == if e1.len() == quorum && pre.gmap()[
                d].inner.block.height > pre.gmap()[pre.digest_certified@].inner.block.height {
                d
            } else {
                pre.digest_certified@
            });
            assert(self.propose_height == pre.propose_height);
            assert(self.requests == pre.requests);
            assert(self.reordering_generics == pre.reordering_generics);
            assert(self.index == pre.index && self.num_replica == pre.num_replica
                && self.num_faulty == pre.num_faulty);
            let e0p = votes_entry(pre.votes.view_map(), d);
            let e1p = self.votes.view_map()[d]@;
            assert(e0p == e0);
            assert(e1p == e1);
            if found is Some {
                let j = found.unwrap() as int;
                assert(0 <= j < e0p.len() && e0p[j].inner.replica_index
                    == message.inner.replica_index && e1p == e0p.update(j, message));
                assert(exists|jj: int|
                    0 <= jj < e0p.len() && (#[trigger] e0p[jj]).inner.replica_index
                        == message.inner.replica_index && e1p == e0p.update(jj, message));
            } else {
                assert(n == e0p.len());
                assert(forall|j: int|
                    0 <= j < e0p.len() ==> (#[trigger] e0p[j]).inner.replica_index
                        != message.inner.replica_index);
                assert(e1p == e0p.push(message));
            }
            assert(handle_vote_post(pre, *self, message, old(actions)@, actions@));
        }
    }

    /// The three-chain update: follow the certification links three steps
    /// back, raise the high QC and the lock, and commit the oldest block of
    /// a fresh three-chain, executing its requests and answering their
    /// clients.
    #[verifier::rlimit(100)]
    fn do_update(&mut self, block_digest: &BlockDigest, actions: &mut Vec<Action<Payload>>)
        requires
            old(self).wf(),
            old(self).gmap().contains_key(block_digest@),
        ensures
            final(self).wf(),
            final(self).generics == old(self).generics,
            final(self).gmap() == old(self).gmap(),
            final(self).votes == old(self).votes,
            final(self).reordering_generics == old(self).reordering_generics,
            final(self).requests == old(self).requests,
            final(self).view_height == old(self).view_height,
            final(self).propose_height == old(self).propose_height,
            final(self).index == old(self).index,
            final(self).num_replica == old(self).num_replica,
            final(self).num_faulty == old(self).num_faulty,
            final(self).gmap()[final(self).digest_certified@].inner.block.height >= old(
                self,
            ).gmap()[old(self).digest_certified@].inner.block.height,
            final(self).gmap()[final(self).digest_lock@].inner.block.height >= old(self).gmap()[
                old(self).digest_lock@].inner.block.height,
            final(actions)@.len() >= old(actions)@.len(),
            final(actions)@.subrange(0, old(actions)@.len() as int) == old(actions)@,
            ({
                let m = old(self).gmap();
                let c2 = m[block_digest@].inner.certified_digest@;
                let c1 = m[c2].inner.certified_digest@;
                let c0 = m[c1].inner.certified_digest@;
                &&& final(self).digest_certified@ == if m[c2].inner.block.height > m[old(
                    self,
                ).digest_certified@].inner.block.height {
                    c2
                } else {
                    old(self).digest_certified@
                }
                &&& final(self).digest_lock@ == if m[c1].inner.block.height > m[old(
                    self,
                ).digest_lock@].inner.block.height {
                    c1
                } else {
                    old(self).digest_lock@
                }
                &&& {
                    let commit_links = m[c2].inner.block.parent_digest@ == c1 && m[
                    c1].inner.block.parent_digest@ == c0 && c0 != genesis_digest();
                    let executes = commit_links && m[c0].inner.block.height == old(
                        self,
                    ).chain.execute_next && old(self).chain.execute_next < u32::MAX;
                    if executes {
                        let reqs = m[c0].inner.block@.requests;
                        &&& final(self).chain.execute_next == old(self).chain.execute_next + 1
                        &&& final(self).chain.digest_parent == old(self).chain.digest_parent
                        &&& final(self).chain.parent_height == old(self).chain.parent_height
                        &&& final(self).app == app_after(old(self).app, reqs, reqs.len() as int)
                        &&& committed_replies_ok(
                            old(self).replies.view_map(),
                            final(self).replies.view_map(),
                            old(self).app,
                            reqs,
                            old(self).index,
                        )
                        &&& committed_actions_ok(
                            old(actions)@,
                            final(actions)@,
                            old(self).app,
                            reqs,
                            old(self).index,
                        )
                    } else {
                        &&& final(self).replies == old(self).replies
                        &&& final(self).chain == old(self).chain
                        &&& final(self).app == old(self).app
                        &&& final(actions)@ == old(actions)@
                    }
                }
            }),
    {
        proof {
            reveal(committed_replies_ok);
            reveal(committed_actions_ok);
            reveal(is_client_reply);
            reveal(reply_entry_ok);
            reveal(replies_frame_ok);
            reveal(replies_entries_ok);
        }
        let d3 = block_digest;
        let d2 = match self.generics.get(d3) {
            Some(g) => g.inner.certified_digest.clone(),
            None => {
                return ;
            },
        };
        let d1 = match self.generics.get(&d2) {
            Some(g) => g.inner.certified_digest.clone(),
            None => {
                return ;
            },
        };
        let d0 = match self.generics.get(&d1) {
            Some(g) => g.inner.certified_digest.clone(),
            None => {
                return ;
            },
        };
        self.do_update_certified(&d2, actions);
        let h1 = self.block_height(&d1);
        let hl = self.block_height(&self.digest_lock);
        if h1 > hl {
            self.digest_lock = d1.clone();
        }
        let p2_ok = match self.generics.get(&d2) {
            Some(g) => digest_eq(&g.inner.block.parent_digest, &d1),
            None => false,
        };
        let p1_ok = match self.generics.get(&d1) {
            Some(g) => digest_eq(&g.inner.block.parent_digest, &d0),
            None => false,
        };
        let genesis = self.genesis_digest_exec();
        if p2_ok && p1_ok && !digest_eq(&d0, &genesis) {
            let block = match self.generics.get(&d0) {
                Some(g) => g.inner.block.duplicate(),
                None => {
                    return ;
                },
            };
            let execute = self.chain.commit(&block);
            if execute {
                let ghost mid = *self;
                let ghost acts_mid = actions@;
                let ghost reqs = block@.requests;
                let n = block.requests.len();
                let mut i: usize = 0;
                while i < n
                    invariant
                        i <= n,
                        n == block.requests.len(),
                        reqs == block@.requests,
                        self.replies.wf(),
                        self.generics == mid.generics,
                        self.votes == mid.votes,
                        self.reordering_generics == mid.reordering_generics,
                        self.digest_certified == mid.digest_certified,
                        self.digest_lock == mid.digest_lock,
                        self.view_height == mid.view_height,
                        self.propose_height == mid.propose_height,
                        self.requests == mid.requests,
                        self.chain == mid.chain,
                        self.index == mid.index,
                        self.num_replica == mid.num_replica,
                        self.num_faulty == mid.num_faulty,
                        self.app == app_after(mid.app, reqs, i as int),
                        actions@.len() == acts_mid.len() + i,
                        actions@.subrange(0, acts_mid.len() as int) == acts_mid,
                        forall|k: int|
                            0 <= k < i ==> is_client_reply(
                                #[trigger] actions@[acts_mid.len() + k],
                                reqs[k].client_index,
                                reqs[k].request_num,
                                mid.index,
                                batch_result(mid.app, reqs, k),
                            ),
                        replies_frame_ok(
                            mid.replies.view_map(),
                            self.replies.view_map(),
                            reqs,
                            i as int,
                        ),
                        replies_entries_ok(
                            self.replies.view_map(),
                            mid.app,
                            reqs,
                            i as int,
                            mid.index,
                        ),
                    decreases n - i,
                {
                    let req = &block.requests[i];
                    let result = self.app.execute(&req.op);
                    let reply = Reply {
                        request_num: req.request_num,
                        result,
                        replica_index: self.index,
                    };
                    let stored = reply.duplicate();
                    self.replies.insert(
                        req.client_index as u64,
                        (req.request_num, Some(stored)),
                    );
                    actions.push(Action::Send(To::Client(req.client_index), Payload::Reply(reply)));
                    proof {
                        reveal(is_client_reply);
                        reveal(reply_entry_ok);
                        reveal(replies_frame_ok);
                        reveal(replies_entries_ok);
                        assert(actions@.subrange(0, acts_mid.len() as int) =~= acts_mid);
                        assert(req@ == reqs[i as int]);
                        assert(self.app == app_after(mid.app, reqs, i + 1));
                        assert(is_client_reply(
                            actions@[acts_mid.len() + i],
                            reqs[i as int].client_index,
                            reqs[i as int].request_num,
                            mid.index,
                            batch_result(mid.app, reqs, i as int),
                        ));
                        assert(reply_entry_ok(
                            self.replies.view_map()[reqs[i as int].client_index as u64],
                            reqs[i as int].request_num,
                            mid.index,
                            batch_result(mid.app, reqs, i as int),
                        ));
                        assert(replies_frame_ok(
                            mid.replies.view_map(),
                            self.replies.view_map(),
                            reqs,
                            i + 1,
                        )) by {
                            assert forall|c: u64|
                                !client_in_prefix(reqs, i + 1, c) implies (
                            #[trigger] self.replies.view_map().contains_key(c))
                                == mid.replies.view_map().contains_key(c) && (
                            mid.replies.view_map().contains_key(c) ==> self.replies.view_map()[c]
                                == mid.replies.view_map()[c]) by {
                                assert(!client_in_prefix(reqs, i as int, c));
                                assert(reqs[i as int].client_index as u64 != c);
                            }
                        }
                        assert(replies_entries_ok(
                            self.replies.view_map(),
                            mid.app,
                            reqs,
                            i + 1,
                            mid.index,
                        )) by {
                            assert forall|k: int|
                                0 <= k < i + 1 && last_for_client(reqs, i + 1, k)
                                implies self.replies.view_map().contains_key(
                                (#[trigger] reqs[k]).client_index as u64,
                            ) && reply_entry_ok(
                                self.replies.view_map()[reqs[k].client_index as u64],
                                reqs[k].request_num,
                                mid.index,
                                batch_result(mid.app, reqs, k),
                            ) by {
                                if k < i {
                                    assert(reqs[i as int].client_index != reqs[k].client_index);
                                    assert(last_for_client(reqs, i as int, k));
                                }
                            }
                        }
                    }
                    i = i + 1;
                }
                proof {
                    assert(acts_mid == old(actions)@);
                    assert(mid.replies == old(self).replies);
                    assert(mid.app == old(self).app);
                    assert(self.wf());
                }
            }
        }
    }

    /// Accept a proposal whose ancestry is already known: store it, vote for
    /// it when it is safe to do so, and run the three-chain update.
    ///
    /// The vote rule: the block must be higher than anything this replica
    /// has voted for, and must either extend the locked block or carry a
    /// certificate higher than the lock.  A vote raises `view_height` to the
    /// block's height, so the replica emits at most one vote per height.
    #[verifier::rlimit(100)]
    fn insert_generic(&mut self, generic: Signed<Generic>, actions: &mut Vec<Action<Payload>>)
        requires
            old(self).wf(),
            old(self).gmap().contains_key(generic.inner.block.parent_digest@),
            old(self).gmap().contains_key(generic.inner.certified_digest@),
            old(self).gmap()[generic.inner.block.parent_digest@].inner.block.height
                < generic.inner.block.height,
        ensures
            final(self).wf(),
            ({
                let dd = block_digest_of(generic.inner.block@);
                if old(self).gmap().contains_key(dd) {
                    final(self).gmap() == old(self).gmap() && final(self).generics.entries@ == old(
                        self,
                    ).generics.entries@
                } else {
                    final(self).gmap() == old(self).gmap().insert(dd, generic) && final(self).generics.entries@.len() == old(self).generics.entries@.len() + 1
                }
            }),
            final(self).reordering_generics == old(self).reordering_generics,
            final(self).votes == old(self).votes,
            final(self).requests == old(self).requests,
            final(self).propose_height == old(self).propose_height,
            final(self).index == old(self).index,
            final(self).num_replica == old(self).num_replica,
            final(self).num_faulty == old(self).num_faulty,
            final(self).view_height >= old(self).view_height,
            final(self).gmap()[final(self).digest_certified@].inner.block.height >= old(
                self,
            ).gmap()[old(self).digest_certified@].inner.block.height,
            final(self).gmap()[final(self).digest_lock@].inner.block.height >= old(self).gmap()[
                old(self).digest_lock@].inner.block.height,
            final(actions)@.len() >= old(actions)@.len(),
            final(actions)@.subrange(0, old(actions)@.len() as int) == old(actions)@,
            (final(self).view_height != old(self).view_height) <==> (generic.inner.block.height
                > old(self).view_height && (extends_spec(
                final(self).gmap(),
                generic.inner.block,
                old(self).digest_lock@,
            ) || final(self).gmap()[generic.inner.certified_digest@].inner.block.height > final(self).gmap()[old(self).digest_lock@].inner.block.height)),
            (final(self).view_height != old(self).view_height) ==> final(self).view_height
                == generic.inner.block.height && final(actions)@.len() > old(actions)@.len() && (
            final(actions)@[old(actions)@.len() as int] matches Action::Send(
                t,
                Payload::Vote(v),
            ) && v.block_digest@ == block_digest_of(generic.inner.block@) && v.replica_index == old(
                self,
            ).index && t == vote_dest(old(self).index)),
    {
        let digest = block_digest(&generic.inner.block);
        let ghost dd = digest@;
        let blk = generic.inner.block.duplicate();
        let cert_d = generic.inner.certified_digest.clone();
        let present = self.generics.contains(&digest);
        if !present {
            let ghost m0 = self.gmap();
            let ghost e0 = self.generics.entries@;
            self.generics.insert(digest.clone(), generic);
            proof {
                if exists|i: int| 0 <= i < e0.len() && (#[trigger] e0[i]).0@ == dd {
                    let i = choose|i: int| 0 <= i < e0.len() && (#[trigger] e0[i]).0@ == dd;
                    lemma_digest_view_index(e0, i);
                    assert(false);
                }
                assert(self.generics.entries@.len() == e0.len() + 1);
                let m1 = self.gmap();
                assert(dd != genesis_digest());
                assert(m1 == m0.insert(dd, generic));
                assert forall|d: Seq<u8>| #[trigger]
                    m1.contains_key(d) implies m1.contains_key(m1[d].inner.block.parent_digest@)
                    && m1.contains_key(m1[d].inner.certified_digest@) by {
                    if d == dd {
                        assert(m0.contains_key(generic.inner.block.parent_digest@));
                    } else {
                        assert(m0.contains_key(d));
                        assert(m1[d] == m0[d]);
                    }
                }
                assert forall|d: Seq<u8>| #[trigger]
                    m1.contains_key(d) && d != genesis_digest() implies m1[m1[
                    d].inner.block.parent_digest@].inner.block.height < m1[
                    d].inner.block.height by {
                    if d == dd {
                        assert(m0.contains_key(generic.inner.block.parent_digest@));
                        assert(generic.inner.block.parent_digest@ != dd);
                    } else {
                        assert(m0.contains_key(d));
                        assert(m1[d] == m0[d]);
                        assert(m0.contains_key(m0[d].inner.block.parent_digest@));
                        assert(m0[d].inner.block.parent_digest@ != dd);
                    }
                }
                assert(chain_wf(m1));
            }
        }
        let ghost m = self.gmap();
        proof {
            assert(m.contains_key(blk.parent_digest@));
            assert(m[blk.parent_digest@].inner.block.height < blk.height);
        }
        let vote_cond = if blk.height > self.view_height {
            let ext = self.extend(&blk, &self.digest_lock);
            if ext {
                true
            } else {
                let qc_h = self.block_height(&cert_d);
                let lock_h = self.block_height(&self.digest_lock);
                qc_h > lock_h
            }
        } else {
            false
        };
        proof {
            assert(extends_spec(m, blk, old(self).digest_lock@) == extends_spec(
                m,
                generic.inner.block,
                old(self).digest_lock@,
            ));
        }
        if vote_cond {
            self.view_height = blk.height;
            let vote = Vote { block_digest: digest.clone(), replica_index: self.index };
            let to = if self.index == self.primary_index() {
                To::Loopback
            } else {
                To::Replica(self.primary_index())
            };
            actions.push(Action::Send(to, Payload::Vote(vote)));
        }
        let ghost acts_mid = actions@;
        self.do_update(&digest, actions);
        proof {
            assert(acts_mid.subrange(0, old(actions)@.len() as int) =~= old(actions)@);
            lemma_prefix_chain(old(actions)@, acts_mid, actions@);
            if vote_cond {
                assert(actions@.subrange(0, acts_mid.len() as int)[old(actions)@.len() as int]
                    == actions@[old(actions)@.len() as int]);
            }
        }
    }

    /// Stash a proposal that is blocked on a digest this replica has not
    /// seen yet.
    fn park(&mut self, key: BlockDigest, g: Signed<Generic>)
        requires
            old(self).wf(),
        ensures
            final(self).wf(),
            stash_total(final(self).reordering_generics.entries@) == stash_total(
                old(self).reordering_generics.entries@,
            ) + 1,
            final(self).reordering_generics.view_map().contains_key(key@),
            final(self).reordering_generics.view_map()[key@]@ == (if old(
                self,
            ).reordering_generics.view_map().contains_key(key@) {
                old(self).reordering_generics.view_map()[key@]@
            } else {
                Seq::empty()
            }).push(g),
            final(self).reordering_generics.view_map().remove(key@) == old(
                self,
            ).reordering_generics.view_map().remove(key@),
            final(self).generics == old(self).generics,
            final(self).votes == old(self).votes,
            final(self).replies == old(self).replies,
            final(self).requests == old(self).requests,
            final(self).chain == old(self).chain,
            final(self).app == old(self).app,
            final(self).digest_certified == old(self).digest_certified,
            final(self).digest_lock == old(self).digest_lock,
            final(self).view_height == old(self).view_height,
            final(self).propose_height == old(self).propose_height,
            final(self).index == old(self).index,
            final(self).num_replica == old(self).num_replica,
            final(self).num_faulty == old(self).num_faulty,
    {
        let ghost e0 = self.reordering_generics.entries@;
        let removed = self.reordering_generics.remove(&key);
        let ghost e1 = self.reordering_generics.entries@;
        let mut entry: Vec<Signed<Generic>> = match removed {
            Some(v) => v,
            None => Vec::new(),
        };
        proof {
            if removed is Some {
                let i = choose|i: int|
                    0 <= i < e0.len() && (#[trigger] e0[i]).0@ == key@ && e0[i].1
                        == removed.unwrap() && e1 == e0.remove(i);
                lemma_stash_total_remove(e0, i);
            }
        }
        entry.push(g);
        proof {
            assert forall|j: int| 0 <= j < e1.len() implies (#[trigger] e1[j]).0@ != key@ by {
                lemma_digest_view_index(e1, j);
            }
        }
        let ghost stored = entry;
        self.reordering_generics.insert(key, entry);
        proof {
            if exists|i: int|
                0 <= i < e1.len() && (#[trigger] e1[i]).0@ == key@ && self.reordering_generics.entries@
                    == e1.update(i, (key, stored)) {
                let i = choose|i: int|
                    0 <= i < e1.len() && (#[trigger] e1[i]).0@ == key@
                        && self.reordering_generics.entries@ == e1.update(i, (key, stored));
                assert(false);
            }
            lemma_stash_total_push(e1, (key, stored));
        }
    }

    /// Take in a proposal from a peer: park it under its first missing
    /// ancestor, drop it if it does not rise above its parent, and
    /// otherwise accept it and drain everything that was stashed on its
    /// digest, depth first, in arrival order.
    #[verifier::rlimit(100)]
    pub fn do_reorder_generic(&mut self, generic: Signed<Generic>, actions: &mut Vec<Action<Payload>>)
        requires
            old(self).wf(),
        ensures
            final(self).wf(),
            reorder_post(*old(self), *final(self), generic, old(actions)@, final(actions)@),
            final(self).view_height >= old(self).view_height,
            final(self).gmap()[final(self).digest_certified@].inner.block.height >= old(
                self,
            ).gmap()[old(self).digest_certified@].inner.block.height,
            final(self).gmap()[final(self).digest_lock@].inner.block.height >= old(self).gmap()[
                old(self).digest_lock@].inner.block.height,
            final(actions)@.len() >= old(actions)@.len(),
            final(actions)@.subrange(0, old(actions)@.len() as int) == old(actions)@,
            final(self).index == old(self).index,
            final(self).num_replica == old(self).num_replica,
            final(self).num_faulty == old(self).num_faulty,
    {
        proof {
            reveal(reorder_post);
            reveal(parked_post);
        }
        if !self.generics.contains(&generic.inner.block.parent_digest) {
            let key = generic.inner.block.parent_digest.clone();
            self.park(key, generic);
            proof {
                assert(parked_post(*old(self), *self, generic.inner.block.parent_digest@, generic));
                assert(reorder_post(*old(self), *self, generic, old(actions)@, actions@));
            }
            return ;
        }
        if !self.generics.contains(&generic.inner.certified_digest) {
            let key = generic.inner.certified_digest.clone();
            self.park(key, generic);
            proof {
                assert(parked_post(*old(self), *self, generic.inner.certified_digest@, generic));
                assert(reorder_post(*old(self), *self, generic, old(actions)@, actions@));
            }
            return ;
        }
        let ph = self.block_height(&generic.inner.block.parent_digest);
        if ph >= generic.inner.block.height {
            assert(reorder_post(*old(self), *self, generic, old(actions)@, actions@));
            return ;
        }
        let d = block_digest(&generic.inner.block);
        let ghost dd = d@;
        let ghost g0 = generic;
        let ghost stash0 = old(self).reordering_generics.view_map();
        self.insert_generic(generic, actions);
        let ghost mid = *self;
        let ghost acts_mid = actions@;
        let mut worklist: Vec<Signed<Generic>> = Vec::new();
        let ghost r_before = self.reordering_generics.view_map();
        match self.reordering_generics.remove(&d) {
            Some(parked) => {
                let mut parked = parked;
                let ghost parked0 = parked@;
                let ghost base_sum = worklist@.len() + parked@.len();
                while parked.len() > 0
                    invariant
                        worklist@.len() + parked@.len() == base_sum,
                        forall|x: int|
                            0 <= x < parked0.len() ==> worklist@.contains(#[trigger] parked0[x])
                                || parked@.contains(parked0[x]),
                    decreases parked@.len(),
                {
                    let ghost wl_in = worklist@;
                    let ghost pk_in = parked@;
                    let popped = parked.pop();
                    if let Some(p) = popped {
                        worklist.push(p);
                        proof {
                            assert forall|x: int|
                                0 <= x < parked0.len() implies worklist@.contains(
                                #[trigger] parked0[x],
                            ) || parked@.contains(parked0[x]) by {
                                let item = parked0[x];
                                if wl_in.contains(item) {
                                    let ix = choose|ix: int|
                                        0 <= ix < wl_in.len() && wl_in[ix] == item;
                                    assert(worklist@[ix] == item);
                                } else if pk_in.contains(item) {
                                    let ix = choose|ix: int|
                                        0 <= ix < pk_in.len() && pk_in[ix] == item;
                                    if ix == pk_in.len() - 1 {
                                        assert(worklist@[worklist@.len() - 1] == item);
                                    } else {
                                        assert(parked@[ix] == item);
                                    }
                                }
                            }
                        }
                    }
                }
                proof {
                    assert(parked0 == stash0[dd]@);
                    assert forall|x: int| 0 <= x < stash0[dd]@.len() implies worklist@.contains(
                        #[trigger] stash0[dd]@[x],
                    ) by {
                        assert(worklist@.contains(parked0[x]) || parked@.contains(parked0[x]));
                    }
                }
            },
            None => {},
        }
        proof {
            reveal(accounted);
            assert(!self.reordering_generics.view_map().contains_key(dd));
            assert forall|k: Seq<u8>, x: int|
                stash0.contains_key(k) && 0 <= x < stash0[k]@.len() implies accounted(
                *self,
                #[trigger] stash0[k]@[x],
            ) || worklist@.contains(stash0[k]@[x]) by {
                let item = stash0[k]@[x];
                if k == dd {
                    assert(r_before == stash0);
                    assert(worklist@.contains(item));
                } else {
                    assert(self.reordering_generics.view_map() == r_before.remove(dd));
                    assert(self.reordering_generics.view_map().contains_key(k));
                    assert(self.reordering_generics.view_map()[k] == stash0[k]);
                    assert(self.reordering_generics.view_map()[k]@.contains(item));
                    assert(stashed_somewhere(*self, item));
                }
            }
            assert forall|k: Seq<u8>| #[trigger]
                stash0.contains_key(k) && k != dd implies ((
            self.reordering_generics.view_map().contains_key(k) && stash0[k]@.is_prefix_of(
                self.reordering_generics.view_map()[k]@,
            )) || self.gmap().contains_key(k)) by {
                assert(self.reordering_generics.view_map() == r_before.remove(dd));
                assert(self.reordering_generics.view_map().contains_key(k));
                assert(self.reordering_generics.view_map()[k] == stash0[k]);
                assert(stash0[k]@.is_prefix_of(stash0[k]@)) by {
                    assert(stash0[k]@.subrange(0, stash0[k]@.len() as int) =~= stash0[k]@);
                }
            }
        }
        let ghost k_bound = self.generics.entries@.len() + worklist@.len() + stash_total(
            self.reordering_generics.entries@,
        );
        while worklist.len() > 0
            invariant
                self.wf(),
                self.generics.entries@.len() + worklist@.len() + stash_total(
                    self.reordering_generics.entries@,
                ) <= k_bound,
                self.gmap().contains_key(dd),
                self.gmap()[dd] == mid.gmap()[dd],
                !self.reordering_generics.view_map().contains_key(dd),
                forall|dk: Seq<u8>| #[trigger]
                    mid.gmap().contains_key(dk) ==> self.gmap().contains_key(dk) && self.gmap()[dk]
                        == mid.gmap()[dk],
                self.view_height >= mid.view_height,
                self.gmap()[self.digest_certified@].inner.block.height >= mid.gmap()[
                    mid.digest_certified@].inner.block.height,
                self.gmap()[self.digest_lock@].inner.block.height >= mid.gmap()[
                    mid.digest_lock@].inner.block.height,
                actions@.len() >= acts_mid.len(),
                actions@.subrange(0, acts_mid.len() as int) == acts_mid,
                self.index == mid.index,
                self.num_replica == mid.num_replica,
                self.num_faulty == mid.num_faulty,
                forall|k: Seq<u8>, x: int|
                    stash0.contains_key(k) && 0 <= x < stash0[k]@.len() ==> accounted(
                        *self,
                        #[trigger] stash0[k]@[x],
                    ) || worklist@.contains(stash0[k]@[x]),
                forall|k: Seq<u8>| #[trigger]
                    stash0.contains_key(k) && k != dd ==> ((
                    self.reordering_generics.view_map().contains_key(k) && stash0[
                        k]@.is_prefix_of(self.reordering_generics.view_map()[k]@)) || self.gmap().contains_key(
                        k,
                    )),
            decreases k_bound - self.generics.entries@.len(), worklist@.len(),
        {
            let ghost self_top = *self;
            let ghost wl_top = worklist@;
            let g = match worklist.pop() {
                Some(g) => g,
                None => {
                    return ;
                },
            };
            proof {
                assert forall|x: int|
                    0 <= x < wl_top.len() - 1 implies worklist@.contains(
                    #[trigger] wl_top.subrange(0, wl_top.len() - 1)[x],
                ) by {
                    assert(worklist@[x] == wl_top.subrange(0, wl_top.len() - 1)[x]);
                }
            }
            if !self.generics.contains(&g.inner.block.parent_digest) {
                let key = g.inner.block.parent_digest.clone();
                let ghost r0 = self.reordering_generics.view_map();
                proof {
                    assert(key@ != dd);
                }
                self.park(key, g);
                proof {
                    reveal(accounted);
                    assert(self.reordering_generics.view_map().contains_key(dd)
                        == self.reordering_generics.view_map().remove(key@).contains_key(dd));
                    assert(r0.contains_key(dd) == r0.remove(key@).contains_key(dd));
                    assert forall|k: Seq<u8>, x: int|
                        stash0.contains_key(k) && 0 <= x < stash0[k]@.len() implies accounted(
                        *self,
                        #[trigger] stash0[k]@[x],
                    ) || worklist@.contains(stash0[k]@[x]) by {
                        let item = stash0[k]@[x];
                        if accounted(self_top, item) {
                            if stashed_somewhere(self_top, item) {
                                lemma_stash_preserved_by_park(self_top, *self, key@, g, item);
                            }
                            assert(accounted(*self, item));
                        } else if wl_top.contains(item) {
                            let ix = choose|ix: int| 0 <= ix < wl_top.len() && wl_top[ix] == item;
                            if ix == wl_top.len() - 1 {
                                assert(item == g);
                                let stash_new = self.reordering_generics.view_map()[key@]@;
                                assert(stash_new[stash_new.len() - 1] == g);
                                assert(stashed_somewhere(*self, item));
                            } else {
                                assert(worklist@[ix] == item);
                            }
                        }
                    }
                    assert forall|k: Seq<u8>| #[trigger]
                        stash0.contains_key(k) && k != dd implies ((
                    self.reordering_generics.view_map().contains_key(k) && stash0[
                        k]@.is_prefix_of(self.reordering_generics.view_map()[k]@))
                        || self.gmap().contains_key(k)) by {
                        if self_top.reordering_generics.view_map().contains_key(k) && stash0[
                            k]@.is_prefix_of(self_top.reordering_generics.view_map()[k]@) {
                            if k == key@ {
                                let prev = self_top.reordering_generics.view_map()[k]@;
                                let cur = self.reordering_generics.view_map()[k]@;
                                assert(cur == prev.push(g));
                                assert(cur.subrange(0, stash0[k]@.len() as int) =~= prev.subrange(
                                    0,
                                    stash0[k]@.len() as int,
                                ));
                            } else {
                                assert(self.reordering_generics.view_map().remove(key@)[k]
                                    == self_top.reordering_generics.view_map().remove(key@)[k]);
                                assert(self.reordering_generics.view_map()[k]
                                    == self_top.reordering_generics.view_map()[k]);
                            }
                        }
                    }
                }
            } else if !self.generics.contains(&g.inner.certified_digest) {
                let key = g.inner.certified_digest.clone();
                let ghost r0 = self.reordering_generics.view_map();
                proof {
                    assert(key@ != dd);
                }
                self.park(key, g);
                proof {
                    reveal(accounted);
                    assert(self.reordering_generics.view_map().contains_key(dd)
                        == self.reordering_generics.view_map().remove(key@).contains_key(dd));
                    assert(r0.contains_key(dd) == r0.remove(key@).contains_key(dd));
                    assert forall|k: Seq<u8>, x: int|
                        stash0.contains_key(k) && 0 <= x < stash0[k]@.len() implies accounted(
                        *self,
                        #[trigger] stash0[k]@[x],
                    ) || worklist@.contains(stash0[k]@[x]) by {
                        let item = stash0[k]@[x];
                        if accounted(self_top, item) {
                            if stashed_somewhere(self_top, item) {
                                lemma_stash_preserved_by_park(self_top, *self, key@, g, item);
                            }
                            assert(accounted(*self, item));
                        } else if wl_top.contains(item) {
                            let ix = choose|ix: int| 0 <= ix < wl_top.len() && wl_top[ix] == item;
                            if ix == wl_top.len() - 1 {
                                assert(item == g);
                                let stash_new = self.reordering_generics.view_map()[key@]@;
                                assert(stash_new[stash_new.len() - 1] == g);
                                assert(stashed_somewhere(*self, item));
                            } else {
                                assert(worklist@[ix] == item);
                            }
                        }
                    }
                    assert forall|k: Seq<u8>| #[trigger]
                        stash0.contains_key(k) && k != dd implies ((
                    self.reordering_generics.view_map().contains_key(k) && stash0[
                        k]@.is_prefix_of(self.reordering_generics.view_map()[k]@))
                        || self.gmap().contains_key(k)) by {
                        if self_top.reordering_generics.view_map().contains_key(k) && stash0[
                            k]@.is_prefix_of(self_top.reordering_generics.view_map()[k]@) {
                            if k == key@ {
                                let prev = self_top.reordering_generics.view_map()[k]@;
                                let cur = self.reordering_generics.view_map()[k]@;
                                assert(cur == prev.push(g));
                                assert(cur.subrange(0, stash0[k]@.len() as int) =~= prev.subrange(
                                    0,
                                    stash0[k]@.len() as int,
                                ));
                            } else {
                                assert(self.reordering_generics.view_map().remove(key@)[k]
                                    == self_top.reordering_generics.view_map().remove(key@)[k]);
                                assert(self.reordering_generics.view_map()[k]
                                    == self_top.reordering_generics.view_map()[k]);
                            }
                        }
                    }
                }
            } else {
                let ph2 = self.block_height(&g.inner.block.parent_digest);
                if ph2 >= g.inner.block.height {
                    // the proposal does not rise above its known parent:
                    // dropped, which its accounting disjunct records
                    proof {
                        reveal(accounted);
                        assert(self.gmap().contains_key(g.inner.block.parent_digest@)
                            && self.gmap()[g.inner.block.parent_digest@].inner.block.height
                            >= g.inner.block.height);
                        assert forall|k: Seq<u8>, x: int|
                            stash0.contains_key(k) && 0 <= x < stash0[k]@.len() implies accounted(
                            *self,
                            #[trigger] stash0[k]@[x],
                        ) || worklist@.contains(stash0[k]@[x]) by {
                            let item = stash0[k]@[x];
                            if accounted(self_top, item) {
                                assert(accounted(*self, item));
                            } else if wl_top.contains(item) {
                                let ix = choose|ix: int|
                                    0 <= ix < wl_top.len() && wl_top[ix] == item;
                                if ix == wl_top.len() - 1 {
                                    assert(item == g);
                                    assert(accounted(*self, item));
                                } else {
                                    assert(wl_top.subrange(0, wl_top.len() - 1)[ix] == item);
                                    assert(worklist@.contains(item));
                                }
                            }
                        }
                    }
                } else {
                    let d2 = block_digest(&g.inner.block);
                    let was_present = self.generics.contains(&d2);
                    let ghost acts_before = actions@;
                    self.insert_generic(g, actions);
                    proof {
                        lemma_prefix_chain(acts_mid, acts_before, actions@);
                    }
                    let ghost r_ins = self.reordering_generics.view_map();
                    let ghost drained = if !was_present && r_ins.contains_key(d2@) {
                        r_ins[d2@]@
                    } else {
                        Seq::empty()
                    };
                    if !was_present {
                        let ghost e_before = self.reordering_generics.entries@;
                        match self.reordering_generics.remove(&d2) {
                            Some(parked) => {
                                proof {
                                    let i = choose|i: int|
                                        0 <= i < e_before.len() && (#[trigger] e_before[i]).0@
                                            == d2@ && e_before[i].1 == parked
                                            && self.reordering_generics.entries@ == e_before.remove(
                                            i,
                                        );
                                    lemma_stash_total_remove(e_before, i);
                                }
                                let mut parked = parked;
                                let ghost parked0 = parked@;
                                let ghost base_sum = worklist@.len() + parked@.len();
                                while parked.len() > 0
                                    invariant
                                        worklist@.len() + parked@.len() == base_sum,
                                        forall|x: int|
                                            0 <= x < parked0.len() ==> worklist@.contains(
                                                #[trigger] parked0[x],
                                            ) || parked@.contains(parked0[x]),
                                        forall|x: int|
                                            0 <= x < wl_top.len() - 1 ==> worklist@.contains(
                                                #[trigger] wl_top.subrange(
                                                    0,
                                                    wl_top.len() - 1,
                                                )[x],
                                            ),
                                    decreases parked@.len(),
                                {
                                    let ghost wl_in = worklist@;
                                    let ghost pk_in = parked@;
                                    let popped = parked.pop();
                                    if let Some(p) = popped {
                                        worklist.push(p);
                                        proof {
                                            assert forall|x: int|
                                                0 <= x < parked0.len() implies worklist@.contains(
                                                #[trigger] parked0[x],
                                            ) || parked@.contains(parked0[x]) by {
                                                let item = parked0[x];
                                                if wl_in.contains(item) {
                                                    let ix = choose|ix: int|
                                                        0 <= ix < wl_in.len() && wl_in[ix] == item;
                                                    assert(worklist@[ix] == item);
                                                } else if pk_in.contains(item) {
                                                    let ix = choose|ix: int|
                                                        0 <= ix < pk_in.len() && pk_in[ix] == item;
                                                    if ix == pk_in.len() - 1 {
                                                        assert(worklist@[worklist@.len() - 1]
                                                            == item);
                                                    } else {
                                                        assert(parked@[ix] == item);
                                                    }
                                                }
                                            }
                                            assert forall|x: int|
                                                0 <= x < wl_top.len() - 1 implies worklist@.contains(
                                                #[trigger] wl_top.subrange(0, wl_top.len() - 1)[x],
                                            ) by {
                                                let item = wl_top.subrange(
                                                    0,
                                                    wl_top.len() - 1,
                                                )[x];
                                                let ix = choose|ix: int|
                                                    0 <= ix < wl_in.len() && wl_in[ix] == item;
                                                assert(worklist@[ix] == item);
                                            }
                                        }
                                    }
                                }
                                proof {
                                    assert(parked0 == drained);
                                    assert forall|x: int|
                                        0 <= x < drained.len() implies worklist@.contains(
                                        #[trigger] drained[x],
                                    ) by {
                                        assert(worklist@.contains(parked0[x]) || parked@.contains(
                                            parked0[x],
                                        ));
                                    }
                                }
                            },
                            None => {},
                        }
                    }
                    proof {
                        reveal(accounted);
                        assert forall|k: Seq<u8>, x: int|
                            stash0.contains_key(k) && 0 <= x < stash0[k]@.len() implies accounted(
                            *self,
                            #[trigger] stash0[k]@[x],
                        ) || worklist@.contains(stash0[k]@[x]) by {
                            let item = stash0[k]@[x];
                            if accounted(self_top, item) {
                                if stashed_somewhere(self_top, item) {
                                    let k0 = choose|k0: Seq<u8>| #[trigger]
                                        self_top.reordering_generics.view_map().contains_key(k0)
                                            && self_top.reordering_generics.view_map()[
                                        k0]@.contains(item);
                                    if !was_present && k0 == d2@ {
                                        assert(drained.contains(item));
                                        let ix = choose|ix: int|
                                            0 <= ix < drained.len() && drained[ix] == item;
                                        assert(worklist@.contains(item));
                                    } else {
                                        assert(self.reordering_generics.view_map().contains_key(
                                            k0,
                                        ) && self.reordering_generics.view_map()[k0]@.contains(
                                            item,
                                        ));
                                        assert(stashed_somewhere(*self, item));
                                    }
                                } else {
                                    assert(accounted(*self, item));
                                }
                            } else if wl_top.contains(item) {
                                let ix = choose|ix: int|
                                    0 <= ix < wl_top.len() && wl_top[ix] == item;
                                if ix == wl_top.len() - 1 {
                                    assert(item == g);
                                    assert(self.gmap().contains_key(
                                        block_digest_of(g.inner.block@),
                                    ));
                                    assert(accounted(*self, item));
                                } else {
                                    assert(wl_top.subrange(0, wl_top.len() - 1)[ix] == item);
                                    assert(worklist@.contains(item));
                                }
                            }
                        }
                        assert forall|k: Seq<u8>| #[trigger]
                            stash0.contains_key(k) && k != dd implies ((
                        self.reordering_generics.view_map().contains_key(k) && stash0[
                            k]@.is_prefix_of(self.reordering_generics.view_map()[k]@))
                            || self.gmap().contains_key(k)) by {
                            if !was_present && k == d2@ {
                                assert(self.gmap().contains_key(k));
                            } else if self_top.reordering_generics.view_map().contains_key(k)
                                && stash0[k]@.is_prefix_of(
                                self_top.reordering_generics.view_map()[k]@,
                            ) {
                                if !was_present {
                                    assert(self.reordering_generics.view_map() == r_ins.remove(
                                        d2@,
                                    ) || self.reordering_generics.view_map() == r_ins);
                                    assert(self.reordering_generics.view_map().contains_key(k)
                                        && self.reordering_generics.view_map()[k] == r_ins[k]);
                                } else {
                                    assert(self.reordering_generics.view_map()[k] == r_ins[k]);
                                }
                            }
                        }
                    }
                }
            }
        }
        proof {
            reveal(accounted);
            let pre = *old(self);
            let cd = g0.inner.certified_digest@;
            assert(self.gmap()[dd] == if pre.gmap().contains_key(dd) {
                pre.gmap()[dd]
            } else {
                g0
            });
            assert forall|dk: Seq<u8>| #[trigger]
                pre.gmap().contains_key(dk) implies self.gmap().contains_key(dk) && self.gmap()[
                dk] == pre.gmap()[dk] by {
                assert(mid.gmap().contains_key(dk) && mid.gmap()[dk] == pre.gmap()[dk]);
            }
            let m1 = if pre.gmap().contains_key(dd) {
                pre.gmap()
            } else {
                pre.gmap().insert(dd, g0)
            };
            assert(mid.gmap() == m1);
            let voted = g0.inner.block.height > pre.view_height && (extends_spec(
                m1,
                g0.inner.block,
                pre.digest_lock@,
            ) || m1[cd].inner.block.height > m1[pre.digest_lock@].inner.block.height);
            if voted {
                assert(mid.view_height != pre.view_height);
                assert(acts_mid.len() > old(actions)@.len());
                assert(actions@.subrange(0, acts_mid.len() as int)[old(actions)@.len() as int]
                    == actions@[old(actions)@.len() as int]);
            }
            assert(reorder_post(pre, *self, g0, old(actions)@, actions@));
        }
    }

    /// At the primary: batch the pending requests (an empty batch if none)
    /// into a block extending the certified digest, and broadcast the
    /// proposal together with the certificate backing its parent.
    pub fn do_propose(&mut self, actions: &mut Vec<Action<Payload>>)
        requires
            old(self).wf(),
        ensures
            final(self).wf(),
            do_propose_post(*old(self), *final(self), old(actions)@, final(actions)@),
    {
        proof {
            reveal(do_propose_post);
        }
        let h = self.block_height(&self.digest_certified);
        if h == u32::MAX {
            return ;
        }
        self.chain.digest_parent = self.digest_certified.clone();
        self.chain.parent_height = h;
        let block = if self.requests.len() > 0 {
            self.chain.propose(&mut self.requests)
        } else {
            let b = self.chain.propose_empty();
            assert(b@.requests =~= self.requests@.map_values(|q: Request| q@));
            b
        };
        let certificate: Vec<Signed<Vote>> = match self.votes.get(&self.digest_certified) {
            Some(vs) => {
                let n = vs.len();
                let mut copy: Vec<Signed<Vote>> = Vec::new();
                let mut i: usize = 0;
                while i < n
                    invariant
                        i <= n,
                        n == vs@.len(),
                        copy@.len() == i,
                        forall|j: int| 0 <= j < i ==> (#[trigger] copy@[j])@ == vs@[j]@,
                    decreases n - i,
                {
                    copy.push(vs[i].duplicate());
                    i = i + 1;
                }
                proof {
                    assert(copy@.map_values(|v: Signed<Vote>| v@) =~= vs@.map_values(
                        |v: Signed<Vote>| v@,
                    ));
                }
                copy
            },
            None => Vec::new(),
        };
        proof {
            assert(certificate@.map_values(|v: Signed<Vote>| v@) =~= votes_entry(
                old(self).votes.view_map(),
                old(self).digest_certified@,
            ).map_values(|v: Signed<Vote>| v@));
        }
        let generic = Generic {
            block,
            certified_digest: self.digest_certified.clone(),
            certificate,
            replica_index: self.index,
        };
        self.propose_height = generic.block.height;
        actions.push(Action::Send(To::AllReplicaWithLoopback, Payload::Generic(generic)));
        assert(actions@.subrange(0, old(actions)@.len() as int) =~= old(actions)@);
    }

    /// The reactor's quiescence point.  The primary proposes when some
    /// client still waits for a reply and the previous proposal has been
    /// certified.
    pub fn on_pace(&mut self, actions: &mut Vec<Action<Payload>>)
        requires
            old(self).wf(),
        ensures
            final(self).wf(),
            final(self).view_height == old(self).view_height,
            final(self).generics == old(self).generics,
            final(self).digest_certified == old(self).digest_certified,
            final(self).digest_lock == old(self).digest_lock,
            final(actions)@.len() >= old(actions)@.len(),
            final(actions)@.subrange(0, old(actions)@.len() as int) == old(actions)@,
            ({
                let pending = exists|i: int|
                    0 <= i < old(self).replies.entries@.len() && (#[trigger] old(
                        self,
                    ).replies.entries@[i]).1.1 is None;
                let h = old(self).gmap()[old(self).digest_certified@].inner.block.height;
                if old(self).index == 0 && pending && h >= old(self).propose_height {
                    do_propose_post(*old(self), *final(self), old(actions)@, final(actions)@)
                } else {
                    *final(self) == *old(self) && final(actions)@ == old(actions)@
                }
            }),
    {
        proof {
            reveal(do_propose_post);
        }
        if self.index != self.primary_index() {
            return ;
        }
        let n = self.replies.entries.len();
        let mut pending = false;
        let mut i: usize = 0;
        while i < n
            invariant
                i <= n,
                n == self.replies.entries@.len(),
                pending == exists|j: int|
                    0 <= j < i && (#[trigger] self.replies.entries@[j]).1.1 is None,
            decreases n - i,
        {
            if self.replies.entries[i].1.1.is_none() {
                pending = true;
            }
            i = i + 1;
        }
        if !pending {
            return ;
        }
        let h = self.block_height(&self.digest_certified);
        if h >= self.propose_height {
            self.do_propose(actions);
        }
    }

    /// A proposal from the network enters through the reorder buffer.
    pub fn handle_generic(&mut self, _remote: Addr, message: Signed<Generic>, actions: &mut Vec<Action<Payload>>)
        requires
            old(self).wf(),
        ensures
            final(self).wf(),
            final(self).view_height >= old(self).view_height,
            final(self).gmap()[final(self).digest_certified@].inner.block.height >= old(
                self,
            ).gmap()[old(self).digest_certified@].inner.block.height,
            final(self).gmap()[final(self).digest_lock@].inner.block.height >= old(self).gmap()[
                old(self).digest_lock@].inner.block.height,
            final(actions)@.len() >= old(actions)@.len(),
            final(actions)@.subrange(0, old(actions)@.len() as int) == old(actions)@,
            reorder_post(*old(self), *final(self), message, old(actions)@, final(actions)@),
    {
        proof {
            reveal(reorder_post);
            reveal(parked_post);
        }
        self.do_reorder_generic(message, actions);
    }

    /// Dispatch one message from the network.  Replicas never receive
    /// replies, and a vote must name a block this replica has accepted.
    pub fn handle(&mut self, remote: Addr, message: Message, actions: &mut Vec<Action<Payload>>)
        requires
            old(self).wf(),
            !(message is Reply),
            message matches Message::Vote(v) ==> old(self).gmap().contains_key(
                v.inner.block_digest@,
            ),
        ensures
            final(self).wf(),
            final(self).view_height >= old(self).view_height,
            final(self).gmap()[final(self).digest_certified@].inner.block.height >= old(
                self,
            ).gmap()[old(self).digest_certified@].inner.block.height,
            final(self).gmap()[final(self).digest_lock@].inner.block.height >= old(self).gmap()[
                old(self).digest_lock@].inner.block.height,
            final(actions)@.len() >= old(actions)@.len(),
            final(actions)@.subrange(0, old(actions)@.len() as int) == old(actions)@,
            message matches Message::Request(m) ==> handle_request_post(*old(self), *final(self), remote, m, old(actions)@, final(actions)@),
            message matches Message::Generic(m) ==> reorder_post(*old(self), *final(self), m, old(actions)@, final(actions)@),
            message matches Message::Vote(m) ==> handle_vote_post(*old(self), *final(self), m, old(actions)@, final(actions)@),
    {
        proof {
            reveal(handle_request_post);
            reveal(reorder_post);
            reveal(parked_post);
            reveal(handle_vote_post);
        }
        match message {
            Message::Request(m) => {
                self.handle_request(remote, m, actions);
                assert(actions@.subrange(0, old(actions)@.len() as int) =~= old(actions)@);
                assert(self.gmap() == old(self).gmap());
                assert(self.digest_certified@ == old(self).digest_certified@);
                assert(self.digest_lock@ == old(self).digest_lock@);
            },
            Message::Generic(m) => {
                self.handle_generic(remote, m, actions);
            },
            Message::Vote(m) => {
                self.handle_vote(m, actions);
            },
            Message::Reply(_) => {},
        }
    }

    /// Dispatch a message this replica sent to itself: its own proposals
    /// and, at the primary, its own votes.
    pub fn handle_loopback(&mut self, message: Message, actions: &mut Vec<Action<Payload>>)
        requires
            old(self).wf(),
            message is Generic || message is Vote,
            message matches Message::Vote(v) ==> old(self).gmap().contains_key(
                v.inner.block_digest@,
            ),
        ensures
            final(self).wf(),
            final(self).view_height >= old(self).view_height,
            final(self).gmap()[final(self).digest_certified@].inner.block.height >= old(
                self,
            ).gmap()[old(self).digest_certified@].inner.block.height,
            final(self).gmap()[final(self).digest_lock@].inner.block.height >= old(self).gmap()[
                old(self).digest_lock@].inner.block.height,
            final(actions)@.len() >= old(actions)@.len(),
            final(actions)@.subrange(0, old(actions)@.len() as int) == old(actions)@,
            message matches Message::Generic(m) ==> reorder_post(*old(self), *final(self), m, old(actions)@, final(actions)@),
            message matches Message::Vote(m) ==> handle_vote_post(*old(self), *final(self), m, old(actions)@, final(actions)@),
    {
        proof {
            reveal(reorder_post);
            reveal(parked_post);
            reveal(handle_vote_post);
        }
        match message {
            Message::Generic(m) => {
                self.do_reorder_generic(m, actions);
            },
            Message::Vote(m) => {
                self.handle_vote(m, actions);
            },
            _ => {},
        }
    }

    /// The proposer.  Rotation is out of scope: the primary is replica 0.
    pub fn primary_index(&self) -> (r: u8)
        ensures
            r == 0,
    {
        0
    }
}

/// How many cached replies report the byte string `result`.
pub open spec fn count_matching(s: Seq<(u64, Reply)>, result: Seq<u8>) -> nat
    decreases s.len(),
{
    if s.len() == 0 {
        0
    } else {
        count_matching(s.drop_last(), result) + if s.last().1.result@ == result {
            1nat
        } else {
            0nat
        }
    }
}

pub proof fn lemma_count_matching_push(s: Seq<(u64, Reply)>, kv: (u64, Reply), result: Seq<u8>)
    ensures
        count_matching(s.push(kv), result) == count_matching(s, result) + if kv.1.result@
            == result {
            1nat
        } else {
            0nat
        },
{
    assert(s.push(kv).drop_last() =~= s);
    assert(s.push(kv).last() == kv);
}

pub proof fn lemma_count_matching_update(
    s: Seq<(u64, Reply)>,
    i: int,
    kv: (u64, Reply),
    result: Seq<u8>,
)
    requires
        0 <= i < s.len(),
    ensures
        count_matching(s.update(i, kv), result) + (if s[i].1.result@ == result {
            1nat
        } else {
            0nat
        }) == count_matching(s, result) + (if kv.1.result@ == result {
            1nat
        } else {
            0nat
        }),
    decreases s.len(),
{
    let t = s.update(i, kv);
    if i == s.len() - 1 {
        assert(t.drop_last() =~= s.drop_last());
        assert(t.last() == kv);
    } else {
        assert(t.drop_last() =~= s.drop_last().update(i, kv));
        assert(s.drop_last()[i] == s[i]);
        lemma_count_matching_update(s.drop_last(), i, kv, result);
        assert(t.last() == s.last());
    }
}

/// Whether some cached reply from `signer` already reports `res`.
pub open spec fn replica_has_matching(entries: Seq<(u64, Reply)>, signer: u64, res: Seq<u8>) -> bool {
    exists|j: int|
        0 <= j < entries.len() && (#[trigger] entries[j]).0 == signer && entries[j].1.result@
            == res
}

/// The matching tally once a reply with result `res` from `signer` is keyed
/// into the cache: one more than before, unless it replaces a matching
/// reply by the same signer.
pub open spec fn tally_after(entries: Seq<(u64, Reply)>, signer: u64, res: Seq<u8>) -> int {
    count_matching(entries, res) + 1 - (if replica_has_matching(entries, signer, res) {
        1int
    } else {
        0int
    })
}

/// Request numbers strictly increase along the sequence.
pub open spec fn strictly_increasing(s: Seq<u32>) -> bool {
    forall|i: int, j: int| 0 <= i < j < s.len() ==> s[i] < s[j]
}

/// The consensus client: one outstanding operation at a time, completed
/// once a bare majority of distinct replicas report the same result.
pub struct Client {
    pub index: u16,
    pub num_faulty: usize,
    /// Number of the current (or last finished) invocation.
    pub request_num: u32,
    /// The operation in flight, if any.
    pub invoke_op: Option<Vec<u8>>,
    /// Replies to the current invocation, keyed by replica index.
    pub replies: IndexMap<Reply>,
    /// Resend period in milliseconds.
    pub resend_millis: u64,
    /// History of the request numbers whose results were handed to the
    /// caller, oldest first.
    pub delivered: Ghost<Seq<u32>>,
}

impl Client {
    /// The client's invariant.  Delivered request numbers strictly increase
    /// (per-client FIFO), and while an invocation is in flight no result is
    /// reported by more than `num_faulty` replicas (one more arrival
    /// completes it).
    pub open spec fn wf(&self) -> bool {
        &&& self.replies.wf()
        &&& self.num_faulty < usize::MAX
        &&& strictly_increasing(self.delivered@)
        &&& forall|i: int| 0 <= i < self.delivered@.len() ==> #[trigger] self.delivered@[i]
            <= self.request_num
        &&& self.invoke_op is Some ==> forall|i: int|
            0 <= i < self.delivered@.len() ==> #[trigger] self.delivered@[i] < self.request_num
        &&& self.invoke_op is Some ==> forall|r: Seq<u8>|
            #[trigger] count_matching(self.replies.entries@, r) <= self.num_faulty
    }

    pub fn new(index: u16, num_faulty: usize) -> (r: Client)
        requires
            num_faulty < usize::MAX,
        ensures
            r.wf(),
            r.index == index,
            r.num_faulty == num_faulty,
            r.request_num == 0,
            r.invoke_op is None,
            r.delivered@ == Seq::<u32>::empty(),
    {
        Client {
            index,
            num_faulty,
            request_num: 0,
            invoke_op: None,
            replies: IndexMap::new(),
            resend_millis: 100,
            delivered: Ghost(Seq::empty()),
        }
    }

    /// Start an invocation: pick the next request number, broadcast the
    /// signed request to every replica, and arm the resend timer.
    pub fn invoke(&mut self, op: Vec<u8>, actions: &mut Vec<Action<Payload>>)
        requires
            old(self).wf(),
            old(self).invoke_op is None,
            old(self).request_num < u32::MAX,
        ensures
            final(self).wf(),
            final(self).request_num == old(self).request_num + 1,
            (final(self).invoke_op matches Some(o) && o@ == op@),
            final(self).delivered == old(self).delivered,
            final(self).index == old(self).index,
            final(self).num_faulty == old(self).num_faulty,
            final(actions)@.len() == old(actions)@.len() + 2,
            final(actions)@.subrange(0, old(actions)@.len() as int) == old(actions)@,
            (final(actions)@[old(actions)@.len() as int] matches Action::Send(
                t,
                Payload::Request(q),
            ) && t == To::AllReplica && q.client_index == old(self).index && q.request_num == old(
                self,
            ).request_num + 1 && q.op@ == op@),
            final(actions)@.last() == Action::<Payload>::SetTimer(old(self).resend_millis),
    {
        self.request_num = self.request_num + 1;
        self.invoke_op = Some(op.clone());
        self.replies = IndexMap::new();
        let request = Request {
            client_index: self.index,
            request_num: self.request_num,
            op,
        };
        actions.push(Action::Send(To::AllReplica, Payload::Request(request)));
        actions.push(Action::SetTimer(self.resend_millis));
        proof {
            assert forall|r: Seq<u8>| #[trigger] count_matching(self.replies.entries@, r)
                <= self.num_faulty by {
                assert(count_matching(self.replies.entries@, r) == 0);
            }
            assert(actions@.subrange(0, old(actions)@.len() as int) =~= old(actions)@);
        }
    }

    /// Take in one reply.  When `num_faulty + 1` distinct replicas have
    /// reported the same result for the current request, the timer is
    /// cancelled, the invocation completes, and the result is handed back.
    pub fn handle(&mut self, message: Message, actions: &mut Vec<Action<Payload>>) -> (r: Option<Vec<u8>>)
        requires
            old(self).wf(),
            message is Reply,
        ensures
            final(self).wf(),
            final(self).request_num == old(self).request_num,
            final(self).index == old(self).index,
            final(self).num_faulty == old(self).num_faulty,
            final(actions)@.len() >= old(actions)@.len(),
            final(actions)@.subrange(0, old(actions)@.len() as int) == old(actions)@,
            message matches Message::Reply(m) ==> (final(self).invoke_op is Some
                ==> count_matching(final(self).replies.entries@, m.inner.result@) <= old(
                self,
            ).num_faulty),
            r matches Some(res) ==> old(self).invoke_op is Some && final(self).invoke_op is None
                && (message matches Message::Reply(m) && res@ == m.inner.result@
                && m.inner.request_num == old(self).request_num) && final(self).delivered@ == old(
                self,
            ).delivered@.push(old(self).request_num) && final(actions)@.last()
                == Action::<Payload>::UnsetTimer,
            r is None ==> final(self).invoke_op == old(self).invoke_op && final(self).delivered
                == old(self).delivered,
            message matches Message::Reply(m) ==> ((m.inner.request_num != old(self).request_num
                || old(self).invoke_op is None) ==> (*final(self) == *old(self) && final(actions)@
                == old(actions)@ && r is None)),
            message matches Message::Reply(m) ==> ((m.inner.request_num == old(self).request_num
                && old(self).invoke_op is Some) ==> (((r is Some) <==> tally_after(
                old(self).replies.entries@,
                m.inner.replica_index as u64,
                m.inner.result@,
            ) == old(self).num_faulty + 1) && (r is None ==> final(self).replies.view_map().contains_key(m.inner.replica_index as u64) && final(self).replies.view_map()[m.inner.replica_index as u64]@ == m.inner@ && final(self).replies.view_map().remove(m.inner.replica_index as u64) == old(
                self,
            ).replies.view_map().remove(m.inner.replica_index as u64)) && (r is Some ==> final(self).replies.entries@.len() == 0))),
    {
        let m = match message {
            Message::Reply(m) => m,
            _ => {
                return None;
            },
        };
        if m.inner.request_num != self.request_num {
            return None;
        }
        if self.invoke_op.is_none() {
            return None;
        }
        let ghost e0 = self.replies.entries@;
        let stored = m.inner.duplicate();
        self.replies.insert(m.inner.replica_index as u64, stored);
        let ghost e1 = self.replies.entries@;
        proof {
            assert forall|rr: Seq<u8>| #[trigger] count_matching(e1, rr) <= count_matching(e0, rr)
                + 1 by {
                if exists|i: int|
                    0 <= i < e0.len() && (#[trigger] e0[i]).0 == m.inner.replica_index as u64
                        && e1 == e0.update(i, ((m.inner.replica_index as u64), stored)) {
                    let i = choose|i: int|
                        0 <= i < e0.len() && (#[trigger] e0[i]).0
                        == m.inner.replica_index as u64 && e1 == e0.update(
                            i,
                            ((m.inner.replica_index as u64), stored),
                        );
                    lemma_count_matching_update(e0, i, ((m.inner.replica_index as u64), stored), rr);
                } else {
                    lemma_count_matching_push(e0, ((m.inner.replica_index as u64), stored), rr);
                }
            }
        }
        let n = self.replies.entries.len();
        let mut cnt: usize = 0;
        let mut i: usize = 0;
        while i < n
            invariant
                i <= n,
                n == self.replies.entries@.len(),
                cnt == count_matching(self.replies.entries@.subrange(0, i as int), m.inner.result@),
                cnt <= i,
            decreases n - i,
        {
            proof {
                assert(self.replies.entries@.subrange(0, i + 1) =~= self.replies.entries@.subrange(
                    0,
                    i as int,
                ).push(self.replies.entries@[i as int]));
                lemma_count_matching_push(
                    self.replies.entries@.subrange(0, i as int),
                    self.replies.entries@[i as int],
                    m.inner.result@,
                );
            }
            if digest_eq(&self.replies.entries[i].1.result, &m.inner.result) {
                cnt = cnt + 1;
            }
            i = i + 1;
        }
        proof {
            assert(self.replies.entries@.subrange(0, n as int) =~= self.replies.entries@);
            let signer = m.inner.replica_index as u64;
            let res = m.inner.result@;
            assert(cnt == count_matching(e1, res));
            if exists|i: int|
                0 <= i < e0.len() && (#[trigger] e0[i]).0 == signer && e1 == e0.update(
                    i,
                    (signer, stored),
                ) {
                let i = choose|i: int|
                    0 <= i < e0.len() && (#[trigger] e0[i]).0 == signer && e1 == e0.update(
                        i,
                        (signer, stored),
                    );
                lemma_count_matching_update(e0, i, (signer, stored), res);
                if replica_has_matching(e0, signer, res) {
                    let j = choose|j: int|
                        0 <= j < e0.len() && (#[trigger] e0[j]).0 == signer && e0[j].1.result@
                            == res;
                    if j != i {
                        if j < i {
                            assert(e0[j].0 != e0[i].0);
                        } else {
                            assert(e0[i].0 != e0[j].0);
                        }
                        assert(false);
                    }
                    assert(e0[i].1.result@ == res);
                } else {
                    if e0[i].1.result@ == res {
                        assert(replica_has_matching(e0, signer, res));
                        assert(false);
                    }
                }
                assert(count_matching(e1, res) == tally_after(e0, signer, res));
            } else {
                lemma_count_matching_push(e0, (signer, stored), res);
                if replica_has_matching(e0, signer, res) {
                    let j = choose|j: int|
                        0 <= j < e0.len() && (#[trigger] e0[j]).0 == signer && e0[j].1.result@
                            == res;
                    assert(e0[j].0 != signer);
                    assert(false);
                }
                assert(count_matching(e1, res) == tally_after(e0, signer, res));
            }
            assert(self.replies.view_map().remove(signer) =~= old(self).replies.view_map().remove(
                signer,
            ));
        }
        if cnt == self.num_faulty + 1 {
            actions.push(Action::UnsetTimer);
            self.invoke_op = None;
            self.replies = IndexMap::new();
            proof {
                self.delivered@ = self.delivered@.push(self.request_num);
            }
            proof {
                assert(actions@.subrange(0, old(actions)@.len() as int) =~= old(actions)@);
            }
            return Some(m.inner.result);
        }
        proof {
            assert forall|rr: Seq<u8>| #[trigger] count_matching(e1, rr) <= self.num_faulty by {
                if rr == m.inner.result@ {
                    assert(count_matching(e1, rr) == cnt);
                } else {
                    assert(count_matching(e0, rr) <= self.num_faulty);
                    if exists|i: int|
                        0 <= i < e0.len() && (#[trigger] e0[i]).0
                        == m.inner.replica_index as u64 && e1 == e0.update(
                            i,
                            ((m.inner.replica_index as u64), stored),
                        ) {
                        let i = choose|i: int|
                            0 <= i < e0.len() && (#[trigger] e0[i]).0
                                == m.inner.replica_index as u64 && e1 == e0.update(
                                i,
                                ((m.inner.replica_index as u64), stored),
                            );
                        lemma_count_matching_update(
                            e0,
                            i,
                            ((m.inner.replica_index as u64), stored),
                            rr,
                        );
                    } else {
                        lemma_count_matching_push(e0, ((m.inner.replica_index as u64), stored), rr);
                    }
                }
            }
        }
        None
    }

    /// The resend timer fired: re-broadcast the current request unchanged.
    pub fn on_timer(&mut self, actions: &mut Vec<Action<Payload>>)
        requires
            old(self).wf(),
            old(self).invoke_op is Some,
        ensures
            final(self).wf(),
            *final(self) == *old(self),
            final(actions)@.len() == old(actions)@.len() + 1,
            final(actions)@.subrange(0, old(actions)@.len() as int) == old(actions)@,
            (final(actions)@.last() matches Action::Send(t, Payload::Request(q)) && t
                == To::AllReplica && q.client_index == old(self).index && q.request_num == old(
                self,
            ).request_num && (old(self).invoke_op matches Some(o) && q.op@ == o@)),
    {
        let op = match &self.invoke_op {
            Some(op) => op.clone(),
            None => {
                return ;
            },
        };
        let request = Request {
            client_index: self.index,
            request_num: self.request_num,
            op,
        };
        actions.push(Action::Send(To::AllReplica, Payload::Request(request)));
        assert(actions@.subrange(0, old(actions)@.len() as int) =~= old(actions)@);
    }
}

} // verus!
