//! The authenticated ordered-multicast primitive: wire envelope, sequencer,
//! and receiver delegate.
//!
//! A datagram is a 100-byte header followed by the serialized payload.  The
//! sequencer stamps a big-endian sequence number and an authenticator: either
//! four per-receiver MAC slots (the symmetric variant) or an ECDSA signature
//! over a running 32-byte chaining state (the asymmetric variant).  An
//! asymmetric datagram whose signature region is all zero is authenticated
//! retroactively by the next signed datagram through the chain.

use vstd::multiset::Multiset;
use vstd::prelude::*;

use crate::addr::Addr;
use crate::codec::{dec_u32_be, enc_u32_be, get_u32_be, get_vec, put_slice, put_u32_be, splice};
use crate::crypto::{
    ecdsa_check_key, ecdsa_key_valid, ecdsa_public_key, ecdsa_pubkey_of, ecdsa_sign,
    ecdsa_signature_of, ecdsa_verify, ecdsa_verify_of, mock_mac_hash, sha256, sha256_of,
};

verus! {

/// Why a datagram was rejected: a symmetric MAC mismatch, or an asymmetric
/// signature that does not verify.
#[derive(Debug)]
pub enum Invalid {
    Private,
    Public,
}

/// The authenticator carried by an envelope, as plain bytes.
pub enum Signature {
    /// Four 4-byte MAC slots (16 bytes) covering four receivers.
    HalfSipHash(Vec<u8>),
    /// All-zero signature region: authenticated by the next signed message.
    K256Linked,
    /// A directly checked 64-byte ECDSA signature.
    K256(Vec<u8>),
    /// A signature implied by the chain rather than checked directly.
    K256Unverified(Vec<u8>),
}

/// A received ordered-multicast datagram: the stamped header fields and the
/// raw payload bytes.
pub struct OrderedMulticast {
    pub seq_num: u32,
    pub signature: Signature,
    /// The 32-byte chain state the sequencer stamped (zero in the symmetric
    /// variant).
    pub linked: Vec<u8>,
    /// The serialized inner message.
    pub payload: Vec<u8>,
}

pub open spec fn envelope_wf(m: OrderedMulticast) -> bool {
    &&& m.linked@.len() == 32
    &&& match m.signature {
        Signature::HalfSipHash(c) => c@.len() == 16,
        Signature::K256Linked => true,
        Signature::K256(s) => s@.len() == 64,
        Signature::K256Unverified(s) => s@.len() == 64,
    }
}

impl OrderedMulticast {
    /// Whether the authenticator still needs a direct check on release.
    pub fn verified(&self) -> (r: bool)
        ensures
            r == (self.signature is HalfSipHash || self.signature is K256),
    {
        match &self.signature {
            Signature::HalfSipHash(_) => true,
            Signature::K256(_) => true,
            _ => false,
        }
    }

    /// Recompute the chaining preimage the sequencer signed for this
    /// message: its linked state, the payload digest, and the sequence
    /// number.
    pub fn state(&self) -> (r: Vec<u8>)
        requires
            self.signature is K256 || self.signature is K256Unverified || self.signature
                is K256Linked,
            self.linked@.len() == 32,
        ensures
            r@ == chain_state_spec(self.linked@, sha256_of(self.payload@), self.seq_num),
    {
        let digest = sha256(self.payload.as_slice());
        state_internal(&self.linked, &digest, self.seq_num)
    }
}

/// The 52-byte chaining preimage: the previous linked state, bytes 16..48
/// folded with the payload digest by exclusive or, and the big-endian
/// sequence number.
pub open spec fn chain_state_spec(linked: Seq<u8>, digest: Seq<u8>, seq_num: u32) -> Seq<u8>
    recommends
        linked.len() == 32,
        digest.len() == 32,
{
    Seq::new(
        52,
        |i: int|
            if 0 <= i < 16 {
                linked[i]
            } else if i < 32 {
                linked[i] ^ digest[i - 16]
            } else if i < 48 {
                digest[i - 16]
            } else {
                crate::codec::enc_u32_be(seq_num)[i - 48]
            },
    )
}

/// Build the 52-byte chaining preimage.
pub fn state_internal(linked: &Vec<u8>, digest: &Vec<u8>, seq_num: u32) -> (r: Vec<u8>)
    requires
        linked@.len() == 32,
        digest@.len() == 32,
    ensures
        r@ == chain_state_spec(linked@, digest@, seq_num),
{
    let mut out: Vec<u8> = Vec::new();
    let mut i: usize = 0;
    while i < 16
        invariant
            i <= 16,
            linked@.len() == 32,
            out@.len() == i,
            forall|j: int| 0 <= j < i ==> out@[j] == linked@[j],
        decreases 16 - i,
    {
        out.push(linked[i]);
        i = i + 1;
    }
    while i < 32
        invariant
            16 <= i <= 32,
            linked@.len() == 32,
            digest@.len() == 32,
            out@.len() == i,
            forall|j: int| 0 <= j < 16 ==> out@[j] == linked@[j],
            forall|j: int| 16 <= j < i ==> out@[j] == (linked@[j] ^ digest@[j - 16]),
        decreases 32 - i,
    {
        out.push(linked[i] ^ digest[i - 16]);
        i = i + 1;
    }
    while i < 48
        invariant
            32 <= i <= 48,
            linked@.len() == 32,
            digest@.len() == 32,
            out@.len() == i,
            forall|j: int| 0 <= j < 16 ==> out@[j] == linked@[j],
            forall|j: int| 16 <= j < 32 ==> out@[j] == (linked@[j] ^ digest@[j - 16]),
            forall|j: int| 32 <= j < i ==> out@[j] == digest@[j - 16],
        decreases 48 - i,
    {
        out.push(digest[i - 16]);
        i = i + 1;
    }
    put_u32_be(&mut out, seq_num);
    assert(out@ =~= chain_state_spec(linked@, digest@, seq_num));
    out
}

/// The unstamped wire image of a payload: 100 bytes of header carrying the
/// payload digest at offsets 20 (first eight bytes) and 68 (all of it) with
/// everything else zero, then the payload.
pub open spec fn unstamped_envelope(payload: Seq<u8>) -> Seq<u8> {
    Seq::new(20, |i: int| 0u8) + sha256_of(payload).subrange(0, 8) + Seq::new(40, |i: int| 0u8)
        + sha256_of(payload) + payload
}

/// Frame a payload for the sequencer: zeros where the stamp will go, the
/// payload digest precomputed at the two offsets the sequencer variants
/// read.
pub fn serialize(payload: &Vec<u8>) -> (r: Vec<u8>)
    ensures
        r@ == unstamped_envelope(payload@),
        r@.len() == 100 + payload@.len(),
{
    let digest = sha256(payload.as_slice());
    let mut out: Vec<u8> = Vec::new();
    let mut i: usize = 0;
    while i < 20
        invariant
            i <= 20,
            out@.len() == i,
            forall|j: int| 0 <= j < i ==> out@[j] == 0u8,
        decreases 20 - i,
    {
        out.push(0u8);
        i = i + 1;
    }
    let mut k: usize = 0;
    while k < 8
        invariant
            k <= 8,
            digest@.len() == 32,
            out@.len() == 20 + k,
            forall|j: int| 0 <= j < 20 ==> out@[j] == 0u8,
            forall|j: int| 20 <= j < 20 + k ==> out@[j] == digest@[j - 20],
        decreases 8 - k,
    {
        out.push(digest[k]);
        k = k + 1;
    }
    let mut z: usize = 0;
    while z < 40
        invariant
            z <= 40,
            digest@.len() == 32,
            out@.len() == 28 + z,
            forall|j: int| 0 <= j < 20 ==> out@[j] == 0u8,
            forall|j: int| 20 <= j < 28 ==> out@[j] == digest@[j - 20],
            forall|j: int| 28 <= j < 28 + z ==> out@[j] == 0u8,
        decreases 40 - z,
    {
        out.push(0u8);
        z = z + 1;
    }
    put_slice(&mut out, digest.as_slice());
    put_slice(&mut out, payload.as_slice());
    assert(out@ =~= unstamped_envelope(payload@));
    out
}

/// The bytes of `s` in reverse order.
pub open spec fn rev_bytes(s: Seq<u8>) -> Seq<u8> {
    Seq::new(s.len(), |i: int| s[s.len() - 1 - i])
}

/// Reverse a byte string (the sequencer stores its signature byte-reversed,
/// a convention receivers must undo bit-exactly).
pub fn reverse_bytes(v: &Vec<u8>) -> (r: Vec<u8>)
    ensures
        r@ == rev_bytes(v@),
{
    let n = v.len();
    let mut out: Vec<u8> = Vec::new();
    let mut i: usize = 0;
    while i < n
        invariant
            i <= n,
            n == v@.len(),
            out@.len() == i,
            forall|j: int| 0 <= j < i ==> out@[j] == v@[n - 1 - j],
        decreases n - i,
    {
        out.push(v[n - 1 - i]);
        i = i + 1;
    }
    assert(out@ =~= rev_bytes(v@));
    out
}

/// The symmetric receiver: it knows its own index and checks its MAC slot.
pub struct HalfSipHash {
    pub index: u8,
}

/// The asymmetric receiver: it holds the sequencer's public key.
pub struct K256 {
    pub verifying_key: Vec<u8>,
}

/// Which authentication scheme a receiving socket runs.
pub enum Variant {
    Unreachable,
    HalfSipHash(HalfSipHash),
    K256(K256),
}

impl Variant {
    pub fn new_half_sip_hash(index: u8) -> (r: Variant)
        ensures
            r matches Variant::HalfSipHash(h) && h.index == index,
    {
        Variant::HalfSipHash(HalfSipHash { index })
    }

    /// Derive the verifying key from the sequencer's secret key bytes;
    /// refused exactly when the bytes are not a usable key.
    pub fn new_k256(signing_key: &Vec<u8>) -> (r: Option<Variant>)
        ensures
            r is Some <==> ecdsa_key_valid(signing_key@),
            r matches Some(v) ==> (v matches Variant::K256(k) && k.verifying_key@
                == ecdsa_pubkey_of(signing_key@)),
    {
        if ecdsa_check_key(signing_key.as_slice()) {
            Some(
                Variant::K256(
                    K256 { verifying_key: ecdsa_public_key(signing_key.as_slice()) },
                ),
            )
        } else {
            None
        }
    }

    /// Parse a stamped datagram.  The sequence number is big-endian at the
    /// head; the signature region is read per variant, an all-zero region in
    /// the asymmetric variant meaning a linked (retroactively authenticated)
    /// message; the payload is everything after the 100-byte header.
    pub fn deserialize(&self, buf: &Vec<u8>) -> (r: OrderedMulticast)
        requires
            buf@.len() >= 100,
            !(self is Unreachable),
        ensures
            envelope_wf(r),
            r.seq_num == dec_u32_be(buf@, 0),
            r.payload@ == buf@.subrange(100, buf@.len() as int),
            self is HalfSipHash ==> (r.signature matches Signature::HalfSipHash(c) && c@
                == buf@.subrange(4, 20)) && r.linked@ == Seq::new(32, |i: int| 0u8),
            self is K256 ==> r.linked@ == buf@.subrange(68, 100) && ((forall|i: int|
                4 <= i < 68 ==> buf@[i] == 0) ==> r.signature is K256Linked) && (!(forall|i: int|
                4 <= i < 68 ==> buf@[i] == 0) ==> (r.signature matches Signature::K256(s) && s@
                == rev_bytes(buf@.subrange(4, 68)))),
    {
        let seq_num = get_u32_be(buf, 0);
        let len = buf.len();
        let payload = get_vec(buf, 100, len - 100);
        match self {
            Variant::Unreachable => OrderedMulticast {
                seq_num,
                signature: Signature::K256Linked,
                linked: crate::chain::zero_digest(),
                payload,
            },
            Variant::HalfSipHash(_) => {
                let codes = get_vec(buf, 4, 16);
                OrderedMulticast {
                    seq_num,
                    signature: Signature::HalfSipHash(codes),
                    linked: crate::chain::zero_digest(),
                    payload,
                }
            },
            Variant::K256(_) => {
                let mut all_zero = true;
                let mut i: usize = 4;
                while i < 68
                    invariant
                        4 <= i <= 68,
                        buf@.len() >= 100,
                        all_zero == forall|j: int| 4 <= j < i ==> buf@[j] == 0,
                    decreases 68 - i,
                {
                    if buf[i] != 0 {
                        all_zero = false;
                    }
                    i = i + 1;
                }
                let linked = get_vec(buf, 68, 32);
                let signature = if all_zero {
                    Signature::K256Linked
                } else {
                    let region = get_vec(buf, 4, 64);
                    Signature::K256(reverse_bytes(&region))
                };
                OrderedMulticast { seq_num, signature, linked, payload }
            },
        }
    }

    /// Authenticate a datagram.  Linked and chain-implied signatures are
    /// accepted outright; a direct asymmetric signature is checked against
    /// the recomputed chaining state; the symmetric variant probes its own
    /// MAC slot.
    pub fn verify(&self, message: &OrderedMulticast) -> (r: Result<(), Invalid>)
        requires
            envelope_wf(*message),
            self is HalfSipHash ==> message.signature is HalfSipHash,
            self is K256 ==> (message.signature is K256 || message.signature is K256Unverified
                || message.signature is K256Linked),
            !(self is Unreachable),
        ensures
            self is K256 && (message.signature is K256Linked || message.signature
                is K256Unverified) ==> r is Ok,
            self matches Variant::K256(k) ==> (message.signature matches Signature::K256(sig)
                ==> ((r is Ok) <==> ecdsa_verify_of(
                k.verifying_key@,
                chain_state_spec(message.linked@, sha256_of(message.payload@), message.seq_num),
                sig@,
            ))),
            self matches Variant::HalfSipHash(h) ==> (message.signature
                matches Signature::HalfSipHash(c) ==> (((forall|j: int|
                0 <= j < 4 ==> #[trigger] c@[4 * ((h.index as int) % 4) + j] == 0) ==> r is Err) && (r is Ok
                ==> !(forall|j: int| 0 <= j < 4 ==> #[trigger] c@[4 * ((h.index as int) % 4) + j] == 0)))),
    {
        match (self, &message.signature) {
            (Variant::HalfSipHash(variant), Signature::HalfSipHash(codes)) => {
                let digest = sha256(message.payload.as_slice());
                if mock_mac_hash(digest.as_slice()) == 0 {
                    return Err(Invalid::Private);
                }
                let slot = (variant.index as usize % 4) * 4;
                if codes[slot] == 0 && codes[slot + 1] == 0 && codes[slot + 2] == 0 && codes[slot
                    + 3] == 0 {
                    return Err(Invalid::Private);
                }
                proof {
                    let base = 4 * ((variant.index as int) % 4);
                    assert(slot as int == base);
                    assert(codes@[base + 0] != 0 || codes@[base + 1] != 0 || codes@[base + 2] != 0
                        || codes@[base + 3] != 0);
                }
                Ok(())
            },
            (Variant::K256(_), Signature::K256Linked) => Ok(()),
            (Variant::K256(_), Signature::K256Unverified(_)) => Ok(()),
            (Variant::K256(k256), Signature::K256(sig)) => {
                let state = message.state();
                if ecdsa_verify(k256.verifying_key.as_slice(), state.as_slice(), sig.as_slice()) {
                    Ok(())
                } else {
                    Err(Invalid::Public)
                }
            },
            _ => Ok(()),
        }
    }
}

// ---------------------------------------------------------------------------
// Receiver delegate.

/// The per-socket release state machine: the symmetric variant hands
/// messages straight through, the asymmetric variant may withhold the latest
/// directly-signed message until the next signed arrival or the next pace.
pub enum Delegate {
    Nop(u8),
    K256(Option<(Addr, OrderedMulticast)>),
}

/// A directly-signed authenticator downgraded to chain-implied: the message
/// is released because a later signed message vouches for the chain.
pub open spec fn downgrade(m: OrderedMulticast) -> OrderedMulticast {
    match m.signature {
        Signature::K256(s) => OrderedMulticast {
            seq_num: m.seq_num,
            signature: Signature::K256Unverified(s),
            linked: m.linked,
            payload: m.payload,
        },
        _ => m,
    }
}

/// One arrival at the asymmetric delegate: a message that needs no direct
/// check passes straight through; a signed message replaces the held one,
/// releasing it with its signature downgraded.
pub open spec fn k256_step(
    held: Option<(Addr, OrderedMulticast)>,
    remote: Addr,
    incoming: OrderedMulticast,
) -> (Option<(Addr, OrderedMulticast)>, Option<(Addr, OrderedMulticast)>) {
    if !(incoming.signature is HalfSipHash || incoming.signature is K256) {
        (held, Some((remote, incoming)))
    } else {
        match held {
            None => (Some((remote, incoming)), None),
            Some(p) => (Some((remote, incoming)), Some((p.0, downgrade(p.1)))),
        }
    }
}

/// The releases of a run in which a pace follows every arrival, so the held
/// message is always flushed before the next one arrives.
pub open spec fn k256_sync_run(arrivals: Seq<(Addr, OrderedMulticast)>) -> Seq<
    (Addr, OrderedMulticast),
>
    decreases arrivals.len(),
{
    if arrivals.len() == 0 {
        Seq::empty()
    } else {
        let step = k256_step(None, arrivals[0].0, arrivals[0].1);
        let first = (match step.1 {
            Some(p) => seq![p],
            None => Seq::empty(),
        }) + (match step.0 {
            Some(p) => seq![p],
            None => Seq::empty(),
        });
        first + k256_sync_run(arrivals.drop_first())
    }
}

/// One step of the delegate under an arbitrary schedule: a datagram
/// arrival or a pace.
pub enum DelegateOp {
    Receive(Addr, OrderedMulticast),
    Pace,
}

/// Run the asymmetric delegate over any interleaving of arrivals and
/// paces, collecting the releases in order.
pub open spec fn k256_run(
    held0: Option<(Addr, OrderedMulticast)>,
    ops: Seq<DelegateOp>,
) -> (Option<(Addr, OrderedMulticast)>, Seq<(Addr, OrderedMulticast)>)
    decreases ops.len(),
{
    if ops.len() == 0 {
        (held0, Seq::empty())
    } else {
        let step = match ops[0] {
            DelegateOp::Receive(a, m) => k256_step(held0, a, m),
            DelegateOp::Pace => (None, held0),
        };
        let first = match step.1 {
            Some(p) => seq![p],
            None => Seq::empty(),
        };
        let rest = k256_run(step.0, ops.drop_first());
        (rest.0, first + rest.1)
    }
}

/// The sequence numbers a held slot contributes.
pub open spec fn held_seqnums(h: Option<(Addr, OrderedMulticast)>) -> Multiset<u32> {
    match h {
        Some(p) => Multiset::empty().insert(p.1.seq_num),
        None => Multiset::empty(),
    }
}

/// The sequence numbers of a run's arrivals.
pub open spec fn arrival_seqnums(ops: Seq<DelegateOp>) -> Multiset<u32>
    decreases ops.len(),
{
    if ops.len() == 0 {
        Multiset::empty()
    } else {
        (match ops[0] {
            DelegateOp::Receive(a, m) => Multiset::empty().insert(m.seq_num),
            DelegateOp::Pace => Multiset::empty(),
        }).add(arrival_seqnums(ops.drop_first()))
    }
}

/// The sequence numbers of a run's releases.
pub open spec fn release_seqnums(rel: Seq<(Addr, OrderedMulticast)>) -> Multiset<u32>
    decreases rel.len(),
{
    if rel.len() == 0 {
        Multiset::empty()
    } else {
        Multiset::empty().insert(rel[0].1.seq_num).add(release_seqnums(rel.drop_first()))
    }
}

/// Conservation under every schedule: whatever interleaving of arrivals
/// and paces the reactor produces, each sequence number is released or
/// still held exactly as often as it was initially held or arrived — the
/// delegate neither invents, loses, nor duplicates a message.
pub proof fn lemma_k256_run_conserves(
    held0: Option<(Addr, OrderedMulticast)>,
    ops: Seq<DelegateOp>,
    q: u32,
)
    ensures
        ({
            let r = k256_run(held0, ops);
            release_seqnums(r.1).count(q) + held_seqnums(r.0).count(q) == held_seqnums(
                held0,
            ).count(q) + arrival_seqnums(ops).count(q)
        }),
    decreases ops.len(),
{
    broadcast use vstd::multiset::group_multiset_axioms;

    if ops.len() == 0 {
    } else {
        let step = match ops[0] {
            DelegateOp::Receive(a, m) => k256_step(held0, a, m),
            DelegateOp::Pace => (None, held0),
        };
        let first = match step.1 {
            Some(p) => seq![p],
            None => Seq::<(Addr, OrderedMulticast)>::empty(),
        };
        let rest = k256_run(step.0, ops.drop_first());
        lemma_k256_run_conserves(step.0, ops.drop_first(), q);
        if first.len() == 0 {
            assert(first + rest.1 =~= rest.1);
        } else {
            assert((first + rest.1).drop_first() =~= rest.1);
            assert((first + rest.1)[0] == first[0]);
            assert(release_seqnums(first + rest.1).count(q) == (if first[0].1.seq_num == q {
                1int
            } else {
                0int
            }) + release_seqnums(rest.1).count(q));
        }
        match ops[0] {
            DelegateOp::Receive(a, m) => {
                assert(arrival_seqnums(ops).count(q) == (if m.seq_num == q {
                    1int
                } else {
                    0int
                }) + arrival_seqnums(ops.drop_first()).count(q));
                if m.signature is HalfSipHash || m.signature is K256 {
                    match held0 {
                        Some(p) => {
                            assert(downgrade(p.1).seq_num == p.1.seq_num);
                            assert(first[0].1.seq_num == p.1.seq_num);
                        },
                        None => {
                            assert(first.len() == 0);
                        },
                    }
                } else {
                    assert(first[0].1.seq_num == m.seq_num);
                    assert(step.0 == held0);
                }
            },
            DelegateOp::Pace => {
                assert(arrival_seqnums(ops).count(q) == arrival_seqnums(
                    ops.drop_first(),
                ).count(q));
            },
        }
    }
}

/// No double delivery: starting with nothing held, a sequence number that
/// arrives at most once is released at most once.
pub proof fn lemma_k256_release_at_most_once(ops: Seq<DelegateOp>, s: u32)
    requires
        arrival_seqnums(ops).count(s) <= 1,
    ensures
        release_seqnums(k256_run(None, ops).1).count(s) <= 1,
{
    broadcast use vstd::multiset::group_multiset_axioms;

    lemma_k256_run_conserves(None, ops, s);
}

/// Sequence monotonicity under the synchronous schedule: when a pace
/// follows every arrival, the asymmetric delegate releases exactly the
/// arrivals, in arrival order — in particular with strictly increasing
/// sequence numbers whenever the arrivals' are.  A message that needed no
/// direct check is released at its arrival; a directly-signed one is
/// released by the pace right after it.
pub proof fn lemma_k256_sync_run_in_order(arrivals: Seq<(Addr, OrderedMulticast)>)
    ensures
        k256_sync_run(arrivals) == arrivals,
    decreases arrivals.len(),
{
    if arrivals.len() == 0 {
        assert(k256_sync_run(arrivals) =~= arrivals);
    } else {
        lemma_k256_sync_run_in_order(arrivals.drop_first());
        assert(k256_sync_run(arrivals) =~= arrivals);
    }
}

/// The released message is never fabricated: it is the incoming message or
/// the one the delegate was holding (the one-message holding buffer of the
/// release-order guarantee).
pub proof fn lemma_k256_step_release_source(
    held: Option<(Addr, OrderedMulticast)>,
    remote: Addr,
    incoming: OrderedMulticast,
)
    ensures
        ({
            let step = k256_step(held, remote, incoming);
            step.1 matches Some(p) ==> p.1.seq_num == incoming.seq_num || (held matches Some(q)
                && p.1.seq_num == q.1.seq_num)
        }),
{
}

impl Variant {
    /// The delegate matching this variant.
    pub fn delegate(&self) -> (r: Delegate)
        ensures
            self matches Variant::HalfSipHash(h) ==> r == Delegate::Nop(h.index),
            self is K256 ==> r == Delegate::K256(None::<(Addr, OrderedMulticast)>),
    {
        match self {
            Variant::Unreachable => Delegate::Nop(255),
            Variant::HalfSipHash(variant) => Delegate::Nop(variant.index),
            Variant::K256(_) => Delegate::K256(None),
        }
    }
}

/// Whether a symmetric datagram's MAC block does not apply to this receiver:
/// the sentinel `cc cc cc <offset>` in the receiver's slot names a block
/// that covers someone else.
pub open spec fn sentinel_skip(index: u8, c: Seq<u8>) -> bool {
    let base = 4 * ((index as int) % 4);
    c[base] == 0xcc && c[base + 1] == 0xcc && c[base + 2] == 0xcc && c[base + 3] != index
}

impl Delegate {
    /// Take in one datagram.  The symmetric delegate checks its slot and
    /// hands the message off; the asymmetric delegate follows `k256_step`.
    /// Released messages are authenticated; a failed check is returned as
    /// the error the caller treats as fatal.
    pub fn on_receive(&mut self, variant: &Variant, remote: Addr, message: OrderedMulticast) -> (r:
        Result<Option<(Addr, OrderedMulticast)>, Invalid>)
        requires
            envelope_wf(message),
            *old(self) is Nop ==> (variant is HalfSipHash && message.signature is HalfSipHash),
            *old(self) is K256 ==> (variant is K256 && (message.signature is K256
                || message.signature is K256Unverified || message.signature is K256Linked)),
        ensures
            *old(self) matches Delegate::K256(held) ==> ({
                let step = k256_step(held, remote, message);
                r matches Ok(rel) && *final(self) == Delegate::K256(step.0) && rel == step.1
            }),
            *old(self) matches Delegate::Nop(index) ==> *final(self) == *old(self) && (
            message.signature matches Signature::HalfSipHash(c) ==> ((sentinel_skip(index, c@)
                ==> (r matches Ok(rel) && rel is None)) && (!sentinel_skip(index, c@) ==> (r
                matches Ok(rel) ==> rel == Some((remote, message)))))),
    {
        match self {
            Delegate::Nop(index) => {
                let skip = match &message.signature {
                    Signature::HalfSipHash(codes) => {
                        let base = (*index as usize % 4) * 4;
                        codes[base] == 0xcc && codes[base + 1] == 0xcc && codes[base + 2] == 0xcc
                            && codes[base + 3] != *index
                    },
                    _ => false,
                };
                if skip {
                    return Ok(None);
                }
                match variant.verify(&message) {
                    Ok(_) => Ok(Some((remote, message))),
                    Err(e) => Err(e),
                }
            },
            Delegate::K256(held) => {
                let verified = message.verified();
                if !verified {
                    return Ok(Some((remote, message)));
                }
                let mut taken: Option<(Addr, OrderedMulticast)> = Some((remote, message));
                std::mem::swap(held, &mut taken);
                match taken {
                    None => Ok(None),
                    Some((saved_remote, saved)) => {
                        let released = match saved.signature {
                            Signature::K256(sig) => OrderedMulticast {
                                seq_num: saved.seq_num,
                                signature: Signature::K256Unverified(sig),
                                linked: saved.linked,
                                payload: saved.payload,
                            },
                            other => OrderedMulticast {
                                seq_num: saved.seq_num,
                                signature: other,
                                linked: saved.linked,
                                payload: saved.payload,
                            },
                        };
                        Ok(Some((saved_remote, released)))
                    },
                }
            },
        }
    }

    /// The reactor's pace point: flush the held message, if any, so that an
    /// idle stretch never withholds delivery.  The caller authenticates the
    /// flushed message directly.
    pub fn on_pace(&mut self) -> (r: Option<(Addr, OrderedMulticast)>)
        ensures
            *old(self) matches Delegate::K256(held) ==> *final(self) == Delegate::K256(
                None::<(Addr, OrderedMulticast)>,
            ) && r == held,
            *old(self) is Nop ==> *final(self) == *old(self) && r is None,
    {
        match self {
            Delegate::Nop(_) => None,
            Delegate::K256(held) => {
                let mut taken: Option<(Addr, OrderedMulticast)> = None;
                std::mem::swap(held, &mut taken);
                taken
            },
        }
    }
}

// ---------------------------------------------------------------------------
// Sequencer.

pub enum SequencerCrypto {
    HalfSipHash { num_replica: usize },
    K256 { state: Vec<u8>, signing_key: Vec<u8> },
}

/// The trusted sequencer: it stamps every datagram with the next sequence
/// number and the authenticator of its variant.
pub struct Sequencer {
    pub seq_num: u32,
    pub crypto: SequencerCrypto,
}

pub enum SequencerProcessCrypto {
    HalfSipHash { num_replica: usize },
    K256 { linked: Vec<u8>, state: Vec<u8>, signing_key: Vec<u8> },
}

/// One stamping step, ready to be applied to the datagram buffer.
pub struct SequencerProcess {
    pub buf: Vec<u8>,
    pub seq_num: u32,
    pub crypto: SequencerProcessCrypto,
}

/// A symmetric copy of the datagram: the sequence number at the head and
/// the sentinel MAC block `cc cc cc <offset + k>` for the four receivers
/// the copy covers.
pub open spec fn stamped_symmetric(buf: Seq<u8>, seq_num: u32, offset: u8) -> Seq<u8> {
    Seq::new(
        buf.len(),
        |i: int|
            if i < 4 {
                enc_u32_be(seq_num)[i]
            } else if i < 20 {
                if (i - 4) % 4 == 3 {
                    (offset + (i - 4) / 4) as u8
                } else {
                    0xcc
                }
            } else {
                buf[i]
            },
    )
}

/// The asymmetric datagram: sequence number, byte-reversed signature, and
/// the linked chain state.
pub open spec fn stamped_asymmetric(
    buf: Seq<u8>,
    seq_num: u32,
    sig_rev: Seq<u8>,
    linked: Seq<u8>,
) -> Seq<u8>
    recommends
        sig_rev.len() == 64,
        linked.len() == 32,
        buf.len() >= 100,
{
    Seq::new(
        buf.len(),
        |i: int|
            if i < 4 {
                enc_u32_be(seq_num)[i]
            } else if i < 68 {
                sig_rev[i - 4]
            } else if i < 100 {
                linked[i - 68]
            } else {
                buf[i]
            },
    )
}

impl Sequencer {
    pub fn new_half_sip_hash(num_replica: usize) -> (r: Sequencer)
        ensures
            r.seq_num == 0,
            r.crypto == (SequencerCrypto::HalfSipHash { num_replica }),
    {
        Sequencer { seq_num: 0, crypto: SequencerCrypto::HalfSipHash { num_replica } }
    }

    /// A fresh asymmetric sequencer; refused exactly when the secret key
    /// bytes are unusable.  The chain starts from the hash of the empty
    /// state.
    pub fn new_k256(signing_key: Vec<u8>) -> (r: Option<Sequencer>)
        ensures
            r is Some <==> ecdsa_key_valid(signing_key@),
            r matches Some(s) ==> s.seq_num == 0 && (s.crypto matches SequencerCrypto::K256 {
                state,
                signing_key: k,
            } && state@ == Seq::<u8>::empty() && k@ == signing_key@),
    {
        if ecdsa_check_key(signing_key.as_slice()) {
            Some(
                Sequencer { seq_num: 0, crypto: SequencerCrypto::K256 { state: Vec::new(), signing_key } },
            )
        } else {
            None
        }
    }

    /// Stamp one datagram: advance the sequence number and, in the
    /// asymmetric variant, advance the running chain state by folding in
    /// the payload digest the originator placed at offset 68.
    pub fn process(&mut self, buf: Vec<u8>) -> (r: SequencerProcess)
        requires
            old(self).seq_num < u32::MAX,
            buf@.len() >= 100,
        ensures
            final(self).seq_num == old(self).seq_num + 1,
            r.seq_num == old(self).seq_num + 1,
            r.buf == buf,
            (old(self).crypto matches SequencerCrypto::HalfSipHash { num_replica } ==> final(self).crypto == old(self).crypto && r.crypto == (SequencerProcessCrypto::HalfSipHash {
                num_replica,
            })),
            (old(self).crypto matches SequencerCrypto::K256 { state: s0, signing_key: k } ==> ({
                let linked = sha256_of(s0@);
                let digest = buf@.subrange(68, 100);
                let s1 = chain_state_spec(linked, digest, (old(self).seq_num + 1) as u32);
                (r.crypto matches SequencerProcessCrypto::K256 { linked: l, state: st, signing_key: k2 }
                    && l@ == linked && l@.len() == 32 && st@ == s1 && k2@ == k@) && (final(self).crypto
                    matches SequencerCrypto::K256 { state: st2, signing_key: k3 } && st2@ == s1
                    && k3@ == k@)
            })),
    {
        self.seq_num = self.seq_num + 1;
        let crypto = match &mut self.crypto {
            SequencerCrypto::HalfSipHash { num_replica } => SequencerProcessCrypto::HalfSipHash {
                num_replica: *num_replica,
            },
            SequencerCrypto::K256 { state, signing_key } => {
                let digest = get_vec(&buf, 68, 32);
                let linked = sha256(state.as_slice());
                let next = state_internal(&linked, &digest, self.seq_num);
                let mut stored = next;
                std::mem::swap(state, &mut stored);
                SequencerProcessCrypto::K256 {
                    linked,
                    state: state.clone(),
                    signing_key: signing_key.clone(),
                }
            },
        };
        SequencerProcess { buf, seq_num: self.seq_num, crypto }
    }
}

impl SequencerProcess {
    /// Write the stamp into the buffer and hand back the datagrams to send:
    /// one copy per four receivers in the symmetric variant, one signed
    /// datagram in the asymmetric variant (none if the secret key bytes are
    /// unusable, which a sequencer built by `new_k256` never carries).
    pub fn apply(self) -> (r: Vec<Vec<u8>>)
        requires
            self.buf@.len() >= 100,
            self.crypto matches SequencerProcessCrypto::HalfSipHash { num_replica } ==> num_replica
                <= 252,
            self.crypto matches SequencerProcessCrypto::K256 { linked, state, signing_key }
                ==> linked@.len() == 32,
        ensures
            (self.crypto matches SequencerProcessCrypto::HalfSipHash { num_replica } ==> r@.len()
                == (num_replica + 3) / 4 && forall|c: int|
                0 <= c < r@.len() ==> (#[trigger] r@[c])@ == stamped_symmetric(
                    self.buf@,
                    self.seq_num,
                    (4 * c) as u8,
                )),
            (self.crypto matches SequencerProcessCrypto::K256 { linked, state, signing_key } ==> (
            ecdsa_key_valid(signing_key@) ==> r@.len() == 1 && r@[0]@ == stamped_asymmetric(
                self.buf@,
                self.seq_num,
                rev_bytes(ecdsa_signature_of(signing_key@, state@)),
                linked@,
            )) && (!ecdsa_key_valid(signing_key@) ==> r@.len() == 0)),
    {
        let SequencerProcess { mut buf, seq_num, crypto } = self;
        let mut seq_bytes: Vec<u8> = Vec::new();
        put_u32_be(&mut seq_bytes, seq_num);
        splice(&mut buf, 0, seq_bytes.as_slice());
        let mut out: Vec<Vec<u8>> = Vec::new();
        match crypto {
            SequencerProcessCrypto::HalfSipHash { num_replica } => {
                let mut offset: usize = 0;
                while offset < num_replica
                    invariant
                        num_replica <= 252,
                        offset % 4 == 0,
                        offset <= num_replica + 3,
                        buf@.len() == self.buf@.len() >= 100,
                        seq_num == self.seq_num,
                        forall|i: int|
                            0 <= i < buf@.len() ==> #[trigger] buf@[i] == if i < 4 {
                                enc_u32_be(self.seq_num)[i]
                            } else if 4 <= i < 20 && offset > 0 {
                                stamped_symmetric(self.buf@, self.seq_num, (offset - 4) as u8)[i]
                            } else {
                                self.buf@[i]
                            },
                        out@.len() == offset / 4,
                        forall|c: int|
                            0 <= c < out@.len() ==> (#[trigger] out@[c])@ == stamped_symmetric(
                                self.buf@,
                                self.seq_num,
                                (4 * c) as u8,
                            ),
                    decreases num_replica + 4 - offset,
                {
                    let mut block: Vec<u8> = Vec::new();
                    let mut j: usize = 0;
                    while j < 16
                        invariant
                            j <= 16,
                            offset <= 252,
                            block@.len() == j,
                            forall|i: int|
                                0 <= i < j ==> #[trigger] block@[i] == if i % 4 == 3 {
                                    (offset + i / 4) as u8
                                } else {
                                    0xcc
                                },
                        decreases 16 - j,
                    {
                        if j % 4 == 3 {
                            block.push((offset + j / 4) as u8);
                        } else {
                            block.push(0xcc_u8);
                        }
                        j = j + 1;
                    }
                    splice(&mut buf, 4, block.as_slice());
                    let copy = buf.clone();
                    proof {
                        assert(copy@ =~= stamped_symmetric(self.buf@, self.seq_num, offset as u8));
                    }
                    out.push(copy);
                    offset = offset + 4;
                }
            },
            SequencerProcessCrypto::K256 { linked, state, signing_key } => {
                if ecdsa_check_key(signing_key.as_slice()) {
                    splice(&mut buf, 68, linked.as_slice());
                    let signature = ecdsa_sign(signing_key.as_slice(), state.as_slice());
                    let reversed = reverse_bytes(&signature);
                    splice(&mut buf, 4, reversed.as_slice());
                    proof {
                        assert(buf@ =~= stamped_asymmetric(
                            self.buf@,
                            self.seq_num,
                            rev_bytes(ecdsa_signature_of(signing_key@, state@)),
                            linked@,
                        ));
                    }
                    out.push(buf);
                }
            },
        }
        out
    }
}

/// Stamping is transparent to parsing: a datagram stamped by either
/// variant still reads back the stamped sequence number at its head, the
/// payload after the header, and (in the asymmetric variant) the linked
/// state at its offset — the fields `Variant::deserialize` recovers.
pub proof fn lemma_stamp_roundtrip(buf: Seq<u8>, seq_num: u32, sig_rev: Seq<u8>, linked: Seq<u8>)
    requires
        buf.len() >= 100,
        sig_rev.len() == 64,
        linked.len() == 32,
    ensures
        dec_u32_be(stamped_asymmetric(buf, seq_num, sig_rev, linked), 0) == seq_num,
        stamped_asymmetric(buf, seq_num, sig_rev, linked).subrange(68, 100) == linked,
        stamped_asymmetric(buf, seq_num, sig_rev, linked).subrange(
            100,
            buf.len() as int,
        ) == buf.subrange(100, buf.len() as int),
        dec_u32_be(stamped_symmetric(buf, seq_num, 0), 0) == seq_num,
{
    let s = stamped_asymmetric(buf, seq_num, sig_rev, linked);
    assert(s.subrange(0, 4) =~= crate::codec::enc_u32_be(seq_num));
    crate::codec::lemma_u32_be_roundtrip(s, 0, seq_num);
    assert(s.subrange(68, 100) =~= linked);
    assert(s.subrange(100, buf.len() as int) =~= buf.subrange(100, buf.len() as int));
    let t = stamped_symmetric(buf, seq_num, 0);
    assert(t.subrange(0, 4) =~= crate::codec::enc_u32_be(seq_num));
    crate::codec::lemma_u32_be_roundtrip(t, 0, seq_num);
}

/// State agreement between the two ends of the chain: the preimage a
/// receiver rebuilds from an envelope's linked field, payload digest, and
/// sequence number is exactly the preimage the sequencer signed when it
/// stamped that message from its previous chain state.
pub proof fn lemma_state_recompute(m: OrderedMulticast, prev_state: Seq<u8>, signed: Seq<u8>)
    requires
        m.linked@ == sha256_of(prev_state),
        signed == chain_state_spec(sha256_of(prev_state), sha256_of(m.payload@), m.seq_num),
    ensures
        chain_state_spec(m.linked@, sha256_of(m.payload@), m.seq_num) == signed,
{
}

} // verus!
