//! A model of the event multiplex: the queues, the pacing counter, and the
//! two-phase timer scheme.
//!
//! The runtime pumps datagrams, loopback copies, and timer notifications
//! into queues and drives the protocol single-threadedly.  The decisions —
//! when to pace, which staged timers to deliver, what a send resolves to —
//! are modelled here with exact contracts; the sockets, channels, and tasks
//! live outside the library and perform what these functions decide.
//!
//! A timer expiry stages its event in a vector and then signals a
//! rendezvous notification; cancellation removes the timer from the active
//! set, and the drain on every wakeup discards staged events of cancelled
//! timers.  That two-phase scheme is what makes cancellation race-free.

use vstd::prelude::*;

use crate::addr::{Addr, To};

verus! {

/// A timer's identity: the subnode namespace and a local counter.
pub type TimerId = (u32, u32);

/// What the runtime can hand to the protocol thread.
pub enum Event {
    /// A datagram: receiver address, remote address, bytes.
    Message(Addr, Addr, Vec<u8>),
    /// A message the local node sent to itself.
    LoopbackMessage(Addr, Vec<u8>),
    /// A datagram from the multicast socket.
    OrderedMulticastMessage(Addr, Vec<u8>),
    /// A fired timer, delivered only through the staging vector.
    Timer(Addr, TimerId),
    /// A possibly spurious wakeup signalling staged timers.
    TimerNotification,
    Stop,
}

/// Whether an event counts against the pacing budget.
pub open spec fn paced_event(e: Event) -> bool {
    e is Message || e is LoopbackMessage || e is OrderedMulticastMessage
}

/// The multiplex state the runtime maintains around the protocol thread.
pub struct Multiplex {
    /// The unbounded event channel.
    pub event_queue: Vec<Event>,
    /// The rendezvous channel: timer notifications and stop requests.
    pub rdv_queue: Vec<Event>,
    /// Fired timers awaiting the next wakeup.
    pub staged_timers: Vec<(Addr, TimerId)>,
    /// Timers whose expiry tasks are still alive.
    pub active_timers: Vec<TimerId>,
    /// Events to drain before the next pace.
    pub pace_count: usize,
    /// Timer-id namespaces handed out so far.
    pub subnode_id: u32,
    pub stopped: bool,
}

/// A per-receiver handle into the multiplex: its own address and its timer
/// namespace.
pub struct Context {
    pub source: Addr,
    pub timer_id: TimerId,
}

/// The capacity bound on the event queue; beyond it the receivers count as
/// overwhelmed and the reactor gives up.
pub open spec fn queue_bound() -> int {
    4096
}

impl Multiplex {
    pub fn new() -> (r: Multiplex)
        ensures
            r.event_queue@.len() == 0,
            r.rdv_queue@.len() == 0,
            r.staged_timers@.len() == 0,
            r.active_timers@.len() == 0,
            r.pace_count == 1,
            r.subnode_id == 0,
            !r.stopped,
    {
        Multiplex {
            event_queue: Vec::new(),
            rdv_queue: Vec::new(),
            staged_timers: Vec::new(),
            active_timers: Vec::new(),
            pace_count: 1,
            subnode_id: 0,
            stopped: false,
        }
    }

    /// A context for a receiver bound to `source`, in the root timer
    /// namespace.
    pub fn register(&mut self, source: Addr) -> (r: Context)
        ensures
            *final(self) == *old(self),
            r.source == source,
            r.timer_id == (0u32, 0u32),
    {
        Context { source, timer_id: (0, 0) }
    }

    /// A context sharing a parent's socket but with its own timer
    /// namespace.
    pub fn register_subnode(&mut self, parent: &Context) -> (r: Context)
        requires
            old(self).subnode_id < u32::MAX,
        ensures
            final(self).subnode_id == old(self).subnode_id + 1,
            final(self).event_queue == old(self).event_queue,
            final(self).rdv_queue == old(self).rdv_queue,
            final(self).staged_timers == old(self).staged_timers,
            final(self).active_timers == old(self).active_timers,
            final(self).pace_count == old(self).pace_count,
            final(self).stopped == old(self).stopped,
            r.source == parent.source,
            r.timer_id == ((old(self).subnode_id + 1) as u32, 0u32),
    {
        self.subnode_id = self.subnode_id + 1;
        Context { source: parent.source, timer_id: (self.subnode_id, 0) }
    }

    /// The receive path enqueues a datagram without blocking; the queue must
    /// not be overwhelmed.
    pub fn enqueue(&mut self, e: Event)
        requires
            old(self).event_queue@.len() < queue_bound(),
        ensures
            final(self).event_queue@ == old(self).event_queue@.push(e),
            final(self).rdv_queue == old(self).rdv_queue,
            final(self).staged_timers == old(self).staged_timers,
            final(self).active_timers == old(self).active_timers,
            final(self).pace_count == old(self).pace_count,
            final(self).subnode_id == old(self).subnode_id,
            final(self).stopped == old(self).stopped,
    {
        self.event_queue.push(e);
    }

    /// Whether nothing is waiting in the event channel.
    pub fn idle_hint(&self) -> (r: bool)
        ensures
            r == (self.event_queue@.len() == 0),
    {
        self.event_queue.len() == 0
    }

    /// Whether the next step is a pace rather than an event.
    pub fn pace_due(&self) -> (r: bool)
        ensures
            r == (self.pace_count == 0),
    {
        self.pace_count == 0
    }

    /// After the pace work ran: the next pace comes after the whole backlog,
    /// or after one event when idle.
    pub fn reset_pace(&mut self)
        ensures
            final(self).pace_count == if old(self).event_queue@.len() == 0 {
                1int
            } else {
                old(self).event_queue@.len() as int
            },
            final(self).event_queue == old(self).event_queue,
            final(self).rdv_queue == old(self).rdv_queue,
            final(self).staged_timers == old(self).staged_timers,
            final(self).active_timers == old(self).active_timers,
            final(self).subnode_id == old(self).subnode_id,
            final(self).stopped == old(self).stopped,
    {
        let n = self.event_queue.len();
        self.pace_count = if n == 0 {
            1
        } else {
            n
        };
    }

    /// Dequeue the next event, rendezvous events first; a paced event spends
    /// one unit of the pacing budget, and a stop request stops the loop.
    pub fn next_event(&mut self) -> (r: Option<Event>)
        ensures
            old(self).rdv_queue@.len() > 0 ==> (r matches Some(e) && e == old(self).rdv_queue@[0]
                && final(self).rdv_queue@ == old(self).rdv_queue@.drop_first() && final(self).event_queue == old(self).event_queue),
            old(self).rdv_queue@.len() == 0 && old(self).event_queue@.len() > 0 ==> (r
                matches Some(e) && e == old(self).event_queue@[0] && final(self).event_queue@
                == old(self).event_queue@.drop_first() && final(self).rdv_queue == old(self).rdv_queue),
            old(self).rdv_queue@.len() == 0 && old(self).event_queue@.len() == 0 ==> r is None
                && *final(self) == *old(self),
            final(self).staged_timers == old(self).staged_timers,
            final(self).active_timers == old(self).active_timers,
            final(self).subnode_id == old(self).subnode_id,
            (r matches Some(e) ==> final(self).stopped == (old(self).stopped || e is Stop)),
            r is None ==> final(self).stopped == old(self).stopped,
            (r matches Some(e) ==> final(self).pace_count == if paced_event(e) && old(self).pace_count > 0 {
                old(self).pace_count - 1
            } else {
                old(self).pace_count as int
            }),
    {
        let e = if self.rdv_queue.len() > 0 {
            self.rdv_queue.remove(0)
        } else if self.event_queue.len() > 0 {
            self.event_queue.remove(0)
        } else {
            return None;
        };
        let paced = match &e {
            Event::Message(_, _, _) => true,
            Event::LoopbackMessage(_, _) => true,
            Event::OrderedMulticastMessage(_, _) => true,
            _ => false,
        };
        if paced && self.pace_count > 0 {
            self.pace_count = self.pace_count - 1;
        }
        if let Event::Stop = &e {
            self.stopped = true;
        }
        Some(e)
    }

    /// A timer expiry task fires: it stages the timer event and signals the
    /// rendezvous channel.  An aborted (cancelled) task never reaches this
    /// point, so an inactive timer stages nothing.
    pub fn stage_timer(&mut self, source: Addr, id: TimerId)
        requires
            old(self).active_timers@.contains(id),
        ensures
            final(self).staged_timers@ == old(self).staged_timers@.push((source, id)),
            final(self).rdv_queue@ == old(self).rdv_queue@.push(Event::TimerNotification),
            final(self).event_queue == old(self).event_queue,
            final(self).active_timers == old(self).active_timers,
            final(self).pace_count == old(self).pace_count,
            final(self).subnode_id == old(self).subnode_id,
            final(self).stopped == old(self).stopped,
    {
        self.staged_timers.push((source, id));
        self.rdv_queue.push(Event::TimerNotification);
    }

    /// On any wakeup, take the staged timer events, discarding those whose
    /// timer has been cancelled since it fired.  Every delivered timer is
    /// still active — the heart of race-free cancellation.
    pub fn drain_staged(&mut self) -> (r: Vec<(Addr, TimerId)>)
        ensures
            final(self).staged_timers@.len() == 0,
            forall|k: int|
                0 <= k < r@.len() ==> final(self).active_timers@.contains((#[trigger] r@[k]).1),
            forall|k: int|
                0 <= k < r@.len() ==> old(self).staged_timers@.contains(#[trigger] r@[k]),
            final(self).event_queue == old(self).event_queue,
            final(self).rdv_queue == old(self).rdv_queue,
            final(self).active_timers == old(self).active_timers,
            final(self).pace_count == old(self).pace_count,
            final(self).subnode_id == old(self).subnode_id,
            final(self).stopped == old(self).stopped,
    {
        let mut staged: Vec<(Addr, TimerId)> = Vec::new();
        std::mem::swap(&mut self.staged_timers, &mut staged);
        let mut out: Vec<(Addr, TimerId)> = Vec::new();
        let n = staged.len();
        let mut i: usize = 0;
        while i < n
            invariant
                i <= n,
                n == staged@.len(),
                forall|k: int|
                    0 <= k < out@.len() ==> self.active_timers@.contains((#[trigger] out@[k]).1),
                forall|k: int| 0 <= k < out@.len() ==> staged@.contains(#[trigger] out@[k]),
            decreases n - i,
        {
            let (a, id) = (staged[i].0, staged[i].1);
            if self.timer_active(id) {
                out.push((a, id));
                assert(staged@.contains(staged@[i as int]));
            }
            i = i + 1;
        }
        out
    }

    /// Whether a timer's task is still alive.
    pub fn timer_active(&self, id: TimerId) -> (r: bool)
        ensures
            r == self.active_timers@.contains(id),
    {
        let n = self.active_timers.len();
        let mut i: usize = 0;
        while i < n
            invariant
                i <= n,
                n == self.active_timers@.len(),
                forall|j: int| 0 <= j < i ==> self.active_timers@[j] != id,
            decreases n - i,
        {
            if self.active_timers[i].0 == id.0 && self.active_timers[i].1 == id.1 {
                assert(self.active_timers@.contains(id));
                return true;
            }
            i = i + 1;
        }
        assert(!self.active_timers@.contains(id));
        false
    }
}

impl Context {
    /// Arm a timer: allocate the next id in this context's namespace and
    /// mark its task active.
    pub fn set(&mut self, mux: &mut Multiplex) -> (r: TimerId)
        requires
            old(self).timer_id.1 < u32::MAX,
        ensures
            r == (old(self).timer_id.0, (old(self).timer_id.1 + 1) as u32),
            final(self).timer_id == r,
            final(self).source == old(self).source,
            final(mux).active_timers@ == old(mux).active_timers@.push(r),
            final(mux).staged_timers == old(mux).staged_timers,
            final(mux).event_queue == old(mux).event_queue,
            final(mux).rdv_queue == old(mux).rdv_queue,
            final(mux).pace_count == old(mux).pace_count,
            final(mux).subnode_id == old(mux).subnode_id,
            final(mux).stopped == old(mux).stopped,
    {
        self.timer_id = (self.timer_id.0, self.timer_id.1 + 1);
        let id = self.timer_id;
        mux.active_timers.push(id);
        id
    }

    /// Cancel a timer: abort its task, so it can stage nothing further; any
    /// event it already staged is discarded by the next drain.
    pub fn unset(&self, mux: &mut Multiplex, id: TimerId)
        requires
            old(mux).active_timers@.contains(id),
        ensures
            !final(mux).active_timers@.contains(id),
            forall|t: TimerId|
                final(mux).active_timers@.contains(t) ==> old(mux).active_timers@.contains(t),
            final(mux).staged_timers == old(mux).staged_timers,
            final(mux).event_queue == old(mux).event_queue,
            final(mux).rdv_queue == old(mux).rdv_queue,
            final(mux).pace_count == old(mux).pace_count,
            final(mux).subnode_id == old(mux).subnode_id,
            final(mux).stopped == old(mux).stopped,
    {
        let mut kept: Vec<TimerId> = Vec::new();
        let n = mux.active_timers.len();
        let mut i: usize = 0;
        while i < n
            invariant
                i <= n,
                n == mux.active_timers@.len(),
                !kept@.contains(id),
                forall|t: TimerId| kept@.contains(t) ==> mux.active_timers@.contains(t),
            decreases n - i,
        {
            let t = mux.active_timers[i];
            if !(t.0 == id.0 && t.1 == id.1) {
                let ghost kept0 = kept@;
                kept.push(t);
                proof {
                    assert(mux.active_timers@.contains(t));
                    assert forall|u: TimerId| kept@.contains(u) implies mux.active_timers@.contains(
                        u,
                    ) by {
                        if u != t {
                            assert(kept0.contains(u));
                        }
                    }
                }
            }
            i = i + 1;
        }
        mux.active_timers = kept;
    }
}

/// A handle through which the multiplex is stopped from outside the loop:
/// stopping injects a stop request through the rendezvous channel.
pub struct MultiplexHandle {}

impl Multiplex {
    pub fn handle(&self) -> (r: MultiplexHandle) {
        MultiplexHandle {  }
    }
}

impl MultiplexHandle {
    /// Request the loop to stop.
    pub fn stop(&self, mux: &mut Multiplex)
        ensures
            final(mux).rdv_queue@ == old(mux).rdv_queue@.push(Event::Stop),
            final(mux).event_queue == old(mux).event_queue,
            final(mux).staged_timers == old(mux).staged_timers,
            final(mux).active_timers == old(mux).active_timers,
            final(mux).pace_count == old(mux).pace_count,
            final(mux).subnode_id == old(mux).subnode_id,
            final(mux).stopped == old(mux).stopped,
    {
        mux.rdv_queue.push(Event::Stop);
    }
}

/// Once a timer has been cancelled it can never be delivered: a drain hands
/// out only active timers, and a cancelled timer is not active.
pub proof fn lemma_cancelled_timer_silent(
    active: Seq<TimerId>,
    delivered: Seq<(Addr, TimerId)>,
    id: TimerId,
)
    requires
        forall|k: int| 0 <= k < delivered.len() ==> active.contains((#[trigger] delivered[k]).1),
        !active.contains(id),
    ensures
        forall|k: int| 0 <= k < delivered.len() ==> (#[trigger] delivered[k]).1 != id,
{
}

/// The static address table the symbolic destinations resolve through.
pub struct AddrTable {
    pub replica_addrs: Vec<Addr>,
    pub client_addrs: Vec<Addr>,
}

/// Resolve a destination: whether a loopback copy is enqueued, and the
/// socket addresses the datagram goes to.  A replica broadcasting with
/// loopback does not also send to its own socket, and a send to the upcall
/// address is delivered as a loopback alone, never on the wire.
pub fn send_plan(to: &To, table: &AddrTable, self_replica: usize) -> (r: (bool, Vec<Addr>))
    ensures
        ({
            let (loopback, dests) = r;
            match *to {
                To::Addr(a) => if a is Upcall {
                    loopback && dests@.len() == 0
                } else {
                    !loopback && dests@ == seq![a]
                },
                To::Loopback => loopback && dests@.len() == 0,
                To::AllReplica => !loopback && dests@ == table.replica_addrs@,
                To::AllReplicaWithLoopback => loopback && dests@.len()
                    == if self_replica < table.replica_addrs@.len() {
                    table.replica_addrs@.len() - 1
                } else {
                    table.replica_addrs@.len() as int
                } && forall|k: int|
                    0 <= k < dests@.len() ==> table.replica_addrs@.contains(#[trigger] dests@[k]),
                To::Replica(i) => !loopback && ((i as int) < table.replica_addrs@.len() ==> dests@
                    == seq![table.replica_addrs@[i as int]]) && ((i as int)
                    >= table.replica_addrs@.len() ==> dests@.len() == 0),
                To::Client(i) => !loopback && ((i as int) < table.client_addrs@.len() ==> dests@
                    == seq![table.client_addrs@[i as int]]) && ((i as int)
                    >= table.client_addrs@.len() ==> dests@.len() == 0),
            }
        }),
{
    match to {
        To::Addr(a) => match a {
            Addr::Upcall => (true, Vec::new()),
            _ => (false, {
                let mut v: Vec<Addr> = Vec::new();
                v.push(*a);
                assert(v@ =~= seq![*a]);
                v
            }),
        },
        To::Loopback => (true, Vec::new()),
        To::AllReplica => {
            let n = table.replica_addrs.len();
            let mut v: Vec<Addr> = Vec::new();
            let mut i: usize = 0;
            while i < n
                invariant
                    i <= n,
                    n == table.replica_addrs@.len(),
                    v@ == table.replica_addrs@.subrange(0, i as int),
                decreases n - i,
            {
                v.push(table.replica_addrs[i]);
                assert(v@ =~= table.replica_addrs@.subrange(0, i + 1));
                i = i + 1;
            }
            assert(v@ =~= table.replica_addrs@);
            (false, v)
        },
        To::AllReplicaWithLoopback => {
            let n = table.replica_addrs.len();
            let mut v: Vec<Addr> = Vec::new();
            let mut i: usize = 0;
            let ghost skipped = if self_replica < table.replica_addrs@.len() {
                1int
            } else {
                0int
            };
            while i < n
                invariant
                    i <= n,
                    n == table.replica_addrs@.len(),
                    v@.len() == if self_replica < i {
                        i - 1
                    } else {
                        i as int
                    },
                    forall|k: int|
                        0 <= k < v@.len() ==> table.replica_addrs@.contains(#[trigger] v@[k]),
                decreases n - i,
            {
                if i != self_replica {
                    let a = table.replica_addrs[i];
                    let ghost v0 = v@;
                    v.push(a);
                    proof {
                        assert(table.replica_addrs@.contains(a));
                        assert forall|k: int|
                            0 <= k < v@.len() implies table.replica_addrs@.contains(
                            #[trigger] v@[k],
                        ) by {
                            if k < v0.len() {
                                assert(v0.contains(v0[k]));
                            }
                        }
                    }
                }
                i = i + 1;
            }
            (true, v)
        },
        To::Replica(i) => {
            let idx = *i as usize;
            let mut v: Vec<Addr> = Vec::new();
            if idx < table.replica_addrs.len() {
                v.push(table.replica_addrs[idx]);
                assert(v@ =~= seq![table.replica_addrs@[idx as int]]);
            }
            (false, v)
        },
        To::Client(i) => {
            let idx = *i as usize;
            let mut v: Vec<Addr> = Vec::new();
            if idx < table.client_addrs.len() {
                v.push(table.client_addrs[idx]);
                assert(v@ =~= seq![table.client_addrs@[idx as int]]);
            }
            (false, v)
        },
    }
}

} // verus!
