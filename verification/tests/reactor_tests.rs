use neobft::addr::{Addr, To};
use neobft::reactor::{AddrTable, Event, Multiplex, MultiplexHandle};

fn addr(i: u32) -> Addr {
    Addr::Socket(0x0a000000 + i, 10000)
}

/// A timer cancelled from inside a handler never fires, even when its
/// expiry had already been staged: the drain discards events of cancelled
/// timers.
#[test]
fn timer_cancel_no_false_alarm() {
    let mut mux = Multiplex::new();
    let mut ctx = mux.register(addr(1));
    let id = ctx.set(&mut mux);

    // the expiry races with cancellation: it stages first
    mux.stage_timer(addr(1), id);
    ctx.unset(&mut mux, id);
    let delivered = mux.drain_staged();
    assert!(delivered.is_empty());

    // after cancellation the task is aborted, so nothing stages again and
    // later drains stay silent
    assert!(mux.drain_staged().is_empty());
}

#[test]
fn timer_fires_when_not_cancelled() {
    let mut mux = Multiplex::new();
    let mut ctx = mux.register(addr(1));
    let id = ctx.set(&mut mux);
    mux.stage_timer(addr(1), id);
    let delivered = mux.drain_staged();
    assert_eq!(delivered.len(), 1);
    assert_eq!(delivered[0].1, id);
    // staged events are drained exactly once
    assert!(mux.drain_staged().is_empty());
}

#[test]
fn subnode_timers_get_their_own_namespace() {
    let mut mux = Multiplex::new();
    let mut root = mux.register(addr(1));
    let mut sub = mux.register_subnode(&root);
    let a = root.set(&mut mux);
    let b = sub.set(&mut mux);
    assert_eq!(a.0, 0);
    assert_eq!(b.0, 1);
    assert_ne!(a, b);
}

#[test]
fn stop_request_travels_the_rendezvous_channel() {
    let mut mux = Multiplex::new();
    let handle: MultiplexHandle = mux.handle();
    mux.enqueue(Event::Message(addr(1), addr(2), vec![1]));
    handle.stop(&mut mux);
    // rendezvous events win over queued datagrams
    match mux.next_event() {
        Some(Event::Stop) => {}
        _ => panic!("expected the stop request first"),
    }
    assert!(mux.stopped);
}

#[test]
fn pacing_counts_the_backlog() {
    let mut mux = Multiplex::new();
    for i in 0..3 {
        mux.enqueue(Event::Message(addr(1), addr(2), vec![i]));
    }
    // the initial budget is one event
    assert!(!mux.pace_due());
    mux.next_event();
    assert!(mux.pace_due());
    // pace resets to the backlog depth
    mux.reset_pace();
    assert_eq!(mux.pace_count, 2);
    mux.next_event();
    mux.next_event();
    assert!(mux.pace_due());
    // idle: the next pace comes after a single event
    mux.reset_pace();
    assert_eq!(mux.pace_count, 1);
}

#[test]
fn notifications_are_not_paced() {
    let mut mux = Multiplex::new();
    let mut ctx = mux.register(addr(1));
    let id = ctx.set(&mut mux);
    mux.stage_timer(addr(1), id);
    let before = mux.pace_count;
    match mux.next_event() {
        Some(Event::TimerNotification) => {}
        _ => panic!("expected a notification"),
    }
    assert_eq!(mux.pace_count, before);
}

#[test]
fn send_plans_resolve_destinations() {
    let table = AddrTable {
        replica_addrs: vec![addr(1), addr(2), addr(3), addr(4)],
        client_addrs: vec![addr(10)],
    };
    let (loopback, dests) = neobft::reactor::send_plan(&To::AllReplica, &table, 0);
    assert!(!loopback);
    assert_eq!(dests.len(), 4);

    let (loopback, dests) = neobft::reactor::send_plan(&To::AllReplicaWithLoopback, &table, 0);
    assert!(loopback);
    assert_eq!(dests.len(), 3);
    assert!(!dests.contains(&addr(1)));

    let (loopback, dests) = neobft::reactor::send_plan(&To::Replica(2), &table, 0);
    assert!(!loopback);
    assert_eq!(dests, vec![addr(3)]);

    let (loopback, dests) = neobft::reactor::send_plan(&To::Client(0), &table, 1);
    assert!(!loopback);
    assert_eq!(dests, vec![addr(10)]);

    let (loopback, dests) = neobft::reactor::send_plan(&To::Loopback, &table, 1);
    assert!(loopback);
    assert!(dests.is_empty());

    // a send to the upcall address is a loopback alone, never on the wire
    let (loopback, dests) = neobft::reactor::send_plan(&To::Addr(Addr::Upcall), &table, 1);
    assert!(loopback);
    assert!(dests.is_empty());
}
