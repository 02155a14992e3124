use neobft::addr::{Action, Addr, Payload, To};
use neobft::hotstuff::{Client, EchoApp, Replica};
use neobft::messages::{Message, Signed};

fn client_addr() -> Addr {
    Addr::Socket(0x0a00000a, 20000)
}

fn replica_addr(i: usize) -> Addr {
    Addr::Socket(0x0a000001 + i as u32, 10000)
}

/// Route every queued send to its destination until the network is quiet,
/// collecting results the client delivers.
fn route(
    mut queue: Vec<(Option<usize>, Action<Payload>)>,
    replicas: &mut Vec<Replica<EchoApp>>,
    client: &mut Client,
    delivered: &mut Vec<Vec<u8>>,
) {
    while let Some((origin, action)) = {
        if queue.is_empty() {
            None
        } else {
            Some(queue.remove(0))
        }
    } {
        let (to, payload) = match action {
            Action::Send(to, payload) => (to, payload),
            _ => continue,
        };
        let message = |payload: &Payload| match payload {
            Payload::Request(q) => Message::Request(Signed { inner: q.duplicate(), signature: vec![] }),
            Payload::Reply(r) => Message::Reply(Signed { inner: r.duplicate(), signature: vec![] }),
            Payload::Generic(g) => Message::Generic(Signed { inner: g.duplicate(), signature: vec![] }),
            Payload::Vote(v) => Message::Vote(Signed { inner: v.duplicate(), signature: vec![] }),
        };
        match to {
            To::AllReplica => {
                for (j, replica) in replicas.iter_mut().enumerate() {
                    let mut acts = Vec::new();
                    replica.handle(client_addr(), message(&payload), &mut acts);
                    queue.extend(acts.into_iter().map(|a| (Some(j), a)));
                }
            }
            To::AllReplicaWithLoopback => {
                let origin = origin.expect("replica origin");
                for j in 0..replicas.len() {
                    let mut acts = Vec::new();
                    if j == origin {
                        replicas[j].handle_loopback(message(&payload), &mut acts);
                    } else {
                        replicas[j].handle(replica_addr(origin), message(&payload), &mut acts);
                    }
                    queue.extend(acts.into_iter().map(|a| (Some(j), a)));
                }
            }
            To::Loopback => {
                let origin = origin.expect("replica origin");
                let mut acts = Vec::new();
                replicas[origin].handle_loopback(message(&payload), &mut acts);
                queue.extend(acts.into_iter().map(|a| (Some(origin), a)));
            }
            To::Replica(i) => {
                let origin = origin.expect("replica origin");
                let mut acts = Vec::new();
                replicas[i as usize].handle(replica_addr(origin), message(&payload), &mut acts);
                queue.extend(acts.into_iter().map(|a| (Some(i as usize), a)));
            }
            To::Client(_) => {
                let mut acts = Vec::new();
                if let Some(result) = client.handle(message(&payload), &mut acts) {
                    delivered.push(result);
                }
            }
            To::Addr(_) => {
                let mut acts = Vec::new();
                if let Some(result) = client.handle(message(&payload), &mut acts) {
                    delivered.push(result);
                }
            }
        }
    }
}

fn pace_primary(
    replicas: &mut Vec<Replica<EchoApp>>,
    client: &mut Client,
    delivered: &mut Vec<Vec<u8>>,
) {
    let mut acts = Vec::new();
    replicas[0].on_pace(&mut acts);
    route(
        acts.into_iter().map(|a| (Some(0), a)).collect(),
        replicas,
        client,
        delivered,
    );
}

/// Four replicas tolerating one fault, an echoing application.  One client
/// request lands in the first block; after three further (empty) blocks the
/// first commits and the client hears back from two replicas.
#[test]
fn three_chain_commit() {
    let mut replicas: Vec<Replica<EchoApp>> =
        (0..4).map(|i| Replica::new(i as u8, 4, 1, EchoApp {})).collect();
    let mut client = Client::new(0, 1);
    let mut delivered = Vec::new();

    let mut acts = Vec::new();
    client.invoke(vec![1, 2, 3], &mut acts);
    route(
        acts.into_iter().map(|a| (None, a)).collect(),
        &mut replicas,
        &mut client,
        &mut delivered,
    );
    assert!(delivered.is_empty());

    // the proposal carrying the request, then three empty blocks
    for _ in 0..4 {
        pace_primary(&mut replicas, &mut client, &mut delivered);
    }
    assert_eq!(delivered, vec![vec![1, 2, 3]]);
    assert_eq!(client.request_num, 1);
    assert!(client.invoke_op.is_none());
}

/// Empty-block proposals advance the height even with no client traffic,
/// and the commit of the first block of a three-chain still happens.
#[test]
fn empty_blocks_advance_and_commit() {
    let mut replicas: Vec<Replica<EchoApp>> =
        (0..4).map(|i| Replica::new(i as u8, 4, 1, EchoApp {})).collect();
    let mut client = Client::new(0, 1);
    let mut delivered = Vec::new();

    let mut acts = Vec::new();
    client.invoke(vec![5], &mut acts);
    route(
        acts.into_iter().map(|a| (None, a)).collect(),
        &mut replicas,
        &mut client,
        &mut delivered,
    );

    pace_primary(&mut replicas, &mut client, &mut delivered);
    assert_eq!(replicas[0].propose_height, 1);
    pace_primary(&mut replicas, &mut client, &mut delivered);
    assert_eq!(replicas[0].propose_height, 2);
    pace_primary(&mut replicas, &mut client, &mut delivered);
    assert_eq!(replicas[0].propose_height, 3);
    assert!(delivered.is_empty());
    pace_primary(&mut replicas, &mut client, &mut delivered);
    assert_eq!(replicas[0].propose_height, 4);
    assert_eq!(delivered, vec![vec![5]]);
}

/// A proposal whose ancestors are unknown is parked and drained once the
/// missing ancestor arrives; both end up accepted.
#[test]
fn out_of_order_proposals_are_reordered() {
    // capture two consecutive proposals from a two-replica run
    let mut replicas: Vec<Replica<EchoApp>> =
        (0..2).map(|i| Replica::new(i as u8, 2, 0, EchoApp {})).collect();
    let mut client = Client::new(0, 0);
    let mut delivered = Vec::new();
    let mut acts = Vec::new();
    client.invoke(vec![7], &mut acts);
    route(
        acts.into_iter().map(|a| (None, a)).collect(),
        &mut replicas,
        &mut client,
        &mut delivered,
    );

    let mut proposals = Vec::new();
    for _ in 0..2 {
        let mut acts = Vec::new();
        replicas[0].on_pace(&mut acts);
        for a in &acts {
            if let Action::Send(To::AllReplicaWithLoopback, Payload::Generic(g)) = a {
                proposals.push(g.duplicate());
            }
        }
        route(
            acts.into_iter().map(|a| (Some(0), a)).collect(),
            &mut replicas,
            &mut client,
            &mut delivered,
        );
    }
    assert_eq!(proposals.len(), 2);

    // a fresh backup sees the second proposal first
    let mut backup: Replica<EchoApp> = Replica::new(1, 2, 0, EchoApp {});
    assert_eq!(backup.generics.entries.len(), 1);
    let mut acts = Vec::new();
    backup.handle(
        replica_addr(0),
        Message::Generic(Signed { inner: proposals[1].duplicate(), signature: vec![] }),
        &mut acts,
    );
    // parked: nothing accepted yet
    assert_eq!(backup.generics.entries.len(), 1);
    assert_eq!(backup.reordering_generics.entries.len(), 1);
    let mut acts = Vec::new();
    backup.handle(
        replica_addr(0),
        Message::Generic(Signed { inner: proposals[0].duplicate(), signature: vec![] }),
        &mut acts,
    );
    // both accepted, the stash drained
    assert_eq!(backup.generics.entries.len(), 3);
    assert_eq!(backup.reordering_generics.entries.len(), 0);
}

/// No result completes an invocation before `num_faulty + 1` distinct
/// replicas report it, and the completing result is the majority one.
#[test]
fn reply_matching_bound() {
    let mut client = Client::new(0, 1);
    let mut acts = Vec::new();
    client.invoke(vec![9], &mut acts);

    let reply = |replica_index: u8, result: Vec<u8>| {
        Message::Reply(Signed {
            inner: neobft::messages::Reply { request_num: 1, result, replica_index },
            signature: vec![],
        })
    };
    let mut acts = Vec::new();
    assert!(client.handle(reply(0, vec![9]), &mut acts).is_none());
    // a mismatching result does not help
    assert!(client.handle(reply(1, vec![8]), &mut acts).is_none());
    // a duplicate from the same replica replaces, not adds
    assert!(client.handle(reply(0, vec![9]), &mut acts).is_none());
    // the second distinct matching replica completes
    let result = client.handle(reply(2, vec![9]), &mut acts);
    assert_eq!(result, Some(vec![9]));
    assert!(client.invoke_op.is_none());
}

/// Results are delivered with strictly increasing request numbers.
#[test]
fn per_client_fifo() {
    let mut client = Client::new(3, 0);
    for round in 1u8..=3 {
        let mut acts = Vec::new();
        client.invoke(vec![round], &mut acts);
        assert_eq!(client.request_num, round as u32);
        let reply = Message::Reply(Signed {
            inner: neobft::messages::Reply {
                request_num: round as u32,
                result: vec![round],
                replica_index: 0,
            },
            signature: vec![],
        });
        let mut acts = Vec::new();
        let delivered = client.handle(reply, &mut acts);
        assert_eq!(delivered, Some(vec![round]));
    }
}

/// The genesis self-loop terminates the ancestry walk: from the stored
/// genesis block the walk reaches only genesis's own digest.
#[test]
fn genesis_walk_terminates() {
    let replica: Replica<EchoApp> = Replica::new(0, 1, 0, EchoApp {});
    let (genesis_digest, stored) = {
        let entry = &replica.generics.entries[0];
        (entry.0.clone(), entry.1.inner.block.duplicate())
    };
    assert_eq!(stored.parent_digest, genesis_digest);
    assert!(replica.extend(&stored, &genesis_digest));
    assert!(!replica.extend(&stored, &vec![7u8; 32]));
}

/// A stale reply for an earlier request is ignored.
#[test]
fn stale_reply_is_ignored() {
    let mut client = Client::new(0, 0);
    let mut acts = Vec::new();
    client.invoke(vec![1], &mut acts);
    let mut acts = Vec::new();
    let complete = client.handle(
        Message::Reply(Signed {
            inner: neobft::messages::Reply { request_num: 1, result: vec![1], replica_index: 0 },
            signature: vec![],
        }),
        &mut acts,
    );
    assert_eq!(complete, Some(vec![1]));
    let mut acts = Vec::new();
    client.invoke(vec![2], &mut acts);
    let mut acts = Vec::new();
    let stale = client.handle(
        Message::Reply(Signed {
            inner: neobft::messages::Reply { request_num: 1, result: vec![1], replica_index: 0 },
            signature: vec![],
        }),
        &mut acts,
    );
    assert!(stale.is_none());
    assert!(client.invoke_op.is_some());
}
