use neobft::addr::{Action, Addr, To};
use neobft::hotstuff::EchoApp;
use neobft::messages::Signed;
use neobft::unreplicated::{Client, Message, Payload, Replica, Reply};

fn client_addr() -> Addr {
    Addr::Socket(0x0a00000a, 20001)
}

fn request_message(client_index: u16, request_num: u32, op: Vec<u8>) -> Message {
    Message::Request(Signed {
        inner: neobft::chain::Request { client_index, request_num, op },
        signature: vec![],
    })
}

/// One client, one replica, an echoing application: the invocation comes
/// back as sent, with request number 1.
#[test]
fn happy_path() {
    let mut client = Client::new(0);
    let mut replica: Replica<EchoApp> = Replica::new(EchoApp {});

    let mut acts = Vec::new();
    client.invoke(vec![1, 2, 3], &mut acts);
    assert_eq!(client.request_num, 1);
    let request = acts
        .iter()
        .find_map(|a| match a {
            Action::Send(To::Replica(0), Payload::Request(q)) => Some(q.duplicate()),
            _ => None,
        })
        .expect("request sent");

    let mut racts = Vec::new();
    replica.handle(
        client_addr(),
        Message::Request(Signed { inner: request, signature: vec![] }),
        &mut racts,
    );
    let reply = racts
        .iter()
        .find_map(|a| match a {
            Action::Send(To::Client(0), Payload::Reply(r)) => Some(r.duplicate()),
            _ => None,
        })
        .expect("reply sent");

    let mut cacts = Vec::new();
    let result = client.handle(
        Message::Reply(Signed { inner: reply, signature: vec![] }),
        &mut cacts,
    );
    assert_eq!(result, Some(vec![1, 2, 3]));
    assert_eq!(client.request_num, 1);
}

/// The same request sent twice executes once and is answered twice with the
/// same reply.
#[test]
fn idempotent_re_request() {
    let mut replica: Replica<EchoApp> = Replica::new(EchoApp {});
    let mut first = Vec::new();
    replica.handle(client_addr(), request_message(7, 4, vec![6]), &mut first);
    let mut second = Vec::new();
    replica.handle(client_addr(), request_message(7, 4, vec![6]), &mut second);

    let take = |acts: &Vec<Action<Payload>>| -> Reply {
        acts.iter()
            .find_map(|a| match a {
                Action::Send(_, Payload::Reply(r)) => Some(r.duplicate()),
                _ => None,
            })
            .expect("reply")
    };
    let r1 = take(&first);
    let r2 = take(&second);
    assert_eq!(r1.request_num, 4);
    assert_eq!(r2.request_num, 4);
    assert_eq!(r1.result, vec![6]);
    assert_eq!(r2.result, vec![6]);
    // the cached reply answers the repeat: one entry per client, unchanged
    assert_eq!(replica.replies.entries.len(), 1);
}

/// A stale request (lower number than the cached reply) is dropped.
#[test]
fn stale_request_is_dropped() {
    let mut replica: Replica<EchoApp> = Replica::new(EchoApp {});
    let mut acts = Vec::new();
    replica.handle(client_addr(), request_message(1, 5, vec![1]), &mut acts);
    let mut stale = Vec::new();
    replica.handle(client_addr(), request_message(1, 4, vec![2]), &mut stale);
    assert!(stale.is_empty());
}

/// In block mode requests wait for the pace, which batches them into one
/// block, executes it, and answers every client.
#[test]
fn block_mode_batches_at_pace() {
    let mut replica: Replica<EchoApp> = Replica::new(EchoApp {});
    replica.make_blocks = true;
    let mut acts = Vec::new();
    replica.handle(client_addr(), request_message(1, 1, vec![1]), &mut acts);
    replica.handle(client_addr(), request_message(2, 1, vec![2]), &mut acts);
    assert!(acts.is_empty());
    let mut pace = Vec::new();
    replica.on_pace(&mut pace);
    let replies: Vec<(u16, Vec<u8>)> = pace
        .iter()
        .filter_map(|a| match a {
            Action::Send(To::Client(i), Payload::Reply(r)) => Some((*i, r.result.clone())),
            _ => None,
        })
        .collect();
    assert_eq!(replies, vec![(1, vec![1]), (2, vec![2])]);
    assert_eq!(replica.blocks.entries.len(), 1);
    assert!(replica.chain.next_execute().is_none());
}
