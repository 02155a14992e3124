use bincode::Options;
use neobft::chain::{block_digest, parse_block, Block, Request};
use neobft::messages::{
    deserialize_message, serialize_message, verification_checks, Generic, Message, Reply, Signed,
    Signer, Vote,
};

fn sample_request() -> Request {
    Request { client_index: 7, request_num: 4, op: vec![1, 2, 3] }
}

fn sample_block() -> Block {
    Block { parent_digest: vec![9u8; 32], height: 5, requests: vec![sample_request()] }
}

#[test]
fn request_message_round_trip() {
    let m = Message::Request(Signed { inner: sample_request(), signature: vec![0xaa, 0xbb] });
    let bytes = serialize_message(&m);
    let back = deserialize_message(&bytes).expect("parse");
    match back {
        Message::Request(s) => {
            assert_eq!(s.inner.client_index, 7);
            assert_eq!(s.inner.request_num, 4);
            assert_eq!(s.inner.op, vec![1, 2, 3]);
            assert_eq!(s.signature, vec![0xaa, 0xbb]);
        }
        _ => panic!("wrong variant"),
    }
}

#[test]
fn reply_message_round_trip() {
    let m = Message::Reply(Signed {
        inner: Reply { request_num: 9, result: vec![4, 5], replica_index: 2 },
        signature: vec![],
    });
    let bytes = serialize_message(&m);
    match deserialize_message(&bytes).expect("parse") {
        Message::Reply(s) => {
            assert_eq!(s.inner.request_num, 9);
            assert_eq!(s.inner.result, vec![4, 5]);
            assert_eq!(s.inner.replica_index, 2);
            assert!(s.signature.is_empty());
        }
        _ => panic!("wrong variant"),
    }
}

#[test]
fn vote_message_round_trip() {
    let m = Message::Vote(Signed {
        inner: Vote { block_digest: vec![3u8; 32], replica_index: 1 },
        signature: vec![7, 7, 7],
    });
    let bytes = serialize_message(&m);
    match deserialize_message(&bytes).expect("parse") {
        Message::Vote(s) => {
            assert_eq!(s.inner.block_digest, vec![3u8; 32]);
            assert_eq!(s.inner.replica_index, 1);
            assert_eq!(s.signature, vec![7, 7, 7]);
        }
        _ => panic!("wrong variant"),
    }
}

#[test]
fn generic_message_round_trip() {
    let cert = vec![
        Signed { inner: Vote { block_digest: vec![3u8; 32], replica_index: 0 }, signature: vec![1] },
        Signed { inner: Vote { block_digest: vec![3u8; 32], replica_index: 1 }, signature: vec![2] },
    ];
    let m = Message::Generic(Signed {
        inner: Generic {
            block: sample_block(),
            certified_digest: vec![3u8; 32],
            certificate: cert,
            replica_index: 0,
        },
        signature: vec![9],
    });
    let bytes = serialize_message(&m);
    match deserialize_message(&bytes).expect("parse") {
        Message::Generic(s) => {
            assert_eq!(s.inner.block.height, 5);
            assert_eq!(s.inner.block.parent_digest, vec![9u8; 32]);
            assert_eq!(s.inner.block.requests.len(), 1);
            assert_eq!(s.inner.block.requests[0].op, vec![1, 2, 3]);
            assert_eq!(s.inner.certified_digest, vec![3u8; 32]);
            assert_eq!(s.inner.certificate.len(), 2);
            assert_eq!(s.inner.certificate[1].inner.replica_index, 1);
            assert_eq!(s.signature, vec![9]);
        }
        _ => panic!("wrong variant"),
    }
}

#[test]
fn trailing_bytes_are_tolerated() {
    let m = Message::Vote(Signed {
        inner: Vote { block_digest: vec![0u8; 32], replica_index: 3 },
        signature: vec![],
    });
    let mut bytes = serialize_message(&m);
    bytes.extend_from_slice(&[0xde, 0xad]);
    assert!(deserialize_message(&bytes).is_some());
}

#[test]
fn truncated_message_is_rejected() {
    let m = Message::Request(Signed { inner: sample_request(), signature: vec![] });
    let mut bytes = serialize_message(&m);
    bytes.truncate(bytes.len() - 1);
    assert!(deserialize_message(&bytes).is_none());
}

/// The payload layout matches bincode's fixed-int little-endian encoding of
/// the same data (tuples encode exactly like field-ordered structs).
#[test]
fn layout_matches_bincode_fixint() {
    let opts = bincode::options()
        .with_fixint_encoding()
        .with_little_endian();
    let m = neobft::unreplicated::Message::Request(Signed {
        inner: sample_request(),
        signature: vec![0xaa, 0xbb],
    });
    let mine = neobft::unreplicated::serialize_message(&m);
    let expected = opts
        .serialize(&(0u32, (7u16, 4u32, vec![1u8, 2, 3]), vec![0xaau8, 0xbb]))
        .unwrap();
    assert_eq!(mine, expected);

    let r = neobft::unreplicated::Message::Reply(Signed {
        inner: neobft::unreplicated::Reply { request_num: 6, result: vec![8, 9] },
        signature: vec![],
    });
    let mine_r = neobft::unreplicated::serialize_message(&r);
    let expected_r = opts
        .serialize(&(1u32, (6u32, vec![8u8, 9]), Vec::<u8>::new()))
        .unwrap();
    assert_eq!(mine_r, expected_r);
}

#[test]
fn unreplicated_round_trip() {
    let m = neobft::unreplicated::Message::Reply(Signed {
        inner: neobft::unreplicated::Reply { request_num: 6, result: vec![8, 9] },
        signature: vec![5],
    });
    let bytes = neobft::unreplicated::serialize_message(&m);
    match neobft::unreplicated::deserialize_message(&bytes).expect("parse") {
        neobft::unreplicated::Message::Reply(s) => {
            assert_eq!(s.inner.request_num, 6);
            assert_eq!(s.inner.result, vec![8, 9]);
            assert_eq!(s.signature, vec![5]);
        }
        _ => panic!("wrong variant"),
    }
}

/// A proposal owes its own signature check plus one per certificate vote,
/// except that a genesis-certified proposal's (empty) certificate is
/// exempt; other messages owe exactly their sender's check.
#[test]
fn verification_checks_follow_the_dispatch_rule() {
    let genesis = vec![7u8; 32];
    let cert = vec![
        Signed { inner: Vote { block_digest: vec![3u8; 32], replica_index: 1 }, signature: vec![1] },
        Signed { inner: Vote { block_digest: vec![3u8; 32], replica_index: 2 }, signature: vec![2] },
    ];
    let proposal = Message::Generic(Signed {
        inner: Generic {
            block: sample_block(),
            certified_digest: vec![3u8; 32],
            certificate: cert,
            replica_index: 0,
        },
        signature: vec![9],
    });
    let checks = verification_checks(&proposal, &genesis);
    assert_eq!(checks.len(), 3);
    assert_eq!(checks[0].signer, Signer::Replica(0));
    assert_eq!(checks[0].signature, vec![9]);
    assert_eq!(checks[1].signer, Signer::Replica(1));
    assert_eq!(checks[2].signer, Signer::Replica(2));

    let exempt = Message::Generic(Signed {
        inner: Generic {
            block: sample_block(),
            certified_digest: genesis.clone(),
            certificate: Vec::new(),
            replica_index: 3,
        },
        signature: vec![8],
    });
    let exempt_checks = verification_checks(&exempt, &genesis);
    assert_eq!(exempt_checks.len(), 1);
    assert_eq!(exempt_checks[0].signer, Signer::Replica(3));

    let request = Message::Request(Signed { inner: sample_request(), signature: vec![4] });
    let request_checks = verification_checks(&request, &genesis);
    assert_eq!(request_checks.len(), 1);
    assert_eq!(request_checks[0].signer, Signer::Client);
}

#[test]
fn block_digest_is_deterministic_and_content_sensitive() {
    let a = sample_block();
    let b = sample_block();
    assert_eq!(block_digest(&a), block_digest(&b));
    let mut c = sample_block();
    c.height = 6;
    assert_ne!(block_digest(&a), block_digest(&c));
}

#[test]
fn block_parse_round_trip() {
    let b = sample_block();
    let mut buf = Vec::new();
    neobft::chain::encode_block(&mut buf, &b);
    let (parsed, end) = parse_block(&buf, 0).expect("parse");
    assert_eq!(end, buf.len());
    assert_eq!(parsed.height, 5);
    assert_eq!(parsed.parent_digest, vec![9u8; 32]);
    assert_eq!(parsed.requests.len(), 1);
    assert_eq!(parsed.requests[0].client_index, 7);
}
