use neobft::addr::Addr;
use neobft::multicast::{
    serialize, Delegate, OrderedMulticast, Sequencer, Signature, Variant,
};

fn signing_key() -> Vec<u8> {
    vec![1u8; 32]
}

fn remote() -> Addr {
    Addr::Socket(0x0a000001, 60004)
}

fn stamp(sequencer: &mut Sequencer, payload: &[u8]) -> Vec<u8> {
    let framed = serialize(&payload.to_vec());
    let process = sequencer.process(framed);
    let mut out = process.apply();
    assert_eq!(out.len(), 1);
    out.pop().unwrap()
}

#[test]
fn unstamped_envelope_layout() {
    let payload = vec![42u8; 10];
    let framed = serialize(&payload);
    assert_eq!(framed.len(), 110);
    let digest = <k256::sha2::Sha256 as k256::sha2::Digest>::digest(&payload);
    assert_eq!(&framed[0..20], &[0u8; 20]);
    assert_eq!(&framed[20..28], &digest[0..8]);
    assert_eq!(&framed[28..68], &[0u8; 40]);
    assert_eq!(&framed[68..100], &digest[..]);
    assert_eq!(&framed[100..], &payload[..]);
}

#[test]
fn signed_datagram_verifies() {
    let mut sequencer = Sequencer::new_k256(signing_key()).expect("key");
    let variant = Variant::new_k256(&signing_key()).expect("key");
    let datagram = stamp(&mut sequencer, b"hello");
    let message = variant.deserialize(&datagram);
    assert_eq!(message.seq_num, 1);
    assert!(matches!(message.signature, Signature::K256(_)));
    assert!(variant.verify(&message).is_ok());
}

#[test]
fn tampered_datagram_fails_verification() {
    let mut sequencer = Sequencer::new_k256(signing_key()).expect("key");
    let variant = Variant::new_k256(&signing_key()).expect("key");
    let mut datagram = stamp(&mut sequencer, b"hello");
    let last = datagram.len() - 1;
    datagram[last] ^= 0xff;
    let message = variant.deserialize(&datagram);
    assert!(variant.verify(&message).is_err());
}

/// An all-zero signature region parses as a linked message and is released
/// without waiting, while a held signed message is released by the next
/// signed arrival or by a pace.
#[test]
fn zero_signature_region_is_linked() {
    let mut sequencer = Sequencer::new_k256(signing_key()).expect("key");
    let variant = Variant::new_k256(&signing_key()).expect("key");
    let mut datagram = stamp(&mut sequencer, b"linked");
    for b in datagram[4..68].iter_mut() {
        *b = 0;
    }
    let message = variant.deserialize(&datagram);
    assert!(matches!(message.signature, Signature::K256Linked));
    assert!(variant.verify(&message).is_ok());

    let mut delegate = variant.delegate();
    let released = delegate
        .on_receive(&variant, remote(), message)
        .expect("verify");
    assert!(released.is_some());
}

/// The ordered-multicast linking scenario: five messages, the second and
/// fourth with their signature regions zeroed.  With a pace after each
/// arrival, the receiver releases all five payloads in sequence order, and
/// only the first, third, and fifth carry a directly checked signature.
#[test]
fn k256_linking_releases_in_order() {
    let mut sequencer = Sequencer::new_k256(signing_key()).expect("key");
    let variant = Variant::new_k256(&signing_key()).expect("key");
    let mut datagrams = Vec::new();
    for i in 1u8..=5 {
        let mut datagram = stamp(&mut sequencer, &[i]);
        if i == 2 || i == 4 {
            for b in datagram[4..68].iter_mut() {
                *b = 0;
            }
        }
        datagrams.push(datagram);
    }

    let mut delegate = variant.delegate();
    let mut released: Vec<OrderedMulticast> = Vec::new();
    let mut directly_verified = Vec::new();
    for datagram in &datagrams {
        let message = variant.deserialize(datagram);
        if let Some((_, m)) = delegate
            .on_receive(&variant, remote(), message)
            .expect("verify")
        {
            assert!(variant.verify(&m).is_ok());
            directly_verified.push(matches!(m.signature, Signature::K256(_)));
            released.push(m);
        }
        if let Some((_, m)) = delegate.on_pace() {
            assert!(variant.verify(&m).is_ok());
            directly_verified.push(matches!(m.signature, Signature::K256(_)));
            released.push(m);
        }
    }
    let seqs: Vec<u32> = released.iter().map(|m| m.seq_num).collect();
    assert_eq!(seqs, vec![1, 2, 3, 4, 5]);
    let payloads: Vec<u8> = released.iter().map(|m| m.payload[0]).collect();
    assert_eq!(payloads, vec![1, 2, 3, 4, 5]);
    assert_eq!(directly_verified, vec![true, false, true, false, true]);
}

/// Without intervening paces, a signed message is held until the next
/// signed arrival releases it with a chain-implied signature.
#[test]
fn held_message_released_by_next_signed() {
    let mut sequencer = Sequencer::new_k256(signing_key()).expect("key");
    let variant = Variant::new_k256(&signing_key()).expect("key");
    let first = variant.deserialize(&stamp(&mut sequencer, b"a"));
    let second = variant.deserialize(&stamp(&mut sequencer, b"b"));

    let mut delegate = variant.delegate();
    assert!(delegate
        .on_receive(&variant, remote(), first)
        .expect("verify")
        .is_none());
    let released = delegate
        .on_receive(&variant, remote(), second)
        .expect("verify")
        .expect("released");
    assert_eq!(released.1.seq_num, 1);
    assert!(matches!(released.1.signature, Signature::K256Unverified(_)));
    let flushed = delegate.on_pace().expect("flush");
    assert_eq!(flushed.1.seq_num, 2);
    assert!(matches!(flushed.1.signature, Signature::K256(_)));
}

#[test]
fn half_sip_hash_copies_and_slots() {
    let mut sequencer = Sequencer::new_half_sip_hash(8);
    let framed = serialize(&vec![9u8; 4]);
    let process = sequencer.process(framed);
    let copies = process.apply();
    assert_eq!(copies.len(), 2);
    assert_eq!(&copies[0][4..8], &[0xcc, 0xcc, 0xcc, 0]);
    assert_eq!(&copies[0][8..12], &[0xcc, 0xcc, 0xcc, 1]);
    assert_eq!(&copies[1][4..8], &[0xcc, 0xcc, 0xcc, 4]);
    assert_eq!(&copies[1][16..20], &[0xcc, 0xcc, 0xcc, 7]);

    // receiver 5 accepts the copy covering receivers 4..8 and skips the
    // other
    let variant = Variant::new_half_sip_hash(5);
    let mut delegate = variant.delegate();
    let covering = variant.deserialize(&copies[1]);
    let released = delegate
        .on_receive(&variant, remote(), covering)
        .expect("verify");
    assert!(released.is_some());
    let other = variant.deserialize(&copies[0]);
    let skipped = delegate
        .on_receive(&variant, remote(), other)
        .expect("verify");
    assert!(skipped.is_none());
}

#[test]
fn rejected_key_bytes() {
    assert!(Sequencer::new_k256(vec![0u8; 32]).is_none());
    assert!(Variant::new_k256(&vec![0u8; 32]).is_none());
    assert!(Sequencer::new_k256(vec![1u8; 16]).is_none());
}
