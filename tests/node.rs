use p2p_node::clock::{Lamport, SyncError};
use p2p_node::directory::{NodeAction, PeerDirectory};
use p2p_node::dispatch::{handle_overlay_protocol, Dispatch, HandlingError};
use p2p_node::envelope::{EnvelopeError, LamportMessage, Message, MessageType, PeerIdentity};
use p2p_node::frame::{read_frame, write_frame, FrameError, GenericCodec, GenericProtocol, MAX_FRAME_SIZE};
use p2p_node::input::{build_input_message, input_handling};

fn id(b: &[u8]) -> PeerIdentity {
    PeerIdentity::new(b.to_vec())
}

fn gt() -> MessageType {
    MessageType::LamportMessage(LamportMessage::GenericTransaction)
}

#[test]
fn clock_starts_at_zero_and_ticks() {
    let mut c = Lamport::new();
    assert_eq!(c.get_timestamp(), 0);
    c.tick();
    c.tick();
    assert_eq!(c.get_timestamp(), 2);
}

#[test]
fn clock_update_takes_maximum() {
    let mut c = Lamport::new();
    c.update(7);
    assert_eq!(c.get_timestamp(), 7);
    c.update(3);
    assert_eq!(c.get_timestamp(), 7);
    c.tick();
    assert_eq!(c.get_timestamp(), 8);
    c.update(8);
    assert_eq!(c.get_timestamp(), 8);
}

#[test]
fn clock_never_goes_back() {
    let mut c = Lamport::new();
    let mut last = c.get_timestamp();
    for x in [5u64, 0, 2, 9, 9, 1] {
        c.update(x);
        assert!(c.get_timestamp() >= last);
        last = c.get_timestamp();
        c.tick();
        assert!(c.get_timestamp() > last);
        last = c.get_timestamp();
    }
    assert_eq!(last, 12);
}

#[test]
fn sync_error_keeps_message() {
    let e = SyncError::new("out of step");
    assert_eq!(e.description(), "out of step");
}

#[test]
fn protocol_name_is_versioned() {
    assert_eq!(GenericProtocol.protocol_name(), "/Generic/1");
    assert_eq!(GenericProtocol.protocol_name().as_bytes(), b"/Generic/1");
}

#[test]
fn frame_with_one_byte_prefix() {
    assert_eq!(write_frame(&[1, 2, 3]), vec![3, 1, 2, 3]);
    assert_eq!(write_frame(&[]), vec![0]);
}

#[test]
fn frame_with_two_byte_prefix() {
    let payload = vec![0xAAu8; 300];
    let f = write_frame(&payload);
    assert_eq!(&f[..2], &[0xAC, 0x02]);
    assert_eq!(f.len(), 302);
    assert_eq!(read_frame(&f, MAX_FRAME_SIZE), Ok(payload));
}

#[test]
fn frame_of_maximum_size_is_read() {
    let payload: Vec<u8> = (0..1024u32).map(|i| (i % 251) as u8).collect();
    let codec = GenericCodec;
    let f = codec.write_request(&payload);
    assert_eq!(codec.read_request(&f), Ok(payload));
}

#[test]
fn frame_over_maximum_size_is_refused() {
    // 1025 as a varint, with no payload bytes at all behind it
    assert_eq!(read_frame(&[0x81, 0x08], MAX_FRAME_SIZE), Err(FrameError::FrameTooLarge));
    let payload = vec![0u8; 1025];
    let f = write_frame(&payload);
    assert_eq!(GenericCodec.read_response(&f), Err(FrameError::FrameTooLarge));
}

#[test]
fn frame_truncated() {
    assert_eq!(read_frame(&[], MAX_FRAME_SIZE), Err(FrameError::Truncated));
    assert_eq!(read_frame(&[0x80], MAX_FRAME_SIZE), Err(FrameError::Truncated));
    assert_eq!(read_frame(&[3, 1, 2], MAX_FRAME_SIZE), Err(FrameError::Truncated));
}

#[test]
fn frame_with_needless_zero_digit_is_corrupted() {
    assert_eq!(read_frame(&[0x83, 0x00, 1, 2, 3], MAX_FRAME_SIZE), Err(FrameError::Corrupted));
}

#[test]
fn frame_ignores_bytes_after_payload() {
    assert_eq!(read_frame(&[2, 5, 6, 7, 8], MAX_FRAME_SIZE), Ok(vec![5, 6]));
}

#[test]
fn request_response_exchange() {
    let codec = GenericCodec;
    let sent = codec.write_request(&[0x01, 0x02, 0x03]);
    assert_eq!(sent, vec![3, 0x01, 0x02, 0x03]);
    let received = codec.read_request(&sent).unwrap();
    assert_eq!(received, vec![0x01, 0x02, 0x03]);
    let reply = codec.write_response(&received);
    assert_eq!(codec.read_response(&reply), Ok(vec![0x01, 0x02, 0x03]));
}

#[test]
fn envelope_exact_bytes() {
    let m = Message::new(gt(), None, id(&[7]), vec![9, 9]);
    assert_eq!(m.as_bytes(), vec![0, 0, 0, 1, 7, 2, 9, 9]);
    let m2 = Message::new(
        MessageType::LamportMessage(LamportMessage::GenericTransaction2),
        Some(id(&[4, 5])),
        id(&[7]),
        vec![],
    );
    assert_eq!(m2.as_bytes(), vec![0, 3, 1, 2, 4, 5, 1, 7, 0]);
}

#[test]
fn envelope_round_trip() {
    let kinds = [
        gt(),
        MessageType::LamportMessage(LamportMessage::GenericTransaction2),
    ];
    for k in kinds {
        for to in [None, Some(id(&[1, 2, 3])), Some(id(&[]))] {
            let m = Message::new(k, to, id(&[0xFF; 40]), vec![0x5A; 200]);
            let back = Message::from_bytes(&m.as_bytes()).unwrap();
            assert_eq!(back, m);
        }
    }
}

#[test]
fn envelope_refuses_trailing_and_short_input() {
    let mut b = Message::new(gt(), None, id(&[1]), vec![2]).as_bytes();
    b.push(0);
    assert_eq!(Message::from_bytes(&b), Err(EnvelopeError::Corrupted));
    assert_eq!(Message::from_bytes(&[0, 0]), Err(EnvelopeError::Corrupted));
    assert_eq!(Message::from_bytes(&[0, 0, 2, 1, 1, 0]), Err(EnvelopeError::Corrupted));
    assert_eq!(Message::from_bytes(&[9, 0, 0, 1, 1, 0]), Err(EnvelopeError::Corrupted));
}

#[test]
fn single_bit_flip_never_changes_kind() {
    let m = Message::new(
        MessageType::LamportMessage(LamportMessage::GenericTransaction2),
        Some(id(&[3, 3])),
        id(&[8]),
        vec![1, 2, 3, 4],
    );
    let b = m.as_bytes();
    let mut failures = 0;
    for i in 0..b.len() {
        for k in 0..8 {
            let mut f = b.clone();
            f[i] ^= 1 << k;
            match Message::from_bytes(&f) {
                Ok(d) => assert_eq!(d.message_type, m.message_type),
                Err(EnvelopeError::Corrupted) => failures += 1,
            }
        }
    }
    assert!(failures >= 16);
}

#[test]
fn addressed_to_other_node_is_discarded() {
    let m = Message::new(gt(), Some(id(&[1])), id(&[2]), vec![]);
    let r = handle_overlay_protocol(&id(&[3]), &m.as_bytes());
    assert!(matches!(r, Ok(Dispatch::Discarded)));
}

#[test]
fn addressed_to_this_node_is_handled() {
    let m = Message::new(gt(), Some(id(&[1])), id(&[2]), vec![6]);
    match handle_overlay_protocol(&id(&[1]), &m.as_bytes()) {
        Ok(Dispatch::Handled(d)) => assert_eq!(d, m),
        other => panic!("unexpected {:?}", other),
    }
}

#[test]
fn broadcast_is_handled_everywhere() {
    let m = Message::new(gt(), None, id(&[2]), vec![6]);
    for me in [id(&[1]), id(&[2]), id(&[])] {
        match handle_overlay_protocol(&me, &m.as_bytes()) {
            Ok(Dispatch::Handled(d)) => assert_eq!(d, m),
            other => panic!("unexpected {:?}", other),
        }
    }
}

#[test]
fn corrupted_bytes_are_reported() {
    let r = handle_overlay_protocol(&id(&[1]), &[0, 1, 0, 1, 2, 0]);
    assert!(matches!(r, Err(HandlingError::Corrupted)));
}

#[test]
fn kind_without_handler_is_unimplemented() {
    let m = Message::new(
        MessageType::LamportMessage(LamportMessage::GenericTransaction2),
        None,
        id(&[2]),
        vec![],
    );
    let r = handle_overlay_protocol(&id(&[1]), &m.as_bytes());
    assert!(matches!(r, Err(HandlingError::Unimplemented)));
}

#[test]
fn families_without_messages_do_not_decode() {
    // mutual-exclusion (3) and consensus (5) family tags, otherwise well formed
    for family in [3u8, 5u8] {
        let b = [family, 0, 0, 1, 2, 0];
        assert_eq!(Message::from_bytes(&b), Err(EnvelopeError::Corrupted));
        let r = handle_overlay_protocol(&id(&[1]), &b);
        assert!(matches!(r, Err(HandlingError::Corrupted)));
    }
}

#[test]
fn input_line_addressing() {
    let me = id(&[4, 2]);
    let text: Vec<u8> = {
        let mut v = vec![12, 0, 0, 0, 0, 0, 0, 0];
        v.extend_from_slice(b"Test message");
        v
    };
    let a = input_handling(&me, "A hello");
    assert_eq!(a.to, Some(me.clone()));
    assert_eq!(a.from, me);
    assert_eq!(a.data, text);
    assert_eq!(a.message_type, gt());
    let alone = input_handling(&me, "A");
    assert_eq!(alone.to, Some(me.clone()));
    let other = input_handling(&me, "Apple pie");
    assert_eq!(other.data, text);
    assert_eq!(input_handling(&me, "").to, None);
    assert_eq!(input_handling(&me, "hi").to, None);
    assert_eq!(other.to, None);
    let b = build_input_message(&me, "B x", vec![1]);
    assert_eq!(b.to, None);
    assert_eq!(b.data, vec![1]);
    let empty = build_input_message(&me, "", vec![]);
    assert_eq!(empty.to, None);
}

#[test]
fn directory_records_and_merges_addresses() {
    let mut d = PeerDirectory::new();
    assert!(d.addresses_of(&id(&[1])).is_empty());
    assert!(d.record_discovery(id(&[1]), vec![10]));
    assert!(!d.record_discovery(id(&[1]), vec![11]));
    assert!(!d.record_discovery(id(&[1]), vec![10]));
    assert!(d.record_discovery(id(&[2]), vec![10]));
    assert_eq!(d.addresses_of(&id(&[1])), vec![vec![10], vec![11]]);
    assert_eq!(d.addresses_of(&id(&[2])), vec![vec![10]]);
    assert!(d.addresses_of(&id(&[3])).is_empty());
}

#[test]
fn discovery_fans_out() {
    let mut d = PeerDirectory::new();
    let actions = d.handle_discovered(vec![(id(&[1]), vec![10]), (id(&[2]), vec![20])]);
    assert_eq!(actions.len(), 4);
    match &actions[0] {
        NodeAction::AddAddress(p, a) => {
            assert_eq!(p, &id(&[1]));
            assert_eq!(a, &vec![10]);
        }
        other => panic!("unexpected {:?}", other),
    }
    assert!(matches!(&actions[1], NodeAction::AddToPartialView(p) if p == &id(&[1])));
    assert!(matches!(&actions[2], NodeAction::AddAddress(p, a) if p == &id(&[2]) && a == &vec![20]));
    assert!(matches!(&actions[3], NodeAction::AddToPartialView(p) if p == &id(&[2])));
    assert_eq!(d.addresses_of(&id(&[2])), vec![vec![20]]);
}
