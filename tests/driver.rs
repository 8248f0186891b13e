use blot::codec::{decode, encode};
use blot::driver::{take_frame, DriverError, Inbound};
use blot::queue::CommandQueue;
use blot::{BlotPacket, PacketState};

fn queued(id: u128, msg: &str, payload: Vec<u8>) -> BlotPacket {
    BlotPacket::with_identity(id, msg.to_string(), payload).unwrap()
}

fn sent(id: u128, index: u8) -> BlotPacket {
    BlotPacket { id, msg: "motorsOn".to_string(), payload: vec![], index: Some(index), state: PacketState::Sent }
}

#[test]
fn indices_cycle_through_nine() {
    let mut q = CommandQueue::new();
    for id in 1..=11u128 {
        q.push(queued(id, "motorsOn", vec![]));
    }
    let frames = q.flush();
    assert_eq!(frames.len(), 10);
    let expected: [u8; 10] = [1, 2, 3, 4, 5, 6, 7, 8, 0, 1];
    for (k, id) in (2..=11u128).enumerate() {
        let p = q.find_by_identity(id).unwrap();
        assert_eq!(p.index, Some(expected[k]));
        assert_eq!(p.state, PacketState::Sent);
        assert_eq!(decode(&frames[k]).unwrap().index, expected[k]);
    }
}

#[test]
fn later_pass_continues_after_last_index() {
    let mut q = CommandQueue::new();
    q.push(queued(1, "motorsOn", vec![]));
    assert_eq!(q.flush().len(), 1);
    q.push(queued(2, "motorsOff", vec![]));
    let frames = q.flush();
    assert_eq!(frames.len(), 1);
    assert_eq!(q.find_by_identity(2).unwrap().index, Some(2));
    assert!(q.flush().is_empty());
    q.push(sent(3, 8));
    q.push(queued(4, "setOrigin", vec![]));
    q.flush();
    assert_eq!(q.find_by_identity(4).unwrap().index, Some(0));
}

#[test]
fn ack_resolves_only_matching_record() {
    let mut q = CommandQueue::new();
    q.push(sent(30, 3));
    q.push(sent(50, 5));
    let ack = encode("ack", &[], 5).unwrap();
    assert_eq!(q.handle_frame(&ack).unwrap(), Inbound::Acknowledged(50));
    assert_eq!(q.find_by_identity(50).unwrap().state, PacketState::Resolved);
    assert_eq!(q.find_by_identity(30).unwrap().state, PacketState::Sent);
    assert_eq!(q.find_by_identity(30).unwrap().index, Some(3));
}

#[test]
fn unmatched_ack_changes_nothing() {
    let mut q = CommandQueue::new();
    q.push(sent(30, 3));
    let ack = encode("ack", &[], 4).unwrap();
    assert_eq!(q.handle_frame(&ack).unwrap(), Inbound::Unmatched(4));
    let ack = encode("ack", &[], 3).unwrap();
    assert_eq!(q.handle_frame(&ack).unwrap(), Inbound::Acknowledged(30));
    assert_eq!(q.handle_frame(&ack).unwrap(), Inbound::Unmatched(3));
    assert_eq!(q.find_by_identity(30).unwrap().state, PacketState::Resolved);
}

#[test]
fn malformed_frame_is_discarded() {
    let mut q = CommandQueue::new();
    q.push(sent(30, 3));
    assert_eq!(q.handle_frame(&[1, 2, 3]).unwrap(), Inbound::Discarded);
    assert_eq!(q.handle_frame(&[]).unwrap(), Inbound::Discarded);
    assert_eq!(q.find_by_identity(30).unwrap().state, PacketState::Sent);
}

#[test]
fn unexpected_message_is_fatal() {
    let mut q = CommandQueue::new();
    let frame = encode("go", &[1, 2], 1).unwrap();
    match q.handle_frame(&frame) {
        Err(DriverError::UnexpectedMessage(m)) => assert_eq!(m, "go"),
        other => panic!("expected an error, got {:?}", other),
    }
}

#[test]
fn motors_on_is_sent_and_resolved() {
    let mut q = CommandQueue::new();
    let p = BlotPacket::queued("motorsOn".to_string(), vec![]).unwrap();
    let id = p.id;
    q.push(p);
    assert!(q.poll_resolved(id).is_none());
    let frames = q.flush();
    assert_eq!(frames.len(), 1);
    let seen = decode(&frames[0]).unwrap();
    assert_eq!(seen.msg, "motorsOn");
    assert!(seen.payload.is_empty());
    assert_eq!(seen.index, 1);
    assert!(q.poll_resolved(id).is_none());
    let reply = encode("ack", &[], seen.index).unwrap();
    assert_eq!(q.handle_frame(&reply).unwrap(), Inbound::Acknowledged(id));
    let done = q.poll_resolved(id).unwrap();
    assert_eq!(done.state, PacketState::Resolved);
    assert_eq!(done.index, Some(1));
}

#[test]
fn go_coordinates_survive_the_wire() {
    let mut q = CommandQueue::new();
    let payload = [12.5f32.to_le_bytes(), (-3.0f32).to_le_bytes()].concat();
    q.push(queued(1, "go", payload));
    let frames = q.flush();
    let seen = decode(&frames[0]).unwrap();
    assert_eq!(seen.msg, "go");
    let x = f32::from_le_bytes(seen.payload[0..4].try_into().unwrap());
    let y = f32::from_le_bytes(seen.payload[4..8].try_into().unwrap());
    assert_eq!(x, 12.5);
    assert_eq!(y, -3.0);
}

#[test]
fn take_frame_splits_at_first_delimiter() {
    let mut buf = vec![1, 2, 0, 3, 0, 4];
    assert_eq!(take_frame(&mut buf), Some(vec![1, 2, 0]));
    assert_eq!(buf, vec![3, 0, 4]);
    assert_eq!(take_frame(&mut buf), Some(vec![3, 0]));
    assert_eq!(buf, vec![4]);
    assert_eq!(take_frame(&mut buf), None);
    assert_eq!(buf, vec![4]);
}
