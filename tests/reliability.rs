use rendezvous::addr::PeerAddr;
use rendezvous::codec::{build_ack_frame, ClientPacket, ServerPacket};
use rendezvous::keys::generate_key;
use rendezvous::reliability::{PacketReciever, PacketShipper};

fn peer() -> PeerAddr {
    PeerAddr { ip: 0x0A000001, port: 4000 }
}

#[test]
fn shipper_assigns_ascending_ids() {
    let mut s = PacketShipper::new(peer());
    assert_eq!(s.send(&ServerPacket::Ping, 0), vec![1, 0, 0, 0, 0, 0, 0]);
    assert_eq!(s.send(&ServerPacket::Ping, 0), vec![1, 1, 0, 0, 0, 0, 0]);
    assert_eq!(s.send(&ServerPacket::Close, 0), vec![1, 2, 0, 0, 0, 4, 0]);
}

#[test]
fn resend_takes_exactly_the_aged_packets() {
    let mut s = PacketShipper::new(peer());
    let first = s.send(&ServerPacket::Ping, 100);
    let second = s.send(&ServerPacket::Close, 130);
    assert!(s.resend_unacknowledged_packets(149).is_empty());
    assert_eq!(s.resend_unacknowledged_packets(150), vec![first.clone()]);
    assert_eq!(s.resend_unacknowledged_packets(180), vec![first.clone(), second.clone()]);
    assert!(s.resend_unacknowledged_packets(50).is_empty());
}

#[test]
fn acknowledge_drops_the_entry() {
    let mut s = PacketShipper::new(peer());
    let _ = s.send(&ServerPacket::Ping, 0);
    let second = s.send(&ServerPacket::Ping, 0);
    s.acknowledge(0);
    assert_eq!(s.resend_unacknowledged_packets(1000), vec![second]);
    s.acknowledge(1);
    assert!(s.resend_unacknowledged_packets(1000).is_empty());
}

#[test]
fn acknowledge_of_unknown_id_changes_nothing() {
    let mut s = PacketShipper::new(peer());
    let first = s.send(&ServerPacket::Ping, 0);
    s.acknowledge(7);
    s.acknowledge(7);
    assert_eq!(s.resend_unacknowledged_packets(1000), vec![first]);
    assert!(s.can_send());
}

#[test]
fn duplicate_and_stale_datagrams_are_acked_not_surfaced() {
    let mut r = PacketReciever::new(peer(), 0);
    let (ack1, first) = r.sort_packets(5, ClientPacket::Pong, 10);
    let (ack2, second) = r.sort_packets(5, ClientPacket::Pong, 20);
    let (ack3, third) = r.sort_packets(4, ClientPacket::Pong, 30);
    assert_eq!(ack1, build_ack_frame(5));
    assert_eq!(ack2, build_ack_frame(5));
    assert_eq!(ack3, build_ack_frame(4));
    assert!(first.is_some());
    assert!(second.is_none());
    assert!(third.is_none());
    assert_eq!(r.get_last_message_time(), 30);
}

#[test]
fn first_datagram_is_surfaced_whatever_its_id() {
    let mut r = PacketReciever::new(peer(), 0);
    assert!(r.sort_packets(0, ClientPacket::Pong, 1).1.is_some());
    let mut r2 = PacketReciever::new(peer(), 0);
    assert!(r2.sort_packets(9, ClientPacket::Close, 1).1.is_some());
    assert!(r2.sort_packets(9, ClientPacket::Close, 2).1.is_none());
    assert!(r2.sort_packets(10, ClientPacket::Close, 3).1.is_some());
    let mut r3 = PacketReciever::new(peer(), 0);
    assert!(r3.sort_packets(u32::MAX, ClientPacket::Pong, 1).1.is_some());
    assert!(r3.sort_packets(u32::MAX, ClientPacket::Pong, 1).1.is_none());
}

#[test]
fn surfaced_ids_increase() {
    let mut r = PacketReciever::new(peer(), 0);
    let mut shown = Vec::new();
    for id in [3u32, 1, 4, 1, 5, 9, 2, 6] {
        if r.sort_packets(id, ClientPacket::Pong, 0).1.is_some() {
            shown.push(id);
        }
    }
    assert_eq!(shown, vec![3, 4, 5, 9]);
}

#[test]
fn session_keys_are_seven_alphanumerics() {
    for _ in 0..50 {
        let k = generate_key();
        assert_eq!(k.len(), 7);
        assert!(k.chars().all(|c| c.is_ascii_alphanumeric()));
    }
}
