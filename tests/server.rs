use rendezvous::addr::PeerAddr;
use rendezvous::codec::{build_ack_frame, parse_client_packet, ClientPacket};
use rendezvous::server::{Outgoing, Server};

const H: PeerAddr = PeerAddr { ip: 0x01010101, port: 1000 };
const J: PeerAddr = PeerAddr { ip: 0x02020202, port: 2000 };
const K: PeerAddr = PeerAddr { ip: 0x03030303, port: 3000 };

fn server() -> Server {
    let mut s = Server::new(7777);
    s.support_client_hashes(vec!["abc".to_string()]);
    s
}

fn create(fp: &str, pw: bool) -> ClientPacket {
    ClientPacket::Create { client_hash: fp.to_string(), password_protected: pw }
}

fn join(fp: &str, key: &str) -> ClientPacket {
    ClientPacket::Join { client_hash: fp.to_string(), session_key: key.to_string() }
}

fn data_frame(seq: u32, body: &[u8]) -> Vec<u8> {
    let mut b = vec![1];
    b.extend_from_slice(&seq.to_le_bytes());
    b.extend_from_slice(body);
    b
}

fn join_ok(seq: u32, text: &str) -> Vec<u8> {
    let mut body = vec![3, 0, 1, text.len() as u8];
    body.extend_from_slice(text.as_bytes());
    data_frame(seq, &body)
}

fn is_fresh_ping(o: &Outgoing) -> bool {
    !o.retransmit && o.data.len() == 7 && o.data[0] == 1 && o.data[5] == 0 && o.data[6] == 0
}

#[test]
fn create_and_join_by_key() {
    let mut s = server();
    let (seq, packet) = parse_client_packet(&[0, 0, 0, 0, 2, 0, 3, b'a', b'b', b'c', 0]).unwrap();
    let out = s.receive_packet(H, seq, packet, 0);
    assert_eq!(out.len(), 2);
    assert_eq!(out[0].to, H);
    assert_eq!(out[0].data, build_ack_frame(0));
    assert_eq!(out[1].to, H);
    let key = s.session_of(&H).unwrap();
    assert_eq!(key.len(), 7);
    assert!(key.chars().all(|c| c.is_ascii_alphanumeric()));
    let mut body = vec![2, 0, 7];
    body.extend_from_slice(key.as_bytes());
    assert_eq!(out[1].data, data_frame(0, &body));

    let out = s.receive_packet(J, 0, join("abc", &key), 10);
    assert_eq!(out.len(), 3);
    assert_eq!((out[0].to, out[0].data.clone()), (J, build_ack_frame(0)));
    assert_eq!((out[1].to, out[1].data.clone()), (J, join_ok(0, "1.1.1.1:1000")));
    assert_eq!((out[2].to, out[2].data.clone()), (H, join_ok(1, "2.2.2.2:2000")));
    assert_eq!(s.session_count(), 0);
    assert_eq!(s.peer_count(), 2);
    assert!(s.has_client(&H) && s.has_client(&J));
}

#[test]
fn join_any_public_skips_protected_and_self() {
    let mut s = server();
    let _ = s.receive_packet(H, 0, create("abc", false), 0);
    let _ = s.receive_packet(K, 0, create("abc", true), 0);
    let out = s.receive_packet(J, 0, join("abc", ""), 0);
    assert_eq!(out.len(), 3);
    assert_eq!((out[1].to, out[1].data.clone()), (J, join_ok(0, "1.1.1.1:1000")));
    assert_eq!(out[2].to, H);
    assert!(s.session_of(&H).is_none());
    assert!(s.session_of(&K).is_some());

    let out = s.receive_packet(J, 1, join("abc", ""), 0);
    assert_eq!(out.len(), 2);
    assert_eq!((out[1].to, out[1].data.clone()), (J, data_frame(1, &[3, 0, 0])));

    let mut alone = server();
    let _ = alone.receive_packet(H, 0, create("abc", false), 0);
    let out = alone.receive_packet(H, 1, join("abc", ""), 0);
    assert_eq!(out[1].data, data_frame(1, &[3, 0, 0]));
    assert_eq!(alone.session_count(), 1);
}

#[test]
fn join_by_unknown_or_own_key_fails() {
    let mut s = server();
    let _ = s.receive_packet(H, 0, create("abc", false), 0);
    let key = s.session_of(&H).unwrap();
    let out = s.receive_packet(H, 1, join("abc", &key), 0);
    assert_eq!(out[1].data, data_frame(1, &[3, 0, 0]));
    let out = s.receive_packet(J, 0, join("abc", "nokey00"), 0);
    assert_eq!(out[1].data, data_frame(0, &[3, 0, 0]));
    assert_eq!(s.session_count(), 1);
}

#[test]
fn unknown_fingerprint_is_ignored() {
    let mut s = server();
    let out = s.receive_packet(K, 0, create("nope", false), 0);
    assert_eq!(out.len(), 1);
    assert_eq!(out[0].data, build_ack_frame(0));
    assert_eq!(s.session_count(), 0);
    let out = s.receive_packet(K, 1, join("nope", ""), 0);
    assert_eq!(out.len(), 1);
}

#[test]
fn second_create_gets_an_error() {
    let mut s = server();
    let _ = s.receive_packet(H, 0, create("abc", false), 0);
    let out = s.receive_packet(H, 3, create("abc", true), 0);
    let mut body = vec![5, 0, 3, 0, 0, 0, 24];
    body.extend_from_slice(b"Session failed to create");
    assert_eq!(out.len(), 2);
    assert_eq!(out[1].data, data_frame(1, &body));
    assert_eq!(s.session_count(), 1);
}

#[test]
fn close_drops_only_the_session() {
    let mut s = server();
    let _ = s.receive_packet(H, 0, create("abc", false), 0);
    let out = s.receive_packet(H, 1, ClientPacket::Close, 0);
    assert_eq!(out.len(), 1);
    assert_eq!(s.session_count(), 0);
    assert!(s.has_client(&H));
    let out = s.receive_packet(H, 2, create("abc", false), 0);
    assert_eq!(out.len(), 2);
    assert_eq!(s.session_count(), 1);
}

#[test]
fn silent_peer_is_evicted() {
    let mut s = server();
    let _ = s.receive_packet(H, 0, create("abc", false), 1000);
    let _ = s.receive_packet(J, 0, ClientPacket::Pong, 20000);
    let out = s.tick(31000);
    assert!(out.iter().all(|o| o.data != data_frame(1, &[4, 0])));
    assert!(s.has_client(&H));
    let out = s.tick(32000);
    let closes: Vec<&Outgoing> = out.iter().filter(|o| o.to == H && o.data.len() == 7 && o.data[5] == 4).collect();
    assert_eq!(closes.len(), 1);
    assert!(!s.has_client(&H));
    assert!(s.has_client(&J));
    assert_eq!(s.session_count(), 0);
}

#[test]
fn drop_client_removes_peer_and_session() {
    let mut s = server();
    let _ = s.receive_packet(H, 0, create("abc", false), 0);
    let key = s.session_of(&H).unwrap();
    assert!(s.drop_client(&H));
    assert!(!s.has_client(&H));
    assert!(s.session_of(&H).is_none());
    let out = s.receive_packet(J, 0, join("abc", &key), 0);
    assert_eq!(out[1].data, data_frame(0, &[3, 0, 0]));
    assert!(!s.drop_client(&K));
}

#[test]
fn retransmit_until_ack() {
    let mut s = server();
    let _ = s.receive_packet(H, 0, ClientPacket::Pong, 0);
    let out = s.tick(5000);
    assert_eq!(out.len(), 1);
    let ping = data_frame(0, &[0, 0]);
    assert_eq!((out[0].to, out[0].data.clone(), out[0].retransmit), (H, ping.clone(), false));
    let out = s.tick(5049);
    assert!(out.is_empty());
    for t in [5050u64, 5100, 5150] {
        let out = s.tick(t);
        assert_eq!(out.len(), 1);
        assert_eq!((out[0].to, out[0].data.clone(), out[0].retransmit), (H, ping.clone(), true));
    }
    let (seq, ack) = parse_client_packet(&[1, 0, 0, 0, 1, 0, 0, 0, 0, 0]).unwrap();
    let out = s.receive_packet(H, seq, ack, 5160);
    assert!(out.is_empty());
    assert!(s.tick(5200).is_empty());
}

#[test]
fn one_ping_per_window() {
    let mut s = server();
    let _ = s.receive_packet(H, 0, ClientPacket::Pong, 0);
    let _ = s.receive_packet(J, 0, ClientPacket::Pong, 0);
    let _ = s.receive_packet(K, 0, ClientPacket::Pong, 0);
    assert_eq!(s.tick(4999).iter().filter(|o| is_fresh_ping(o)).count(), 0);
    assert_eq!(s.tick(5000).iter().filter(|o| is_fresh_ping(o)).count(), 1);
    assert_eq!(s.tick(6000).iter().filter(|o| is_fresh_ping(o)).count(), 0);
    assert_eq!(s.tick(10000).iter().filter(|o| is_fresh_ping(o)).count(), 1);
}

#[test]
fn duplicate_and_stale_creates_make_one_session() {
    let mut s = server();
    let a = s.receive_packet(H, 5, create("abc", false), 0);
    let b = s.receive_packet(H, 5, create("abc", false), 0);
    let c = s.receive_packet(H, 4, create("abc", false), 0);
    assert_eq!(a.len(), 2);
    assert_eq!(b.len(), 1);
    assert_eq!(c.len(), 1);
    assert_eq!(a[0].data, build_ack_frame(5));
    assert_eq!(b[0].data, build_ack_frame(5));
    assert_eq!(c[0].data, build_ack_frame(4));
    assert_eq!(s.session_count(), 1);
}

#[test]
fn ack_packets_skip_the_receiver() {
    let mut s = server();
    let _ = s.receive_packet(H, 5, ClientPacket::Pong, 0);
    let out = s.tick(5000);
    assert_eq!(out.len(), 1);
    let out = s.receive_packet(H, 0, ClientPacket::Ack { id: 0 }, 5010);
    assert!(out.is_empty());
    assert!(s.tick(5100).is_empty());
    let out = s.receive_packet(H, 6, ClientPacket::Pong, 5200);
    assert_eq!(out.len(), 1);
    assert_eq!(out[0].data, build_ack_frame(6));
    let out = s.receive_packet(K, 0, ClientPacket::Ack { id: 3 }, 0);
    assert!(out.is_empty());
    assert!(!s.has_client(&K));
}

#[test]
fn only_retransmissions_are_held_back() {
    let o = Outgoing { to: H, data: vec![1], retransmit: true };
    let fresh = Outgoing { to: H, data: vec![1], retransmit: false };
    assert!(o.is_held_back(&vec![J, H]));
    assert!(!o.is_held_back(&vec![J]));
    assert!(!fresh.is_held_back(&vec![H]));
}
