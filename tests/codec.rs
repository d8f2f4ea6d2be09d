use rendezvous::addr::PeerAddr;
use rendezvous::codec::{
    build_ack_frame, build_server_packet, parse_client_packet, read_byte, read_string_u8,
    read_u16, read_u32, write_bool, write_string_u8, write_u16, write_u32, ClientPacket,
    ServerPacket,
};

fn str8(buf: &mut Vec<u8>, s: &str) {
    buf.push(s.len() as u8);
    buf.extend_from_slice(s.as_bytes());
}

fn create_bytes(seq: u32, fp: &str, pw: bool) -> Vec<u8> {
    let mut b = seq.to_le_bytes().to_vec();
    b.extend_from_slice(&[2, 0]);
    str8(&mut b, fp);
    b.push(pw as u8);
    b
}

fn join_bytes(seq: u32, fp: &str, key: &str) -> Vec<u8> {
    let mut b = seq.to_le_bytes().to_vec();
    b.extend_from_slice(&[3, 0]);
    str8(&mut b, fp);
    str8(&mut b, key);
    b
}

#[test]
fn parses_create() {
    let bytes = create_bytes(0, "abc", false);
    assert_eq!(bytes, vec![0, 0, 0, 0, 2, 0, 3, b'a', b'b', b'c', 0]);
    match parse_client_packet(&bytes) {
        Some((0, ClientPacket::Create { client_hash, password_protected })) => {
            assert_eq!(client_hash, "abc");
            assert!(!password_protected);
        }
        other => panic!("unexpected {:?}", other),
    }
}

#[test]
fn parses_join_with_empty_key() {
    let bytes = join_bytes(7, "abc", "");
    match parse_client_packet(&bytes) {
        Some((7, ClientPacket::Join { client_hash, session_key })) => {
            assert_eq!(client_hash, "abc");
            assert_eq!(session_key, "");
        }
        other => panic!("unexpected {:?}", other),
    }
}

#[test]
fn parses_ack_pong_close() {
    let ack = [0x04, 0x03, 0x02, 0x01, 1, 0, 0x78, 0x56, 0x34, 0x12];
    match parse_client_packet(&ack) {
        Some((0x01020304, ClientPacket::Ack { id: 0x12345678 })) => {}
        other => panic!("unexpected {:?}", other),
    }
    assert!(matches!(parse_client_packet(&[1, 0, 0, 0, 0, 0]), Some((1, ClientPacket::Pong))));
    assert!(matches!(parse_client_packet(&[2, 0, 0, 0, 4, 0]), Some((2, ClientPacket::Close))));
}

#[test]
fn rejects_unknown_short_and_bad_utf8() {
    assert!(parse_client_packet(&[0, 0, 0, 0, 9, 0]).is_none());
    assert!(parse_client_packet(&[0, 0, 0, 0, 5, 0]).is_none());
    assert!(parse_client_packet(&[1, 2, 3]).is_none());
    assert!(parse_client_packet(&[0, 0, 0, 0, 1, 0, 1, 2]).is_none());
    assert!(parse_client_packet(&[0, 0, 0, 0, 2, 0, 1, 0xff, 0]).is_none());
    assert!(parse_client_packet(&[0, 0, 0, 0, 2, 0, 5, b'a', b'b']).is_none());
    assert!(parse_client_packet(&[0, 0, 0, 0, 2, 0, 1, b'a']).is_none());
    assert!(parse_client_packet(&[]).is_none());
}

#[test]
fn client_packets_round_trip() {
    let key = "Zz09aQb";
    match parse_client_packet(&join_bytes(42, "build-\u{e9}", key)) {
        Some((42, ClientPacket::Join { client_hash, session_key })) => {
            assert_eq!(client_hash, "build-\u{e9}");
            assert_eq!(session_key, key);
        }
        other => panic!("unexpected {:?}", other),
    }
    match parse_client_packet(&create_bytes(u32::MAX, "x", true)) {
        Some((u32::MAX, ClientPacket::Create { client_hash, password_protected })) => {
            assert_eq!(client_hash, "x");
            assert!(password_protected);
        }
        other => panic!("unexpected {:?}", other),
    }
}

#[test]
fn readers_move_the_position() {
    let buf = [7u8, 0x34, 0x12, 0x78, 0x56, 0x34, 0x12, 2, b'h', b'i'];
    let mut pos: usize = 0;
    assert_eq!(read_byte(&buf, &mut pos), Some(7));
    assert_eq!(read_u16(&buf, &mut pos), Some(0x1234));
    assert_eq!(read_u32(&buf, &mut pos), Some(0x12345678));
    assert_eq!(read_string_u8(&buf, &mut pos), Some("hi".to_string()));
    assert_eq!(pos, buf.len());
    assert_eq!(read_byte(&buf, &mut pos), None);
    let mut tail_pos: usize = 9;
    assert_eq!(read_u16(&buf, &mut tail_pos), None);
    assert_eq!(tail_pos, buf.len());
}

#[test]
fn writers_are_little_endian() {
    let mut b = Vec::new();
    write_u16(&mut b, 0xBEEF);
    write_u32(&mut b, 0x01020304);
    write_bool(&mut b, true);
    write_bool(&mut b, false);
    assert_eq!(b, vec![0xEF, 0xBE, 4, 3, 2, 1, 1, 0]);
}

#[test]
fn long_strings_are_cut_at_255_bytes() {
    let long = "x".repeat(300);
    let mut b = Vec::new();
    write_string_u8(&mut b, &long);
    assert_eq!(b.len(), 256);
    assert_eq!(b[0], 255);
    let mut exact = Vec::new();
    write_string_u8(&mut exact, &"y".repeat(255));
    assert_eq!(exact.len(), 256);
    assert_eq!(exact[0], 255);
    let mut empty = Vec::new();
    write_string_u8(&mut empty, "");
    assert_eq!(empty, vec![0]);
}

#[test]
fn builds_each_server_packet() {
    assert_eq!(build_server_packet(&ServerPacket::Ping), vec![0, 0]);
    assert_eq!(build_server_packet(&ServerPacket::Ack { id: 0x01020304 }), vec![1, 0, 4, 3, 2, 1]);
    assert_eq!(
        build_server_packet(&ServerPacket::Create { session_key: "K1" }),
        vec![2, 0, 2, b'K', b'1']
    );
    let host = PeerAddr { ip: 0x01010101, port: 1000 };
    let mut join = vec![3, 0, 1, 12];
    join.extend_from_slice(b"1.1.1.1:1000");
    assert_eq!(
        build_server_packet(&ServerPacket::Join { client_addr: Some(host), success: true }),
        join
    );
    assert_eq!(
        build_server_packet(&ServerPacket::Join { client_addr: None, success: false }),
        vec![3, 0, 0]
    );
    assert_eq!(build_server_packet(&ServerPacket::Close), vec![4, 0]);
    let mut err = vec![5, 0, 9, 0, 0, 0, 3];
    err.extend_from_slice(b"bad");
    assert_eq!(build_server_packet(&ServerPacket::Error { id: 9, message: "bad" }), err);
}

#[test]
fn ack_frame_bytes() {
    assert_eq!(build_ack_frame(0), vec![0, 1, 0, 0, 0, 0, 0]);
    assert_eq!(build_ack_frame(258), vec![0, 1, 0, 2, 1, 0, 0]);
}

#[test]
fn address_text() {
    let a = PeerAddr { ip: 0xC0A80001, port: 65535 };
    assert_eq!(a.text_bytes(), b"192.168.0.1:65535".to_vec());
    let z = PeerAddr { ip: 0, port: 0 };
    assert_eq!(z.text_bytes(), b"0.0.0.0:0".to_vec());
}
