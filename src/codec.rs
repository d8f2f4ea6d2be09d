use vstd::prelude::*;
use crate::addr::{addr_text, PeerAddr};
use vstd::utf8::*;
use vstd::string::StringSliceAdditionalSpecFns;

verus! {

/// Leading byte of an outbound frame that acknowledges a client datagram.
pub const ACK_FRAME: u8 = 0;

/// Leading byte of an outbound frame that carries a sequenced packet.
pub const DATA_FRAME: u8 = 1;

pub const PING_PONG_ID: u16 = 0;

pub const ACK_ID: u16 = 1;

pub const CREATE_ID: u16 = 2;

pub const JOIN_ID: u16 = 3;

pub const CLOSE_ID: u16 = 4;

pub const ERROR_ID: u16 = 5;

/// A control packet sent by a client.
#[derive(Debug)]
pub enum ClientPacket {
    Pong,
    Ack { id: u32 },
    Create { client_hash: String, password_protected: bool },
    Join { client_hash: String, session_key: String },
    Close,
}

/// What a `ClientPacket` holds, with each string as its characters.
pub enum ClientMsg {
    Pong,
    Ack { id: u32 },
    Create { client_hash: Seq<char>, password_protected: bool },
    Join { client_hash: Seq<char>, session_key: Seq<char> },
    Close,
}

impl View for ClientPacket {
    type V = ClientMsg;

    open spec fn view(&self) -> ClientMsg {
        match self {
            ClientPacket::Pong => ClientMsg::Pong,
            ClientPacket::Ack { id } => ClientMsg::Ack { id: *id },
            ClientPacket::Create { client_hash, password_protected } => ClientMsg::Create {
                client_hash: client_hash@,
                password_protected: *password_protected,
            },
            ClientPacket::Join { client_hash, session_key } => ClientMsg::Join {
                client_hash: client_hash@,
                session_key: session_key@,
            },
            ClientPacket::Close => ClientMsg::Close,
        }
    }
}

// ---------------------------------------------------------------------------
// Little-endian integers

pub open spec fn le_u16(b0: u8, b1: u8) -> u16 {
    (b0 as u16) | ((b1 as u16) << 8u16)
}

pub open spec fn le_u32(b0: u8, b1: u8, b2: u8, b3: u8) -> u32 {
    (b0 as u32) | ((b1 as u32) << 8u32) | ((b2 as u32) << 16u32) | ((b3 as u32) << 24u32)
}

pub open spec fn u16_bytes(x: u16) -> Seq<u8> {
    seq![(x & 0xff) as u8, ((x >> 8u16) & 0xff) as u8]
}

pub open spec fn u32_bytes(x: u32) -> Seq<u8> {
    seq![
        (x & 0xff) as u8,
        ((x >> 8u32) & 0xff) as u8,
        ((x >> 16u32) & 0xff) as u8,
        ((x >> 24u32) & 0xff) as u8,
    ]
}

pub proof fn lemma_u16_round_trip(x: u16)
    ensures
        le_u16(u16_bytes(x)[0], u16_bytes(x)[1]) == x,
{
    let b0 = (x & 0xff) as u8;
    let b1 = ((x >> 8u16) & 0xff) as u8;
    assert((((x & 0xff) as u8) as u16) | (((((x >> 8u16) & 0xff) as u8) as u16) << 8u16) == x)
        by (bit_vector);
}

pub proof fn lemma_u32_round_trip(x: u32)
    ensures
        le_u32(u32_bytes(x)[0], u32_bytes(x)[1], u32_bytes(x)[2], u32_bytes(x)[3]) == x,
{
    assert((((x & 0xff) as u8) as u32) | (((((x >> 8u32) & 0xff) as u8) as u32) << 8u32) | (((((x
        >> 16u32) & 0xff) as u8) as u32) << 16u32) | (((((x >> 24u32) & 0xff) as u8) as u32)
        << 24u32) == x) by (bit_vector);
}

// ---------------------------------------------------------------------------
// Reading: each reader takes the buffer and a position, and yields the value
// with the position after it, or nothing when the buffer cannot supply it.

pub open spec fn byte_at(b: Seq<u8>, p: int) -> Option<(u8, int)> {
    if 0 <= p < b.len() {
        Some((b[p], p + 1))
    } else {
        None
    }
}

pub open spec fn bool_at(b: Seq<u8>, p: int) -> Option<(bool, int)> {
    match byte_at(b, p) {
        Some((v, q)) => Some((v != 0, q)),
        None => None,
    }
}

pub open spec fn u16_at(b: Seq<u8>, p: int) -> Option<(u16, int)> {
    if 0 <= p && p + 2 <= b.len() {
        Some((le_u16(b[p], b[p + 1]), p + 2))
    } else {
        None
    }
}

pub open spec fn u32_at(b: Seq<u8>, p: int) -> Option<(u32, int)> {
    if 0 <= p && p + 4 <= b.len() {
        Some((le_u32(b[p], b[p + 1], b[p + 2], b[p + 3]), p + 4))
    } else {
        None
    }
}

/// `n` bytes at `p` that form valid UTF-8, as characters.
pub open spec fn str_at(b: Seq<u8>, p: int, n: int) -> Option<(Seq<char>, int)> {
    if 0 <= p && 0 <= n && p + n <= b.len() && valid_utf8(b.subrange(p, p + n)) {
        Some((decode_utf8(b.subrange(p, p + n)), p + n))
    } else {
        None
    }
}

/// A string prefixed by its length in one byte.
pub open spec fn str8_at(b: Seq<u8>, p: int) -> Option<(Seq<char>, int)> {
    match byte_at(b, p) {
        Some((n, q)) => str_at(b, q, n as int),
        None => None,
    }
}

/// Where a reader leaves the position: after the value, or at the end.
pub open spec fn pos_after<T>(r: Option<(T, int)>, len: int) -> int {
    match r {
        Some((_, q)) => q,
        None => len,
    }
}

pub open spec fn value_of<T>(r: Option<(T, int)>) -> Option<T> {
    match r {
        Some((v, _)) => Some(v),
        None => None,
    }
}

pub fn read_byte(buf: &[u8], pos: &mut usize) -> (r: Option<u8>)
    requires
        *old(pos) <= buf@.len(),
    ensures
        r == value_of(byte_at(buf@, *old(pos) as int)),
        *final(pos) == pos_after(byte_at(buf@, *old(pos) as int), buf@.len() as int),
{
    if *pos >= buf.len() {
        return None;
    }
    let byte = buf[*pos];
    *pos = *pos + 1;
    Some(byte)
}

pub fn read_bool(buf: &[u8], pos: &mut usize) -> (r: Option<bool>)
    requires
        *old(pos) <= buf@.len(),
    ensures
        r == value_of(bool_at(buf@, *old(pos) as int)),
        *final(pos) == pos_after(bool_at(buf@, *old(pos) as int), buf@.len() as int),
{
    match read_byte(buf, pos) {
        Some(byte) => Some(byte != 0),
        None => None,
    }
}

pub fn read_u16(buf: &[u8], pos: &mut usize) -> (r: Option<u16>)
    requires
        *old(pos) <= buf@.len(),
    ensures
        r == value_of(u16_at(buf@, *old(pos) as int)),
        *final(pos) == pos_after(u16_at(buf@, *old(pos) as int), buf@.len() as int),
{
    if buf.len() - *pos < 2 {
        *pos = buf.len();
        return None;
    }
    let p = *pos;
    let data = (buf[p] as u16) | ((buf[p + 1] as u16) << 8u16);
    *pos = p + 2;
    Some(data)
}

pub fn read_u32(buf: &[u8], pos: &mut usize) -> (r: Option<u32>)
    requires
        *old(pos) <= buf@.len(),
    ensures
        r == value_of(u32_at(buf@, *old(pos) as int)),
        *final(pos) == pos_after(u32_at(buf@, *old(pos) as int), buf@.len() as int),
{
    if buf.len() - *pos < 4 {
        *pos = buf.len();
        return None;
    }
    let p = *pos;
    let data = (buf[p] as u32) | ((buf[p + 1] as u32) << 8u32) | ((buf[p + 2] as u32) << 16u32)
        | ((buf[p + 3] as u32) << 24u32);
    *pos = p + 4;
    Some(data)
}

/// Relies on std::str::from_utf8: it succeeds exactly on valid UTF-8, and the
/// text it returns is made of those very bytes.
#[verifier::external_body]
pub(crate) fn utf8_text(b: &[u8]) -> (r: Option<&str>)
    ensures
        r.is_some() == valid_utf8(b@),
        r matches Some(s) ==> s.spec_bytes() == b@,
{
    std::str::from_utf8(b).ok()
}

fn read_string(buf: &[u8], pos: &mut usize, len: usize) -> (r: Option<String>)
    requires
        *old(pos) <= buf@.len(),
    ensures
        r matches Some(s) ==> str_at(buf@, *old(pos) as int, len as int) == Some(
            (s@, *old(pos) + len),
        ),
        r is None ==> str_at(buf@, *old(pos) as int, len as int) is None,
        *final(pos) == if *old(pos) + len <= buf@.len() {
            *old(pos) + len
        } else {
            buf@.len() as int
        },
{
    if buf.len() - *pos < len {
        *pos = buf.len();
        return None;
    }
    let start = *pos;
    let mut bytes: Vec<u8> = Vec::new();
    let end = start + len;
    let mut i: usize = start;
    while i < end
        invariant
            start <= i <= end == start + len <= buf@.len(),
            bytes@ == buf@.subrange(start as int, i as int),
        decreases end - i,
    {
        bytes.push(buf[i]);
        i = i + 1;
        assert(bytes@ =~= buf@.subrange(start as int, i as int));
    }
    *pos = end;
    match utf8_text(bytes.as_slice()) {
        Some(text) => {
            proof {
                encode_utf8_decode_utf8(text@);
            }
            Some(text.to_owned())
        },
        None => None,
    }
}

pub fn read_string_u8(buf: &[u8], pos: &mut usize) -> (r: Option<String>)
    requires
        *old(pos) <= buf@.len(),
    ensures
        r matches Some(s) ==> str8_at(buf@, *old(pos) as int) matches Some((t, q)) && t == s@
            && *final(pos) == q,
        r is None ==> str8_at(buf@, *old(pos) as int) is None,
        *final(pos) <= buf@.len(),
{
    let len = match read_byte(buf, pos) {
        Some(n) => n as usize,
        None => return None,
    };
    read_string(buf, pos, len)
}

/// The packet body that starts at `p`: a packet id, then its payload.
pub open spec fn client_body_at(b: Seq<u8>, p: int) -> Option<ClientMsg> {
    match u16_at(b, p) {
        None => None,
        Some((kind, q)) => if kind == PING_PONG_ID {
            Some(ClientMsg::Pong)
        } else if kind == ACK_ID {
            match u32_at(b, q) {
                Some((id, _)) => Some(ClientMsg::Ack { id }),
                None => None,
            }
        } else if kind == CREATE_ID {
            match str8_at(b, q) {
                Some((hash, q2)) => match bool_at(b, q2) {
                    Some((pw, _)) => Some(
                        ClientMsg::Create { client_hash: hash, password_protected: pw },
                    ),
                    None => None,
                },
                None => None,
            }
        } else if kind == JOIN_ID {
            match str8_at(b, q) {
                Some((hash, q2)) => match str8_at(b, q2) {
                    Some((key, _)) => Some(ClientMsg::Join { client_hash: hash, session_key: key }),
                    None => None,
                },
                None => None,
            }
        } else if kind == CLOSE_ID {
            Some(ClientMsg::Close)
        } else {
            None
        },
    }
}

/// Where a packet body that starts at `p` and decodes ends.
pub open spec fn client_body_end(b: Seq<u8>, p: int) -> int {
    match u16_at(b, p) {
        None => b.len() as int,
        Some((kind, q)) => if kind == ACK_ID {
            q + 4
        } else if kind == CREATE_ID {
            match str8_at(b, q) {
                Some((_, q2)) => q2 + 1,
                None => b.len() as int,
            }
        } else if kind == JOIN_ID {
            match str8_at(b, q) {
                Some((_, q2)) => match str8_at(b, q2) {
                    Some((_, q3)) => q3,
                    None => b.len() as int,
                },
                None => b.len() as int,
            }
        } else {
            q
        },
    }
}

/// A whole client datagram: its sequence id, then its packet. Bytes after the
/// packet are ignored.
pub open spec fn client_datagram(b: Seq<u8>) -> Option<(u32, ClientMsg)> {
    match u32_at(b, 0) {
        Some((id, q)) => match client_body_at(b, q) {
            Some(m) => Some((id, m)),
            None => None,
        },
        None => None,
    }
}

fn parse_headers(buf: &[u8], pos: &mut usize) -> (r: Option<u32>)
    requires
        *old(pos) <= buf@.len(),
    ensures
        r == value_of(u32_at(buf@, *old(pos) as int)),
        *final(pos) == pos_after(u32_at(buf@, *old(pos) as int), buf@.len() as int),
{
    read_u32(buf, pos)
}

fn parse_packet(buf: &[u8], pos: &mut usize) -> (r: Option<ClientPacket>)
    requires
        *old(pos) <= buf@.len(),
    ensures
        match r {
            Some(p) => client_body_at(buf@, *old(pos) as int) == Some(p@),
            None => client_body_at(buf@, *old(pos) as int) is None,
        },
        r is Some ==> *final(pos) == client_body_end(buf@, *old(pos) as int),
{
    let packet_type = match read_u16(buf, pos) {
        Some(t) => t,
        None => return None,
    };
    if packet_type == PING_PONG_ID {
        Some(ClientPacket::Pong)
    } else if packet_type == ACK_ID {
        match read_u32(buf, pos) {
            Some(id) => Some(ClientPacket::Ack { id }),
            None => None,
        }
    } else if packet_type == CREATE_ID {
        let client_hash = match read_string_u8(buf, pos) {
            Some(h) => h,
            None => return None,
        };
        match read_bool(buf, pos) {
            Some(password_protected) => Some(ClientPacket::Create { client_hash, password_protected }),
            None => None,
        }
    } else if packet_type == JOIN_ID {
        let client_hash = match read_string_u8(buf, pos) {
            Some(h) => h,
            None => return None,
        };
        match read_string_u8(buf, pos) {
            Some(session_key) => Some(ClientPacket::Join { client_hash, session_key }),
            None => None,
        }
    } else if packet_type == CLOSE_ID {
        Some(ClientPacket::Close)
    } else {
        None
    }
}

/// Parses a client datagram into its sequence id and packet; `None` where the
/// bytes are short, the packet id is unknown, or a string is not UTF-8.
pub fn parse_client_packet(buf: &[u8]) -> (r: Option<(u32, ClientPacket)>)
    ensures
        match r {
            Some((id, p)) => client_datagram(buf@) == Some((id, p@)),
            None => client_datagram(buf@) is None,
        },
{
    let mut pos: usize = 0;
    let id = match parse_headers(buf, &mut pos) {
        Some(id) => id,
        None => return None,
    };
    match parse_packet(buf, &mut pos) {
        Some(p) => Some((id, p)),
        None => None,
    }
}

// ---------------------------------------------------------------------------
// Writing

/// A control packet sent by the server.
pub enum ServerPacket<'a> {
    Ping,
    Ack { id: u32 },
    Create { session_key: &'a str },
    Join { client_addr: Option<PeerAddr>, success: bool },
    Close,
    Error { id: u32, message: &'a str },
}

/// What a `ServerPacket` holds, with each string as its characters.
pub enum ServerMsg {
    Ping,
    Ack { id: u32 },
    Create { session_key: Seq<char> },
    Join { client_addr: Option<PeerAddr>, success: bool },
    Close,
    Error { id: u32, message: Seq<char> },
}

impl<'a> View for ServerPacket<'a> {
    type V = ServerMsg;

    open spec fn view(&self) -> ServerMsg {
        match self {
            ServerPacket::Ping => ServerMsg::Ping,
            ServerPacket::Ack { id } => ServerMsg::Ack { id: *id },
            ServerPacket::Create { session_key } => ServerMsg::Create { session_key: session_key@ },
            ServerPacket::Join { client_addr, success } => ServerMsg::Join {
                client_addr: *client_addr,
                success: *success,
            },
            ServerPacket::Close => ServerMsg::Close,
            ServerPacket::Error { id, message } => ServerMsg::Error { id: *id, message: message@ },
        }
    }
}

/// A successful `Join` names the peer it pairs with.
pub open spec fn server_msg_wf(m: ServerMsg) -> bool {
    m matches ServerMsg::Join { client_addr, success } ==> (success ==> client_addr is Some)
}

/// Bytes kept of a string: at most 255.
pub open spec fn str8_len(e: Seq<u8>) -> nat {
    if e.len() < 255 {
        e.len()
    } else {
        255
    }
}

/// A byte string prefixed by its length, cut at 255 bytes.
pub open spec fn str8_bytes(e: Seq<u8>) -> Seq<u8> {
    seq![str8_len(e) as u8] + e.take(str8_len(e) as int)
}

pub open spec fn bool_byte(b: bool) -> u8 {
    if b {
        1
    } else {
        0
    }
}

/// The encoding of a server packet: its packet id, then its payload.
pub open spec fn server_packet_bytes(m: ServerMsg) -> Seq<u8> {
    match m {
        ServerMsg::Ping => u16_bytes(PING_PONG_ID),
        ServerMsg::Ack { id } => u16_bytes(ACK_ID) + u32_bytes(id),
        ServerMsg::Create { session_key } => u16_bytes(CREATE_ID) + str8_bytes(
            encode_utf8(session_key),
        ),
        ServerMsg::Join { client_addr, success } => u16_bytes(JOIN_ID) + seq![bool_byte(success)]
            + if success {
            str8_bytes(addr_text(client_addr.unwrap()))
        } else {
            Seq::empty()
        },
        ServerMsg::Close => u16_bytes(CLOSE_ID),
        ServerMsg::Error { id, message } => u16_bytes(ERROR_ID) + u32_bytes(id) + str8_bytes(
            encode_utf8(message),
        ),
    }
}

/// A sequenced frame: the frame kind, the sequence id, then the packet.
pub open spec fn data_frame(seq_id: u32, m: ServerMsg) -> Seq<u8> {
    seq![DATA_FRAME] + u32_bytes(seq_id) + server_packet_bytes(m)
}

/// The frame that acknowledges client datagram `id`.
pub open spec fn ack_frame(id: u32) -> Seq<u8> {
    seq![ACK_FRAME] + server_packet_bytes(ServerMsg::Ack { id })
}

pub fn write_bool(buf: &mut Vec<u8>, data: bool)
    ensures
        final(buf)@ == old(buf)@.push(bool_byte(data)),
{
    buf.push(if data {
        1
    } else {
        0
    });
}

pub fn write_u16(buf: &mut Vec<u8>, data: u16)
    ensures
        final(buf)@ == old(buf)@ + u16_bytes(data),
{
    let ghost before = buf@;
    buf.push((data & 0xff) as u8);
    buf.push(((data >> 8u16) & 0xff) as u8);
    assert(buf@ =~= before + u16_bytes(data));
}

pub fn write_u32(buf: &mut Vec<u8>, data: u32)
    ensures
        final(buf)@ == old(buf)@ + u32_bytes(data),
{
    let ghost before = buf@;
    buf.push((data & 0xff) as u8);
    buf.push(((data >> 8u32) & 0xff) as u8);
    buf.push(((data >> 16u32) & 0xff) as u8);
    buf.push(((data >> 24u32) & 0xff) as u8);
    assert(buf@ =~= before + u32_bytes(data));
}

/// Writes a length byte and at most 255 bytes of `data`.
fn write_bytes_u8(buf: &mut Vec<u8>, data: &[u8])
    ensures
        final(buf)@ == old(buf)@ + str8_bytes(data@),
{
    let ghost before = buf@;
    let len: u8 = if data.len() < 255 {
        data.len() as u8
    } else {
        255
    };
    buf.push(len);
    let mut i: usize = 0;
    while i < len as usize
        invariant
            len as nat == str8_len(data@),
            i <= len,
            buf@ == before + seq![len] + data@.take(i as int),
        decreases len - i,
    {
        buf.push(data[i]);
        i = i + 1;
        assert(buf@ =~= before + seq![len] + data@.take(i as int));
    }
    assert(buf@ =~= before + str8_bytes(data@));
}

pub fn write_string_u8(buf: &mut Vec<u8>, data: &str)
    ensures
        final(buf)@ == old(buf)@ + str8_bytes(encode_utf8(data@)),
{
    write_bytes_u8(buf, data.as_bytes());
}

/// Encodes a server packet; a successful `Join` must name its peer.
pub fn build_server_packet(packet: &ServerPacket) -> (r: Vec<u8>)
    requires
        server_msg_wf(packet@),
    ensures
        r@ == server_packet_bytes(packet@),
{
    let mut buf: Vec<u8> = Vec::new();
    match packet {
        ServerPacket::Ping => {
            write_u16(&mut buf, PING_PONG_ID);
        },
        ServerPacket::Ack { id } => {
            write_u16(&mut buf, ACK_ID);
            write_u32(&mut buf, *id);
        },
        ServerPacket::Create { session_key } => {
            write_u16(&mut buf, CREATE_ID);
            write_string_u8(&mut buf, *session_key);
        },
        ServerPacket::Join { client_addr, success } => {
            write_u16(&mut buf, JOIN_ID);
            write_bool(&mut buf, *success);
            if *success {
                let text = client_addr.unwrap().text_bytes();
                write_bytes_u8(&mut buf, text.as_slice());
            }
        },
        ServerPacket::Close => {
            write_u16(&mut buf, CLOSE_ID);
        },
        ServerPacket::Error { id, message } => {
            write_u16(&mut buf, ERROR_ID);
            write_u32(&mut buf, *id);
            write_string_u8(&mut buf, *message);
        },
    }
    assert(buf@ =~= server_packet_bytes(packet@));
    buf
}

/// The frame that acknowledges client datagram `id`.
pub fn build_ack_frame(id: u32) -> (r: Vec<u8>)
    ensures
        r@ == ack_frame(id),
{
    let mut data: Vec<u8> = Vec::new();
    data.push(ACK_FRAME);
    let body = build_server_packet(&ServerPacket::Ack { id });
    append_bytes(&mut data, &body);
    data
}

/// Appends every byte of `src`.
pub fn append_bytes(dst: &mut Vec<u8>, src: &Vec<u8>)
    ensures
        final(dst)@ == old(dst)@ + src@,
{
    let ghost before = dst@;
    let mut i: usize = 0;
    while i < src.len()
        invariant
            i <= src@.len(),
            dst@ == before + src@.take(i as int),
        decreases src@.len() - i,
    {
        dst.push(src[i]);
        i = i + 1;
        assert(dst@ =~= before + src@.take(i as int));
    }
    assert(src@.take(src@.len() as int) =~= src@);
}

/// Text of bytes that are all ASCII, one character per byte.
pub fn ascii_text(bytes: &Vec<u8>) -> (r: String)
    requires
        forall|i: int| 0 <= i < bytes@.len() ==> bytes@[i] < 128,
    ensures
        r@.len() == bytes@.len(),
        forall|i: int| 0 <= i < bytes@.len() ==> r@[i] as u32 == bytes@[i] as u32,
{
    let ghost chars = Seq::new(bytes@.len(), |i: int| bytes@[i] as char);
    proof {
        assert(is_ascii_chars(chars));
        is_ascii_chars_encode_utf8(chars);
        assert(encode_utf8(chars) =~= bytes@);
        encode_utf8_valid_utf8(chars);
    }
    match utf8_text(bytes.as_slice()) {
        Some(text) => {
            proof {
                encode_utf8_decode_utf8(text@);
                encode_utf8_decode_utf8(chars);
            }
            text.to_owned()
        },
        None => String::new(),
    }
}

/// Whether two strings hold the same characters, compared byte by byte.
pub fn text_eq(a: &str, b: &str) -> (r: bool)
    ensures
        r == (a@ == b@),
{
    let x = a.as_bytes();
    let y = b.as_bytes();
    proof {
        encode_utf8_decode_utf8(a@);
        encode_utf8_decode_utf8(b@);
    }
    if x.len() != y.len() {
        return false;
    }
    let mut i: usize = 0;
    while i < x.len()
        invariant
            x@.len() == y@.len(),
            x@ == encode_utf8(a@),
            y@ == encode_utf8(b@),
            i <= x@.len(),
            forall|j: int| 0 <= j < i ==> x@[j] == y@[j],
        decreases x@.len() - i,
    {
        if x[i] != y[i] {
            assert(x@ != y@);
            return false;
        }
        i = i + 1;
    }
    assert(x@ =~= y@);
    true
}

// ---------------------------------------------------------------------------
// Round trip of client datagrams

/// The bytes a client sends for packet `m` with sequence id `id`.
pub open spec fn client_datagram_bytes(id: u32, m: ClientMsg) -> Seq<u8> {
    u32_bytes(id) + match m {
        ClientMsg::Pong => u16_bytes(PING_PONG_ID),
        ClientMsg::Ack { id: acked } => u16_bytes(ACK_ID) + u32_bytes(acked),
        ClientMsg::Create { client_hash, password_protected } => u16_bytes(CREATE_ID) + str8_bytes(
            encode_utf8(client_hash),
        ) + seq![bool_byte(password_protected)],
        ClientMsg::Join { client_hash, session_key } => u16_bytes(JOIN_ID) + str8_bytes(
            encode_utf8(client_hash),
        ) + str8_bytes(encode_utf8(session_key)),
        ClientMsg::Close => u16_bytes(CLOSE_ID),
    }
}

/// Each string of the packet fits in a length byte.
pub open spec fn client_strings_fit(m: ClientMsg) -> bool {
    match m {
        ClientMsg::Create { client_hash, .. } => encode_utf8(client_hash).len() <= 255,
        ClientMsg::Join { client_hash, session_key } => encode_utf8(client_hash).len() <= 255
            && encode_utf8(session_key).len() <= 255,
        _ => true,
    }
}

proof fn lemma_u16_at(b: Seq<u8>, p: int, x: u16)
    requires
        0 <= p,
        p + 2 <= b.len(),
        b.subrange(p, p + 2) == u16_bytes(x),
    ensures
        u16_at(b, p) == Some((x, p + 2)),
{
    assert(b[p] == b.subrange(p, p + 2)[0]);
    assert(b[p + 1] == b.subrange(p, p + 2)[1]);
    lemma_u16_round_trip(x);
}

proof fn lemma_u32_at(b: Seq<u8>, p: int, x: u32)
    requires
        0 <= p,
        p + 4 <= b.len(),
        b.subrange(p, p + 4) == u32_bytes(x),
    ensures
        u32_at(b, p) == Some((x, p + 4)),
{
    assert(b[p] == b.subrange(p, p + 4)[0]);
    assert(b[p + 1] == b.subrange(p, p + 4)[1]);
    assert(b[p + 2] == b.subrange(p, p + 4)[2]);
    assert(b[p + 3] == b.subrange(p, p + 4)[3]);
    lemma_u32_round_trip(x);
}

proof fn lemma_str8_at(b: Seq<u8>, p: int, s: Seq<char>)
    requires
        0 <= p,
        encode_utf8(s).len() <= 255,
        p + 1 + encode_utf8(s).len() <= b.len(),
        b.subrange(p, p + 1 + encode_utf8(s).len()) == str8_bytes(encode_utf8(s)),
    ensures
        str8_at(b, p) == Some((s, p + 1 + encode_utf8(s).len())),
{
    let e = encode_utf8(s);
    let n = e.len() as int;
    assert(e.take(n) =~= e);
    assert(b[p] == b.subrange(p, p + 1 + n)[0]);
    assert(b.subrange(p + 1, p + 1 + n) =~= b.subrange(p, p + 1 + n).subrange(1, 1 + n));
    assert(b.subrange(p + 1, p + 1 + n) =~= e);
    encode_utf8_valid_utf8(s);
    encode_utf8_decode_utf8(s);
}

/// Decoding the bytes of a client datagram gives back its sequence id and
/// packet, for every packet whose strings fit in 255 bytes.
pub proof fn lemma_client_round_trip(id: u32, m: ClientMsg)
    requires
        client_strings_fit(m),
    ensures
        client_datagram(client_datagram_bytes(id, m)) == Some((id, m)),
{
    let b = client_datagram_bytes(id, m);
    assert(b.subrange(0, 4) =~= u32_bytes(id));
    lemma_u32_at(b, 0, id);
    match m {
        ClientMsg::Pong => {
            assert(b.subrange(4, 6) =~= u16_bytes(PING_PONG_ID));
            lemma_u16_at(b, 4, PING_PONG_ID);
        },
        ClientMsg::Ack { id: acked } => {
            assert(b.subrange(4, 6) =~= u16_bytes(ACK_ID));
            lemma_u16_at(b, 4, ACK_ID);
            assert(b.subrange(6, 10) =~= u32_bytes(acked));
            lemma_u32_at(b, 6, acked);
        },
        ClientMsg::Create { client_hash, password_protected } => {
            assert(b.subrange(4, 6) =~= u16_bytes(CREATE_ID));
            lemma_u16_at(b, 4, CREATE_ID);
            let n = encode_utf8(client_hash).len() as int;
            assert(encode_utf8(client_hash).take(n) =~= encode_utf8(client_hash));
            assert(b.subrange(6, 7 + n) =~= str8_bytes(encode_utf8(client_hash)));
            lemma_str8_at(b, 6, client_hash);
            assert(b[7 + n] == bool_byte(password_protected));
        },
        ClientMsg::Join { client_hash, session_key } => {
            assert(b.subrange(4, 6) =~= u16_bytes(JOIN_ID));
            lemma_u16_at(b, 4, JOIN_ID);
            let n = encode_utf8(client_hash).len() as int;
            let n2 = encode_utf8(session_key).len() as int;
            assert(encode_utf8(client_hash).take(n) =~= encode_utf8(client_hash));
            assert(encode_utf8(session_key).take(n2) =~= encode_utf8(session_key));
            assert(b.subrange(6, 7 + n) =~= str8_bytes(encode_utf8(client_hash)));
            lemma_str8_at(b, 6, client_hash);
            assert(b.subrange(7 + n, 8 + n + n2) =~= str8_bytes(encode_utf8(session_key)));
            lemma_str8_at(b, 7 + n, session_key);
        },
        ClientMsg::Close => {
            assert(b.subrange(4, 6) =~= u16_bytes(CLOSE_ID));
            lemma_u16_at(b, 4, CLOSE_ID);
        },
    }
}

// ---------------------------------------------------------------------------
// Round trip of server packets

/// A server packet as a client reads it: a paired peer's address is text.
pub enum ServerReply {
    Ping,
    Ack { id: u32 },
    Create { session_key: Seq<char> },
    Join { peer: Option<Seq<char>>, success: bool },
    Close,
    Error { id: u32, message: Seq<char> },
}

/// How a client reads the server packet body at `p`.
pub open spec fn server_body_at(b: Seq<u8>, p: int) -> Option<ServerReply> {
    match u16_at(b, p) {
        None => None,
        Some((kind, q)) => if kind == PING_PONG_ID {
            Some(ServerReply::Ping)
        } else if kind == ACK_ID {
            match u32_at(b, q) {
                Some((id, _)) => Some(ServerReply::Ack { id }),
                None => None,
            }
        } else if kind == CREATE_ID {
            match str8_at(b, q) {
                Some((key, _)) => Some(ServerReply::Create { session_key: key }),
                None => None,
            }
        } else if kind == JOIN_ID {
            match bool_at(b, q) {
                Some((ok, q2)) => if ok {
                    match str8_at(b, q2) {
                        Some((peer, _)) => Some(ServerReply::Join { peer: Some(peer), success: true }),
                        None => None,
                    }
                } else {
                    Some(ServerReply::Join { peer: None, success: false })
                },
                None => None,
            }
        } else if kind == CLOSE_ID {
            Some(ServerReply::Close)
        } else if kind == ERROR_ID {
            match u32_at(b, q) {
                Some((id, q2)) => match str8_at(b, q2) {
                    Some((msg, _)) => Some(ServerReply::Error { id, message: msg }),
                    None => None,
                },
                None => None,
            }
        } else {
            None
        },
    }
}

/// The characters of ASCII bytes.
pub open spec fn ascii_chars(b: Seq<u8>) -> Seq<char> {
    Seq::new(b.len(), |i: int| b[i] as char)
}

/// What a client reads back for `m`.
pub open spec fn reply_of(m: ServerMsg) -> ServerReply {
    match m {
        ServerMsg::Ping => ServerReply::Ping,
        ServerMsg::Ack { id } => ServerReply::Ack { id },
        ServerMsg::Create { session_key } => ServerReply::Create { session_key },
        ServerMsg::Join { client_addr, success } => ServerReply::Join {
            peer: if success {
                Some(ascii_chars(addr_text(client_addr.unwrap())))
            } else {
                None
            },
            success,
        },
        ServerMsg::Close => ServerReply::Close,
        ServerMsg::Error { id, message } => ServerReply::Error { id, message },
    }
}

pub open spec fn server_strings_fit(m: ServerMsg) -> bool {
    match m {
        ServerMsg::Create { session_key } => encode_utf8(session_key).len() <= 255,
        ServerMsg::Error { message, .. } => encode_utf8(message).len() <= 255,
        _ => true,
    }
}

proof fn lemma_ascii_encode(b: Seq<u8>)
    requires
        forall|i: int| 0 <= i < b.len() ==> b[i] < 128,
    ensures
        encode_utf8(ascii_chars(b)) == b,
{
    let c = ascii_chars(b);
    assert(is_ascii_chars(c));
    is_ascii_chars_encode_utf8(c);
    assert(encode_utf8(c) =~= b);
}

/// Reading back the encoding of a server packet gives the same packet, with
/// a paired peer's address as its text, for every packet whose strings fit
/// in 255 bytes.
pub proof fn lemma_server_round_trip(m: ServerMsg)
    requires
        server_msg_wf(m),
        server_strings_fit(m),
    ensures
        server_body_at(server_packet_bytes(m), 0) == Some(reply_of(m)),
{
    let b = server_packet_bytes(m);
    match m {
        ServerMsg::Ping => {
            assert(b.subrange(0, 2) =~= u16_bytes(PING_PONG_ID));
            lemma_u16_at(b, 0, PING_PONG_ID);
        },
        ServerMsg::Ack { id } => {
            assert(b.subrange(0, 2) =~= u16_bytes(ACK_ID));
            lemma_u16_at(b, 0, ACK_ID);
            assert(b.subrange(2, 6) =~= u32_bytes(id));
            lemma_u32_at(b, 2, id);
        },
        ServerMsg::Create { session_key } => {
            assert(b.subrange(0, 2) =~= u16_bytes(CREATE_ID));
            lemma_u16_at(b, 0, CREATE_ID);
            assert(b.subrange(2, b.len() as int) =~= str8_bytes(encode_utf8(session_key)));
            lemma_str8_at(b, 2, session_key);
        },
        ServerMsg::Join { client_addr, success } => {
            assert(b.subrange(0, 2) =~= u16_bytes(JOIN_ID));
            lemma_u16_at(b, 0, JOIN_ID);
            if success {
                let t = addr_text(client_addr.unwrap());
                crate::addr::lemma_addr_text_len(client_addr.unwrap());
                crate::addr::lemma_addr_text_ascii(client_addr.unwrap());
                lemma_ascii_encode(t);
                let c = ascii_chars(t);
                assert(b.subrange(3, b.len() as int) =~= str8_bytes(encode_utf8(c)));
                lemma_str8_at(b, 3, c);
            }
        },
        ServerMsg::Close => {
            assert(b.subrange(0, 2) =~= u16_bytes(CLOSE_ID));
            lemma_u16_at(b, 0, CLOSE_ID);
        },
        ServerMsg::Error { id, message } => {
            assert(b.subrange(0, 2) =~= u16_bytes(ERROR_ID));
            lemma_u16_at(b, 0, ERROR_ID);
            assert(b.subrange(2, 6) =~= u32_bytes(id));
            lemma_u32_at(b, 2, id);
            assert(b.subrange(6, b.len() as int) =~= str8_bytes(encode_utf8(message)));
            lemma_str8_at(b, 6, message);
        },
    }
}

} // verus!
