use vstd::prelude::*;
use crate::addr::PeerAddr;
use crate::codec::{
    ack_frame, data_frame, server_msg_wf, text_eq, u16_bytes, ClientMsg, ClientPacket, ServerMsg,
    ServerPacket, CLOSE_ID, DATA_FRAME, PING_PONG_ID,
};
use crate::keys::{generate_key, is_session_key};
use crate::reliability::{age, byte_views, due, receive, PacketReciever, PacketShipper};

verus! {

/// A peer silent for longer than this, in milliseconds, is evicted.
pub const MAX_SILENCE_MS: u64 = 30000;

/// At most one ping leaves the server per this many milliseconds.
pub const PING_INTERVAL_MS: u64 = 5000;

/// Text of the error sent when a peer that hosts a session asks for another.
pub const CREATE_FAILED: &'static str = "Session failed to create";

/// Fresh keys drawn before giving up on a session that keeps colliding.
const KEY_ATTEMPTS: u32 = 64;

/// A session advertised by its host peer.
pub struct Session {
    pub key: String,
    pub host: PeerAddr,
    pub password_protected: bool,
}

/// A known peer with both halves of its reliability layer.
pub struct Client {
    pub addr: PeerAddr,
    pub reciever: PacketReciever,
    pub shipper: PacketShipper,
}

/// A datagram for the transport to send. A failed `retransmit` may end the
/// sweep of its peer's retransmissions for this tick.
pub struct Outgoing {
    pub to: PeerAddr,
    pub data: Vec<u8>,
    pub retransmit: bool,
}

impl Outgoing {
    /// A retransmission to a peer whose earlier retransmission this tick failed
    /// is held back until the next tick; every other datagram goes out.
    pub fn is_held_back(&self, stalled: &Vec<PeerAddr>) -> (r: bool)
        ensures
            r == (self.retransmit && stalled@.contains(self.to)),
    {
        if !self.retransmit {
            return false;
        }
        let mut i: usize = 0;
        while i < stalled.len()
            invariant
                i <= stalled@.len(),
                self.retransmit,
                forall|j: int| 0 <= j < i ==> stalled@[j] != self.to,
            decreases stalled@.len() - i,
        {
            if stalled[i] == self.to {
                assert(stalled@[i as int] == self.to);
                return true;
            }
            i = i + 1;
        }
        false
    }
}

pub open spec fn out_view(o: Seq<Outgoing>) -> Seq<(PeerAddr, Seq<u8>, bool)> {
    o.map_values(|g: Outgoing| (g.to, g.data@, g.retransmit))
}

/// The datagram a peer's shipper emits for `m`; none once its ids are spent.
pub open spec fn shipped(c: Client, m: ServerMsg) -> Seq<(PeerAddr, Seq<u8>, bool)> {
    if c.shipper.next_id() < u32::MAX {
        seq![(c.addr, data_frame(c.shipper.next_id(), m), false)]
    } else {
        Seq::empty()
    }
}

/// Session table rows: key, host, password protection.
pub type SessionRow = (Seq<char>, PeerAddr, bool);

/// The table without the session hosted by `a`, if there is one.
pub open spec fn without_host(t: Seq<SessionRow>, a: PeerAddr) -> Seq<SessionRow> {
    if exists|k: int| 0 <= k < t.len() && t[k].1 == a {
        t.remove(choose|k: int| 0 <= k < t.len() && t[k].1 == a)
    } else {
        t
    }
}

/// The host of the session with key `key`, unless that host is `src`.
pub open spec fn keyed_host(t: Seq<SessionRow>, key: Seq<char>, src: PeerAddr) -> Option<PeerAddr> {
    if exists|k: int| 0 <= k < t.len() && t[k].0 == key && t[k].1 != src {
        Some(t[choose|k: int| 0 <= k < t.len() && t[k].0 == key && t[k].1 != src].1)
    } else {
        None
    }
}

/// The host of the first public session in the table not hosted by `src`.
pub open spec fn open_host(t: Seq<SessionRow>, src: PeerAddr) -> Option<PeerAddr>
    decreases t.len(),
{
    if t.len() == 0 {
        None
    } else if !t[0].2 && t[0].1 != src {
        Some(t[0].1)
    } else {
        open_host(t.drop_first(), src)
    }
}

/// The session a `Join` pairs with: the first open one for an empty key,
/// else the one with that key; never one hosted by the requester.
pub open spec fn join_target(t: Seq<SessionRow>, src: PeerAddr, key: Seq<char>) -> Option<PeerAddr> {
    if key.len() == 0 {
        open_host(t, src)
    } else {
        keyed_host(t, key, src)
    }
}

pub open spec fn create_failed(id: u32) -> ServerMsg {
    ServerMsg::Error { id, message: CREATE_FAILED@ }
}

/// The datagrams appended to `before` to give `after`.
pub open spec fn appended(before: Seq<Outgoing>, after: Seq<Outgoing>) -> Seq<(PeerAddr, Seq<u8>, bool)> {
    out_view(after).subrange(before.len() as int, after.len() as int)
}

pub open spec fn extends(before: Seq<Outgoing>, after: Seq<Outgoing>) -> bool {
    before.len() <= after.len() && out_view(after).subrange(0, before.len() as int) == out_view(before)
}

/// Peer `pre` after its shipper ships `m` at `now`: one more id and one more
/// pending frame, or, once its ids are spent, no change at all.
pub open spec fn after_ship(pre: Client, post: Client, m: ServerMsg, now: u64) -> bool {
    if pre.shipper.next_id() < u32::MAX {
        &&& post.addr == pre.addr
        &&& post.reciever == pre.reciever
        &&& post.shipper.addr() == pre.shipper.addr()
        &&& post.shipper.next_id() == pre.shipper.next_id() + 1
        &&& post.shipper.pending().len() == pre.shipper.pending().len() + 1
        &&& post.shipper.pending().drop_last() == pre.shipper.pending()
        &&& post.shipper.pending().last().id == pre.shipper.next_id()
        &&& post.shipper.pending().last().creation_time == now
        &&& post.shipper.pending().last().data@ == data_frame(pre.shipper.next_id(), m)
    } else {
        post == pre
    }
}

/// Peer `pre` after the client acknowledged `acked`: that pending entry, if
/// any, is gone; nothing else changes.
pub open spec fn after_ack(pre: Client, post: Client, acked: u32) -> bool {
    &&& post.addr == pre.addr
    &&& post.reciever == pre.reciever
    &&& post.shipper.addr() == pre.shipper.addr()
    &&& post.shipper.next_id() == pre.shipper.next_id()
    &&& (forall|j: int| 0 <= j < pre.shipper.pending().len() ==> pre.shipper.pending()[j].id != acked)
        ==> post.shipper.pending() == pre.shipper.pending()
    &&& forall|j: int| 0 <= j < pre.shipper.pending().len() && pre.shipper.pending()[j].id == acked
        ==> post.shipper.pending() == pre.shipper.pending().remove(j)
}

/// Every peer other than `a` and `b` keeps its record.
pub open spec fn others_same(pre: Server, post: Server, a: PeerAddr, b: PeerAddr) -> bool {
    &&& post.peers().len() == pre.peers().len()
    &&& forall|i: int| 0 <= i < pre.peers().len() && pre.peers()[i].addr != a && pre.peers()[i].addr != b
        ==> #[trigger] post.peers()[i] == pre.peers()[i]
}

/// What handling a surfaced packet `m` (sequence id `id`) from `src` at `now`
/// does: `pre` becomes `post`, and `sent` is the datagrams it emits.
pub open spec fn handled(pre: Server, src: PeerAddr, id: u32, m: ClientMsg, now: u64, post: Server, sent: Seq<(PeerAddr, Seq<u8>, bool)>) -> bool {
    &&& post.peer_addrs() == pre.peer_addrs()
    &&& post.fingerprints() == pre.fingerprints()
    &&& post.last_ping() == pre.last_ping()
    &&& post.port() == pre.port()
    &&& post.peers().len() == pre.peers().len()
    &&& forall|i: int| 0 <= i < pre.peers().len() ==> #[trigger] post.peers()[i].reciever == pre.peers()[i].reciever
    &&& if !pre.peer_addrs().contains(src) {
        post.table() == pre.table() && sent.len() == 0 && post.peers() == pre.peers()
    } else {
        match m {
            ClientMsg::Pong => post.table() == pre.table() && sent.len() == 0 && post.peers() == pre.peers(),
            ClientMsg::Ack { id: acked } => {
                &&& post.table() == pre.table()
                &&& sent.len() == 0
                &&& others_same(pre, post, src, src)
                &&& after_ack(pre.peer_of(src), post.peer_of(src), acked)
            },
            ClientMsg::Create { client_hash, password_protected } => if !pre.fingerprints().contains(client_hash) {
                post.table() == pre.table() && sent.len() == 0 && post.peers() == pre.peers()
            } else if pre.has_session_spec(src) {
                &&& post.table() == pre.table()
                &&& sent == shipped(pre.peer_of(src), create_failed(id))
                &&& others_same(pre, post, src, src)
                &&& after_ship(pre.peer_of(src), post.peer_of(src), create_failed(id), now)
            } else {
                &&& others_same(pre, post, src, src)
                &&& {
                    ||| (pre.table().len() > 0 && post.table() == pre.table()
                        && sent == shipped(pre.peer_of(src), create_failed(id))
                        && after_ship(pre.peer_of(src), post.peer_of(src), create_failed(id), now))
                    ||| exists|key: Seq<char>| is_session_key(key) && !pre.has_key_spec(key)
                        && post.table() == pre.table().push((key, src, password_protected))
                        && sent == shipped(pre.peer_of(src), ServerMsg::Create { session_key: key })
                        && after_ship(pre.peer_of(src), post.peer_of(src), ServerMsg::Create { session_key: key }, now)
                }
            },
            ClientMsg::Join { client_hash, session_key } => if !pre.fingerprints().contains(client_hash) {
                post.table() == pre.table() && sent.len() == 0 && post.peers() == pre.peers()
            } else {
                match join_target(pre.table(), src, session_key) {
                    None => {
                        &&& post.table() == pre.table()
                        &&& sent == shipped(pre.peer_of(src), ServerMsg::Join { client_addr: None, success: false })
                        &&& others_same(pre, post, src, src)
                        &&& after_ship(pre.peer_of(src), post.peer_of(src), ServerMsg::Join { client_addr: None, success: false }, now)
                    },
                    Some(h) => {
                        &&& post.table() == without_host(without_host(pre.table(), h), src)
                        &&& sent == shipped(pre.peer_of(src), ServerMsg::Join { client_addr: Some(h), success: true })
                            + shipped(pre.peer_of(h), ServerMsg::Join { client_addr: Some(src), success: true })
                        &&& others_same(pre, post, src, h)
                        &&& after_ship(pre.peer_of(src), post.peer_of(src), ServerMsg::Join { client_addr: Some(h), success: true }, now)
                        &&& after_ship(pre.peer_of(h), post.peer_of(h), ServerMsg::Join { client_addr: Some(src), success: true }, now)
                    },
                }
            },
            ClientMsg::Close => post.table() == without_host(pre.table(), src) && sent.len() == 0 && post.peers() == pre.peers(),
        }
    }
}

pub proof fn lemma_open_host(t: Seq<SessionRow>, src: PeerAddr)
    ensures
        open_host(t, src) matches Some(h) ==> h != src && exists|k: int| 0 <= k < t.len() && t[k].1 == h && !t[k].2,
        open_host(t, src) is None ==> forall|k: int| 0 <= k < t.len() ==> t[k].2 || t[k].1 == src,
    decreases t.len(),
{
    if t.len() > 0 {
        lemma_open_host(t.drop_first(), src);
        if !(!t[0].2 && t[0].1 != src) {
            if open_host(t, src) is Some {
                let k = choose|k: int| 0 <= k < t.drop_first().len() && t.drop_first()[k].1 == open_host(t, src).unwrap() && !t.drop_first()[k].2;
                assert(t[k + 1] == t.drop_first()[k]);
            } else {
                assert forall|k: int| 0 <= k < t.len() implies t[k].2 || t[k].1 == src by {
                    if k > 0 {
                        assert(t[k] == t.drop_first()[k - 1]);
                    }
                }
            }
        }
    }
}

/// The receiver's next expected id for `src` before a datagram: a new peer's is 0.
pub open spec fn prev_next_id(s: Server, src: PeerAddr) -> u64 {
    if s.peer_addrs().contains(src) {
        s.peer_of(src).reciever.next_id()
    } else {
        0
    }
}

/// The shipper's next id for `src` before a datagram: a new peer's is 0.
pub open spec fn prev_ship_next_id(s: Server, src: PeerAddr) -> u32 {
    if s.peer_addrs().contains(src) {
        s.peer_of(src).shipper.next_id()
    } else {
        0
    }
}

/// A surfaced packet: `pre` took the receiver step into `mid` (the packet's
/// peer registered, its receiver updated, nothing else changed), then
/// handling took `mid` into `post`, emitting `sent`.
pub open spec fn surfaced_via(pre: Server, src: PeerAddr, id: u32, m: ClientMsg, now: u64, mid: Server, post: Server, sent: Seq<(PeerAddr, Seq<u8>, bool)>) -> bool {
    &&& mid.wf()
    &&& mid.table() == pre.table()
    &&& mid.fingerprints() == pre.fingerprints()
    &&& mid.peer_addrs() == post.peer_addrs()
    &&& mid.peer_of(src).shipper.next_id() == prev_ship_next_id(pre, src)
    &&& mid.peer_of(src).reciever.last_heard() == now
    &&& mid.peer_of(src).reciever.next_id() == receive(prev_next_id(pre, src), id).0
    &&& forall|a: PeerAddr| a != src && pre.peer_addrs().contains(a) ==> mid.peer_of(a) == pre.peer_of(a)
    &&& handled(mid, src, id, m, now, post, sent)
}

/// A peer not heard from for longer than the silence limit.
pub open spec fn silent(c: Client, now: u64) -> bool {
    age(c.reciever.last_heard(), now) > MAX_SILENCE_MS
}

/// `a` is the address of a peer of `s` that is silent at `now`.
pub open spec fn silent_peer(s: Server, a: PeerAddr, now: u64) -> bool {
    exists|j: int| 0 <= j < s.peers().len() && s.peers()[j].addr == a && silent(s.peers()[j], now)
}

/// Peer `f` is the first peer of `s` not silent at `now`, a ping is due, and
/// the peer still has sequence ids to give it.
pub open spec fn ping_owed(s: Server, f: int, now: u64) -> bool {
    &&& 0 <= f < s.peers().len()
    &&& !silent(s.peers()[f], now)
    &&& forall|j: int| 0 <= j < f ==> silent(#[trigger] s.peers()[j], now)
    &&& s.peers()[f].shipper.next_id() < u32::MAX
    &&& age(s.last_ping(), now) >= PING_INTERVAL_MS
}

/// `b` keeps every datagram of `a` in place and may add more after them.
pub open spec fn grows(a: Seq<(PeerAddr, Seq<u8>, bool)>, b: Seq<(PeerAddr, Seq<u8>, bool)>) -> bool {
    a.len() <= b.len() && forall|x: int| 0 <= x < a.len() ==> b[x] == a[x]
}

pub proof fn lemma_grows_contains(a: Seq<(PeerAddr, Seq<u8>, bool)>, b: Seq<(PeerAddr, Seq<u8>, bool)>, e: (PeerAddr, Seq<u8>, bool))
    requires
        grows(a, b),
        a.contains(e),
    ensures
        b.contains(e),
{
    let x = choose|x: int| 0 <= x < a.len() && a[x] == e;
    assert(b[x] == e);
}

/// Every packet of live peer `i` due for a resend at `now` is in `o`, marked
/// as a retransmission.
pub open spec fn resent_all(s: Server, i: int, now: u64, o: Seq<(PeerAddr, Seq<u8>, bool)>) -> bool {
    forall|d: int| 0 <= d < due(s.peers()[i].shipper.pending(), now).len()
        ==> o.contains((s.peers()[i].addr, #[trigger] due(s.peers()[i].shipper.pending(), now)[d], true))
}

/// A ping frame sent for the first time: a data frame whose packet id is 0.
pub open spec fn is_fresh_ping(e: (PeerAddr, Seq<u8>, bool)) -> bool {
    !e.2 && e.1.len() == 7 && e.1[0] == DATA_FRAME && e.1[5] == 0 && e.1[6] == 0
}

pub open spec fn ping_count(o: Seq<(PeerAddr, Seq<u8>, bool)>) -> nat
    decreases o.len(),
{
    if o.len() == 0 {
        0
    } else {
        ping_count(o.drop_last()) + if is_fresh_ping(o.last()) {
            1nat
        } else {
            0nat
        }
    }
}

pub proof fn lemma_ping_count_append(o: Seq<(PeerAddr, Seq<u8>, bool)>, e: (PeerAddr, Seq<u8>, bool))
    ensures
        ping_count(o + seq![e]) == ping_count(o) + if is_fresh_ping(e) {
            1nat
        } else {
            0nat
        },
{
    assert((o + seq![e]).drop_last() =~= o);
}

pub proof fn lemma_frame_kinds(n: u32)
    ensures
        is_fresh_ping((PeerAddr { ip: 0, port: 0 }, data_frame(n, ServerMsg::Ping), false)),
        data_frame(n, ServerMsg::Close).len() == 7,
        data_frame(n, ServerMsg::Close)[5] == 4,
{
    let z: u16 = 0;
    let c: u16 = 4;
    assert(((z & 0xff) as u8) == 0 && (((z >> 8u16) & 0xff) as u8) == 0) by (bit_vector)
        requires
            z == 0u16,
    ;
    assert(((c & 0xff) as u8) == 4) by (bit_vector)
        requires
            c == 4u16,
    ;
    assert(u16_bytes(PING_PONG_ID) == seq![0u8, 0u8]);
    assert(data_frame(n, ServerMsg::Close)[5] == u16_bytes(CLOSE_ID)[0]);
}

/// Removing a host's session never adds a session for anyone else.
pub proof fn lemma_without_host_rows(t: Seq<SessionRow>, a: PeerAddr, b: PeerAddr)
    ensures
        forall|k: int| 0 <= k < t.len() && t[k].1 != a ==> without_host(t, a).contains(#[trigger] t[k]),
        (forall|k: int| 0 <= k < t.len() ==> t[k].1 != b) ==> forall|k: int|
            0 <= k < without_host(t, a).len() ==> without_host(t, a)[k].1 != b,
{
    assert forall|c: int, k: int| 0 <= c < t.len() && 0 <= k < t.len() && k != c implies
        #[trigger] t.remove(c).contains(#[trigger] t[k]) by {
        if k < c {
            assert(t.remove(c)[k] == t[k]);
        } else {
            assert(t.remove(c)[k - 1] == t[k]);
        }
    }
    if exists|k: int| 0 <= k < t.len() && t[k].1 == a {
        let c = choose|k: int| 0 <= k < t.len() && t[k].1 == a;
        assert forall|k: int| 0 <= k < t.remove(c).len() implies t.remove(c)[k] == t[k] || t.remove(c)[k] == t[k + 1] by {}
        assert forall|k: int| 0 <= k < t.len() && t[k].1 != a implies without_host(t, a).contains(#[trigger] t[k]) by {
            assert(k != c);
            assert(t.remove(c).contains(t[k]));
        }
    } else {
        assert forall|k: int| 0 <= k < t.len() && t[k].1 != a implies t.contains(#[trigger] t[k]) by {
            assert(t[k] == t[k]);
        }
    }
}

/// Server state: known peers, the session table, accepted client fingerprints.
pub struct Server {
    port: u16,
    clients: Vec<Client>,
    sessions: Vec<Session>,
    valid_client_hashes: Vec<String>,
    last_ping: u64,
}

impl Server {
    pub closed spec fn port(&self) -> u16 {
        self.port
    }

    pub closed spec fn peers(&self) -> Seq<Client> {
        self.clients@
    }

    pub open spec fn peer_addrs(&self) -> Seq<PeerAddr> {
        self.peers().map_values(|c: Client| c.addr)
    }

    pub closed spec fn table(&self) -> Seq<SessionRow> {
        self.sessions@.map_values(|s: Session| (s.key@, s.host, s.password_protected))
    }

    pub closed spec fn fingerprints(&self) -> Seq<Seq<char>> {
        self.valid_client_hashes@.map_values(|h: String| h@)
    }

    /// When the last ping left the server.
    pub closed spec fn last_ping(&self) -> u64 {
        self.last_ping
    }

    pub open spec fn has_session_spec(&self, a: PeerAddr) -> bool {
        exists|k: int| 0 <= k < self.table().len() && self.table()[k].1 == a
    }

    pub open spec fn has_key_spec(&self, key: Seq<char>) -> bool {
        exists|k: int| 0 <= k < self.table().len() && self.table()[k].0 == key
    }

    /// Peers are unique by address and each one's shipper is well formed;
    /// session keys and hosts are unique; every host is a known peer; every
    /// key is a well-formed session key.
    pub open spec fn wf(&self) -> bool {
        &&& forall|i: int, j: int|
            0 <= i < j < self.peers().len() ==> self.peers()[i].addr != self.peers()[j].addr
        &&& forall|i: int|
            0 <= i < self.peers().len() ==> {
                &&& (#[trigger] self.peers()[i]).shipper.wf()
                &&& self.peers()[i].shipper.addr() == self.peers()[i].addr
                &&& self.peers()[i].reciever.addr() == self.peers()[i].addr
            }
        &&& forall|i: int, j: int|
            0 <= i < j < self.table().len() ==> self.table()[i].0 != self.table()[j].0
        &&& forall|i: int, j: int|
            0 <= i < j < self.table().len() ==> self.table()[i].1 != self.table()[j].1
        &&& forall|k: int|
            0 <= k < self.table().len() ==> self.peer_addrs().contains(#[trigger] self.table()[k].1)
        &&& forall|k: int| 0 <= k < self.table().len() ==> is_session_key(#[trigger] self.table()[k].0)
    }

    pub fn new(port: u16) -> (r: Server)
        ensures
            r.wf(),
            r.port() == port,
            r.peers().len() == 0,
            r.table().len() == 0,
            r.fingerprints().len() == 0,
            r.last_ping() == 0,
    {
        let r = Server {
            port,
            clients: Vec::new(),
            sessions: Vec::new(),
            valid_client_hashes: Vec::new(),
            last_ping: 0,
        };
        assert(r.table() =~= Seq::empty());
        assert(r.fingerprints() =~= Seq::empty());
        r
    }

    fn find_client(&self, a: &PeerAddr) -> (r: Option<usize>)
        ensures
            r matches Some(i) ==> i < self.peers().len() && self.peers()[i as int].addr == *a,
            r is None ==> !self.peer_addrs().contains(*a),
    {
        let mut i: usize = 0;
        while i < self.clients.len()
            invariant
                i <= self.clients@.len(),
                forall|j: int| 0 <= j < i ==> self.clients@[j].addr != *a,
            decreases self.clients@.len() - i,
        {
            if self.clients[i].addr == *a {
                return Some(i);
            }
            i = i + 1;
        }
        proof {
            if self.peer_addrs().contains(*a) {
                let j = choose|j: int| 0 <= j < self.peer_addrs().len() && self.peer_addrs()[j] == *a;
                assert(self.clients@[j].addr == *a);
            }
        }
        None
    }

    pub fn has_client(&self, a: &PeerAddr) -> (r: bool)
        ensures
            r == self.peer_addrs().contains(*a),
    {
        match self.find_client(a) {
            Some(i) => {
                assert(self.peer_addrs()[i as int] == *a);
                true
            },
            None => false,
        }
    }

    /// Index of the session hosted by `a`.
    fn find_session_of(&self, a: &PeerAddr) -> (r: Option<usize>)
        ensures
            r matches Some(k) ==> k < self.table().len() && self.table()[k as int].1 == *a,
            r is None ==> !self.has_session_spec(*a),
    {
        let mut k: usize = 0;
        while k < self.sessions.len()
            invariant
                k <= self.sessions@.len(),
                forall|j: int| 0 <= j < k ==> self.sessions@[j].host != *a,
            decreases self.sessions@.len() - k,
        {
            if self.sessions[k].host == *a {
                return Some(k);
            }
            k = k + 1;
        }
        None
    }

    fn has_session(&self, a: &PeerAddr) -> (r: bool)
        ensures
            r == self.has_session_spec(*a),
    {
        self.find_session_of(a).is_some()
    }

    fn has_key(&self, key: &str) -> (r: bool)
        ensures
            r == self.has_key_spec(key@),
    {
        let mut k: usize = 0;
        while k < self.sessions.len()
            invariant
                k <= self.sessions@.len(),
                forall|j: int| 0 <= j < k ==> self.sessions@[j].key@ != key@,
            decreases self.sessions@.len() - k,
        {
            if text_eq(self.sessions[k].key.as_str(), key) {
                assert(self.table()[k as int].0 == key@);
                return true;
            }
            k = k + 1;
        }
        false
    }

    /// The host of the session with key `key`, unless it is `exclude_socket`.
    fn get_socket_addr_from_session(&self, key: &str, exclude_socket: &PeerAddr) -> (r: Option<
        PeerAddr,
    >)
        requires
            self.wf(),
        ensures
            r == keyed_host(self.table(), key@, *exclude_socket),
    {
        let mut k: usize = 0;
        while k < self.sessions.len()
            invariant
                self.wf(),
                k <= self.sessions@.len(),
                forall|j: int| 0 <= j < k ==> self.table()[j].0 != key@,
            decreases self.sessions@.len() - k,
        {
            if text_eq(self.sessions[k].key.as_str(), key) {
                let host = self.sessions[k].host;
                proof {
                    assert(self.table()[k as int].0 == key@);
                    assert forall|j: int|
                        0 <= j < self.table().len() && self.table()[j].0 == key@ implies j == k by {
                        if j != k {
                            assert(self.table()[j].0 != self.table()[k as int].0);
                        }
                    }
                }
                if host != *exclude_socket {
                    return Some(host);
                } else {
                    return None;
                }
            }
            k = k + 1;
        }
        None
    }

    /// The host of the first public session not hosted by `exclude_socket`.
    fn get_socket_addr_from_open_session(&self, exclude_socket: &PeerAddr) -> (r: Option<PeerAddr>)
        ensures
            r == open_host(self.table(), *exclude_socket),
    {
        let mut k: usize = 0;
        assert(self.table().subrange(0, self.table().len() as int) =~= self.table());
        while k < self.sessions.len()
            invariant
                k <= self.sessions@.len(),
                open_host(self.table(), *exclude_socket) == open_host(
                    self.table().subrange(k as int, self.table().len() as int),
                    *exclude_socket,
                ),
            decreases self.sessions@.len() - k,
        {
            let ghost rest = self.table().subrange(k as int, self.table().len() as int);
            assert(rest[0] == self.table()[k as int]);
            if !self.sessions[k].password_protected && self.sessions[k].host != *exclude_socket {
                return Some(self.sessions[k].host);
            }
            assert(rest.drop_first() =~= self.table().subrange(k + 1, self.table().len() as int));
            k = k + 1;
        }
        None
    }

    /// Replaces the accepted client fingerprints.
    pub fn support_client_hashes(&mut self, hashes: Vec<String>)
        requires
            old(self).wf(),
        ensures
            final(self).wf(),
            final(self).fingerprints() == hashes@.map_values(|h: String| h@),
            final(self).peers() == old(self).peers(),
            final(self).table() == old(self).table(),
            final(self).last_ping() == old(self).last_ping(),
            final(self).port() == old(self).port(),
    {
        self.valid_client_hashes = hashes;
        assert(self.peers() == old(self).peers());
        assert(self.table() == old(self).table());
        assert(self.peer_addrs() == old(self).peer_addrs());
    }

    /// Installs a session for `a` under `key`, where `a` hosts none and `key`
    /// is not in use; returns whether it did.
    pub fn install_session(&mut self, a: &PeerAddr, password_protected: bool, key: String) -> (r:
        bool)
        requires
            old(self).wf(),
            old(self).peer_addrs().contains(*a),
            is_session_key(key@),
        ensures
            final(self).wf(),
            r == (!old(self).has_session_spec(*a) && !old(self).has_key_spec(key@)),
            r ==> final(self).table() == old(self).table().push((key@, *a, password_protected)),
            !r ==> final(self).table() == old(self).table(),
            final(self).peers() == old(self).peers(),
            final(self).fingerprints() == old(self).fingerprints(),
            final(self).last_ping() == old(self).last_ping(),
            final(self).port() == old(self).port(),
    {
        if self.has_session(a) || self.has_key(key.as_str()) {
            return false;
        }
        let ghost t = self.table();
        self.sessions.push(Session { key, host: *a, password_protected });
        assert(self.table() =~= t.push((key@, *a, password_protected)));
        true
    }

    /// Creates a session hosted by `a` under a fresh random key. `None` where
    /// `a` already hosts one, or where every key drawn was taken.
    fn create_session(&mut self, a: &PeerAddr, password_protected: bool) -> (r: Option<String>)
        requires
            old(self).wf(),
            old(self).peer_addrs().contains(*a),
        ensures
            final(self).wf(),
            old(self).has_session_spec(*a) ==> r is None,
            !old(self).has_session_spec(*a) && old(self).table().len() == 0 ==> r is Some,
            r matches Some(key) ==> is_session_key(key@) && !old(self).has_key_spec(key@)
                && final(self).table() == old(self).table().push((key@, *a, password_protected)),
            r is None ==> final(self).table() == old(self).table(),
            final(self).peers() == old(self).peers(),
            final(self).fingerprints() == old(self).fingerprints(),
            final(self).last_ping() == old(self).last_ping(),
            final(self).port() == old(self).port(),
    {
        if self.has_session(a) {
            return None;
        }
        let mut attempt: u32 = 0;
        while attempt < KEY_ATTEMPTS
            invariant
                self.wf(),
                self.peer_addrs().contains(*a),
                !self.has_session_spec(*a),
                self.table() == old(self).table(),
                old(self).table().len() == 0 ==> attempt == 0,
                self.peers() == old(self).peers(),
                self.fingerprints() == old(self).fingerprints(),
                self.last_ping() == old(self).last_ping(),
                self.port() == old(self).port(),
            decreases KEY_ATTEMPTS - attempt,
        {
            let key = generate_key();
            let copy = key.clone();
            if self.install_session(a, password_protected, key) {
                return Some(copy);
            }
            attempt = attempt + 1;
        }
        None
    }

    /// Drops the session hosted by `a`, if any; returns whether `a` is a known peer.
    pub fn drop_client_session(&mut self, a: &PeerAddr) -> (r: bool)
        requires
            old(self).wf(),
        ensures
            final(self).wf(),
            r == old(self).peer_addrs().contains(*a),
            final(self).table() == without_host(old(self).table(), *a),
            !final(self).has_session_spec(*a),
            final(self).peers() == old(self).peers(),
            final(self).fingerprints() == old(self).fingerprints(),
            final(self).last_ping() == old(self).last_ping(),
            final(self).port() == old(self).port(),
    {
        let known = self.has_client(a);
        match self.find_session_of(a) {
            Some(k) => {
                let ghost t = self.table();
                let _ = self.sessions.remove(k);
                proof {
                    assert(self.table() =~= t.remove(k as int));
                    let c = choose|c: int| 0 <= c < t.len() && t[c].1 == *a;
                    if c != k {
                        assert(t[c].1 != t[k as int].1);
                    }
                    assert forall|i: int| 0 <= i < self.table().len() implies #[trigger] self.table()[i].1 != *a by {
                        if i < k {
                            assert(self.table()[i] == t[i]);
                            assert(t[i].1 != t[k as int].1);
                        } else {
                            assert(self.table()[i] == t[i + 1]);
                            assert(t[i + 1].1 != t[k as int].1);
                        }
                    }
                    assert forall|i: int, j: int| 0 <= i < j < self.table().len() implies self.table()[i].0 != self.table()[j].0 && self.table()[i].1 != self.table()[j].1 by {
                        let i2 = if i < k { i } else { i + 1 };
                        let j2 = if j < k { j } else { j + 1 };
                        assert(self.table()[i] == t[i2]);
                        assert(self.table()[j] == t[j2]);
                    }
                    assert forall|i: int| 0 <= i < self.table().len() implies self.peer_addrs().contains(#[trigger] self.table()[i].1) && is_session_key(self.table()[i].0) by {
                        let i2 = if i < k { i } else { i + 1 };
                        assert(self.table()[i] == t[i2]);
                    }
                }
            },
            None => {},
        }
        known
    }

    /// The peer at address `a`.
    pub open spec fn peer_of(&self, a: PeerAddr) -> Client {
        self.peers()[choose|i: int| 0 <= i < self.peers().len() && self.peers()[i].addr == a]
    }

    pub proof fn lemma_peer_of(&self, i: int)
        requires
            self.wf(),
            0 <= i < self.peers().len(),
        ensures
            self.peer_of(self.peers()[i].addr) == self.peers()[i],
            self.peer_addrs().contains(self.peers()[i].addr),
    {
        let a = self.peers()[i].addr;
        assert(self.peer_addrs()[i] == a);
        let c = choose|c: int| 0 <= c < self.peers().len() && self.peers()[c].addr == a;
        if c != i {
            if c < i {
                assert(self.peers()[c].addr != self.peers()[i].addr);
            } else {
                assert(self.peers()[i].addr != self.peers()[c].addr);
            }
        }
    }

    /// A change confined to peer `skip` leaves every other peer's record, as
    /// found by address, as it was.
    pub proof fn lemma_peer_of_frame(s1: Server, s2: Server, skip: int)
        requires
            s1.wf(),
            s2.wf(),
            0 <= skip < s1.peers().len(),
            s2.peers().len() == s1.peers().len(),
            s2.peers()[skip].addr == s1.peers()[skip].addr,
            forall|j: int| 0 <= j < s1.peers().len() && j != skip ==> s2.peers()[j] == s1.peers()[j],
        ensures
            forall|b: PeerAddr| b != s1.peers()[skip].addr && s1.peer_addrs().contains(b)
                ==> #[trigger] s2.peer_of(b) == s1.peer_of(b),
    {
        assert forall|b: PeerAddr| b != s1.peers()[skip].addr && s1.peer_addrs().contains(b)
            implies #[trigger] s2.peer_of(b) == s1.peer_of(b) by {
            let j = choose|j: int| 0 <= j < s1.peer_addrs().len() && s1.peer_addrs()[j] == b;
            assert(s1.peers()[j].addr == b);
            s1.lemma_peer_of(j);
            s2.lemma_peer_of(j);
        }
    }

    /// Ships `packet` to peer `i` and queues its datagram in `out`.
    fn ship(&mut self, i: usize, packet: &ServerPacket, now: u64, out: &mut Vec<Outgoing>)
        requires
            old(self).wf(),
            i < old(self).peers().len(),
            server_msg_wf(packet@),
        ensures
            final(self).wf(),
            out_view(final(out)@) == out_view(old(out)@) + shipped(old(self).peers()[i as int], packet@),
            final(self).peers().len() == old(self).peers().len(),
            forall|j: int| 0 <= j < old(self).peers().len() && j != i ==> final(self).peers()[j] == old(self).peers()[j],
            final(self).peers()[i as int].addr == old(self).peers()[i as int].addr,
            final(self).peers()[i as int].reciever == old(self).peers()[i as int].reciever,
            after_ship(old(self).peers()[i as int], final(self).peers()[i as int], packet@, now),
            final(self).peer_addrs() == old(self).peer_addrs(),
            final(self).table() == old(self).table(),
            final(self).fingerprints() == old(self).fingerprints(),
            final(self).last_ping() == old(self).last_ping(),
            final(self).port() == old(self).port(),
    {
        if !self.clients[i].shipper.can_send() {
            assert(out_view(out@) =~= out_view(old(out)@) + shipped(old(self).peers()[i as int], packet@));
            return;
        }
        let to = self.clients[i].addr;
        let data = self.clients[i].shipper.send(packet, now);
        let ghost before = out_view(out@);
        out.push(Outgoing { to, data, retransmit: false });
        proof {
            assert(out_view(out@) =~= before + shipped(old(self).peers()[i as int], packet@));
            assert(self.peer_addrs() =~= old(self).peer_addrs());
            assert forall|j: int| 0 <= j < self.peers().len() implies (#[trigger] self.peers()[j]).shipper.wf()
                && self.peers()[j].shipper.addr() == self.peers()[j].addr
                && self.peers()[j].reciever.addr() == self.peers()[j].addr by {
                assert(old(self).peers()[j].shipper.wf());
            }
            assert forall|x: int, y: int| 0 <= x < y < self.peers().len() implies self.peers()[x].addr != self.peers()[y].addr by {
                assert(old(self).peers()[x].addr != old(self).peers()[y].addr);
            }
            assert(self.table() == old(self).table());
        }
    }

    /// Forgets peer `a` and the session it hosts; returns whether it was known.
    pub fn drop_client(&mut self, a: &PeerAddr) -> (r: bool)
        requires
            old(self).wf(),
        ensures
            final(self).wf(),
            r == old(self).peer_addrs().contains(*a),
            !final(self).peer_addrs().contains(*a),
            final(self).table() == without_host(old(self).table(), *a),
            !final(self).has_session_spec(*a),
            forall|k: int| 0 <= k < old(self).table().len() && old(self).table()[k].1 == *a
                ==> !final(self).has_key_spec(#[trigger] old(self).table()[k].0),
            forall|b: PeerAddr| b != *a ==> (final(self).peer_addrs().contains(b) == old(self).peer_addrs().contains(b)),
            forall|b: PeerAddr| b != *a && old(self).peer_addrs().contains(b) ==> #[trigger] final(self).peer_of(b) == old(self).peer_of(b),
            final(self).fingerprints() == old(self).fingerprints(),
            final(self).last_ping() == old(self).last_ping(),
            final(self).port() == old(self).port(),
    {
        let ghost t = self.table();
        match self.find_client(a) {
            Some(i) => {
                assert(self.peer_addrs()[i as int] == *a);
                self.drop_client_session(a);
                let ghost mid = self.peers();
                let ghost addrs = self.peer_addrs();
                let _ = self.clients.remove(i);
                proof {
                    assert(self.peers() =~= mid.remove(i as int));
                    assert(self.peer_addrs() =~= addrs.remove(i as int));
                    assert forall|b: PeerAddr| b != *a implies (self.peer_addrs().contains(b) == addrs.contains(b)) by {
                        if addrs.contains(b) {
                            let j = choose|j: int| 0 <= j < addrs.len() && addrs[j] == b;
                            if j < i { assert(self.peer_addrs()[j] == b); } else { assert(j != i); assert(self.peer_addrs()[j - 1] == b); }
                        }
                        if self.peer_addrs().contains(b) {
                            let j = choose|j: int| 0 <= j < self.peer_addrs().len() && self.peer_addrs()[j] == b;
                            if j < i { assert(addrs[j] == b); } else { assert(addrs[j + 1] == b); }
                        }
                    }
                    assert(!self.peer_addrs().contains(*a)) by {
                        if self.peer_addrs().contains(*a) {
                            let j = choose|j: int| 0 <= j < self.peer_addrs().len() && self.peer_addrs()[j] == *a;
                            let j2 = if j < i { j } else { j + 1 };
                            assert(addrs[j2] == *a);
                            assert(mid[j2].addr != mid[i as int].addr);
                        }
                    }
                    assert forall|x: int, y: int| 0 <= x < y < self.peers().len() implies self.peers()[x].addr != self.peers()[y].addr by {
                        let x2 = if x < i { x } else { x + 1 };
                        let y2 = if y < i { y } else { y + 1 };
                        assert(self.peers()[x] == mid[x2]);
                        assert(self.peers()[y] == mid[y2]);
                    }
                    assert forall|x: int| 0 <= x < self.peers().len() implies (#[trigger] self.peers()[x]).shipper.wf()
                        && self.peers()[x].shipper.addr() == self.peers()[x].addr
                        && self.peers()[x].reciever.addr() == self.peers()[x].addr by {
                        let x2 = if x < i { x } else { x + 1 };
                        assert(self.peers()[x] == mid[x2]);
                    }
                    assert forall|k: int| 0 <= k < self.table().len() implies self.peer_addrs().contains(#[trigger] self.table()[k].1) by {
                        assert(self.table()[k].1 != *a);
                        assert(addrs.contains(self.table()[k].1));
                    }
                    assert forall|b: PeerAddr| b != *a && addrs.contains(b) implies #[trigger] self.peer_of(b) == old(self).peer_of(b) by {
                        let j = choose|j: int| 0 <= j < addrs.len() && addrs[j] == b;
                        assert(mid[j].addr == b);
                        old(self).lemma_peer_of(j);
                        if j < i {
                            assert(self.peers()[j] == mid[j]);
                            self.lemma_peer_of(j);
                        } else {
                            assert(j != i);
                            assert(self.peers()[j - 1] == mid[j]);
                            self.lemma_peer_of(j - 1);
                        }
                    }
                    assert forall|k: int| 0 <= k < t.len() && t[k].1 == *a implies !self.has_key_spec(#[trigger] t[k].0) by {
                        if self.has_key_spec(t[k].0) {
                            let c = choose|c: int| 0 <= c < self.table().len() && self.table()[c].0 == t[k].0;
                            let c0 = choose|c0: int| 0 <= c0 < t.len() && t[c0].1 == *a;
                            assert(c0 == k) by { if c0 != k { assert(t[c0].1 != t[k].1 || c0 == k); } }
                            let c2 = if c < k { c } else { c + 1 };
                            assert(self.table() == t.remove(k));
                            assert(self.table()[c] == t[c2]);
                            assert(t[c2].0 != t[k].0);
                        }
                    }
                }
                true
            },
            None => {
                proof {
                    if exists|k: int| 0 <= k < t.len() && t[k].1 == *a {
                        let k = choose|k: int| 0 <= k < t.len() && t[k].1 == *a;
                        assert(self.peer_addrs().contains(t[k].1));
                    }
                }
                false
            },
        }
    }

    /// Hands a client's acknowledgement of `acked` to peer `i`'s shipper.
    fn acknowledge_peer(&mut self, i: usize, acked: u32)
        requires
            old(self).wf(),
            i < old(self).peers().len(),
        ensures
            final(self).wf(),
            others_same(*old(self), *final(self), old(self).peers()[i as int].addr, old(self).peers()[i as int].addr),
            after_ack(old(self).peers()[i as int], final(self).peers()[i as int], acked),
            final(self).peer_addrs() == old(self).peer_addrs(),
            final(self).table() == old(self).table(),
            final(self).fingerprints() == old(self).fingerprints(),
            final(self).last_ping() == old(self).last_ping(),
            final(self).port() == old(self).port(),
    {
        let ghost pre = *self;
        self.clients[i].shipper.acknowledge(acked);
        proof {
            assert(self.peer_addrs() =~= pre.peer_addrs());
            assert forall|x: int, y: int| 0 <= x < y < self.peers().len() implies self.peers()[x].addr != self.peers()[y].addr by {
                assert(pre.peers()[x].addr != pre.peers()[y].addr);
            }
            assert forall|j: int| 0 <= j < self.peers().len() implies (#[trigger] self.peers()[j]).shipper.wf()
                && self.peers()[j].shipper.addr() == self.peers()[j].addr
                && self.peers()[j].reciever.addr() == self.peers()[j].addr by {
                assert(pre.peers()[j].shipper.wf());
            }
            assert(self.table() == pre.table());
            assert forall|j: int| 0 <= j < pre.peers().len() && pre.peers()[j].addr != pre.peers()[i as int].addr
                && pre.peers()[j].addr != pre.peers()[i as int].addr implies #[trigger] self.peers()[j] == pre.peers()[j] by {
                assert(j != i);
            }
        }
    }

    #[verifier::rlimit(40)]
    /// Handles a packet the peer `src`'s receiver surfaced, queueing replies in `out`.
    pub fn handle_packet(&mut self, src: PeerAddr, id: u32, packet: ClientPacket, now: u64, out: &mut Vec<Outgoing>)
        requires
            old(self).wf(),
        ensures
            final(self).wf(),
            extends(old(out)@, final(out)@),
            handled(*old(self), src, id, packet@, now, *final(self), appended(old(out)@, final(out)@)),
    {
        let ghost pre = *self;
        let ghost out0 = out@;
        assert(out_view(out@).subrange(0, out0.len() as int) =~= out_view(out0));
        assert(appended(out0, out@) =~= Seq::empty());
        let i = match self.find_client(&src) {
            Some(i) => i,
            None => return,
        };
        proof {
            self.lemma_peer_of(i as int);
        }
        match packet {
            ClientPacket::Pong => {},
            ClientPacket::Ack { id: acked } => {
                self.acknowledge_peer(i, acked);
                proof {
                    self.lemma_peer_of(i as int);
                }
            },
            ClientPacket::Create { client_hash, password_protected } => {
                if !self.valid_client_hash(client_hash.as_str()) {
                    return;
                }
                match self.create_session(&src, password_protected) {
                    Some(key) => {
                        let reply = ServerPacket::Create { session_key: key.as_str() };
                        assert(self.peers()[i as int] == pre.peer_of(src));
                        assert(reply@ == ServerMsg::Create { session_key: key@ });
                        self.ship(i, &reply, now, out);
                        proof {
                            let k = key@;
                            assert(out_view(out@) == out_view(out0) + shipped(pre.peer_of(src), reply@));
                            assert(appended(out0, out@) =~= shipped(pre.peer_of(src), reply@));
                            assert(appended(out0, out@) =~= shipped(pre.peer_of(src), ServerMsg::Create { session_key: k }));
                            assert(out_view(out@).subrange(0, out0.len() as int) =~= out_view(out0));
                            self.lemma_peer_of(i as int);
                        }
                    },
                    None => {
                        let reply = ServerPacket::Error { id, message: CREATE_FAILED };
                        assert(self.peers()[i as int] == pre.peer_of(src));
                        self.ship(i, &reply, now, out);
                        proof {
                            assert(reply@ == create_failed(id));
                            assert(out_view(out@) == out_view(out0) + shipped(pre.peer_of(src), reply@));
                            assert(appended(out0, out@) =~= shipped(pre.peer_of(src), create_failed(id)));
                            assert(out_view(out@).subrange(0, out0.len() as int) =~= out_view(out0));
                            self.lemma_peer_of(i as int);
                        }
                    },
                }
            },
            ClientPacket::Join { client_hash, session_key } => {
                if !self.valid_client_hash(client_hash.as_str()) {
                    return;
                }
                let target = if session_key.as_str().is_empty() {
                    self.get_socket_addr_from_open_session(&src)
                } else {
                    self.get_socket_addr_from_session(session_key.as_str(), &src)
                };
                proof {
                    lemma_open_host(self.table(), src);
                }
                match target {
                    Some(host) => {
                        let ghost hk = choose|k: int| 0 <= k < pre.table().len() && pre.table()[k].1 == host;
                        assert(pre.peer_addrs().contains(pre.table()[hk].1));
                        let h = match self.find_client(&host) {
                            Some(h) => h,
                            None => return,
                        };
                        proof {
                            self.lemma_peer_of(h as int);
                        }
                        let to_requester = ServerPacket::Join { client_addr: Some(host), success: true };
                        assert(h != i);
                        self.ship(i, &to_requester, now, out);
                        let ghost out1 = out@;
                        assert(out_view(out1) == out_view(out0) + shipped(pre.peer_of(src), to_requester@));
                        assert(self.peers()[h as int] == pre.peer_of(host));
                        let to_host = ServerPacket::Join { client_addr: Some(src), success: true };
                        self.ship(h, &to_host, now, out);
                        assert(out_view(out@) == out_view(out0) + shipped(pre.peer_of(src), to_requester@) + shipped(pre.peer_of(host), to_host@));
                        proof {
                            assert(self.peers()[h as int].addr == host);
                        }
                        self.drop_client_session(&host);
                        self.drop_client_session(&src);
                        proof {
                            assert(appended(out0, out@) =~= shipped(pre.peer_of(src), to_requester@) + shipped(pre.peer_of(host), to_host@));
                            assert(out_view(out@).subrange(0, out0.len() as int) =~= out_view(out0));
                            self.lemma_peer_of(i as int);
                            self.lemma_peer_of(h as int);
                        }
                    },
                    None => {
                        let reply = ServerPacket::Join { client_addr: None, success: false };
                        assert(self.peers()[i as int] == pre.peer_of(src));
                        self.ship(i, &reply, now, out);
                        proof {
                            assert(out_view(out@) == out_view(out0) + shipped(pre.peer_of(src), reply@));
                            assert(appended(out0, out@) =~= shipped(pre.peer_of(src), reply@));
                            assert(out_view(out@).subrange(0, out0.len() as int) =~= out_view(out0));
                            self.lemma_peer_of(i as int);
                        }
                    },
                }
            },
            ClientPacket::Close => {
                self.drop_client_session(&src);
            },
        }
    }

    /// Takes in a parsed client datagram: acknowledges it, registers `src` if
    /// it is new, and handles the packet where the receiver surfaces it.
    pub fn receive_packet(&mut self, src: PeerAddr, id: u32, packet: ClientPacket, now: u64) -> (out: Vec<Outgoing>)
        requires
            old(self).wf(),
        ensures
            final(self).wf(),
            packet@ matches ClientMsg::Ack { id: acked } ==> {
                &&& out@.len() == 0
                &&& final(self).peer_addrs() == old(self).peer_addrs()
                &&& final(self).table() == old(self).table()
                &&& old(self).peer_addrs().contains(src) ==> others_same(*old(self), *final(self), src, src)
                    && after_ack(old(self).peer_of(src), final(self).peer_of(src), acked)
                &&& !old(self).peer_addrs().contains(src) ==> final(self).peers() == old(self).peers()
            },
            !(packet@ is Ack) ==> {
                &&& out@.len() >= 1
                &&& out_view(out@)[0] == (src, ack_frame(id), false)
                &&& final(self).peer_addrs().contains(src)
                &&& final(self).peer_of(src).reciever.next_id() == receive(prev_next_id(*old(self), src), id).0
                &&& final(self).peer_of(src).reciever.last_heard() == now
                &&& old(self).peer_addrs().contains(src) ==> final(self).peer_addrs() == old(self).peer_addrs()
                &&& !old(self).peer_addrs().contains(src) ==> final(self).peer_addrs() == old(self).peer_addrs().push(src)
            },
            !(packet@ is Ack) && !receive(prev_next_id(*old(self), src), id).1 ==> {
                &&& out@.len() == 1
                &&& final(self).table() == old(self).table()
                &&& final(self).peer_addrs() == old(self).peer_addrs()
            },
            !(packet@ is Ack) && receive(prev_next_id(*old(self), src), id).1 ==> exists|mid: Server|
                surfaced_via(*old(self), src, id, packet@, now, mid, *final(self), out_view(out@).drop_first()),
            final(self).fingerprints() == old(self).fingerprints(),
            final(self).last_ping() == old(self).last_ping(),
            final(self).port() == old(self).port(),
    {
        let mut out: Vec<Outgoing> = Vec::new();
        let ghost pre = *self;
        let ghost pv = packet@;
        let acked: Option<u32> = match &packet {
            ClientPacket::Ack { id } => Some(*id),
            _ => None,
        };
        if let Some(a) = acked {
            match self.find_client(&src) {
                Some(i) => {
                    self.acknowledge_peer(i, a);
                    proof {
                        pre.lemma_peer_of(i as int);
                        self.lemma_peer_of(i as int);
                    }
                },
                None => {},
            }
            return out;
        }
        match self.find_client(&src) {
            Some(i) => {
                proof { self.lemma_peer_of(i as int); }
                let (ack, surfaced) = self.clients[i].reciever.sort_packets(id, packet, now);
                out.push(Outgoing { to: src, data: ack, retransmit: false });
                proof {
                    assert(self.peer_addrs() =~= pre.peer_addrs());
                    assert forall|x: int, y: int| 0 <= x < y < self.peers().len() implies self.peers()[x].addr != self.peers()[y].addr by {
                        assert(pre.peers()[x].addr != pre.peers()[y].addr);
                    }
                    assert forall|j: int| 0 <= j < self.peers().len() implies (#[trigger] self.peers()[j]).shipper.wf()
                        && self.peers()[j].shipper.addr() == self.peers()[j].addr
                        && self.peers()[j].reciever.addr() == self.peers()[j].addr by {
                        assert(pre.peers()[j].shipper.wf());
                    }
                    assert(self.table() == pre.table());
                    self.lemma_peer_of(i as int);
                    assert forall|a: PeerAddr| a != src && pre.peer_addrs().contains(a) implies self.peer_of(a) == pre.peer_of(a) by {
                        let j = choose|j: int| 0 <= j < pre.peer_addrs().len() && pre.peer_addrs()[j] == a;
                        assert(pre.peers()[j].addr == a);
                        pre.lemma_peer_of(j);
                        self.lemma_peer_of(j);
                    }
                }
                let ghost mid = *self;
                let ghost out1 = out@;
                match surfaced {
                    Some(p) => {
                        self.handle_packet(src, id, p, now, &mut out);
                        assert(out_view(out@).drop_first() =~= appended(out1, out@));
                        assert(out_view(out@)[0] == out_view(out1)[0]);
                        assert(mid.peer_of(src).shipper.next_id() == prev_ship_next_id(pre, src));
                        assert(mid.peer_of(src).reciever.next_id() == receive(prev_next_id(pre, src), id).0);
                        assert(handled(mid, src, id, pv, now, *self, out_view(out@).drop_first()));
                        assert(surfaced_via(pre, src, id, pv, now, mid, *self, out_view(out@).drop_first()));
                    },
                    None => {},
                }
            },
            None => {
                let mut client = Client {
                    addr: src,
                    reciever: PacketReciever::new(src, now),
                    shipper: PacketShipper::new(src),
                };
                let (ack, surfaced) = client.reciever.sort_packets(id, packet, now);
                out.push(Outgoing { to: src, data: ack, retransmit: false });
                match surfaced {
                    Some(p) => {
                        let ghost addrs = self.peer_addrs();
                        self.clients.push(client);
                        proof {
                            assert(self.peer_addrs() =~= addrs.push(src));
                            let n = pre.peers().len() as int;
                            assert forall|x: int, y: int| 0 <= x < y < self.peers().len() implies self.peers()[x].addr != self.peers()[y].addr by {
                                if y == n {
                                    assert(pre.peer_addrs()[x] == pre.peers()[x].addr);
                                } else {
                                    assert(pre.peers()[x].addr != pre.peers()[y].addr);
                                }
                            }
                            assert forall|j: int| 0 <= j < self.peers().len() implies (#[trigger] self.peers()[j]).shipper.wf()
                                && self.peers()[j].shipper.addr() == self.peers()[j].addr
                                && self.peers()[j].reciever.addr() == self.peers()[j].addr by {
                                if j < n {
                                    assert(pre.peers()[j].shipper.wf());
                                }
                            }
                            assert(self.table() == pre.table());
                            assert forall|k: int| 0 <= k < self.table().len() implies self.peer_addrs().contains(#[trigger] self.table()[k].1) by {
                                let c = choose|c: int| 0 <= c < addrs.len() && addrs[c] == self.table()[k].1;
                                assert(self.peer_addrs()[c] == addrs[c]);
                            }
                            self.lemma_peer_of(n);
                            assert forall|a: PeerAddr| a != src && pre.peer_addrs().contains(a) implies self.peer_of(a) == pre.peer_of(a) by {
                                let j = choose|j: int| 0 <= j < pre.peer_addrs().len() && pre.peer_addrs()[j] == a;
                                assert(pre.peers()[j].addr == a);
                                pre.lemma_peer_of(j);
                                self.lemma_peer_of(j);
                            }
                        }
                        let ghost out1 = out@;
                        let ghost mid = *self;
                        self.handle_packet(src, id, p, now, &mut out);
                        assert(out_view(out@).drop_first() =~= appended(out1, out@));
                        assert(out_view(out@)[0] == out_view(out1)[0]);
                        assert(mid.peer_of(src).shipper.next_id() == prev_ship_next_id(pre, src));
                        assert(mid.peer_of(src).reciever.next_id() == receive(prev_next_id(pre, src), id).0);
                        assert(handled(mid, src, id, pv, now, *self, out_view(out@).drop_first()));
                        assert(surfaced_via(pre, src, id, pv, now, mid, *self, out_view(out@).drop_first()));
                    },
                    None => {},
                }
            },
        }
        out
    }

    /// Housekeeping at `now`: evicts silent peers (each is sent a last `Close`),
    /// pings one peer if the ping interval has passed, and resends every
    /// packet pending for a tick or longer.
    #[verifier::rlimit(60)]
    pub fn tick(&mut self, now: u64) -> (out: Vec<Outgoing>)
        requires
            old(self).wf(),
        ensures
            final(self).wf(),
            forall|i: int| 0 <= i < old(self).peers().len() && silent(old(self).peers()[i], now) ==> {
                &&& !final(self).peer_addrs().contains(#[trigger] old(self).peers()[i].addr)
                &&& !final(self).has_session_spec(old(self).peers()[i].addr)
            },
            forall|i: int| 0 <= i < old(self).peers().len() && !silent(old(self).peers()[i], now)
                ==> final(self).peer_addrs().contains(#[trigger] old(self).peers()[i].addr),
            forall|a: PeerAddr| final(self).peer_addrs().contains(a) ==> old(self).peer_addrs().contains(a),
            forall|i: int| 0 <= i < old(self).peers().len() && silent(old(self).peers()[i], now)
                && old(self).peers()[i].shipper.next_id() < u32::MAX ==> out_view(out@).contains(
                (old(self).peers()[i].addr, data_frame(old(self).peers()[i].shipper.next_id(), ServerMsg::Close), false),
            ),
            forall|k: int| 0 <= k < old(self).table().len() && !silent_peer(*old(self), old(self).table()[k].1, now)
                ==> final(self).table().contains(#[trigger] old(self).table()[k]),
            forall|i: int| 0 <= i < old(self).peers().len() && !silent(old(self).peers()[i], now)
                ==> #[trigger] resent_all(*old(self), i, now, out_view(out@)),
            ping_count(out_view(out@)) <= 1,
            forall|f: int| ping_owed(*old(self), f, now) ==> ping_count(out_view(out@)) == 1,
            ping_count(out_view(out@)) == 1 ==> final(self).last_ping() == now,
            final(self).last_ping() == old(self).last_ping() || (final(self).last_ping() == now
                && age(old(self).last_ping(), now) >= PING_INTERVAL_MS),
            (age(old(self).last_ping(), now) >= PING_INTERVAL_MS && exists|i: int|
                0 <= i < old(self).peers().len() && !silent(old(self).peers()[i], now))
                ==> final(self).last_ping() == now,
            final(self).fingerprints() == old(self).fingerprints(),
            final(self).port() == old(self).port(),
    {
        let ghost pre = *self;
        let mut out: Vec<Outgoing> = Vec::new();
        let mut kick: Vec<PeerAddr> = Vec::new();
        let mut i: usize = 0;
        while i < self.clients.len()
            invariant
                self.wf(),
                i <= self.peers().len(),
                self.peers().len() == pre.peers().len(),
                self.peer_addrs() == pre.peer_addrs(),
                self.table() == pre.table(),
                self.fingerprints() == pre.fingerprints(),
                self.port() == pre.port(),
                forall|j: int| 0 <= j < self.peers().len() ==> self.peers()[j].reciever == pre.peers()[j].reciever
                    && self.peers()[j].addr == pre.peers()[j].addr,
                forall|j: int| 0 <= j < i && silent(pre.peers()[j], now) ==> kick@.contains(#[trigger] pre.peers()[j].addr),
                forall|j: int| i <= j < self.peers().len() ==> #[trigger] self.peers()[j] == pre.peers()[j],
                forall|j: int| 0 <= j < i && silent(pre.peers()[j], now) ==> #[trigger] self.peers()[j] == pre.peers()[j],
                (forall|j: int| 0 <= j < i ==> silent(#[trigger] pre.peers()[j], now)) ==> self.last_ping == pre.last_ping(),
                forall|f: int| ping_owed(pre, f, now) && f < i ==> ping_count(out_view(out@)) == 1,
                forall|j: int| 0 <= j < i && !silent(pre.peers()[j], now) ==> #[trigger] resent_all(pre, j, now, out_view(out@)),
                forall|k: int| 0 <= k < kick@.len() ==> silent_peer(pre, #[trigger] kick@[k], now),
                ping_count(out_view(out@)) <= 1,
                ping_count(out_view(out@)) == 1 ==> self.last_ping == now,
                self.last_ping == pre.last_ping() || (self.last_ping == now && age(pre.last_ping(), now) >= PING_INTERVAL_MS),
                (age(pre.last_ping(), now) >= PING_INTERVAL_MS && exists|j: int| 0 <= j < i && !silent(pre.peers()[j], now))
                    ==> self.last_ping == now,
            decreases self.peers().len() - i,
        {
            let ghost c_start = ping_count(out_view(out@));
            let ghost o_start = out_view(out@);
            let ghost all_quiet_before = forall|j: int| 0 <= j < i ==> silent(#[trigger] pre.peers()[j], now);
            let last = self.clients[i].reciever.get_last_message_time();
            let quiet = now >= last && now - last > MAX_SILENCE_MS;
            if quiet {
                let ghost kv = kick@;
                kick.push(self.clients[i].addr);
                proof {
                    assert forall|k: int| 0 <= k < kick@.len() implies silent_peer(pre, #[trigger] kick@[k], now) by {
                        if k < kv.len() {
                            assert(kick@[k] == kv[k]);
                        } else {
                            assert(pre.peers()[i as int].addr == kick@[k]);
                        }
                    }
                    assert forall|j: int| 0 <= j < i + 1 && silent(pre.peers()[j], now) implies kick@.contains(#[trigger] pre.peers()[j].addr) by {
                        if j < i {
                            let c = choose|c: int| 0 <= c < kv.len() && kv[c] == pre.peers()[j].addr;
                            assert(kick@[c] == kv[c]);
                        } else {
                            assert(kick@[kv.len() as int] == pre.peers()[j].addr);
                        }
                    }
                }
            } else {
                let due_ping = now >= self.last_ping && now - self.last_ping >= PING_INTERVAL_MS;
                proof {
                    if ping_owed(pre, i as int, now) {
                        assert(all_quiet_before);
                        assert(due_ping);
                        assert(c_start == 0);
                    }
                }
                if due_ping {
                    let ghost o0 = out_view(out@);
                    let ghost c = self.peers()[i as int];
                    self.ship(i, &ServerPacket::Ping, now, &mut out);
                    self.last_ping = now;
                    proof {
                        lemma_frame_kinds(c.shipper.next_id());
                        if c.shipper.next_id() < u32::MAX {
                            lemma_ping_count_append(o0, (c.addr, data_frame(c.shipper.next_id(), ServerMsg::Ping), false));
                        } else {
                            assert(out_view(out@) =~= o0);
                        }
                        assert(self.peer_addrs() =~= pre.peer_addrs());
                        if ping_owed(pre, i as int, now) {
                            assert(c == pre.peers()[i as int]);
                            assert(ping_count(out_view(out@)) == 1);
                        }
                    }
                }
                let ghost c_mid = ping_count(out_view(out@));
                proof {
                    let ps = self.peers()[i as int].shipper.pending();
                    let pp = pre.peers()[i as int].shipper.pending();
                    if ps != pp {
                        assert(ps.drop_last() == pp);
                        assert(age(ps.last().creation_time, now) == 0);
                    }
                    assert(due(ps, now) == due(pp, now));
                    assert(grows(o_start, out_view(out@)));
                }
                let resends = self.clients[i].shipper.resend_unacknowledged_packets(now);
                let to = self.clients[i].addr;
                let mut r: usize = 0;
                while r < resends.len()
                    invariant
                        r <= resends@.len(),
                        ping_count(out_view(out@)) <= 1,
                        ping_count(out_view(out@)) == 1 ==> self.last_ping == now,
                        ping_count(out_view(out@)) >= c_mid,
                        grows(o_start, out_view(out@)),
                        byte_views(resends@) == due(pre.peers()[i as int].shipper.pending(), now),
                        to == pre.peers()[i as int].addr,
                        forall|d: int| 0 <= d < r ==> out_view(out@).contains((to, #[trigger] byte_views(resends@)[d], true)),
                    decreases resends@.len() - r,
                {
                    let ghost o0 = out_view(out@);
                    let copy = resends[r].clone();
                    assert(copy@ =~= resends@[r as int]@);
                    out.push(Outgoing { to, data: copy, retransmit: true });
                    proof {
                        assert(out_view(out@) =~= o0 + seq![out_view(out@).last()]);
                        lemma_ping_count_append(o0, out_view(out@).last());
                        assert(grows(o0, out_view(out@)));
                        assert(out_view(out@)[o0.len() as int] == (to, byte_views(resends@)[r as int], true));
                        assert forall|d: int| 0 <= d < r + 1 implies out_view(out@).contains((to, #[trigger] byte_views(resends@)[d], true)) by {
                            if d < r {
                                lemma_grows_contains(o0, out_view(out@), (to, byte_views(resends@)[d], true));
                            }
                        }
                    }
                    r = r + 1;
                }
                assert(c_mid >= c_start);
            }
            proof {
                assert(ping_count(out_view(out@)) >= c_start);
                assert(grows(o_start, out_view(out@)));
                assert forall|j: int| 0 <= j < i + 1 && !silent(pre.peers()[j], now) implies #[trigger] resent_all(pre, j, now, out_view(out@)) by {
                    if j < i {
                        assert(resent_all(pre, j, now, o_start));
                        assert forall|d: int| 0 <= d < due(pre.peers()[j].shipper.pending(), now).len()
                            implies out_view(out@).contains((pre.peers()[j].addr, #[trigger] due(pre.peers()[j].shipper.pending(), now)[d], true)) by {
                            lemma_grows_contains(o_start, out_view(out@), (pre.peers()[j].addr, due(pre.peers()[j].shipper.pending(), now)[d], true));
                        }
                    }
                }
                assert forall|f: int| ping_owed(pre, f, now) && f < i + 1 implies ping_count(out_view(out@)) == 1 by {
                    if f < i {
                        assert(c_start == 1);
                    }
                }
            }
            i = i + 1;
        }
        proof {
            assert forall|r: int| 0 <= r < pre.table().len() && !kick@.contains(pre.table()[r].1)
                implies self.table().contains(#[trigger] pre.table()[r]) by {
                assert(self.table()[r] == pre.table()[r]);
            }
            assert forall|j: int| 0 <= j < pre.peers().len() && silent(pre.peers()[j], now)
                && self.peer_addrs().contains(pre.peers()[j].addr)
                implies self.peer_of(#[trigger] pre.peers()[j].addr) == pre.peers()[j] by {
                self.lemma_peer_of(j);
            }
            assert forall|j: int| 0 <= j < pre.peers().len() implies self.peer_addrs().contains(#[trigger] pre.peers()[j].addr) by {
                assert(self.peer_addrs()[j] == pre.peers()[j].addr);
            }
        }
        let mut k: usize = 0;
        while k < kick.len()
            invariant
                self.wf(),
                k <= kick@.len(),
                forall|j: int| 0 <= j < pre.peers().len() && silent(pre.peers()[j], now) ==> kick@.contains(#[trigger] pre.peers()[j].addr),
                forall|c: int| 0 <= c < kick@.len() ==> silent_peer(pre, #[trigger] kick@[c], now),
                forall|c: int| 0 <= c < k ==> !self.peer_addrs().contains(#[trigger] kick@[c]) && !self.has_session_spec(kick@[c]),
                forall|f: int| ping_owed(pre, f, now) ==> ping_count(out_view(out@)) == 1,
                forall|j: int| 0 <= j < pre.peers().len() && !silent(pre.peers()[j], now) ==> #[trigger] resent_all(pre, j, now, out_view(out@)),
                forall|r: int| 0 <= r < pre.table().len() && !kick@.contains(pre.table()[r].1)
                    ==> self.table().contains(#[trigger] pre.table()[r]),
                forall|j: int| 0 <= j < pre.peers().len() && silent(pre.peers()[j], now)
                    && self.peer_addrs().contains(pre.peers()[j].addr)
                    ==> self.peer_of(#[trigger] pre.peers()[j].addr) == pre.peers()[j],
                forall|j: int| 0 <= j < pre.peers().len() && silent(pre.peers()[j], now)
                    && !self.peer_addrs().contains(#[trigger] pre.peers()[j].addr) && pre.peers()[j].shipper.next_id() < u32::MAX
                    ==> out_view(out@).contains((pre.peers()[j].addr, data_frame(pre.peers()[j].shipper.next_id(), ServerMsg::Close), false)),
                forall|a: PeerAddr| !kick@.contains(a) ==> (self.peer_addrs().contains(a) == pre.peer_addrs().contains(a)),
                forall|a: PeerAddr| self.peer_addrs().contains(a) ==> pre.peer_addrs().contains(a),
                ping_count(out_view(out@)) <= 1,
                ping_count(out_view(out@)) == 1 ==> self.last_ping == now,
                self.last_ping == pre.last_ping() || (self.last_ping == now && age(pre.last_ping(), now) >= PING_INTERVAL_MS),
                (age(pre.last_ping(), now) >= PING_INTERVAL_MS && exists|j: int| 0 <= j < pre.peers().len() && !silent(pre.peers()[j], now))
                    ==> self.last_ping == now,
                self.fingerprints() == pre.fingerprints(),
                self.port() == pre.port(),
            decreases kick@.len() - k,
        {
            let a = kick[k];
            let ghost o_k = out_view(out@);
            match self.find_client(&a) {
                Some(j) => {
                    let ghost o0 = out_view(out@);
                    let ghost c = self.peers()[j as int];
                    let ghost s0 = *self;
                    proof {
                        self.lemma_peer_of(j as int);
                    }
                    self.ship(j, &ServerPacket::Close, now, &mut out);
                    proof {
                        lemma_frame_kinds(c.shipper.next_id());
                        if c.shipper.next_id() < u32::MAX {
                            lemma_ping_count_append(o0, (c.addr, data_frame(c.shipper.next_id(), ServerMsg::Close), false));
                            assert(out_view(out@)[o0.len() as int] == (c.addr, data_frame(c.shipper.next_id(), ServerMsg::Close), false));
                        } else {
                            assert(out_view(out@) =~= o0);
                        }
                        Server::lemma_peer_of_frame(s0, *self, j as int);
                        assert(self.peer_addrs() =~= s0.peer_addrs());
                        assert forall|x: int| 0 <= x < o0.len() implies out_view(out@)[x] == o0[x] by {}
                        assert forall|jp: int| 0 <= jp < pre.peers().len() && silent(pre.peers()[jp], now)
                            && !self.peer_addrs().contains(#[trigger] pre.peers()[jp].addr) && pre.peers()[jp].shipper.next_id() < u32::MAX
                            implies out_view(out@).contains((pre.peers()[jp].addr, data_frame(pre.peers()[jp].shipper.next_id(), ServerMsg::Close), false)) by {
                            let x = choose|x: int| 0 <= x < o0.len() && o0[x] == (pre.peers()[jp].addr, data_frame(pre.peers()[jp].shipper.next_id(), ServerMsg::Close), false);
                            assert(out_view(out@)[x] == o0[x]);
                        }
                        assert forall|jp: int| 0 <= jp < pre.peers().len() && silent(pre.peers()[jp], now)
                            && self.peer_addrs().contains(pre.peers()[jp].addr) && pre.peers()[jp].addr != a
                            implies self.peer_of(#[trigger] pre.peers()[jp].addr) == pre.peers()[jp] by {
                            assert(s0.peer_of(pre.peers()[jp].addr) == pre.peers()[jp]);
                        }
                        assert(silent_peer(pre, kick@[k as int], now));
                        let j0 = choose|j0: int| 0 <= j0 < pre.peers().len() && pre.peers()[j0].addr == a && silent(pre.peers()[j0], now);
                        assert(s0.peer_of(pre.peers()[j0].addr) == pre.peers()[j0]);
                        assert(c == pre.peers()[j0]);
                    }
                },
                None => {},
            }
            let ghost s1 = *self;
            let ghost o1 = out_view(out@);
            let ghost before = *self;
            self.drop_client(&a);
            proof {
                assert forall|c: int| 0 <= c < k + 1 implies !self.peer_addrs().contains(#[trigger] kick@[c]) && !self.has_session_spec(kick@[c]) by {
                    if c < k {
                        lemma_without_host_rows(before.table(), a, kick@[c]);
                    }
                }
                assert forall|a2: PeerAddr| !kick@.contains(a2) implies (self.peer_addrs().contains(a2) == pre.peer_addrs().contains(a2)) by {
                    assert(kick@[k as int] == a);
                }
                assert(grows(o_k, out_view(out@)));
                assert forall|j: int| 0 <= j < pre.peers().len() && !silent(pre.peers()[j], now) implies #[trigger] resent_all(pre, j, now, out_view(out@)) by {
                    assert(resent_all(pre, j, now, o_k));
                    assert forall|d: int| 0 <= d < due(pre.peers()[j].shipper.pending(), now).len()
                        implies out_view(out@).contains((pre.peers()[j].addr, #[trigger] due(pre.peers()[j].shipper.pending(), now)[d], true)) by {
                        lemma_grows_contains(o_k, out_view(out@), (pre.peers()[j].addr, due(pre.peers()[j].shipper.pending(), now)[d], true));
                    }
                }
                assert forall|jp: int| 0 <= jp < pre.peers().len() && silent(pre.peers()[jp], now)
                    && self.peer_addrs().contains(pre.peers()[jp].addr)
                    implies self.peer_of(#[trigger] pre.peers()[jp].addr) == pre.peers()[jp] by {
                    assert(pre.peers()[jp].addr != a);
                    assert(s1.peer_addrs().contains(pre.peers()[jp].addr));
                    assert(s1.peer_of(pre.peers()[jp].addr) == pre.peers()[jp]);
                }
                assert forall|jp: int| 0 <= jp < pre.peers().len() && silent(pre.peers()[jp], now)
                    && !self.peer_addrs().contains(#[trigger] pre.peers()[jp].addr) && pre.peers()[jp].shipper.next_id() < u32::MAX
                    implies out_view(out@).contains((pre.peers()[jp].addr, data_frame(pre.peers()[jp].shipper.next_id(), ServerMsg::Close), false)) by {
                    if pre.peers()[jp].addr != a {
                        assert(!s1.peer_addrs().contains(pre.peers()[jp].addr));
                    }
                }
                assert forall|r: int| 0 <= r < pre.table().len() && !kick@.contains(pre.table()[r].1)
                    implies self.table().contains(#[trigger] pre.table()[r]) by {
                    let row = pre.table()[r];
                    assert(kick@[k as int] == a);
                    assert(row.1 != a);
                    assert(before.table().contains(row));
                    let k0 = choose|k0: int| 0 <= k0 < before.table().len() && before.table()[k0] == row;
                    lemma_without_host_rows(before.table(), a, a);
                    assert(without_host(before.table(), a).contains(before.table()[k0]));
                }
            }
            k = k + 1;
        }
        proof {
            assert forall|r: int| 0 <= r < pre.table().len() && !silent_peer(pre, pre.table()[r].1, now)
                implies self.table().contains(#[trigger] pre.table()[r]) by {
                if kick@.contains(pre.table()[r].1) {
                    let c = choose|c: int| 0 <= c < kick@.len() && kick@[c] == pre.table()[r].1;
                    assert(silent_peer(pre, kick@[c], now));
                }
            }
            assert forall|i: int| 0 <= i < pre.peers().len() && silent(pre.peers()[i], now) implies !self.peer_addrs().contains(#[trigger] pre.peers()[i].addr) && !self.has_session_spec(pre.peers()[i].addr) by {
                let c = choose|c: int| 0 <= c < kick@.len() && kick@[c] == pre.peers()[i].addr;
            }
            assert forall|i: int| 0 <= i < pre.peers().len() && !silent(pre.peers()[i], now) implies self.peer_addrs().contains(#[trigger] pre.peers()[i].addr) by {
                assert(pre.peer_addrs()[i] == pre.peers()[i].addr);
                if kick@.contains(pre.peers()[i].addr) {
                    let c = choose|c: int| 0 <= c < kick@.len() && kick@[c] == pre.peers()[i].addr;
                    assert(silent_peer(pre, kick@[c], now));
                    let j = choose|j: int| 0 <= j < pre.peers().len() && pre.peers()[j].addr == kick@[c] && silent(pre.peers()[j], now);
                    if j != i {
                        if j < i {
                            assert(pre.peers()[j].addr != pre.peers()[i].addr);
                        } else {
                            assert(pre.peers()[i].addr != pre.peers()[j].addr);
                        }
                    }
                }
            }
        }
        out
    }

    /// Every peer's pending packets have unique ids, all below the peer's
    /// next outbound id.
    pub proof fn lemma_pending_ids(&self)
        requires
            self.wf(),
        ensures
            forall|i: int, x: int, y: int|
                0 <= i < self.peers().len() && 0 <= x < y < self.peers()[i].shipper.pending().len()
                    ==> self.peers()[i].shipper.pending()[x].id != self.peers()[i].shipper.pending()[y].id,
            forall|i: int, x: int|
                0 <= i < self.peers().len() && 0 <= x < self.peers()[i].shipper.pending().len()
                    ==> self.peers()[i].shipper.pending()[x].id < self.peers()[i].shipper.next_id(),
    {
        assert forall|i: int, x: int, y: int|
            0 <= i < self.peers().len() && 0 <= x < y < self.peers()[i].shipper.pending().len()
                implies self.peers()[i].shipper.pending()[x].id != self.peers()[i].shipper.pending()[y].id by {
            assert(self.peers()[i].shipper.wf());
        }
        assert forall|i: int, x: int|
            0 <= i < self.peers().len() && 0 <= x < self.peers()[i].shipper.pending().len()
                implies self.peers()[i].shipper.pending()[x].id < self.peers()[i].shipper.next_id() by {
            assert(self.peers()[i].shipper.wf());
        }
    }

    /// Every session's host is a known peer, and that peer hosts this session
    /// alone: its session key is the key the table maps to it.
    pub proof fn lemma_sessions_consistent(&self)
        requires
            self.wf(),
        ensures
            forall|k: int|
                0 <= k < self.table().len() ==> self.peer_addrs().contains(#[trigger] self.table()[k].1),
            forall|k: int, k2: int|
                0 <= k < self.table().len() && 0 <= k2 < self.table().len() && self.table()[k].1
                    == self.table()[k2].1 ==> self.table()[k].0 == self.table()[k2].0,
    {
        assert forall|k: int, k2: int|
            0 <= k < self.table().len() && 0 <= k2 < self.table().len() && self.table()[k].1
                == self.table()[k2].1 implies self.table()[k].0 == self.table()[k2].0 by {
            if k < k2 {
                assert(self.table()[k].1 != self.table()[k2].1);
            } else if k2 < k {
                assert(self.table()[k2].1 != self.table()[k].1);
            }
        }
    }

    /// The UDP port the server is meant to listen on.
    pub fn listen_port(&self) -> (r: u16)
        ensures
            r == self.port(),
    {
        self.port
    }

    pub fn peer_count(&self) -> (r: usize)
        ensures
            r == self.peers().len(),
    {
        self.clients.len()
    }

    pub fn session_count(&self) -> (r: usize)
        ensures
            r == self.table().len(),
    {
        self.sessions.len()
    }

    /// The key of the session hosted by `a`.
    pub fn session_of(&self, a: &PeerAddr) -> (r: Option<String>)
        ensures
            r matches Some(key) ==> exists|k: int| 0 <= k < self.table().len() && self.table()[k] == (key@, *a, self.table()[k].2),
            r is None ==> !self.has_session_spec(*a),
    {
        match self.find_session_of(a) {
            Some(k) => {
                let key = self.sessions[k].key.clone();
                assert(self.table()[k as int] == (key@, *a, self.table()[k as int].2));
                Some(key)
            },
            None => None,
        }
    }

    fn valid_client_hash(&self, hash: &str) -> (r: bool)
        ensures
            r == self.fingerprints().contains(hash@),
    {
        let mut i: usize = 0;
        while i < self.valid_client_hashes.len()
            invariant
                i <= self.valid_client_hashes@.len(),
                forall|j: int| 0 <= j < i ==> self.valid_client_hashes@[j]@ != hash@,
            decreases self.valid_client_hashes@.len() - i,
        {
            if text_eq(self.valid_client_hashes[i].as_str(), hash) {
                assert(self.fingerprints()[i as int] == hash@);
                return true;
            }
            i = i + 1;
        }
        false
    }
}

} // verus!
