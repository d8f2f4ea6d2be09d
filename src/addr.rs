use vstd::prelude::*;

verus! {

/// The IPv4 endpoint a datagram came from, as observed by the server.
/// `ip` holds the four octets, most significant first. The server listens on
/// `0.0.0.0`, an IPv4 socket, so every peer it sees has such an address.
#[derive(Clone, Copy, PartialEq, Eq, Structural, Debug, Hash)]
pub struct PeerAddr {
    pub ip: u32,
    pub port: u16,
}

/// ASCII decimal digits of `n`, most significant first, without leading zeros.
pub open spec fn decimal(n: nat) -> Seq<u8>
    decreases n,
{
    if n < 10 {
        seq![(48 + n) as u8]
    } else {
        decimal(n / 10).push((48 + n % 10) as u8)
    }
}

pub open spec fn octet(ip: u32, shift: u32) -> nat {
    ((ip >> shift) & 0xff) as nat
}

/// Textual form `a.b.c.d:port` of an endpoint.
pub open spec fn addr_text(a: PeerAddr) -> Seq<u8> {
    decimal(octet(a.ip, 24)) + seq![46u8] + decimal(octet(a.ip, 16)) + seq![46u8] + decimal(
        octet(a.ip, 8),
    ) + seq![46u8] + decimal(octet(a.ip, 0)) + seq![58u8] + decimal(a.port as nat)
}

pub proof fn lemma_decimal_len(n: nat)
    ensures
        decimal(n).len() >= 1,
        n < 10 ==> decimal(n).len() == 1,
        n < 100 ==> decimal(n).len() <= 2,
        n < 1000 ==> decimal(n).len() <= 3,
        n < 10000 ==> decimal(n).len() <= 4,
        n < 100000 ==> decimal(n).len() <= 5,
    decreases n,
{
    if n >= 10 {
        lemma_decimal_len(n / 10);
    }
}

pub proof fn lemma_addr_text_len(a: PeerAddr)
    ensures
        addr_text(a).len() <= 21,
{
    let ip = a.ip;
    assert((ip >> 24u32) & 0xff <= 255) by (bit_vector);
    assert((ip >> 16u32) & 0xff <= 255) by (bit_vector);
    assert((ip >> 8u32) & 0xff <= 255) by (bit_vector);
    assert((ip >> 0u32) & 0xff <= 255) by (bit_vector);
    lemma_decimal_len(octet(a.ip, 24));
    lemma_decimal_len(octet(a.ip, 16));
    lemma_decimal_len(octet(a.ip, 8));
    lemma_decimal_len(octet(a.ip, 0));
    lemma_decimal_len(a.port as nat);
}

/// Appends the decimal digits of `n`.
pub fn push_decimal(buf: &mut Vec<u8>, n: u32)
    ensures
        final(buf)@ == old(buf)@ + decimal(n as nat),
    decreases n,
{
    let ghost before = buf@;
    if n < 10 {
        buf.push((48 + n) as u8);
        assert(buf@ =~= before + decimal(n as nat));
    } else {
        push_decimal(buf, n / 10);
        buf.push((48 + n % 10) as u8);
        assert(buf@ =~= before + decimal(n as nat));
    }
}

impl PeerAddr {
    /// The endpoint's text, `a.b.c.d:port`, as ASCII bytes.
    pub fn text_bytes(&self) -> (r: Vec<u8>)
        ensures
            r@ == addr_text(*self),
            r@.len() <= 21,
    {
        let mut r: Vec<u8> = Vec::new();
        push_decimal(&mut r, (self.ip >> 24) & 0xff);
        r.push(46u8);
        push_decimal(&mut r, (self.ip >> 16) & 0xff);
        r.push(46u8);
        push_decimal(&mut r, (self.ip >> 8) & 0xff);
        r.push(46u8);
        push_decimal(&mut r, self.ip & 0xff);
        r.push(58u8);
        push_decimal(&mut r, self.port as u32);
        proof {
            let ip = self.ip;
            assert(ip & 0xff == (ip >> 0) & 0xff) by (bit_vector);
            assert(r@ =~= addr_text(*self));
            lemma_addr_text_len(*self);
        }
        r
    }
}

pub proof fn lemma_decimal_ascii(n: nat)
    ensures
        forall|i: int| 0 <= i < decimal(n).len() ==> 48 <= #[trigger] decimal(n)[i] <= 57,
    decreases n,
{
    if n >= 10 {
        lemma_decimal_ascii(n / 10);
        let d = decimal(n / 10);
        assert forall|i: int| 0 <= i < decimal(n).len() implies 48 <= #[trigger] decimal(n)[i] <= 57 by {
            if i < d.len() {
                assert(decimal(n)[i] == d[i]);
            }
        }
    }
}

/// The text of an endpoint is ASCII.
pub proof fn lemma_addr_text_ascii(a: PeerAddr)
    ensures
        forall|i: int| 0 <= i < addr_text(a).len() ==> addr_text(a)[i] < 128,
{
    lemma_decimal_ascii(octet(a.ip, 24));
    lemma_decimal_ascii(octet(a.ip, 16));
    lemma_decimal_ascii(octet(a.ip, 8));
    lemma_decimal_ascii(octet(a.ip, 0));
    lemma_decimal_ascii(a.port as nat);
    let t = addr_text(a);
    let d1 = decimal(octet(a.ip, 24));
    let d2 = decimal(octet(a.ip, 16));
    let d3 = decimal(octet(a.ip, 8));
    let d4 = decimal(octet(a.ip, 0));
    let d5 = decimal(a.port as nat);
    assert forall|i: int| 0 <= i < t.len() implies t[i] < 128 by {
        let o1 = d1.len() as int;
        let o2 = o1 + 1 + d2.len();
        let o3 = o2 + 1 + d3.len();
        let o4 = o3 + 1 + d4.len();
        if i < o1 {
            assert(t[i] == d1[i]);
        } else if i == o1 {
        } else if i < o2 {
            assert(t[i] == d2[i - o1 - 1]);
        } else if i == o2 {
        } else if i < o3 {
            assert(t[i] == d3[i - o2 - 1]);
        } else if i == o3 {
        } else if i < o4 {
            assert(t[i] == d4[i - o3 - 1]);
        } else if i == o4 {
        } else {
            assert(t[i] == d5[i - o4 - 1]);
        }
    }
}

} // verus!
