use vstd::prelude::*;

use crate::piece::PieceRef;

verus! {

/// A socket address of a peer: an IPv4 or IPv6 address and a port, with the flow
/// information and scope of an IPv6 address (both 0 for IPv4).
#[derive(PartialEq, Eq, Structural, Clone, Copy, Debug, Hash)]
pub struct PeerAddr {
    pub is_ipv6: bool,
    pub ip: u128,
    pub port: u16,
    pub flowinfo: u32,
    pub scope_id: u32,
}

/// Port on which discovery requests and answers are broadcast.
pub const DISCOVERY_PORT: u16 = 36936;

/// The IPv4 broadcast address 255.255.255.255 on the discovery port.
pub open spec fn spec_discovery_addr() -> PeerAddr {
    PeerAddr { is_ipv6: false, ip: 0xffff_ffff, port: DISCOVERY_PORT, flowinfo: 0, scope_id: 0 }
}

/// The address to which discovery messages are sent and on which they are received.
pub fn discovery_addr() -> (a: PeerAddr)
    ensures
        a == spec_discovery_addr(),
{
    PeerAddr { is_ipv6: false, ip: 0xffff_ffff, port: DISCOVERY_PORT, flowinfo: 0, scope_id: 0 }
}

/// A vector holding the addresses of `addrs`, in order.
pub fn copy_addrs(addrs: &[PeerAddr]) -> (v: Vec<PeerAddr>)
    ensures
        v@ == addrs@,
{
    let mut v: Vec<PeerAddr> = Vec::new();
    let mut i: usize = 0;
    while i < addrs.len()
        invariant
            0 <= i <= addrs@.len(),
            v@ == addrs@.subrange(0, i as int),
        decreases addrs@.len() - i,
    {
        v.push(addrs[i]);
        i = i + 1;
        assert(v@ =~= addrs@.subrange(0, i as int));
    }
    assert(v@ =~= addrs@);
    v
}

/// The addresses at which a server offers a piece.
#[derive(Debug, Clone)]
pub struct ServerPieceRef {
    pub addrs: Vec<PeerAddr>,
    pub piece: PieceRef,
}

/// A discovery message: a request for the holders of a piece, or a holder's answer.
#[derive(Debug, Clone)]
pub enum Msg {
    Find(PieceRef),
    ServerHas(ServerPieceRef),
}

/// The framing of discovery datagrams: one encoded message per datagram, sent to
/// the discovery address.
pub struct Codec;

impl Codec {
    /// Appends the encoded message `msg_bytes` to the datagram `buf` and returns
    /// the address to which the datagram goes.
    pub fn encode(&mut self, msg_bytes: &[u8], buf: &mut Vec<u8>) -> (to: PeerAddr)
        ensures
            final(buf)@ == old(buf)@ + msg_bytes@,
            to == spec_discovery_addr(),
    {
        let mut i: usize = 0;
        while i < msg_bytes.len()
            invariant
                0 <= i <= msg_bytes@.len(),
                buf@ == old(buf)@ + msg_bytes@.subrange(0, i as int),
            decreases msg_bytes@.len() - i,
        {
            buf.push(msg_bytes[i]);
            i = i + 1;
            assert(buf@ =~= old(buf)@ + msg_bytes@.subrange(0, i as int));
        }
        assert(msg_bytes@.subrange(0, msg_bytes@.len() as int) =~= msg_bytes@);
        discovery_addr()
    }
}

} // verus!
