//! From a captured frame to a flow identity and a TCP segment.

use byteorder::{NetworkEndian, ReadBytesExt};
use smoltcp::wire::{EthernetFrame, Ipv4Packet, Ipv6Packet, TcpPacket};
use vstd::prelude::*;
use vstd::slice::slice_subrange;

verus! {

/// The port that marks the server end of a flow.
pub const HTTPS_PORT: u16 = 443;

pub const ETHERTYPE_IPV4: u16 = 0x0800;

pub const ETHERTYPE_IPV6: u16 = 0x86DD;

/// Length of the Linux cooked-capture v2 header.
pub const SLL2_HEADER_LEN: usize = 20;

/// Link-layer header type number of Ethernet.
pub const DLT_ETHERNET: i32 = 1;

/// Link-layer header type number of Linux cooked capture v2.
pub const DLT_LINUX_SLL2: i32 = 276;

/// The two octets at `at`, read as a big-endian number.
pub open spec fn be16(b: Seq<u8>, at: int) -> int {
    b[at] * 0x100 + b[at + 1]
}

/// The four octets at `at`, read as a big-endian number.
pub open spec fn be32(b: Seq<u8>, at: int) -> int {
    b[at] * 0x100_0000 + b[at + 1] * 0x1_0000 + b[at + 2] * 0x100 + b[at + 3]
}

/// The sixteen octets at `at`, read as a big-endian number.
pub open spec fn be128(b: Seq<u8>, at: int) -> int {
    be32(b, at) * 0x1_0000_0000_0000_0000_0000_0000 + be32(b, at + 4) * 0x1_0000_0000_0000_0000
        + be32(b, at + 8) * 0x1_0000_0000 + be32(b, at + 12)
}

/// The framings that a capture may use.
#[derive(Clone, Copy, Debug, PartialEq, Eq, Structural)]
pub enum LinkType {
    Ethernet,
    LinuxSll2,
}

impl LinkType {
    /// The framing with the given link-layer header type number, if it is
    /// one of the two that are understood.
    pub fn from_dlt(dlt: i32) -> (r: Option<LinkType>)
        ensures
            r == if dlt == DLT_ETHERNET {
                Some(LinkType::Ethernet)
            } else if dlt == DLT_LINUX_SLL2 {
                Some(LinkType::LinuxSll2)
            } else {
                None
            },
    {
        if dlt == DLT_ETHERNET {
            Some(LinkType::Ethernet)
        } else if dlt == DLT_LINUX_SLL2 {
            Some(LinkType::LinuxSll2)
        } else {
            None
        }
    }
}

/// An IP address as the big-endian number of its octets.
#[derive(Clone, Copy, Debug, PartialEq, Eq, Hash, Structural)]
pub enum IpAddress {
    V4(u32),
    V6(u128),
}

/// An IP address with a TCP port.
#[derive(Clone, Copy, Debug, PartialEq, Eq, Hash, Structural)]
pub struct Endpoint {
    pub addr: IpAddress,
    pub port: u16,
}

/// The identity of a flow: the same for both directions of travel.
#[derive(Clone, Copy, Debug, PartialEq, Eq, Hash, Structural)]
pub struct FlowId {
    pub client: Endpoint,
    pub server: Endpoint,
}

/// The mathematical content of a [`Connection`].
pub struct ConnectionView {
    pub client: Endpoint,
    pub server: Endpoint,
    /// Whether the segment that gave this value travelled from the client.
    pub is_sent: bool,
}

impl ConnectionView {
    pub open spec fn key(self) -> FlowId {
        FlowId { client: self.client, server: self.server }
    }
}

/// A segment from `src` to `dst` travels to the server exactly if its
/// destination port is the HTTPS port; the other end is the client.
pub open spec fn classify(src: Endpoint, dst: Endpoint) -> ConnectionView {
    if dst.port == HTTPS_PORT {
        ConnectionView { client: src, server: dst, is_sent: true }
    } else {
        ConnectionView { client: dst, server: src, is_sent: false }
    }
}

/// The flow that a segment belongs to, and the direction of that segment.
///
/// Two values are equal when they name the same flow, whatever the
/// direction.
#[derive(Clone, Copy, Debug)]
pub struct Connection {
    client: Endpoint,
    server: Endpoint,
    is_sent: bool,
}

impl View for Connection {
    type V = ConnectionView;

    closed spec fn view(&self) -> ConnectionView {
        ConnectionView { client: self.client, server: self.server, is_sent: self.is_sent }
    }
}

impl Connection {
    /// Classifies a segment from `src` to `dst`.
    pub fn between(src: Endpoint, dst: Endpoint) -> (conn: Connection)
        ensures
            conn@ == classify(src, dst),
    {
        if dst.port == HTTPS_PORT {
            Connection { client: src, server: dst, is_sent: true }
        } else {
            Connection { client: dst, server: src, is_sent: false }
        }
    }

    pub fn is_sent(&self) -> (b: bool)
        ensures
            b == self@.is_sent,
    {
        self.is_sent
    }

    pub fn client(&self) -> (e: Endpoint)
        ensures
            e == self@.client,
    {
        self.client
    }

    pub fn server(&self) -> (e: Endpoint)
        ensures
            e == self@.server,
    {
        self.server
    }

    pub fn key(&self) -> (id: FlowId)
        ensures
            id == self@.key(),
    {
        FlowId { client: self.client, server: self.server }
    }
}

impl PartialEq for Connection {
    fn eq(&self, other: &Self) -> (r: bool) {
        self.client == other.client && self.server == other.server
    }
}

impl Eq for Connection {

}

impl vstd::std_specs::cmp::PartialEqSpecImpl for Connection {
    open spec fn obeys_eq_spec() -> bool {
        true
    }

    open spec fn eq_spec(&self, other: &Self) -> bool {
        self@.key() == other@.key()
    }
}

/// The mathematical content of a [`TcpSegment`].
pub struct SegmentView {
    pub src_port: u16,
    pub dst_port: u16,
    pub syn: bool,
    pub fin: bool,
    pub rst: bool,
    pub payload: Seq<u8>,
}

/// The header fields of a TCP segment that the accounting reads, and its
/// payload, borrowed from the frame.
#[derive(Clone, Copy, Debug)]
pub struct TcpSegment<'a> {
    pub src_port: u16,
    pub dst_port: u16,
    pub syn: bool,
    pub fin: bool,
    pub rst: bool,
    pub payload: &'a [u8],
}

impl<'a> View for TcpSegment<'a> {
    type V = SegmentView;

    open spec fn view(&self) -> SegmentView {
        SegmentView {
            src_port: self.src_port,
            dst_port: self.dst_port,
            syn: self.syn,
            fin: self.fin,
            rst: self.rst,
            payload: self.payload@,
        }
    }
}

impl<'a> TcpSegment<'a> {
    pub fn payload(&self) -> (p: &'a [u8])
        ensures
            p@ == self@.payload,
    {
        self.payload
    }

    pub fn syn(&self) -> (b: bool)
        ensures
            b == self@.syn,
    {
        self.syn
    }

    pub fn fin(&self) -> (b: bool)
        ensures
            b == self@.fin,
    {
        self.fin
    }

    pub fn rst(&self) -> (b: bool)
        ensures
            b == self@.rst,
    {
        self.rst
    }
}

/// What follows the link-layer header of `frame`, with the number of the
/// protocol that the header announces.
pub open spec fn link_payload(frame: Seq<u8>, linktype: LinkType) -> Option<(int, Seq<u8>)> {
    match linktype {
        LinkType::Ethernet => if frame.len() >= 14 {
            Some((be16(frame, 12), frame.subrange(14, frame.len() as int)))
        } else {
            None
        },
        LinkType::LinuxSll2 => if frame.len() >= SLL2_HEADER_LEN {
            Some((be16(frame, 0), frame.subrange(SLL2_HEADER_LEN as int, frame.len() as int)))
        } else {
            None
        },
    }
}

/// Length of the IPv4 header of `packet`, as its first octet announces it.
pub open spec fn ipv4_header_len(packet: Seq<u8>) -> int {
    (packet[0] & 0x0f) * 4
}

/// The source address, the destination address and the payload of an IPv4
/// packet whose length fields agree with its extent.
pub open spec fn ipv4_payload(packet: Seq<u8>) -> Option<(IpAddress, IpAddress, Seq<u8>)> {
    if packet.len() >= 20 && 20 <= ipv4_header_len(packet) <= be16(packet, 2) <= packet.len() {
        Some(
            (
                IpAddress::V4(be32(packet, 12) as u32),
                IpAddress::V4(be32(packet, 16) as u32),
                packet.subrange(ipv4_header_len(packet), be16(packet, 2)),
            ),
        )
    } else {
        None
    }
}

/// The source address, the destination address and the payload of an IPv6
/// packet that holds as many octets as it announces.
pub open spec fn ipv6_payload(packet: Seq<u8>) -> Option<(IpAddress, IpAddress, Seq<u8>)> {
    if packet.len() >= 40 && 40 + be16(packet, 4) <= packet.len() {
        Some(
            (
                IpAddress::V6(be128(packet, 8) as u128),
                IpAddress::V6(be128(packet, 24) as u128),
                packet.subrange(40, 40 + be16(packet, 4)),
            ),
        )
    } else {
        None
    }
}

/// The addresses and the payload of an IP packet of the given protocol.
pub open spec fn ip_payload(packet: Seq<u8>, ethertype: int) -> Option<
    (IpAddress, IpAddress, Seq<u8>),
> {
    if ethertype == ETHERTYPE_IPV4 {
        ipv4_payload(packet)
    } else if ethertype == ETHERTYPE_IPV6 {
        ipv6_payload(packet)
    } else {
        None
    }
}

/// Length of the TCP header of `segment`, as its data offset announces it.
pub open spec fn tcp_header_len(segment: Seq<u8>) -> int {
    (segment[12] / 16) * 4
}

/// The fields of a TCP segment whose header lies within it.
pub open spec fn tcp_segment(segment: Seq<u8>) -> Option<SegmentView> {
    if segment.len() >= 20 && 20 <= tcp_header_len(segment) <= segment.len() {
        Some(
            SegmentView {
                src_port: be16(segment, 0) as u16,
                dst_port: be16(segment, 2) as u16,
                syn: segment[13] & 0x02 != 0,
                fin: segment[13] & 0x01 != 0,
                rst: segment[13] & 0x04 != 0,
                payload: segment.subrange(tcp_header_len(segment), segment.len() as int),
            },
        )
    } else {
        None
    }
}

/// The sender and the receiver of the TCP segment in an IP packet.
pub open spec fn network_endpoints(packet: Seq<u8>, ethertype: int) -> Option<
    (Endpoint, Endpoint),
> {
    match ip_payload(packet, ethertype) {
        Some((src, dst, payload)) => match tcp_segment(payload) {
            Some(seg) => Some(
                (
                    Endpoint { addr: src, port: seg.src_port },
                    Endpoint { addr: dst, port: seg.dst_port },
                ),
            ),
            None => None,
        },
        None => None,
    }
}

/// The flow and the TCP segment of an IP packet of the given protocol.
pub open spec fn network_flow(packet: Seq<u8>, ethertype: int) -> Option<
    (ConnectionView, SegmentView),
> {
    match ip_payload(packet, ethertype) {
        Some((src, dst, payload)) => match tcp_segment(payload) {
            Some(seg) => Some(
                (
                    classify(
                        Endpoint { addr: src, port: seg.src_port },
                        Endpoint { addr: dst, port: seg.dst_port },
                    ),
                    seg,
                ),
            ),
            None => None,
        },
        None => None,
    }
}

/// The sender and the receiver of the TCP segment in a captured frame.
pub open spec fn frame_endpoints(frame: Seq<u8>, linktype: LinkType) -> Option<
    (Endpoint, Endpoint),
> {
    match link_payload(frame, linktype) {
        Some((ethertype, packet)) => network_endpoints(packet, ethertype),
        None => None,
    }
}

/// The flow and the TCP segment of a captured frame.
pub open spec fn frame_flow(frame: Seq<u8>, linktype: LinkType) -> Option<
    (ConnectionView, SegmentView),
> {
    match link_payload(frame, linktype) {
        Some((ethertype, packet)) => network_flow(packet, ethertype),
        None => None,
    }
}

/// Calls `EthernetFrame::new_checked`, `ethertype` and `payload` of smoltcp.
///
/// A frame of fewer than 14 octets is refused. Otherwise the protocol number
/// is the big-endian number in octets 12 and 13, and the payload is
/// everything from octet 14 on.
#[verifier::external_body]
fn ethernet_fields<'a>(frame: &'a [u8]) -> (r: Option<(u16, &'a [u8])>)
    ensures
        match r {
            Some((ethertype, payload)) => link_payload(frame@, LinkType::Ethernet) == Some(
                (ethertype as int, payload@),
            ),
            None => link_payload(frame@, LinkType::Ethernet) is None,
        },
{
    match EthernetFrame::new_checked(frame) {
        Ok(ether) => Some((u16::from(ether.ethertype()), ether.payload())),
        Err(_) => None,
    }
}

/// Calls `ReadBytesExt::read_u16` of byteorder, in network order, on a
/// cursor at the start of `bytes`.
///
/// With fewer than two octets the read fails. Otherwise it gives the
/// big-endian number in the first two.
#[verifier::external_body]
fn read_u16_network(bytes: &[u8]) -> (r: Option<u16>)
    ensures
        r == if bytes@.len() >= 2 {
            Some(be16(bytes@, 0) as u16)
        } else {
            None
        },
{
    std::io::Cursor::new(bytes).read_u16::<NetworkEndian>().ok()
}

/// Calls `Ipv4Packet::new_checked`, `src_addr`, `dst_addr` and `payload` of
/// smoltcp.
///
/// The packet is accepted when it has at least 20 octets, its header length
/// is at least 20 and at most its total length, and its total length is at
/// most the number of octets at hand. The addresses are octets 12 to 15 and
/// 16 to 19; the payload runs from the header length to the total length.
#[verifier::external_body]
fn ipv4_fields<'a>(packet: &'a [u8]) -> (r: Option<([u8; 4], [u8; 4], &'a [u8])>)
    ensures
        match r {
            Some((src, dst, payload)) => ipv4_payload(packet@) == Some(
                (
                    IpAddress::V4(be32(src@, 0) as u32),
                    IpAddress::V4(be32(dst@, 0) as u32),
                    payload@,
                ),
            ),
            None => ipv4_payload(packet@) is None,
        },
{
    match Ipv4Packet::new_checked(packet) {
        Ok(ip) => Some((ip.src_addr().octets(), ip.dst_addr().octets(), ip.payload())),
        Err(_) => None,
    }
}

/// Calls `Ipv6Packet::new_checked`, `src_addr`, `dst_addr` and `payload` of
/// smoltcp.
///
/// The packet is accepted when it has at least 40 octets and at least 40
/// more than the payload length in octets 4 and 5. The addresses are octets
/// 8 to 23 and 24 to 39; the payload starts at octet 40 and has the
/// announced length.
#[verifier::external_body]
fn ipv6_fields<'a>(packet: &'a [u8]) -> (r: Option<([u8; 16], [u8; 16], &'a [u8])>)
    ensures
        match r {
            Some((src, dst, payload)) => ipv6_payload(packet@) == Some(
                (
                    IpAddress::V6(be128(src@, 0) as u128),
                    IpAddress::V6(be128(dst@, 0) as u128),
                    payload@,
                ),
            ),
            None => ipv6_payload(packet@) is None,
        },
{
    match Ipv6Packet::new_checked(packet) {
        Ok(ip) => Some((ip.src_addr().octets(), ip.dst_addr().octets(), ip.payload())),
        Err(_) => None,
    }
}

/// Calls `TcpPacket::new_checked`, `src_port`, `dst_port`, `syn`, `fin`,
/// `rst` and `payload` of smoltcp.
///
/// The segment is accepted when it has at least 20 octets and its header
/// length, four times the upper half of octet 12, is at least 20 and at most
/// the number of octets at hand. The ports are the big-endian numbers in
/// octets 0 to 1 and 2 to 3, the flags are bits of octet 13, and the payload
/// is everything after the header.
#[verifier::external_body]
fn tcp_fields<'a>(segment: &'a [u8]) -> (r: Option<TcpSegment<'a>>)
    ensures
        match r {
            Some(seg) => tcp_segment(segment@) == Some(seg@),
            None => tcp_segment(segment@) is None,
        },
{
    match TcpPacket::new_checked(segment) {
        Ok(tcp) => Some(
            TcpSegment {
                src_port: tcp.src_port(),
                dst_port: tcp.dst_port(),
                syn: tcp.syn(),
                fin: tcp.fin(),
                rst: tcp.rst(),
                payload: tcp.payload(),
            },
        ),
        Err(_) => None,
    }
}

/// The big-endian number of four octets.
pub fn be_u32(octets: &[u8; 4]) -> (v: u32)
    ensures
        v == be32(octets@, 0),
{
    let b0: u32 = octets[0] as u32;
    let b1: u32 = octets[1] as u32;
    let b2: u32 = octets[2] as u32;
    let b3: u32 = octets[3] as u32;
    b0 * 0x100_0000 + b1 * 0x1_0000 + b2 * 0x100 + b3
}

/// The big-endian number of sixteen octets.
pub fn be_u128(octets: &[u8; 16]) -> (v: u128)
    ensures
        v == be128(octets@, 0),
{
    let w0: u128 = be_u32(&[octets[0], octets[1], octets[2], octets[3]]) as u128;
    let w1: u128 = be_u32(&[octets[4], octets[5], octets[6], octets[7]]) as u128;
    let w2: u128 = be_u32(&[octets[8], octets[9], octets[10], octets[11]]) as u128;
    let w3: u128 = be_u32(&[octets[12], octets[13], octets[14], octets[15]]) as u128;
    w0 * 0x1_0000_0000_0000_0000_0000_0000 + w1 * 0x1_0000_0000_0000_0000 + w2 * 0x1_0000_0000
        + w3
}

/// Reads an IP packet of the given protocol down to its TCP segment.
///
/// Gives nothing for another protocol than IPv4 and IPv6, and for a packet
/// or a segment whose header does not lie within it.
pub fn ether_to_tcp<'a>(packet: &'a [u8], ethertype: u16) -> (r: Option<
    (Connection, TcpSegment<'a>),
>)
    ensures
        match r {
            Some((conn, seg)) => network_flow(packet@, ethertype as int) == Some((conn@, seg@)),
            None => network_flow(packet@, ethertype as int) is None,
        },
{
    let (src, dst, payload) = if ethertype == ETHERTYPE_IPV4 {
        match ipv4_fields(packet) {
            Some((src, dst, payload)) => (
                IpAddress::V4(be_u32(&src)),
                IpAddress::V4(be_u32(&dst)),
                payload,
            ),
            None => {
                return None;
            },
        }
    } else if ethertype == ETHERTYPE_IPV6 {
        match ipv6_fields(packet) {
            Some((src, dst, payload)) => (
                IpAddress::V6(be_u128(&src)),
                IpAddress::V6(be_u128(&dst)),
                payload,
            ),
            None => {
                return None;
            },
        }
    } else {
        return None;
    };
    match tcp_fields(payload) {
        Some(seg) => {
            let src = Endpoint { addr: src, port: seg.src_port };
            let dst = Endpoint { addr: dst, port: seg.dst_port };
            Some((Connection::between(src, dst), seg))
        },
        None => None,
    }
}

/// Reads a captured frame down to its flow and its TCP segment.
///
/// Gives nothing for a frame that is shorter than its link-layer header,
/// that carries neither IPv4 nor IPv6, or whose IP or TCP header does not
/// lie within it.
pub fn tcp_from_packet<'a>(packet: &'a [u8], linktype: LinkType) -> (r: Option<
    (Connection, TcpSegment<'a>),
>)
    ensures
        match r {
            Some((conn, seg)) => frame_flow(packet@, linktype) == Some((conn@, seg@)),
            None => frame_flow(packet@, linktype) is None,
        },
{
    match linktype {
        LinkType::Ethernet => match ethernet_fields(packet) {
            Some((ethertype, payload)) => ether_to_tcp(payload, ethertype),
            None => None,
        },
        LinkType::LinuxSll2 => match read_u16_network(packet) {
            Some(proto) => {
                if packet.len() < SLL2_HEADER_LEN {
                    None
                } else {
                    ether_to_tcp(slice_subrange(packet, SLL2_HEADER_LEN, packet.len()), proto)
                }
            },
            None => None,
        },
    }
}

/// Both directions of a flow give the same identity, provided that exactly
/// one of the two ports is the HTTPS port, or that both ends are the same.
pub proof fn lemma_direction_independent(a: Endpoint, b: Endpoint)
    requires
        (a.port == HTTPS_PORT) != (b.port == HTTPS_PORT) || a == b,
    ensures
        classify(a, b).key() == classify(b, a).key(),
        classify(a, b).is_sent != classify(b, a).is_sent || a == b,
{
}

/// Two frames that carry segments between the same two ends in opposite
/// directions, exactly one of the ports being the HTTPS port, belong to the
/// same flow.
pub proof fn lemma_frames_of_one_flow(
    first: Seq<u8>,
    first_link: LinkType,
    second: Seq<u8>,
    second_link: LinkType,
    a: Endpoint,
    b: Endpoint,
)
    requires
        frame_endpoints(first, first_link) == Some((a, b)),
        frame_endpoints(second, second_link) == Some((b, a)),
        (a.port == HTTPS_PORT) != (b.port == HTTPS_PORT) || a == b,
    ensures
        frame_flow(first, first_link) is Some,
        frame_flow(second, second_link) is Some,
        frame_flow(first, first_link).unwrap().0.key() == frame_flow(
            second,
            second_link,
        ).unwrap().0.key(),
{
}

} // verus!
