//! Erasure-coded packets as they arrive from the network.
use vstd::prelude::*;

verus! {

/// The bytes that precede the symbol in a packet on the wire: the block
/// number, then the symbol's index in three bytes, most significant first.
pub const HEADER_SIZE: usize = 4;

/// One symbol of an erasure-coded block.
#[derive(Clone, Debug, PartialEq, Eq)]
pub struct Packet {
    /// The number of the block that the symbol belongs to.
    pub block: u8,
    /// The index of the symbol within its block.
    pub symbol: u32,
    /// The symbol itself.
    pub data: Vec<u8>,
}

/// A packet as contracts see it.
pub struct PacketView {
    pub block: u8,
    pub symbol: u32,
    pub data: Seq<u8>,
}

impl View for Packet {
    type V = PacketView;

    open spec fn view(&self) -> PacketView {
        PacketView { block: self.block, symbol: self.symbol, data: self.data@ }
    }
}

/// The packets as contracts see them.
pub open spec fn spec_packets(packets: Seq<Packet>) -> Seq<PacketView> {
    packets.map_values(|p: Packet| p@)
}

/// Symbol indices are below this bound.
pub const SYMBOL_LIMIT: u32 = 0x100_0000;

/// The symbol index that three header bytes stand for.
pub open spec fn spec_symbol_index(high: u8, middle: u8, low: u8) -> u32 {
    (high as u32 * 65536 + middle as u32 * 256 + low as u32) as u32
}

/// Calls `raptorq::EncodingPacket::deserialize` and takes the packet apart.
/// That function reads the block number from the first byte and the symbol
/// index from the next three, most significant first, and copies the rest as
/// the symbol. It indexes the first four bytes without a test, so shorter input
/// is left out.
#[verifier::external_body]
fn read_packet(bytes: &[u8]) -> (packet: Packet)
    requires
        bytes@.len() >= HEADER_SIZE,
    ensures
        packet.block == bytes@[0],
        packet.symbol == spec_symbol_index(bytes@[1], bytes@[2], bytes@[3]),
        packet.data@ == bytes@.skip(HEADER_SIZE as int),
{
    let (id, data) = raptorq::EncodingPacket::deserialize(bytes).split();
    Packet { block: id.source_block_number(), symbol: id.encoding_symbol_id(), data }
}

impl Packet {
    /// Reads a packet from one datagram. A datagram too short to hold the
    /// header is no packet.
    pub fn deserialize(bytes: &[u8]) -> (packet: Option<Packet>)
        ensures
            packet is Some <==> bytes@.len() >= HEADER_SIZE,
            packet matches Some(p) ==> {
                &&& p.block == bytes@[0]
                &&& p.symbol == spec_symbol_index(bytes@[1], bytes@[2], bytes@[3])
                &&& p.symbol < SYMBOL_LIMIT
                &&& p.data@ == bytes@.skip(HEADER_SIZE as int)
            },
    {
        if bytes.len() < HEADER_SIZE {
            None
        } else {
            Some(read_packet(bytes))
        }
    }
}

} // verus!
