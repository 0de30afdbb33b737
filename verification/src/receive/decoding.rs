//! Decodes released blocks and hands the results on in cyclic order.
//!
//! Blocks may be decoded side by side and finish in any order. The
//! [`Turnstile`] puts the results back in order: a result passes when its block
//! is the one whose turn it is, and the turn then goes to the next block. A
//! block that cannot be decoded passes all the same, as a gap, so that those
//! after it are not held back and the loss shows downstream.
use crate::cyclic::{spec_advance, BlockNumber};
use crate::packet::{spec_packets, Packet, PacketView, SYMBOL_LIMIT};
use crate::protocol::{spec_div_ceil, spec_usable, ObjectTransmissionInformation, Parameters};
use crate::receive::reblock::{Block, BlockView};
use crate::sequence::reversed;
use vstd::prelude::*;

verus! {

/// What a block decodes to, or that it was lost.
#[derive(Debug)]
pub struct Decoded {
    pub number: u8,
    /// The bytes of the block; `None` for a block that could not be decoded.
    pub bytes: Option<Vec<u8>>,
}

/// What `raptorq::SourceBlockDecoder::decode` makes of the packets of one
/// block, for a decoder of that block with the given parameters.
pub uninterp spec fn spec_raptorq_decode(
    parameters: Parameters,
    block: u8,
    packets: Seq<PacketView>,
) -> Option<Seq<u8>>;

/// Whether a packet can be given to the decoder of `block`: it belongs to the
/// block, its symbol index is one, and its symbol has the length of a symbol.
pub open spec fn spec_fits(parameters: Parameters, block: u8, packet: Packet) -> bool {
    &&& packet.block == block
    &&& packet.symbol < SYMBOL_LIMIT
    &&& packet.data@.len() == parameters.symbol_size
}

/// The packets that can be given to the decoder of `block`, in their order.
pub open spec fn spec_fitting(parameters: Parameters, block: u8, packets: Seq<Packet>) -> Seq<
    Packet,
>
    decreases packets.len(),
{
    if packets.len() == 0 {
        Seq::empty()
    } else {
        let rest = spec_fitting(parameters, block, packets.drop_last());
        if spec_fits(parameters, block, packets.last()) {
            rest.push(packets.last())
        } else {
            rest
        }
    }
}

/// What a released block decodes to: what the decoder makes of its fitting
/// packets.
pub open spec fn spec_decode(parameters: Parameters, block: BlockView) -> Option<Seq<u8>> {
    spec_raptorq_decode(
        parameters,
        block.number,
        spec_packets(spec_fitting(parameters, block.number, block.packets)),
    )
}

/// The length of a decoded block: as many symbols as hold a block.
pub open spec fn spec_decoded_len(parameters: Parameters) -> int {
    parameters.symbol_size * spec_div_ceil(
        parameters.transfer_length as int,
        parameters.symbol_size as int,
    )
}

/// Makes a `raptorq::SourceBlockDecoder` for the block, with
/// `SourceBlockDecoder::new2`, and calls its `decode` on the packets. The result
/// is named, not stated; when there is one it has the length of the source
/// symbols of a block, which is how `decode` allocates it. The decoder asserts
/// that each packet belongs to its block, `PayloadId::new` that a symbol index
/// has 24 bits, and symbols of another length than the symbol size do not go
/// together; such packets are left out, and so are parameters that the
/// constructors of the decoder and of its configuration reject.
#[verifier::external_body]
fn raptorq_decode(p: Parameters, block: u8, packets: Vec<Packet>) -> (decoded: Option<Vec<u8>>)
    requires
        spec_usable(p),
        forall|i: int| 0 <= i < packets@.len() ==> spec_fits(p, block, #[trigger] packets@[i]),
    ensures
        match decoded {
            Some(bytes) => spec_raptorq_decode(p, block, spec_packets(packets@)) == Some(bytes@)
                && bytes@.len() == spec_decoded_len(p),
            None => spec_raptorq_decode(p, block, spec_packets(packets@)) is None,
        },
{
    let config = raptorq::ObjectTransmissionInformation::new(
        p.transfer_length,
        p.symbol_size,
        p.source_blocks,
        p.sub_blocks,
        p.alignment,
    );
    let mut decoder = raptorq::SourceBlockDecoder::new2(block, &config, p.transfer_length);
    decoder.decode(
        packets.into_iter().map(
            |q| raptorq::EncodingPacket::new(raptorq::PayloadId::new(q.block, q.symbol), q.data),
        ),
    )
}

/// The packets of `packets` that can be given to the decoder of `block`.
fn fitting(oti: &ObjectTransmissionInformation, block: u8, packets: Vec<Packet>) -> (kept: Vec<
    Packet,
>)
    ensures
        kept@ == spec_fitting(oti@, block, packets@),
        forall|i: int| 0 <= i < kept@.len() ==> spec_fits(oti@, block, #[trigger] kept@[i]),
{
    let symbol_size = oti.parameters().symbol_size as usize;
    let ghost all = packets@;
    let mut turned = reversed(packets);
    let mut kept: Vec<Packet> = Vec::new();
    let ghost mut done: int = 0;
    while turned.len() > 0
        invariant
            0 <= done,
            done + turned@.len() == all.len(),
            turned@ == all.reverse().take(turned@.len() as int),
            symbol_size == oti@.symbol_size,
            kept@ == spec_fitting(oti@, block, all.take(done)),
            forall|i: int| 0 <= i < kept@.len() ==> spec_fits(oti@, block, #[trigger] kept@[i]),
        decreases turned@.len(),
    {
        if let Some(packet) = turned.pop() {
            proof {
                assert(packet == all[done]);
                assert(all.take(done + 1).drop_last() == all.take(done));
                assert(all.take(done + 1).last() == packet);
                done = done + 1;
            }
            if packet.block == block && packet.symbol < SYMBOL_LIMIT && packet.data.len()
                == symbol_size {
                kept.push(packet);
            }
        }
    }
    proof {
        assert(all.take(done) == all);
    }
    kept
}

/// Decodes a released block. Packets that do not belong to the block or do not
/// have the shape of its symbols are left aside. A block that cannot be decoded
/// gives a gap.
pub fn decode(oti: &ObjectTransmissionInformation, block: Block) -> (decoded: Decoded)
    ensures
        decoded.number == block.number,
        match decoded.bytes {
            Some(bytes) => spec_decode(oti@, block@) == Some(bytes@) && bytes@.len()
                == spec_decoded_len(oti@),
            None => spec_decode(oti@, block@) is None,
        },
{
    let number = block.number;
    let packets = fitting(oti, number, block.packets);
    Decoded { number, bytes: raptorq_decode(oti.parameters(), number, packets) }
}

/// Puts decoded blocks back in order.
pub struct Turnstile {
    expected: BlockNumber,
}

impl View for Turnstile {
    type V = u8;

    /// The block that passes next.
    closed spec fn view(&self) -> u8 {
        self.expected.value
    }
}

/// The block whose turn it is after `number` asked to pass.
pub open spec fn spec_pass(expected: u8, number: u8) -> u8 {
    if number == expected {
        spec_advance(expected, 1)
    } else {
        expected
    }
}

impl Turnstile {
    /// A turnstile that lets the block `first` pass first.
    pub fn new(first: u8) -> (turnstile: Self)
        ensures
            turnstile@ == first,
    {
        Turnstile { expected: BlockNumber::new(first) }
    }

    /// The block that passes next.
    pub fn expected(&self) -> (number: u8)
        ensures
            number == self@,
    {
        self.expected.value()
    }

    /// Whether it is the turn of the block `number`.
    pub fn is_turn(&self, number: u8) -> (turn: bool)
        ensures
            turn == (number == self@),
    {
        number == self.expected.value()
    }

    /// Lets the block `number` pass if it is its turn, and then expects the
    /// block after it. Says whether it passed.
    pub fn pass(&mut self, number: u8) -> (passed: bool)
        ensures
            passed == (number == old(self)@),
            final(self)@ == spec_pass(old(self)@, number),
    {
        if number == self.expected.value() {
            self.expected = self.expected.next();
            true
        } else {
            false
        }
    }
}

/// The block whose turn it is after the blocks of `attempts` asked to pass,
/// one after the other.
pub open spec fn spec_pass_all(expected: u8, attempts: Seq<u8>) -> u8
    decreases attempts.len(),
{
    if attempts.len() == 0 {
        expected
    } else {
        spec_pass(spec_pass_all(expected, attempts.drop_last()), attempts.last())
    }
}

/// The blocks of `attempts` that passed, in the order in which they passed.
pub open spec fn spec_passed(expected: u8, attempts: Seq<u8>) -> Seq<u8>
    decreases attempts.len(),
{
    if attempts.len() == 0 {
        Seq::empty()
    } else {
        let before = spec_passed(expected, attempts.drop_last());
        if attempts.last() == spec_pass_all(expected, attempts.drop_last()) {
            before.push(attempts.last())
        } else {
            before
        }
    }
}

/// Blocks pass in cyclic order, in whatever order they ask.
///
/// For every run of attempts, the blocks that passed are numbered from the
/// block whose turn it was at first, without a gap, and the turn is then with
/// the block after the last one that passed.
pub proof fn lemma_blocks_pass_in_cyclic_order(expected: u8, attempts: Seq<u8>)
    ensures
        forall|i: int|
            0 <= i < spec_passed(expected, attempts).len() ==> #[trigger] spec_passed(
                expected,
                attempts,
            )[i] == spec_advance(expected, i),
        spec_pass_all(expected, attempts) == spec_advance(
            expected,
            spec_passed(expected, attempts).len() as int,
        ),
    decreases attempts.len(),
{
    if attempts.len() > 0 {
        lemma_blocks_pass_in_cyclic_order(expected, attempts.drop_last());
        let before = spec_passed(expected, attempts.drop_last());
        crate::cyclic::lemma_advance_adds(expected, before.len() as int, 1);
    }
}

} // verus!
