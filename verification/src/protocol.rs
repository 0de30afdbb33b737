//! The parameters of the erasure code.
//!
//! Sender and receiver never exchange these parameters: each derives them from
//! its own configuration, the MTU of the link and the size of a block, and the
//! same configuration gives the same parameters on both sides.
pub use crate::message::Message;
use vstd::prelude::*;

verus! {

/// The bytes of a datagram that carry no symbol: the IP header, the UDP header
/// and the header of the packet.
pub const PACKET_OVERHEAD: u16 = 32;

/// The longest block that the erasure code can take, in bytes.
pub const MAX_TRANSFER_LENGTH: u64 = 942574504275;

/// The most symbols that one block can be cut into.
pub const MAX_SOURCE_SYMBOLS: u64 = 56403;

/// Why a configuration gives no parameters.
#[derive(Clone, Copy, Debug, PartialEq, Eq, Structural)]
pub enum ConfigError {
    /// The MTU leaves no room for a symbol.
    MtuTooSmall,
    /// A block of no bytes.
    EmptyBlock,
    /// The block is longer, or has more symbols, than the erasure code takes.
    BlockTooLarge,
    /// The repair data, rounded up to whole packets, does not fit its type.
    RepairTooLarge,
}

/// The parameters as plain numbers.
#[derive(Clone, Copy, Debug, PartialEq, Eq, Structural)]
pub struct Parameters {
    /// The length of a block in bytes.
    pub transfer_length: u64,
    /// The length of a symbol in bytes.
    pub symbol_size: u16,
    pub source_blocks: u8,
    pub sub_blocks: u16,
    pub alignment: u8,
}

/// `dividend / divisor`, rounded up.
pub open spec fn spec_div_ceil(dividend: int, divisor: int) -> int {
    if dividend % divisor == 0 {
        dividend / divisor
    } else {
        dividend / divisor + 1
    }
}

/// The alignment of symbols that can be `max_packet_size` bytes long.
pub open spec fn spec_alignment(max_packet_size: u16) -> u8 {
    if max_packet_size >= 64 {
        8
    } else {
        1
    }
}

/// The length of a symbol: the longest multiple of the alignment that fits
/// `max_packet_size` bytes.
pub open spec fn spec_symbol_size(max_packet_size: u16) -> u16 {
    (max_packet_size - max_packet_size % (spec_alignment(max_packet_size) as u16)) as u16
}

/// What `raptorq::ObjectTransmissionInformation::with_defaults` derives from
/// the length of a block and the longest symbol that a packet can carry.
pub uninterp spec fn spec_default_parameters(
    transfer_length: u64,
    max_packet_size: u16,
) -> Parameters;

/// Calls `raptorq::ObjectTransmissionInformation::with_defaults` and reads the
/// five numbers it derived. That function keeps the transfer length, takes 8 as
/// the alignment if the packet size is at least 64 and 1 otherwise, and rounds
/// the packet size down to a multiple of it for the symbol size. It picks the
/// number of sub-blocks by counting up from 1, and the number of source blocks
/// from the tables of the code; neither is stated here beyond that. It divides
/// by the symbol size and by the number of source blocks, which is zero when
/// the number of symbols, kept in 32 bits, is zero: a packet size of zero, an
/// empty block and a block of more symbols than 32 bits count are left out.
#[verifier::external_body]
fn default_parameters(transfer_length: u64, max_packet_size: u16) -> (parameters: Parameters)
    requires
        transfer_length >= 1,
        max_packet_size >= 1,
        spec_div_ceil(transfer_length as int, spec_symbol_size(max_packet_size) as int)
            <= u32::MAX,
    ensures
        parameters == spec_default_parameters(transfer_length, max_packet_size),
        parameters.transfer_length == transfer_length,
        parameters.alignment == spec_alignment(max_packet_size),
        parameters.symbol_size == spec_symbol_size(max_packet_size),
        parameters.sub_blocks >= 1,
{
    let oti = raptorq::ObjectTransmissionInformation::with_defaults(
        transfer_length,
        max_packet_size,
    );
    Parameters {
        transfer_length: oti.transfer_length(),
        symbol_size: oti.symbol_size(),
        source_blocks: oti.source_blocks(),
        sub_blocks: oti.sub_blocks(),
        alignment: oti.symbol_alignment(),
    }
}

/// Whether the erasure code works with these parameters: a block has at least
/// one byte and at most [`MAX_SOURCE_SYMBOLS`] symbols, and a symbol is a
/// positive multiple of the alignment.
pub open spec fn spec_usable(parameters: Parameters) -> bool {
    &&& 1 <= parameters.transfer_length <= MAX_TRANSFER_LENGTH
    &&& parameters.symbol_size >= 1
    &&& parameters.alignment >= 1
    &&& parameters.symbol_size % (parameters.alignment as u16) == 0
    &&& parameters.sub_blocks >= 1
    &&& spec_div_ceil(parameters.transfer_length as int, parameters.symbol_size as int)
        <= MAX_SOURCE_SYMBOLS
}

/// What a configuration gives: the parameters, or why there are none.
pub open spec fn spec_object_transmission_information(mtu: u16, encoding_block_size: u64) -> Result<
    Parameters,
    ConfigError,
> {
    if mtu <= PACKET_OVERHEAD {
        Err(ConfigError::MtuTooSmall)
    } else if encoding_block_size == 0 {
        Err(ConfigError::EmptyBlock)
    } else if encoding_block_size > MAX_TRANSFER_LENGTH || spec_div_ceil(
        encoding_block_size as int,
        spec_symbol_size((mtu - PACKET_OVERHEAD) as u16) as int,
    ) > MAX_SOURCE_SYMBOLS {
        Err(ConfigError::BlockTooLarge)
    } else {
        Ok(spec_default_parameters(encoding_block_size, (mtu - PACKET_OVERHEAD) as u16))
    }
}

/// The parameters of the erasure code, known to be usable.
#[derive(Clone, Copy, Debug, PartialEq, Eq, Structural)]
pub struct ObjectTransmissionInformation {
    parameters: Parameters,
}

impl View for ObjectTransmissionInformation {
    type V = Parameters;

    closed spec fn view(&self) -> Parameters {
        self.parameters
    }
}

/// `dividend / divisor`, rounded up.
fn div_ceil(dividend: u64, divisor: u64) -> (quotient: u64)
    requires
        divisor >= 1,
    ensures
        quotient == spec_div_ceil(dividend as int, divisor as int),
        quotient <= dividend,
        dividend >= 1 ==> quotient >= 1,
        quotient * divisor >= dividend,
        quotient * divisor < dividend + divisor,
{
    let quotient = dividend / divisor;
    assert(dividend == quotient * divisor + dividend % divisor) by (nonlinear_arith)
        requires
            divisor >= 1,
            quotient == dividend / divisor,
    ;
    assert(quotient <= dividend) by (nonlinear_arith)
        requires
            divisor >= 1,
            dividend == quotient * divisor + dividend % divisor,
            dividend % divisor >= 0,
    ;
    if dividend % divisor == 0 {
        assert(dividend >= 1 ==> quotient >= 1) by (nonlinear_arith)
            requires
                dividend == quotient * divisor,
        ;
        quotient
    } else {
        assert((quotient + 1) * divisor == quotient * divisor + divisor) by (nonlinear_arith);
        assert(quotient + 1 <= dividend) by (nonlinear_arith)
            requires
                divisor >= 1,
                dividend == quotient * divisor + dividend % divisor,
                dividend % divisor >= 1,
        ;
        quotient + 1
    }
}

impl ObjectTransmissionInformation {
    #[verifier::type_invariant]
    spec fn usable(&self) -> bool {
        spec_usable(self.parameters)
    }

    /// The parameters as plain numbers.
    pub fn parameters(&self) -> (parameters: Parameters)
        ensures
            parameters == self@,
            spec_usable(parameters),
    {
        proof {
            use_type_invariant(self);
        }
        self.parameters
    }
}

/// Derives the parameters of the erasure code from the MTU of the link and the
/// size of a block.
pub fn object_transmission_information(mtu: u16, encoding_block_size: u64) -> (result: Result<
    ObjectTransmissionInformation,
    ConfigError,
>)
    ensures
        match result {
            Ok(oti) => spec_object_transmission_information(mtu, encoding_block_size) == Ok::<
                Parameters,
                ConfigError,
            >(oti@) && spec_usable(oti@),
            Err(e) => spec_object_transmission_information(mtu, encoding_block_size) == Err::<
                Parameters,
                ConfigError,
            >(e),
        },
        result matches Ok(oti) ==> {
            &&& oti@.transfer_length == encoding_block_size
            &&& oti@.symbol_size == spec_symbol_size((mtu - PACKET_OVERHEAD) as u16)
            &&& oti@.alignment == spec_alignment((mtu - PACKET_OVERHEAD) as u16)
        },
{
    if mtu <= PACKET_OVERHEAD {
        return Err(ConfigError::MtuTooSmall);
    }
    if encoding_block_size == 0 {
        return Err(ConfigError::EmptyBlock);
    }
    if encoding_block_size > MAX_TRANSFER_LENGTH {
        return Err(ConfigError::BlockTooLarge);
    }
    let max_packet_size: u16 = mtu - PACKET_OVERHEAD;
    let alignment: u16 = if max_packet_size >= 64 {
        8
    } else {
        1
    };
    let symbol_size: u16 = max_packet_size - max_packet_size % alignment;
    if div_ceil(encoding_block_size, symbol_size as u64) > MAX_SOURCE_SYMBOLS {
        return Err(ConfigError::BlockTooLarge);
    }
    let parameters = default_parameters(encoding_block_size, max_packet_size);
    Ok(ObjectTransmissionInformation { parameters })
}

/// The bytes of erasure-coded data that one packet carries.
pub fn packet_size(oti: &ObjectTransmissionInformation) -> (size: u16)
    ensures
        size == oti@.symbol_size,
        size >= 1,
{
    oti.parameters().symbol_size
}

/// The number of packets that hold the data of one block.
pub fn nb_encoding_packets(oti: &ObjectTransmissionInformation) -> (count: u64)
    ensures
        count == spec_div_ceil(oti@.transfer_length as int, oti@.symbol_size as int),
        1 <= count <= MAX_SOURCE_SYMBOLS,
{
    let parameters = oti.parameters();
    div_ceil(parameters.transfer_length, parameters.symbol_size as u64)
}

/// The number of packets that hold `repair_block_size` bytes of repair data.
pub fn nb_repair_packets(oti: &ObjectTransmissionInformation, repair_block_size: u32) -> (count:
    u32)
    ensures
        count == spec_div_ceil(repair_block_size as int, oti@.symbol_size as int),
{
    let parameters = oti.parameters();
    let count = div_ceil(repair_block_size as u64, parameters.symbol_size as u64);
    count as u32
}

} // verus!
