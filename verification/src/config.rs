//! The receiver's configuration and what is derived from it.
use crate::message::{lemma_record_size, spec_serialize, Record, SERIALIZE_OVERHEAD};
use crate::protocol::{
    nb_encoding_packets, nb_repair_packets, object_transmission_information, packet_size,
    spec_div_ceil, spec_object_transmission_information, spec_symbol_size, ConfigError,
    ObjectTransmissionInformation, MAX_SOURCE_SYMBOLS, PACKET_OVERHEAD,
};
use vstd::prelude::*;

verus! {

/// The numbers that configure a receiver.
#[derive(Clone, Copy, Debug, PartialEq, Eq, Structural)]
pub struct Config {
    /// The MTU of the incoming link, in bytes.
    pub from_udp_mtu: u16,
    /// How many transfers are expected at a time.
    pub nb_clients: u16,
    /// How many blocks are decoded side by side.
    pub nb_decoding_threads: u8,
    /// The size of a block, in bytes.
    pub encoding_block_size: u64,
    /// The size of the repair data of a block, in bytes.
    pub repair_block_size: u32,
    /// How long a block waits for its packets, in milliseconds.
    pub flush_timeout: u64,
    /// After how long without a message a transfer is given up, in seconds.
    pub abort_timeout: u64,
    /// The interval between two heartbeats, in seconds.
    pub heartbeat: u64,
}

/// `size`, rounded up to a multiple of `unit`.
pub open spec fn spec_round_up(size: int, unit: int) -> int {
    spec_div_ceil(size, unit) * unit
}

/// The configuration with both sizes rounded up to whole packets, or why the
/// configuration cannot be used.
pub open spec fn spec_adjust(config: Config) -> Result<Config, ConfigError> {
    match spec_object_transmission_information(config.from_udp_mtu, config.encoding_block_size) {
        Err(e) => Err(e),
        Ok(_) => {
            let unit = spec_symbol_size((config.from_udp_mtu - PACKET_OVERHEAD) as u16) as int;
            if spec_round_up(config.repair_block_size as int, unit) > u32::MAX {
                Err(ConfigError::RepairTooLarge)
            } else {
                Ok(
                    Config {
                        encoding_block_size: spec_round_up(
                            config.encoding_block_size as int,
                            unit,
                        ) as u64,
                        repair_block_size: spec_round_up(
                            config.repair_block_size as int,
                            unit,
                        ) as u32,
                        ..config
                    },
                )
            }
        },
    }
}

/// Rounding up gives the least multiple of the unit that is not below the
/// size, and leaves a multiple as it is.
pub proof fn lemma_round_up(size: int, unit: int)
    requires
        0 <= size,
        1 <= unit,
    ensures
        spec_round_up(size, unit) % unit == 0,
        size <= spec_round_up(size, unit) < size + unit,
        spec_div_ceil(spec_round_up(size, unit), unit) == spec_div_ceil(size, unit),
        spec_round_up(spec_round_up(size, unit), unit) == spec_round_up(size, unit),
{
    let q = spec_div_ceil(size, unit);
    let r = q * unit;
    assert(size == (size / unit) * unit + size % unit && 0 <= size % unit < unit) by {
        vstd::arithmetic::div_mod::lemma_fundamental_div_mod(size, unit);
        vstd::arithmetic::div_mod::lemma_mod_bound(size, unit);
        assert(unit * (size / unit) == (size / unit) * unit) by (nonlinear_arith);
    }
    assert((size / unit + 1) * unit == (size / unit) * unit + unit) by (nonlinear_arith);
    assert(r % unit == 0 && r / unit == q) by {
        vstd::arithmetic::div_mod::lemma_mod_multiples_basic(q, unit);
        vstd::arithmetic::div_mod::lemma_div_multiples_vanish(q, unit);
        assert(unit * q == q * unit) by (nonlinear_arith);
    }
}

impl Config {
    /// Rounds the size of a block and the size of its repair data up to whole
    /// packets, so that a block is exactly its packets. A configuration that
    /// cannot be used is left as it is.
    pub fn adjust(&mut self) -> (result: Result<(), ConfigError>)
        ensures
            match result {
                Ok(()) => spec_adjust(*old(self)) == Ok::<Config, ConfigError>(*final(self)),
                Err(e) => spec_adjust(*old(self)) == Err::<Config, ConfigError>(e) && *final(self)
                    == *old(self),
            },
            result is Ok ==> {
                let unit = spec_symbol_size((old(self).from_udp_mtu - PACKET_OVERHEAD) as u16);
                &&& final(self).encoding_block_size % (unit as u64) == 0
                &&& final(self).repair_block_size % (unit as u32) == 0
                &&& old(self).encoding_block_size <= final(self).encoding_block_size
                    < old(self).encoding_block_size + unit
                &&& old(self).repair_block_size <= final(self).repair_block_size
                    < old(self).repair_block_size + unit
            },
    {
        let oti = match object_transmission_information(
            self.from_udp_mtu,
            self.encoding_block_size,
        ) {
            Ok(oti) => oti,
            Err(e) => {
                return Err(e);
            },
        };
        let size: u64 = packet_size(&oti) as u64;
        let encoding_packets: u64 = nb_encoding_packets(&oti);
        let repair_packets: u64 = nb_repair_packets(&oti, self.repair_block_size) as u64;
        proof {
            lemma_round_up(self.encoding_block_size as int, size as int);
            lemma_round_up(self.repair_block_size as int, size as int);
            assert(encoding_packets * size <= MAX_SOURCE_SYMBOLS * 0xffff) by (nonlinear_arith)
                requires
                    encoding_packets <= MAX_SOURCE_SYMBOLS,
                    size <= 0xffff,
            ;
            assert(repair_packets * size <= 0xffff_ffff * 0xffff) by (nonlinear_arith)
                requires
                    repair_packets <= 0xffff_ffff,
                    size <= 0xffff,
            ;
        }
        let repair_block_size: u64 = repair_packets * size;
        if repair_block_size > u32::MAX as u64 {
            return Err(ConfigError::RepairTooLarge);
        }
        self.encoding_block_size = encoding_packets * size;
        self.repair_block_size = repair_block_size as u32;
        Ok(())
    }
}

/// Adjusting twice is adjusting once: an adjusted configuration can be used and
/// is left as it is.
pub proof fn lemma_adjust_is_idempotent(config: Config)
    requires
        spec_adjust(config) is Ok,
    ensures
        spec_adjust(spec_adjust(config)->Ok_0) == spec_adjust(config),
{
    let unit = spec_symbol_size((config.from_udp_mtu - PACKET_OVERHEAD) as u16) as int;
    let packets = spec_div_ceil(config.encoding_block_size as int, unit);
    lemma_round_up(config.encoding_block_size as int, unit);
    lemma_round_up(config.repair_block_size as int, unit);
    assert(packets * unit <= MAX_SOURCE_SYMBOLS * 0xffff) by (nonlinear_arith)
        requires
            0 <= packets <= MAX_SOURCE_SYMBOLS,
            0 <= unit <= 0xffff,
    ;
}

/// The most packets that arrive for one block: those of its data and those of
/// its repair data.
pub fn max_messages(oti: &ObjectTransmissionInformation, repair_block_size: u32) -> (count: u64)
    ensures
        count == spec_div_ceil(oti@.transfer_length as int, oti@.symbol_size as int)
            + spec_div_ceil(repair_block_size as int, oti@.symbol_size as int),
{
    nb_encoding_packets(oti) + nb_repair_packets(oti, repair_block_size) as u64
}

/// The most bytes that a message can carry if its record is to fit into one
/// block; `None` if a block does not even hold the rest of a record.
pub fn to_tcp_buffer_size(encoding_block_size: u64) -> (size: Option<usize>)
    ensures
        size is Some <==> SERIALIZE_OVERHEAD <= encoding_block_size <= usize::MAX,
        size matches Some(s) ==> s + SERIALIZE_OVERHEAD == encoding_block_size,
{
    if encoding_block_size < SERIALIZE_OVERHEAD as u64 || encoding_block_size > usize::MAX as u64 {
        None
    } else {
        Some(encoding_block_size as usize - SERIALIZE_OVERHEAD)
    }
}

/// A message that carries no more bytes than [`to_tcp_buffer_size`] allows
/// makes a record that fits into one block.
pub proof fn lemma_message_fits_block(record: Record, encoding_block_size: u64)
    requires
        record.body.len() + SERIALIZE_OVERHEAD <= encoding_block_size,
    ensures
        spec_serialize(record).len() <= encoding_block_size,
{
    lemma_record_size(record);
}

/// Whether a socket buffer of `actual` bytes is below what is advised: twice
/// the size of a block and its repair data.
pub fn socket_buffer_is_small(
    actual: i32,
    encoding_block_size: u64,
    repair_block_size: u32,
) -> (small: bool)
    ensures
        small == (actual < 2 * (encoding_block_size + repair_block_size)),
{
    if actual < 0 {
        return true;
    }
    let advised: u128 = 2 * (encoding_block_size as u128 + repair_block_size as u128);
    (actual as u128) < advised
}

} // verus!
