use diode::config::{
    max_messages, socket_buffer_is_small, to_tcp_buffer_size, Config,
};
use diode::protocol::{
    nb_encoding_packets, nb_repair_packets, object_transmission_information, packet_size,
    ConfigError, MAX_SOURCE_SYMBOLS, MAX_TRANSFER_LENGTH, PACKET_OVERHEAD,
};

fn config(mtu: u16, encoding_block_size: u64, repair_block_size: u32) -> Config {
    Config {
        from_udp_mtu: mtu,
        nb_clients: 2,
        nb_decoding_threads: 1,
        encoding_block_size,
        repair_block_size,
        flush_timeout: 500,
        abort_timeout: 10,
        heartbeat: 10,
    }
}

#[test]
fn parameters_are_deterministic() {
    let one = object_transmission_information(1500, 60000).unwrap();
    let other = object_transmission_information(1500, 60000).unwrap();
    assert_eq!(one, other);
    assert_eq!(packet_size(&one), packet_size(&other));
    assert_eq!(nb_encoding_packets(&one), nb_encoding_packets(&other));
}

#[test]
fn parameters_for_the_default_configuration() {
    let oti = object_transmission_information(1500, 60000).unwrap();
    let parameters = oti.parameters();
    assert_eq!(parameters.transfer_length, 60000);
    assert_eq!(parameters.symbol_size, 1464);
    assert_eq!(parameters.alignment, 8);
    assert_eq!(packet_size(&oti), 1464);
    assert_eq!(nb_encoding_packets(&oti), 41);
    assert_eq!(nb_repair_packets(&oti, 6000), 5);
    assert_eq!(nb_repair_packets(&oti, 0), 0);
    assert_eq!(nb_repair_packets(&oti, 1464), 1);
    assert_eq!(nb_repair_packets(&oti, 1465), 2);
}

#[test]
fn parameters_are_those_of_the_erasure_code() {
    let configurations =
        [(1500u16, 60000u64), (1500, 60024), (9000, 1_000_000), (90, 100), (40, 17)];
    for (mtu, size) in configurations {
        let ours = object_transmission_information(mtu, size).unwrap().parameters();
        let theirs =
            raptorq::ObjectTransmissionInformation::with_defaults(size, mtu - PACKET_OVERHEAD);
        assert_eq!(ours.transfer_length, theirs.transfer_length());
        assert_eq!(ours.symbol_size, theirs.symbol_size());
        assert_eq!(ours.source_blocks, theirs.source_blocks());
        assert_eq!(ours.sub_blocks, theirs.sub_blocks());
        assert_eq!(ours.alignment, theirs.symbol_alignment());
    }
}

#[test]
fn small_packets_are_not_aligned() {
    let oti = object_transmission_information(95, 1000).unwrap();
    assert_eq!(oti.parameters().alignment, 1);
    assert_eq!(packet_size(&oti), 63);
    assert_eq!(nb_encoding_packets(&oti), 16);
    let oti = object_transmission_information(96, 1000).unwrap();
    assert_eq!(oti.parameters().alignment, 8);
    assert_eq!(packet_size(&oti), 64);
    assert_eq!(nb_encoding_packets(&oti), 16);
    let oti = object_transmission_information(103, 1000).unwrap();
    assert_eq!(packet_size(&oti), 64);
    let oti = object_transmission_information(104, 1000).unwrap();
    assert_eq!(packet_size(&oti), 72);
}

#[test]
fn mtu_without_room_for_a_symbol_is_refused() {
    assert_eq!(object_transmission_information(0, 60000), Err(ConfigError::MtuTooSmall));
    assert_eq!(
        object_transmission_information(PACKET_OVERHEAD, 60000),
        Err(ConfigError::MtuTooSmall)
    );
    assert!(object_transmission_information(PACKET_OVERHEAD + 1, 100).is_ok());
}

#[test]
fn empty_block_is_refused() {
    assert_eq!(object_transmission_information(1500, 0), Err(ConfigError::EmptyBlock));
}

#[test]
fn block_of_too_many_symbols_is_refused() {
    assert!(object_transmission_information(1500, MAX_SOURCE_SYMBOLS * 1464).is_ok());
    assert_eq!(
        object_transmission_information(1500, MAX_SOURCE_SYMBOLS * 1464 + 1),
        Err(ConfigError::BlockTooLarge)
    );
    assert_eq!(
        object_transmission_information(65535, MAX_TRANSFER_LENGTH + 1),
        Err(ConfigError::BlockTooLarge)
    );
    assert_eq!(
        object_transmission_information(1500, u64::MAX),
        Err(ConfigError::BlockTooLarge)
    );
}

#[test]
fn adjust_rounds_up_to_whole_packets() {
    let mut c = config(1500, 60000, 6000);
    assert_eq!(c.adjust(), Ok(()));
    assert_eq!(c.encoding_block_size, 60024);
    assert_eq!(c.repair_block_size, 7320);
    assert_eq!(c.encoding_block_size % 1464, 0);
    let oti = object_transmission_information(c.from_udp_mtu, c.encoding_block_size).unwrap();
    assert_eq!(
        c.encoding_block_size,
        nb_encoding_packets(&oti) * u64::from(packet_size(&oti))
    );
    assert_eq!(
        c.repair_block_size,
        nb_repair_packets(&oti, c.repair_block_size) * u32::from(packet_size(&oti))
    );
}

#[test]
fn adjust_keeps_whole_packets() {
    let mut c = config(1500, 58560, 5856);
    assert_eq!(c.adjust(), Ok(()));
    assert_eq!(c.encoding_block_size, 58560);
    assert_eq!(c.repair_block_size, 5856);
}

#[test]
fn adjust_twice_is_adjust_once() {
    let mut once = config(1500, 60000, 6000);
    once.adjust().unwrap();
    let mut twice = once;
    twice.adjust().unwrap();
    assert_eq!(once, twice);
}

#[test]
fn adjust_leaves_the_other_settings() {
    let mut c = config(1500, 60000, 6000);
    c.adjust().unwrap();
    assert_eq!(c, config(1500, 60024, 7320));
}

#[test]
fn adjust_refuses_and_leaves_unusable_configuration() {
    let mut c = config(20, 60000, 6000);
    assert_eq!(c.adjust(), Err(ConfigError::MtuTooSmall));
    assert_eq!(c, config(20, 60000, 6000));
    let mut c = config(1500, 0, 6000);
    assert_eq!(c.adjust(), Err(ConfigError::EmptyBlock));
    assert_eq!(c, config(1500, 0, 6000));
    let mut c = config(1500, 1 << 40, 6000);
    assert_eq!(c.adjust(), Err(ConfigError::BlockTooLarge));
    assert_eq!(c, config(1500, 1 << 40, 6000));
}

#[test]
fn adjust_refuses_repair_that_outgrows_its_type() {
    let mut c = config(1500, 60000, u32::MAX);
    assert_eq!(c.adjust(), Err(ConfigError::RepairTooLarge));
    assert_eq!(c, config(1500, 60000, u32::MAX));
    let mut c = config(1500, 60000, 4294966080);
    assert_eq!(c.adjust(), Ok(()));
    assert_eq!(c.repair_block_size, 4294966080);
}

#[test]
fn most_packets_of_a_block() {
    let oti = object_transmission_information(1500, 60024).unwrap();
    assert_eq!(max_messages(&oti, 7320), 46);
    assert_eq!(max_messages(&oti, 0), 41);
}

#[test]
fn buffer_leaves_room_for_the_record() {
    assert_eq!(to_tcp_buffer_size(60024), Some(60004));
    assert_eq!(to_tcp_buffer_size(20), Some(0));
    assert_eq!(to_tcp_buffer_size(19), None);
    assert_eq!(to_tcp_buffer_size(0), None);
}

#[test]
fn socket_buffer_below_twice_a_block_is_small() {
    assert!(socket_buffer_is_small(134_687, 60024, 7320));
    assert!(!socket_buffer_is_small(134_688, 60024, 7320));
    assert!(socket_buffer_is_small(-1, 0, 0));
    assert!(!socket_buffer_is_small(0, 0, 0));
    assert!(socket_buffer_is_small(i32::MAX, u64::MAX, u32::MAX));
}
