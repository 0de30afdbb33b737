use diode::packet::{Packet, HEADER_SIZE, SYMBOL_LIMIT};
use raptorq::{EncodingPacket, PayloadId};

#[test]
fn reads_header_and_symbol() {
    let packet = Packet::deserialize(&[7, 0x01, 0x02, 0x03, 0xaa, 0xbb]).unwrap();
    assert_eq!(packet.block, 7);
    assert_eq!(packet.symbol, 0x010203);
    assert_eq!(packet.data, vec![0xaa, 0xbb]);
}

#[test]
fn header_alone_is_an_empty_symbol() {
    let packet = Packet::deserialize(&[255, 255, 255, 255]).unwrap();
    assert_eq!(packet.block, 255);
    assert_eq!(packet.symbol, SYMBOL_LIMIT - 1);
    assert_eq!(packet.data, Vec::<u8>::new());
}

#[test]
fn short_datagram_is_no_packet() {
    assert_eq!(Packet::deserialize(&[]), None);
    assert_eq!(Packet::deserialize(&[1, 2, 3]), None);
    assert_eq!(HEADER_SIZE, 4);
}

#[test]
fn reads_what_the_encoder_writes() {
    let sent = EncodingPacket::new(PayloadId::new(200, 70_000), vec![1, 2, 3, 4, 5]);
    let packet = Packet::deserialize(&sent.serialize()).unwrap();
    assert_eq!(
        packet,
        Packet { block: 200, symbol: 70_000, data: vec![1, 2, 3, 4, 5] }
    );
}
