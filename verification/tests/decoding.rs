use diode::receive::decoding::{decode, Turnstile};
use diode::packet::Packet;
use diode::protocol::{
    nb_encoding_packets, object_transmission_information, packet_size,
    ObjectTransmissionInformation, PACKET_OVERHEAD,
};
use diode::receive::reblock::Block;
use raptorq::SourceBlockEncoder;

const MTU: u16 = 136;
const BLOCK_SIZE: u64 = 2080;
const REPAIR: u32 = 6;

fn parameters() -> ObjectTransmissionInformation {
    object_transmission_information(MTU, BLOCK_SIZE).unwrap()
}

fn content(seed: u8) -> Vec<u8> {
    (0..BLOCK_SIZE).map(|i| (i as u8).wrapping_mul(31).wrapping_add(seed)).collect()
}

/// The packets of one block: those of its data first, then those of its repair
/// data.
fn encode(number: u8, data: &[u8]) -> Vec<Packet> {
    let config = raptorq::ObjectTransmissionInformation::with_defaults(
        BLOCK_SIZE,
        MTU - PACKET_OVERHEAD,
    );
    let encoder = SourceBlockEncoder::new2(number, &config, data);
    let mut packets = encoder.source_packets();
    packets.extend(encoder.repair_packets(0, REPAIR));
    packets
        .into_iter()
        .map(|p| Packet::deserialize(&p.serialize()).unwrap())
        .collect()
}

fn without(packets: &[Packet], dropped: &[usize]) -> Vec<Packet> {
    packets
        .iter()
        .enumerate()
        .filter(|(i, _)| !dropped.contains(i))
        .map(|(_, p)| p.clone())
        .collect()
}

#[test]
fn block_of_the_test_has_twenty_symbols() {
    let oti = parameters();
    assert_eq!(packet_size(&oti), 104);
    assert_eq!(nb_encoding_packets(&oti), 20);
    assert_eq!(encode(0, &content(0)).len(), 26);
}

#[test]
fn all_packets_decode_to_the_block() {
    let data = content(1);
    let decoded = decode(&parameters(), Block { number: 3, packets: encode(3, &data) });
    assert_eq!(decoded.number, 3);
    assert_eq!(decoded.bytes, Some(data));
}

#[test]
fn source_packets_alone_decode_to_the_block() {
    let data = content(2);
    let packets = encode(9, &data);
    let decoded = decode(&parameters(), Block { number: 9, packets: packets[..20].to_vec() });
    assert_eq!(decoded.bytes, Some(data));
}

#[test]
fn lost_packets_are_made_up_for_by_repair_packets() {
    let data = content(3);
    let packets = encode(0, &data);
    let losses: [&[usize]; 5] =
        [&[0], &[19], &[3, 4, 5], &[0, 7, 13, 19, 21], &[1, 2, 3, 20, 25]];
    for dropped in losses {
        let decoded =
            decode(&parameters(), Block { number: 0, packets: without(&packets, dropped) });
        assert_eq!(decoded.number, 0);
        assert_eq!(decoded.bytes, Some(data.clone()));
    }
}

#[test]
fn order_of_packets_does_not_matter() {
    let data = content(4);
    let mut packets = without(&encode(0, &data), &[2, 11]);
    packets.reverse();
    let decoded = decode(&parameters(), Block { number: 0, packets });
    assert_eq!(decoded.bytes, Some(data));
}

#[test]
fn too_few_packets_give_a_gap() {
    let data = content(5);
    let packets = encode(0, &data);
    let dropped = [0usize, 1, 2, 3, 4, 5, 6];
    let decoded = decode(&parameters(), Block { number: 0, packets: without(&packets, &dropped) });
    assert_eq!(decoded.number, 0);
    assert_eq!(decoded.bytes, None);
    let decoded = decode(&parameters(), Block { number: 0, packets: Vec::new() });
    assert_eq!(decoded.bytes, None);
}

#[test]
fn duplicates_do_not_count() {
    let data = content(6);
    let packets = encode(0, &data);
    let mut lacking = without(&packets, &[0, 20, 21, 22, 23, 24, 25]);
    let again = lacking.clone();
    lacking.extend(again);
    let decoded = decode(&parameters(), Block { number: 0, packets: lacking });
    assert_eq!(decoded.bytes, None);
}

#[test]
fn packets_of_other_blocks_and_shapes_are_left_aside() {
    let data = content(7);
    let mut packets = encode(4, &data);
    packets.insert(0, Packet { block: 5, symbol: 0, data: vec![0; 104] });
    packets.insert(3, Packet { block: 4, symbol: 1, data: vec![0; 103] });
    packets.insert(7, Packet { block: 4, symbol: 2, data: vec![0; 105] });
    packets.push(Packet { block: 4, symbol: 1 << 24, data: vec![0; 104] });
    packets.push(Packet { block: 4, symbol: u32::MAX, data: vec![0; 104] });
    let decoded = decode(&parameters(), Block { number: 4, packets });
    assert_eq!(decoded.bytes, Some(data));
}

#[test]
fn decoded_block_is_whole_symbols() {
    let oti = object_transmission_information(MTU, 2000).unwrap();
    let config =
        raptorq::ObjectTransmissionInformation::with_defaults(2000, MTU - PACKET_OVERHEAD);
    let data: Vec<u8> = (0..2000u32).map(|i| i as u8).collect();
    let mut padded = data.clone();
    padded.resize(2080, 0);
    let encoder = SourceBlockEncoder::new2(0, &config, &padded);
    let packets = encoder
        .source_packets()
        .into_iter()
        .map(|p| Packet::deserialize(&p.serialize()).unwrap())
        .collect();
    let bytes = decode(&oti, Block { number: 0, packets }).bytes.unwrap();
    assert_eq!(bytes.len(), 2080);
    assert_eq!(&bytes[..2000], &data[..]);
    assert_eq!(&bytes[2000..], &[0u8; 80][..]);
}

#[test]
fn blocks_pass_in_order() {
    let mut turnstile = Turnstile::new(0);
    let mut passed = Vec::new();
    // block 2 finishes first, then 0, then 1
    let mut waiting = vec![2u8];
    for finished in [0u8, 1] {
        waiting.push(finished);
        let mut progress = true;
        while progress {
            progress = false;
            for i in 0..waiting.len() {
                if turnstile.pass(waiting[i]) {
                    passed.push(waiting.remove(i));
                    progress = true;
                    break;
                }
            }
        }
    }
    assert_eq!(passed, vec![0, 1, 2]);
    assert!(waiting.is_empty());
    assert_eq!(turnstile.expected(), 3);
}

#[test]
fn block_that_is_not_next_is_held_back() {
    let mut turnstile = Turnstile::new(5);
    assert!(!turnstile.is_turn(6));
    assert!(!turnstile.pass(6));
    assert!(!turnstile.pass(4));
    assert_eq!(turnstile.expected(), 5);
    assert!(turnstile.is_turn(5));
    assert!(turnstile.pass(5));
    assert_eq!(turnstile.expected(), 6);
    assert!(!turnstile.pass(5));
    assert!(turnstile.pass(6));
}

#[test]
fn turns_wrap_around() {
    let mut turnstile = Turnstile::new(255);
    assert!(turnstile.pass(255));
    assert_eq!(turnstile.expected(), 0);
    assert!(turnstile.pass(0));
    assert_eq!(turnstile.expected(), 1);
}
