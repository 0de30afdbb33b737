use crossbeam_channel::Receiver;
use diode::config::{max_messages, to_tcp_buffer_size, Config};
use diode::receive::decoding::{decode, Turnstile};
use diode::receive::dispatch::{Dispatcher, Outcome};
use diode::message::{ClientMessage, DecodeError, Message, Stream};
use diode::packet::Packet;
use diode::protocol::{
    nb_encoding_packets, nb_repair_packets, object_transmission_information, PACKET_OVERHEAD,
};
use diode::receive::reblock::Reblock;
use diode::receive::session::{Event, Worker};
use raptorq::SourceBlockEncoder;

const CLIENT: u64 = 0x1234_5678_9abc_def0;

fn file(len: usize) -> Vec<u8> {
    let mut state = 0x2545_f491_4f6c_dd1du64;
    (0..len)
        .map(|_| {
            state ^= state << 13;
            state ^= state >> 7;
            state ^= state << 17;
            (state >> 32) as u8
        })
        .collect()
}

/// One block per record, filled up with padding.
fn blocks_of(content: &[u8], block_size: usize, chunk: usize) -> Vec<Vec<u8>> {
    let mut payloads = vec![Message::Start];
    payloads.extend(content.chunks(chunk).map(|c| Message::Data(c.to_vec())));
    payloads.push(Message::End);
    payloads
        .into_iter()
        .map(|payload| {
            let mut block = ClientMessage { client_id: CLIENT, payload }.serialize();
            let room = block_size - block.len();
            if room > 0 {
                let filler = vec![0; room - Message::serialize_overhead()];
                block.extend(
                    ClientMessage { client_id: 0, payload: Message::Padding(filler) }.serialize(),
                );
            }
            assert_eq!(block.len(), block_size);
            block
        })
        .collect()
}

/// Sends `content` through the whole receiver, losing every packet for which
/// `lost` says so, and returns what the client's worker wrote.
fn transfer(content: &[u8], first_block: u8, lost: impl Fn(usize) -> bool) -> Vec<u8> {
    let mut config = Config {
        from_udp_mtu: 1500,
        nb_clients: 2,
        nb_decoding_threads: 1,
        encoding_block_size: 60000,
        repair_block_size: 6000,
        flush_timeout: 500,
        abort_timeout: 10,
        heartbeat: 10,
    };
    config.adjust().unwrap();
    let oti =
        object_transmission_information(config.from_udp_mtu, config.encoding_block_size).unwrap();
    let coder = raptorq::ObjectTransmissionInformation::with_defaults(
        config.encoding_block_size,
        config.from_udp_mtu - PACKET_OVERHEAD,
    );
    let repair = nb_repair_packets(&oti, config.repair_block_size);
    assert_eq!(max_messages(&oti, config.repair_block_size), 46);
    let chunk = to_tcp_buffer_size(config.encoding_block_size).unwrap();

    // the sender
    let mut datagrams = Vec::new();
    let mut number = first_block;
    for block in blocks_of(content, config.encoding_block_size as usize, chunk) {
        let encoder = SourceBlockEncoder::new2(number, &coder, &block);
        let mut packets = encoder.source_packets();
        packets.extend(encoder.repair_packets(0, repair));
        datagrams.extend(packets.iter().map(|p| p.serialize()));
        number = number.wrapping_add(1);
    }

    // the link
    let arrived: Vec<Vec<u8>> = datagrams
        .into_iter()
        .enumerate()
        .filter(|(i, _)| !lost(*i))
        .map(|(_, d)| d)
        .collect();

    // the receiver
    let mut reblock = Reblock::new(first_block, nb_encoding_packets(&oti), config.flush_timeout);
    let mut turnstile = Turnstile::new(first_block);
    let mut dispatcher = Dispatcher::new();
    let mut queue: Option<Receiver<Message>> = None;
    let mut stream = Stream::new();
    let mut now = 0;
    let mut batches: Vec<Vec<Packet>> = arrived
        .chunks(16)
        .map(|batch| batch.iter().map(|d| Packet::deserialize(d).unwrap()).collect())
        .collect();
    batches.push(Vec::new());
    let last = batches.len() - 1;
    for (i, batch) in batches.into_iter().enumerate() {
        now += 1;
        let mut released = reblock.push_batch(batch, now);
        if i == last {
            released.extend(reblock.flush(now + config.flush_timeout));
        }
        for block in released {
            let decoded = decode(&oti, block);
            assert!(turnstile.pass(decoded.number));
            let parsed = stream.feed(&decoded.bytes.expect("lost block"));
            assert_eq!(parsed.stopped, DecodeError::Incomplete);
            for message in parsed.messages {
                if let Outcome::Started(q) = dispatcher.dispatch(message) {
                    queue = Some(q);
                }
            }
        }
    }
    assert_eq!(stream.pending(), 0);
    assert!(!dispatcher.is_active(CLIENT));
    assert_eq!(dispatcher.nb_ended(), 1);

    // the client's worker
    let queue = queue.expect("no session");
    let mut worker = Worker::new(chunk);
    let mut written = Vec::new();
    let mut closed = false;
    while let Ok(message) = queue.try_recv() {
        let step = worker.handle(Event::Received(message));
        written.extend(step.write);
        closed |= step.close;
    }
    assert!(closed);
    assert!(worker.is_done());
    dispatcher.dispatch(ClientMessage { client_id: 0, payload: Message::Padding(Vec::new()) });
    assert_eq!(dispatcher.nb_ended(), 0);
    written
}

#[test]
fn small_file_arrives_without_loss() {
    let content = file(150_000);
    assert_eq!(transfer(&content, 0, |_| false), content);
}

#[test]
fn file_arrives_across_the_wrap_of_block_numbers() {
    let content = file(400_000);
    assert_eq!(transfer(&content, 252, |i| i % 20 == 3), content);
}

#[test]
fn ten_megabytes_arrive_under_five_percent_loss() {
    let content = file(10 * 1024 * 1024);
    assert_eq!(transfer(&content, 0, |i| i % 20 == 7), content);
}
