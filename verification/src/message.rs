//! The messages that travel inside decoded blocks, and their encoding.
//!
//! The decoded bytes are a run of records, one per message. A record starts
//! with the client id in eight bytes and the kind of message in four; `Data`
//! and `Padding` then give the length of their bytes in eight bytes, followed
//! by the bytes themselves. Numbers are written least significant byte first.
use vstd::prelude::*;
use vstd::slice::{slice_subrange, slice_to_vec};

verus! {

/// Identifies one logical transfer; chosen by the sender.
pub type ClientId = u64;

/// One event of a client's stream.
#[derive(Clone, Debug, PartialEq, Eq)]
pub enum Message {
    /// A transfer begins.
    Start,
    /// Bytes of the transfer.
    Data(Vec<u8>),
    /// Filler, sent at a fixed interval; carries nothing for any client.
    Padding(Vec<u8>),
    /// The transfer is given up.
    Abort,
    /// The transfer is complete.
    End,
}

/// A message together with the client it belongs to.
#[derive(Clone, Debug, PartialEq, Eq)]
pub struct ClientMessage {
    pub client_id: ClientId,
    pub payload: Message,
}

/// What kind of message a payload is, without its bytes.
#[derive(Clone, Copy, Debug, PartialEq, Eq, Structural)]
pub enum Kind {
    Start,
    Data,
    Padding,
    Abort,
    End,
}

/// Why bytes are not a record.
#[derive(Clone, Copy, Debug, PartialEq, Eq, Structural)]
pub enum DecodeError {
    /// The bytes end before the record does.
    Incomplete,
    /// The kind of message is none of the five.
    UnknownKind,
    /// The record claims more bytes than can be held.
    Oversized,
}

/// The bytes of a record before those of `Data` or `Padding`: client id, kind
/// and length.
pub const SERIALIZE_OVERHEAD: usize = 20;

/// The bytes of a record without bytes of its own: client id and kind.
pub const BARE_RECORD_SIZE: usize = 12;

/// The eight bytes that stand for `value`, least significant first.
#[verifier::opaque]
pub open spec fn spec_u64_bytes(value: u64) -> Seq<u8> {
    seq![
        (value % 256) as u8,
        (value / 0x100 % 256) as u8,
        (value / 0x1_0000 % 256) as u8,
        (value / 0x100_0000 % 256) as u8,
        (value / 0x1_0000_0000 % 256) as u8,
        (value / 0x100_0000_0000 % 256) as u8,
        (value / 0x1_0000_0000_0000 % 256) as u8,
        (value / 0x100_0000_0000_0000 % 256) as u8,
    ]
}

/// The four bytes that stand for `value`, least significant first.
#[verifier::opaque]
pub open spec fn spec_u32_bytes(value: u32) -> Seq<u8> {
    seq![
        (value % 256) as u8,
        (value / 0x100 % 256) as u8,
        (value / 0x1_0000 % 256) as u8,
        (value / 0x100_0000 % 256) as u8,
    ]
}

/// The number that the eight bytes from `at` on stand for.
#[verifier::opaque]
pub open spec fn spec_u64_at(bytes: Seq<u8>, at: int) -> u64 {
    (bytes[at] + bytes[at + 1] * 0x100 + bytes[at + 2] * 0x1_0000 + bytes[at + 3] * 0x100_0000
        + bytes[at + 4] * 0x1_0000_0000 + bytes[at + 5] * 0x100_0000_0000 + bytes[at + 6]
        * 0x1_0000_0000_0000 + bytes[at + 7] * 0x100_0000_0000_0000) as u64
}

/// The number that the four bytes from `at` on stand for.
#[verifier::opaque]
pub open spec fn spec_u32_at(bytes: Seq<u8>, at: int) -> u32 {
    (bytes[at] + bytes[at + 1] * 0x100 + bytes[at + 2] * 0x1_0000 + bytes[at + 3]
        * 0x100_0000) as u32
}

impl Kind {
    /// The number that stands for the kind in a record.
    pub open spec fn tag(self) -> u32 {
        match self {
            Kind::Start => 0,
            Kind::Data => 1,
            Kind::Padding => 2,
            Kind::Abort => 3,
            Kind::End => 4,
        }
    }

    /// Whether messages of the kind carry bytes.
    pub open spec fn has_body(self) -> bool {
        self == Kind::Data || self == Kind::Padding
    }
}

impl Message {
    /// The kind of the message.
    pub open spec fn kind(&self) -> Kind {
        match self {
            Message::Start => Kind::Start,
            Message::Data(_) => Kind::Data,
            Message::Padding(_) => Kind::Padding,
            Message::Abort => Kind::Abort,
            Message::End => Kind::End,
        }
    }

    /// The bytes that the message carries; none for a kind without bytes.
    pub open spec fn body(&self) -> Seq<u8> {
        match self {
            Message::Data(bytes) => bytes@,
            Message::Padding(bytes) => bytes@,
            _ => Seq::empty(),
        }
    }

    /// The kind of the message.
    pub fn to_kind(&self) -> (kind: Kind)
        ensures
            kind == self.kind(),
    {
        match self {
            Message::Start => Kind::Start,
            Message::Data(_) => Kind::Data,
            Message::Padding(_) => Kind::Padding,
            Message::Abort => Kind::Abort,
            Message::End => Kind::End,
        }
    }

    /// How many bytes a record takes beyond the bytes that its message
    /// carries.
    pub fn serialize_overhead() -> (overhead: usize)
        ensures
            overhead == SERIALIZE_OVERHEAD,
    {
        SERIALIZE_OVERHEAD
    }
}

/// A record as contracts see it.
pub struct Record {
    pub client_id: ClientId,
    pub kind: Kind,
    /// The bytes that the message carries; none for a kind without bytes.
    pub body: Seq<u8>,
}

impl View for ClientMessage {
    type V = Record;

    open spec fn view(&self) -> Record {
        Record { client_id: self.client_id, kind: self.payload.kind(), body: self.payload.body() }
    }
}

/// The bytes of a record.
pub open spec fn spec_serialize(record: Record) -> Seq<u8> {
    let head = spec_u64_bytes(record.client_id) + spec_u32_bytes(record.kind.tag());
    if record.kind.has_body() {
        head + spec_u64_bytes(record.body.len() as u64) + record.body
    } else {
        head
    }
}

/// Whether a record can be written and read: it carries bytes only if its kind
/// does, and no more than can be held together with the rest of the record.
pub open spec fn spec_well_formed(record: Record) -> bool {
    &&& record.body.len() <= usize::MAX - SERIALIZE_OVERHEAD
    &&& !record.kind.has_body() ==> record.body.len() == 0
}

/// The records as contracts see them.
pub open spec fn spec_records(messages: Seq<ClientMessage>) -> Seq<Record> {
    messages.map_values(|m: ClientMessage| m@)
}

/// The bytes of a run of records, one after the other.
pub open spec fn spec_serialize_all(records: Seq<Record>) -> Seq<u8>
    decreases records.len(),
{
    if records.len() == 0 {
        Seq::empty()
    } else {
        spec_serialize_all(records.drop_last()) + spec_serialize(records.last())
    }
}

/// The records that bytes start with.
#[derive(Debug)]
pub struct Parsed {
    /// The messages of the records, in their order.
    pub messages: Vec<ClientMessage>,
    /// How many bytes the records take.
    pub used: usize,
    /// Why the bytes after them start with no record: [`DecodeError::Incomplete`]
    /// where the bytes end, within a record or after the last one.
    pub stopped: DecodeError,
}

/// The kind that a number stands for.
pub open spec fn spec_kind_of(tag: u32) -> Option<Kind> {
    if tag == 0 {
        Some(Kind::Start)
    } else if tag == 1 {
        Some(Kind::Data)
    } else if tag == 2 {
        Some(Kind::Padding)
    } else if tag == 3 {
        Some(Kind::Abort)
    } else if tag == 4 {
        Some(Kind::End)
    } else {
        None
    }
}

/// The record that `bytes` start with and the number of bytes it takes, or why
/// they start with none.
pub open spec fn spec_deserialize(bytes: Seq<u8>) -> Result<(Record, nat), DecodeError> {
    if bytes.len() < BARE_RECORD_SIZE {
        Err(DecodeError::Incomplete)
    } else {
        let client_id = spec_u64_at(bytes, 0);
        match spec_kind_of(spec_u32_at(bytes, 8)) {
            None => Err(DecodeError::UnknownKind),
            Some(kind) => if !kind.has_body() {
                Ok((Record { client_id, kind, body: Seq::empty() }, BARE_RECORD_SIZE as nat))
            } else if bytes.len() < SERIALIZE_OVERHEAD {
                Err(DecodeError::Incomplete)
            } else {
                let len = spec_u64_at(bytes, 12);
                if len > usize::MAX - SERIALIZE_OVERHEAD {
                    Err(DecodeError::Oversized)
                } else if bytes.len() < SERIALIZE_OVERHEAD + len {
                    Err(DecodeError::Incomplete)
                } else {
                    Ok(
                        (
                            Record {
                                client_id,
                                kind,
                                body: bytes.subrange(
                                    SERIALIZE_OVERHEAD as int,
                                    SERIALIZE_OVERHEAD + len,
                                ),
                            },
                            (SERIALIZE_OVERHEAD + len) as nat,
                        ),
                    )
                }
            },
        }
    }
}

/// Appends the eight bytes of `value` to `out`.
fn put_u64(out: &mut Vec<u8>, value: u64)
    ensures
        final(out)@ == old(out)@ + spec_u64_bytes(value),
{
    reveal(spec_u64_bytes);
    out.push((value % 256) as u8);
    out.push((value / 0x100 % 256) as u8);
    out.push((value / 0x1_0000 % 256) as u8);
    out.push((value / 0x100_0000 % 256) as u8);
    out.push((value / 0x1_0000_0000 % 256) as u8);
    out.push((value / 0x100_0000_0000 % 256) as u8);
    out.push((value / 0x1_0000_0000_0000 % 256) as u8);
    out.push((value / 0x100_0000_0000_0000 % 256) as u8);
    assert(out@ =~= old(out)@ + spec_u64_bytes(value));
}

/// Appends the four bytes of `value` to `out`.
fn put_u32(out: &mut Vec<u8>, value: u32)
    ensures
        final(out)@ == old(out)@ + spec_u32_bytes(value),
{
    reveal(spec_u32_bytes);
    out.push((value % 256) as u8);
    out.push((value / 0x100 % 256) as u8);
    out.push((value / 0x1_0000 % 256) as u8);
    out.push((value / 0x100_0000 % 256) as u8);
    assert(out@ =~= old(out)@ + spec_u32_bytes(value));
}

/// Reads the number that the eight bytes from `at` on stand for.
fn get_u64(bytes: &[u8], at: usize) -> (value: u64)
    requires
        at + 8 <= bytes@.len(),
    ensures
        value == spec_u64_at(bytes@, at as int),
{
    reveal(spec_u64_at);
    bytes[at] as u64 + bytes[at + 1] as u64 * 0x100 + bytes[at + 2] as u64 * 0x1_0000 + bytes[at
        + 3] as u64 * 0x100_0000 + bytes[at + 4] as u64 * 0x1_0000_0000 + bytes[at + 5] as u64
        * 0x100_0000_0000 + bytes[at + 6] as u64 * 0x1_0000_0000_0000 + bytes[at + 7] as u64
        * 0x100_0000_0000_0000
}

/// Reads the number that the four bytes from `at` on stand for.
fn get_u32(bytes: &[u8], at: usize) -> (value: u32)
    requires
        at + 4 <= bytes@.len(),
    ensures
        value == spec_u32_at(bytes@, at as int),
{
    reveal(spec_u32_at);
    bytes[at] as u32 + bytes[at + 1] as u32 * 0x100 + bytes[at + 2] as u32 * 0x1_0000 + bytes[at
        + 3] as u32 * 0x100_0000
}

impl ClientMessage {
    /// Writes the message as a record.
    pub fn serialize(&self) -> (bytes: Vec<u8>)
        ensures
            bytes@ == spec_serialize(self@),
    {
        let mut bytes: Vec<u8> = Vec::new();
        put_u64(&mut bytes, self.client_id);
        match &self.payload {
            Message::Start => put_u32(&mut bytes, 0),
            Message::Data(body) => {
                put_u32(&mut bytes, 1);
                put_u64(&mut bytes, body.len() as u64);
                let mut copy = slice_to_vec(body.as_slice());
                bytes.append(&mut copy);
            },
            Message::Padding(body) => {
                put_u32(&mut bytes, 2);
                put_u64(&mut bytes, body.len() as u64);
                let mut copy = slice_to_vec(body.as_slice());
                bytes.append(&mut copy);
            },
            Message::Abort => put_u32(&mut bytes, 3),
            Message::End => put_u32(&mut bytes, 4),
        }
        assert(bytes@ =~= spec_serialize(self@));
        bytes
    }

    /// Reads the record that `bytes` start with. Returns the message and the
    /// number of bytes that its record takes; what follows them is left alone.
    pub fn deserialize(bytes: &[u8]) -> (result: Result<(ClientMessage, usize), DecodeError>)
        ensures
            match result {
                Ok((message, used)) => spec_deserialize(bytes@) == Ok::<
                    (Record, nat),
                    DecodeError,
                >((message@, used as nat)) && spec_well_formed(message@),
                Err(e) => spec_deserialize(bytes@) == Err::<(Record, nat), DecodeError>(e),
            },
    {
        if bytes.len() < BARE_RECORD_SIZE {
            return Err(DecodeError::Incomplete);
        }
        let client_id = get_u64(bytes, 0);
        let tag = get_u32(bytes, 8);
        if tag == 0 {
            return Ok((ClientMessage { client_id, payload: Message::Start }, BARE_RECORD_SIZE));
        }
        if tag == 3 {
            return Ok((ClientMessage { client_id, payload: Message::Abort }, BARE_RECORD_SIZE));
        }
        if tag == 4 {
            return Ok((ClientMessage { client_id, payload: Message::End }, BARE_RECORD_SIZE));
        }
        if tag != 1 && tag != 2 {
            return Err(DecodeError::UnknownKind);
        }
        if bytes.len() < SERIALIZE_OVERHEAD {
            return Err(DecodeError::Incomplete);
        }
        let len = get_u64(bytes, 12);
        if len > (usize::MAX - SERIALIZE_OVERHEAD) as u64 {
            return Err(DecodeError::Oversized);
        }
        let end = SERIALIZE_OVERHEAD + len as usize;
        if bytes.len() < end {
            return Err(DecodeError::Incomplete);
        }
        let body = slice_to_vec(slice_subrange(bytes, SERIALIZE_OVERHEAD, end));
        let payload = if tag == 1 {
            Message::Data(body)
        } else {
            Message::Padding(body)
        };
        Ok((ClientMessage { client_id, payload }, end))
    }
}

/// Reads the records that `bytes` start with, as many as there are, and says
/// where and why it stopped.
pub fn deserialize_all(bytes: &[u8]) -> (parsed: Parsed)
    ensures
        parsed.used <= bytes@.len(),
        bytes@.take(parsed.used as int) == spec_serialize_all(spec_records(parsed.messages@)),
        spec_deserialize(bytes@.skip(parsed.used as int)) == Err::<(Record, nat), DecodeError>(
            parsed.stopped,
        ),
        forall|i: int|
            0 <= i < parsed.messages@.len() ==> spec_well_formed(
                #[trigger] spec_records(parsed.messages@)[i],
            ),
{
    let mut messages: Vec<ClientMessage> = Vec::new();
    let mut used: usize = 0;
    proof {
        assert(bytes@.take(0) =~= spec_serialize_all(spec_records(messages@)));
    }
    loop
        invariant
            used <= bytes@.len(),
            bytes@.take(used as int) == spec_serialize_all(spec_records(messages@)),
            forall|i: int|
                0 <= i < messages@.len() ==> spec_well_formed(
                    #[trigger] spec_records(messages@)[i],
                ),
        decreases bytes@.len() - used,
    {
        let rest = slice_subrange(bytes, used, bytes.len());
        assert(rest@ == bytes@.skip(used as int));
        match ClientMessage::deserialize(rest) {
            Err(stopped) => {
                return Parsed { messages, used, stopped };
            },
            Ok((message, taken)) => {
                proof {
                    lemma_read_record_is_its_bytes(rest@);
                    let before = spec_records(messages@);
                    let after = spec_records(messages@.push(message));
                    assert(after.drop_last() =~= before);
                    assert(after.last() == message@);
                    assert forall|i: int| 0 <= i < after.len() implies spec_well_formed(
                        #[trigger] after[i],
                    ) by {
                        if i < before.len() {
                            assert(after[i] == before[i]);
                        }
                    }
                    assert(bytes@.take(used + taken) =~= bytes@.take(used as int) + rest@.take(
                        taken as int,
                    ));
                }
                messages.push(message);
                used = used + taken;
            },
        }
    }
}

/// The decoded bytes that have not been read as records yet.
///
/// Blocks are decoded one by one, and a record may end in a later block than it
/// starts in. The stream keeps what is left of a record until the rest arrives.
pub struct Stream {
    pending: Vec<u8>,
}

impl View for Stream {
    type V = Seq<u8>;

    /// The bytes that wait for the rest of their record.
    closed spec fn view(&self) -> Seq<u8> {
        self.pending@
    }
}

impl Stream {
    /// A stream without bytes.
    pub fn new() -> (stream: Self)
        ensures
            stream@ == Seq::<u8>::empty(),
    {
        Stream { pending: Vec::new() }
    }

    /// How many bytes wait for the rest of their record.
    pub fn pending(&self) -> (count: usize)
        ensures
            count == self@.len(),
    {
        self.pending.len()
    }

    /// Adds `bytes` to the stream and reads the records that are now complete.
    /// What is left of the stream is what follows them. `used` counts from the
    /// first byte that waited.
    pub fn feed(&mut self, bytes: &[u8]) -> (parsed: Parsed)
        ensures
            parsed.used <= old(self)@.len() + bytes@.len(),
            (old(self)@ + bytes@).take(parsed.used as int) == spec_serialize_all(
                spec_records(parsed.messages@),
            ),
            final(self)@ == (old(self)@ + bytes@).skip(parsed.used as int),
            spec_deserialize(final(self)@) == Err::<(Record, nat), DecodeError>(parsed.stopped),
            forall|i: int|
                0 <= i < parsed.messages@.len() ==> spec_well_formed(
                    #[trigger] spec_records(parsed.messages@)[i],
                ),
    {
        let mut more = slice_to_vec(bytes);
        self.pending.append(&mut more);
        let parsed = deserialize_all(self.pending.as_slice());
        let rest = self.pending.split_off(parsed.used);
        self.pending = rest;
        parsed
    }
}

/// A number is the sum of its eight bytes, each at its place.
proof fn lemma_u64_is_sum_of_bytes(v: u64)
    ensures
        v == v % 256 + (v / 0x100 % 256) * 0x100 + (v / 0x1_0000 % 256) * 0x1_0000 + (v
            / 0x100_0000 % 256) * 0x100_0000 + (v / 0x1_0000_0000 % 256) * 0x1_0000_0000 + (v
            / 0x100_0000_0000 % 256) * 0x100_0000_0000 + (v / 0x1_0000_0000_0000 % 256)
            * 0x1_0000_0000_0000 + (v / 0x100_0000_0000_0000 % 256) * 0x100_0000_0000_0000,
{
    let a1 = v / 0x100;
    let a2 = a1 / 0x100;
    let a3 = a2 / 0x100;
    let a4 = a3 / 0x100;
    let a5 = a4 / 0x100;
    let a6 = a5 / 0x100;
    let a7 = a6 / 0x100;
    assert(a2 == v / 0x1_0000);
    assert(a3 == v / 0x100_0000);
    assert(a4 == v / 0x1_0000_0000);
    assert(a5 == v / 0x100_0000_0000);
    assert(a6 == v / 0x1_0000_0000_0000);
    assert(a7 == v / 0x100_0000_0000_0000);
    assert(a7 < 256);
}

/// Eight bytes, each at its place, sum up to a number that has them as its
/// bytes.
#[verifier::rlimit(50)]
proof fn lemma_sum_of_bytes_has_them(
    b0: u8,
    b1: u8,
    b2: u8,
    b3: u8,
    b4: u8,
    b5: u8,
    b6: u8,
    b7: u8,
)
    ensures
        ({
            let v = b0 + b1 * 0x100 + b2 * 0x1_0000 + b3 * 0x100_0000 + b4 * 0x1_0000_0000 + b5
                * 0x100_0000_0000 + b6 * 0x1_0000_0000_0000 + b7 * 0x100_0000_0000_0000;
            &&& 0 <= v <= u64::MAX
            &&& v % 256 == b0
            &&& v / 0x100 % 256 == b1
            &&& v / 0x1_0000 % 256 == b2
            &&& v / 0x100_0000 % 256 == b3
            &&& v / 0x1_0000_0000 % 256 == b4
            &&& v / 0x100_0000_0000 % 256 == b5
            &&& v / 0x1_0000_0000_0000 % 256 == b6
            &&& v / 0x100_0000_0000_0000 % 256 == b7
        }),
{
    let v = b0 + b1 * 0x100 + b2 * 0x1_0000 + b3 * 0x100_0000 + b4 * 0x1_0000_0000 + b5
        * 0x100_0000_0000 + b6 * 0x1_0000_0000_0000 + b7 * 0x100_0000_0000_0000;
    let a1 = b1 + b2 * 0x100 + b3 * 0x1_0000 + b4 * 0x100_0000 + b5 * 0x1_0000_0000 + b6
        * 0x100_0000_0000 + b7 * 0x1_0000_0000_0000;
    let a2 = b2 + b3 * 0x100 + b4 * 0x1_0000 + b5 * 0x100_0000 + b6 * 0x1_0000_0000 + b7
        * 0x100_0000_0000;
    let a3 = b3 + b4 * 0x100 + b5 * 0x1_0000 + b6 * 0x100_0000 + b7 * 0x1_0000_0000;
    let a4 = b4 + b5 * 0x100 + b6 * 0x1_0000 + b7 * 0x100_0000;
    let a5 = b5 + b6 * 0x100 + b7 * 0x1_0000;
    let a6 = b6 + b7 * 0x100;
    assert(v == b0 + a1 * 0x100);
    assert(v / 0x100 == a1);
    assert(a1 == b1 + a2 * 0x100);
    assert(v / 0x1_0000 == a2);
    assert(a2 == b2 + a3 * 0x100);
    assert(v / 0x100_0000 == a3);
    assert(a3 == b3 + a4 * 0x100);
    assert(v / 0x1_0000_0000 == a4);
    assert(a4 == b4 + a5 * 0x100);
    assert(v / 0x100_0000_0000 == a5);
    assert(a5 == b5 + a6 * 0x100);
    assert(v / 0x1_0000_0000_0000 == a6);
    assert(a6 == b6 + b7 * 0x100);
    assert(v / 0x100_0000_0000_0000 == b7);
}

/// Eight bytes stand for the number they were written for, and a number is
/// written as the bytes that stand for it.
pub proof fn lemma_u64_round_trip(value: u64, bytes: Seq<u8>, at: int)
    requires
        0 <= at,
        at + 8 <= bytes.len(),
    ensures
        spec_u64_bytes(value).len() == 8,
        bytes.subrange(at, at + 8) == spec_u64_bytes(value) <==> spec_u64_at(bytes, at) == value,
{
    reveal(spec_u64_bytes);
    reveal(spec_u64_at);
    let part = bytes.subrange(at, at + 8);
    let written = spec_u64_bytes(value);
    assert(part[0] == bytes[at] && part[1] == bytes[at + 1] && part[2] == bytes[at + 2] && part[3]
        == bytes[at + 3]);
    assert(part[4] == bytes[at + 4] && part[5] == bytes[at + 5] && part[6] == bytes[at + 6]
        && part[7] == bytes[at + 7]);
    lemma_u64_is_sum_of_bytes(value);
    lemma_sum_of_bytes_has_them(
        bytes[at],
        bytes[at + 1],
        bytes[at + 2],
        bytes[at + 3],
        bytes[at + 4],
        bytes[at + 5],
        bytes[at + 6],
        bytes[at + 7],
    );
    if part == written {
        assert(written[0] == bytes[at] && written[1] == bytes[at + 1] && written[2] == bytes[at
            + 2] && written[3] == bytes[at + 3]);
        assert(written[4] == bytes[at + 4] && written[5] == bytes[at + 5] && written[6]
            == bytes[at + 6] && written[7] == bytes[at + 7]);
    }
    if spec_u64_at(bytes, at) == value {
        assert(part =~= written);
    }
}

/// Four bytes stand for the number they were written for, and a number is
/// written as the bytes that stand for it.
pub proof fn lemma_u32_round_trip(value: u32, bytes: Seq<u8>, at: int)
    requires
        0 <= at,
        at + 4 <= bytes.len(),
    ensures
        spec_u32_bytes(value).len() == 4,
        bytes.subrange(at, at + 4) == spec_u32_bytes(value) <==> spec_u32_at(bytes, at) == value,
{
    reveal(spec_u32_bytes);
    reveal(spec_u32_at);
    let part = bytes.subrange(at, at + 4);
    let written = spec_u32_bytes(value);
    assert(part[0] == bytes[at] && part[1] == bytes[at + 1] && part[2] == bytes[at + 2] && part[3]
        == bytes[at + 3]);
    lemma_u64_is_sum_of_bytes(value as u64);
    lemma_sum_of_bytes_has_them(bytes[at], bytes[at + 1], bytes[at + 2], bytes[at + 3], 0, 0, 0, 0);
    if part == written {
        assert(written[0] == bytes[at] && written[1] == bytes[at + 1] && written[2] == bytes[at
            + 2] && written[3] == bytes[at + 3]);
    }
    if spec_u32_at(bytes, at) == value {
        assert(part =~= written);
    }
}

/// A record takes [`SERIALIZE_OVERHEAD`] bytes beyond those that its message
/// carries, and [`BARE_RECORD_SIZE`] bytes if its message carries none.
pub proof fn lemma_record_size(record: Record)
    ensures
        record.kind.has_body() ==> spec_serialize(record).len() == SERIALIZE_OVERHEAD
            + record.body.len(),
        !record.kind.has_body() ==> spec_serialize(record).len() == BARE_RECORD_SIZE,
{
    reveal(spec_u64_bytes);
    reveal(spec_u32_bytes);
}

/// What was written as a record is read back as it was, whatever follows it.
pub proof fn lemma_record_round_trip(record: Record, rest: Seq<u8>)
    requires
        spec_well_formed(record),
    ensures
        spec_deserialize(spec_serialize(record) + rest) == Ok::<(Record, nat), DecodeError>(
            (record, spec_serialize(record).len()),
        ),
{
    let bytes = spec_serialize(record) + rest;
    let id = spec_u64_bytes(record.client_id);
    let tag = spec_u32_bytes(record.kind.tag());
    let len = spec_u64_bytes(record.body.len() as u64);
    lemma_record_size(record);
    assert(id.len() == 8 && tag.len() == 4 && len.len() == 8) by {
        reveal(spec_u64_bytes);
        reveal(spec_u32_bytes);
    }
    assert(bytes.subrange(0, 8) =~= id);
    assert(bytes.subrange(8, 12) =~= tag);
    lemma_u64_round_trip(record.client_id, bytes, 0);
    lemma_u32_round_trip(record.kind.tag(), bytes, 8);
    assert(spec_u64_at(bytes, 0) == record.client_id);
    assert(spec_u32_at(bytes, 8) == record.kind.tag());
    assert(spec_kind_of(record.kind.tag()) == Some(record.kind));
    if record.kind.has_body() {
        assert(bytes.subrange(12, 20) =~= len);
        lemma_u64_round_trip(record.body.len() as u64, bytes, 12);
        assert(spec_u64_at(bytes, 12) == record.body.len());
        assert(bytes.subrange(
            SERIALIZE_OVERHEAD as int,
            SERIALIZE_OVERHEAD + record.body.len(),
        ) =~= record.body);
    } else {
        assert(record.body =~= Seq::<u8>::empty());
    }
}

/// What is read as a record was written as one: the bytes that the record
/// takes are the bytes of the record.
pub proof fn lemma_read_record_is_its_bytes(bytes: Seq<u8>)
    requires
        spec_deserialize(bytes) is Ok,
    ensures
        spec_deserialize(bytes)->Ok_0.1 <= bytes.len(),
        bytes.take(spec_deserialize(bytes)->Ok_0.1 as int) == spec_serialize(
            spec_deserialize(bytes)->Ok_0.0,
        ),
{
    let (record, used) = spec_deserialize(bytes)->Ok_0;
    let written = spec_serialize(record);
    lemma_u64_round_trip(record.client_id, bytes, 0);
    lemma_u32_round_trip(record.kind.tag(), bytes, 8);
    if record.kind.has_body() {
        lemma_u64_round_trip(record.body.len() as u64, bytes, 12);
        assert(bytes.take(used as int) =~= bytes.subrange(0, 8) + bytes.subrange(8, 12)
            + bytes.subrange(12, 20) + record.body);
    } else {
        assert(bytes.take(used as int) =~= bytes.subrange(0, 8) + bytes.subrange(8, 12));
    }
}

/// The bytes of a run of records start with the bytes of its first record.
proof fn lemma_serialize_all_from_the_front(records: Seq<Record>)
    requires
        records.len() > 0,
    ensures
        spec_serialize_all(records) == spec_serialize(records.first()) + spec_serialize_all(
            records.drop_first(),
        ),
    decreases records.len(),
{
    if records.len() == 1 {
        assert(records.drop_last() =~= Seq::<Record>::empty());
        assert(records.drop_first() =~= Seq::<Record>::empty());
        assert(spec_serialize_all(records.drop_last()) =~= Seq::<u8>::empty());
        assert(spec_serialize_all(records) =~= spec_serialize(records.first())
            + spec_serialize_all(records.drop_first()));
    } else {
        lemma_serialize_all_from_the_front(records.drop_last());
        assert(records.drop_last().first() == records.first());
        assert(records.drop_last().drop_first() =~= records.drop_first().drop_last());
        assert(records.drop_first().last() == records.last());
        assert(spec_serialize_all(records) =~= spec_serialize(records.first())
            + spec_serialize_all(records.drop_first()));
    }
}

/// A run of records is read back as it was written.
///
/// Let bytes be the records `written`, one after the other, followed by bytes
/// that start with no record. Then there is one way only to read them as
/// records until no record follows: as the records `written`, all of them.
#[verifier::rlimit(50)]
pub proof fn lemma_stream_round_trip(
    written: Seq<Record>,
    rest: Seq<u8>,
    read: Seq<Record>,
    used: int,
)
    requires
        forall|i: int| 0 <= i < written.len() ==> spec_well_formed(#[trigger] written[i]),
        forall|i: int| 0 <= i < read.len() ==> spec_well_formed(#[trigger] read[i]),
        spec_deserialize(rest) is Err,
        0 <= used <= (spec_serialize_all(written) + rest).len(),
        (spec_serialize_all(written) + rest).take(used) == spec_serialize_all(read),
        spec_deserialize((spec_serialize_all(written) + rest).skip(used)) is Err,
    ensures
        read == written,
        used == spec_serialize_all(written).len(),
    decreases written.len(),
{
    let bytes = spec_serialize_all(written) + rest;
    let after = bytes.skip(used);
    assert(bytes =~= bytes.take(used) + after);
    if read.len() > 0 {
        lemma_serialize_all_from_the_front(read);
        let tail = spec_serialize_all(read.drop_first()) + after;
        assert(bytes =~= spec_serialize(read.first()) + tail);
        lemma_record_round_trip(read.first(), tail);
    } else {
        assert(used == 0);
        assert(after =~= bytes);
    }
    if written.len() > 0 {
        lemma_serialize_all_from_the_front(written);
        let tail = spec_serialize_all(written.drop_first()) + rest;
        assert(bytes =~= spec_serialize(written.first()) + tail);
        lemma_record_round_trip(written.first(), tail);
        let n = spec_serialize(written.first()).len() as int;
        assert(read.len() > 0);
        assert(read.first() == written.first());
        assert(tail =~= bytes.skip(n));
        assert(tail.take(used - n) =~= spec_serialize_all(read.drop_first())) by {
            assert(bytes.take(used) =~= spec_serialize(read.first()) + spec_serialize_all(
                read.drop_first(),
            ));
        }
        assert(tail.skip(used - n) =~= after);
        lemma_stream_round_trip(written.drop_first(), rest, read.drop_first(), used - n);
        assert(read =~= seq![read.first()] + read.drop_first());
        assert(written =~= seq![written.first()] + written.drop_first());
    } else {
        assert(bytes =~= rest);
        assert(read.len() == 0);
        assert(read =~= written);
    }
}

/// The bytes of two runs of records, one after the other, are the bytes of
/// the runs joined.
proof fn lemma_serialize_all_joins(first: Seq<Record>, second: Seq<Record>)
    ensures
        spec_serialize_all(first + second) == spec_serialize_all(first) + spec_serialize_all(
            second,
        ),
    decreases second.len(),
{
    if second.len() == 0 {
        assert(first + second =~= first);
        assert(spec_serialize_all(first + second) =~= spec_serialize_all(first)
            + spec_serialize_all(second));
    } else {
        lemma_serialize_all_joins(first, second.drop_last());
        assert((first + second).drop_last() =~= first + second.drop_last());
        assert((first + second).last() == second.last());
        assert(spec_serialize_all(first + second) =~= spec_serialize_all(first)
            + spec_serialize_all(second));
    }
}

/// It does not matter in which pieces the bytes of a stream arrive.
///
/// Let bytes be read as records in two pieces: from the first piece the
/// records `first` until it ended within a record, and from what was left of
/// it, followed by the second piece, the records `second`. Then every way to
/// read the two pieces at once gives the records `first` followed by `second`
/// and stops where the second reading stopped.
pub proof fn lemma_pieces_do_not_matter(
    head: Seq<u8>,
    tail: Seq<u8>,
    first: Seq<Record>,
    first_used: int,
    second: Seq<Record>,
    second_used: int,
    both: Seq<Record>,
    both_used: int,
)
    requires
        forall|i: int| 0 <= i < first.len() ==> spec_well_formed(#[trigger] first[i]),
        forall|i: int| 0 <= i < second.len() ==> spec_well_formed(#[trigger] second[i]),
        forall|i: int| 0 <= i < both.len() ==> spec_well_formed(#[trigger] both[i]),
        0 <= first_used <= head.len(),
        head.take(first_used) == spec_serialize_all(first),
        0 <= second_used <= (head.skip(first_used) + tail).len(),
        (head.skip(first_used) + tail).take(second_used) == spec_serialize_all(second),
        spec_deserialize((head.skip(first_used) + tail).skip(second_used)) is Err,
        0 <= both_used <= (head + tail).len(),
        (head + tail).take(both_used) == spec_serialize_all(both),
        spec_deserialize((head + tail).skip(both_used)) is Err,
    ensures
        both == first + second,
        both_used == first_used + second_used,
{
    let middle = head.skip(first_used) + tail;
    let rest = middle.skip(second_used);
    lemma_serialize_all_joins(first, second);
    assert(head + tail =~= head.take(first_used) + middle);
    assert(middle =~= middle.take(second_used) + rest);
    assert(head + tail =~= spec_serialize_all(first + second) + rest);
    assert forall|i: int| 0 <= i < (first + second).len() implies spec_well_formed(
        #[trigger] (first + second)[i],
    ) by {
        if i < first.len() {
            assert((first + second)[i] == first[i]);
        } else {
            assert((first + second)[i] == second[i - first.len()]);
        }
    }
    lemma_stream_round_trip(first + second, rest, both, both_used);
}

} // verus!
