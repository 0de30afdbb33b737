//! The forwarding worker of one client session, as a state machine.
//!
//! A worker takes the messages of its session from a queue and forwards their
//! data over one connection. It does neither itself: whoever drives it waits on
//! the queue, hands in what happened as an [`Event`], and carries out the
//! [`Step`] that [`Worker::handle`] answers with.
//!
//! The connection is opened when the first data arrives. Data is gathered in a
//! buffer and written in batches. An `Abort` or `End`, a queue that stays silent
//! for the abort timeout, and a queue whose other end is gone each write what is
//! still buffered, close the connection and finish the worker.
use crate::message::Message;
use vstd::prelude::*;

verus! {

/// Where a worker stands.
#[derive(Clone, Copy, Debug, PartialEq, Eq, Structural)]
pub enum Phase {
    /// No data has arrived yet and no connection is open.
    Connecting,
    /// The connection is open and data is forwarded.
    Streaming,
    /// The worker has finished; nothing more is forwarded.
    Closing,
}

/// What the driver of a worker observed on the session's queue.
#[derive(Debug)]
pub enum Event {
    /// A message arrived.
    Received(Message),
    /// No message arrived within the abort timeout.
    TimedOut,
    /// The queue is empty and nothing feeds it any more.
    Disconnected,
}

/// What the driver of a worker has to do, in this order: open the connection,
/// write the bytes, close the connection.
#[derive(Debug)]
pub struct Step {
    pub connect: bool,
    pub write: Vec<u8>,
    pub close: bool,
}

/// A worker as contracts see it.
pub struct WorkerState {
    pub phase: Phase,
    /// Data that arrived and has not been written yet.
    pub buffered: Seq<u8>,
    /// The size of the buffer.
    pub capacity: nat,
}

/// A step as contracts see it.
pub struct StepView {
    pub connect: bool,
    pub write: Seq<u8>,
    pub close: bool,
}

impl View for Step {
    type V = StepView;

    open spec fn view(&self) -> StepView {
        StepView { connect: self.connect, write: self.write@, close: self.close }
    }
}

/// The step that does nothing.
pub open spec fn spec_idle() -> StepView {
    StepView { connect: false, write: Seq::empty(), close: false }
}

impl Event {
    /// Whether the event brings data to forward.
    pub open spec fn is_data(&self) -> bool {
        self matches Event::Received(Message::Data(_))
    }

    /// The data that the event brings; empty for every other event.
    pub open spec fn data(&self) -> Seq<u8> {
        match self {
            Event::Received(Message::Data(bytes)) => bytes@,
            _ => Seq::empty(),
        }
    }

    /// Whether the event finishes the worker.
    pub open spec fn is_terminal(&self) -> bool {
        match self {
            Event::Received(Message::Abort) | Event::Received(Message::End) => true,
            Event::TimedOut | Event::Disconnected => true,
            _ => false,
        }
    }
}

/// What is buffered after `data` arrived at a buffer of `capacity` bytes that
/// holds `buffered`: data that leaves room in the buffer joins it; data of a
/// full buffer's size or more is not buffered at all; other data replaces what
/// was buffered.
pub open spec fn spec_buffer_after(buffered: Seq<u8>, capacity: nat, data: Seq<u8>) -> Seq<u8> {
    if buffered.len() + data.len() < capacity {
        buffered + data
    } else if data.len() >= capacity {
        Seq::empty()
    } else {
        data
    }
}

/// What is written when `data` arrives: nothing while it leaves room in the
/// buffer, else what was buffered, followed by the data itself if the buffer
/// would not hold it.
pub open spec fn spec_written_on(buffered: Seq<u8>, capacity: nat, data: Seq<u8>) -> Seq<u8> {
    if buffered.len() + data.len() < capacity {
        Seq::empty()
    } else if data.len() >= capacity {
        buffered + data
    } else {
        buffered
    }
}

/// The worker after an event.
pub open spec fn spec_handle(w: WorkerState, event: Event) -> WorkerState {
    if w.phase == Phase::Closing {
        w
    } else if event.is_data() {
        WorkerState {
            phase: Phase::Streaming,
            buffered: spec_buffer_after(w.buffered, w.capacity, event.data()),
            capacity: w.capacity,
        }
    } else if event.is_terminal() {
        WorkerState { phase: Phase::Closing, buffered: Seq::empty(), capacity: w.capacity }
    } else {
        w
    }
}

/// What the driver has to do after an event.
pub open spec fn spec_step(w: WorkerState, event: Event) -> StepView {
    if w.phase == Phase::Closing {
        spec_idle()
    } else if event.is_data() {
        StepView {
            connect: w.phase == Phase::Connecting,
            write: spec_written_on(w.buffered, w.capacity, event.data()),
            close: false,
        }
    } else if event.is_terminal() {
        StepView { connect: false, write: w.buffered, close: w.phase == Phase::Streaming }
    } else {
        spec_idle()
    }
}

/// The forwarding worker of one session.
pub struct Worker {
    phase: Phase,
    buffer: Vec<u8>,
    capacity: usize,
}

impl View for Worker {
    type V = WorkerState;

    closed spec fn view(&self) -> WorkerState {
        WorkerState { phase: self.phase, buffered: self.buffer@, capacity: self.capacity as nat }
    }
}

impl Worker {
    /// A worker that waits for its first data, with a buffer of `capacity`
    /// bytes.
    pub fn new(capacity: usize) -> (worker: Self)
        ensures
            worker@.phase == Phase::Connecting,
            worker@.buffered == Seq::<u8>::empty(),
            worker@.capacity == capacity,
    {
        Worker { phase: Phase::Connecting, buffer: Vec::new(), capacity }
    }

    /// Where the worker stands.
    pub fn phase(&self) -> (phase: Phase)
        ensures
            phase == self@.phase,
    {
        self.phase
    }

    /// How many bytes wait in the buffer.
    pub fn buffered(&self) -> (count: usize)
        ensures
            count == self@.buffered.len(),
    {
        self.buffer.len()
    }

    /// Whether the worker has finished.
    pub fn is_done(&self) -> (done: bool)
        ensures
            done == (self@.phase == Phase::Closing),
    {
        match self.phase {
            Phase::Closing => true,
            _ => false,
        }
    }

    /// Takes one event and says what to do about it.
    pub fn handle(&mut self, event: Event) -> (step: Step)
        ensures
            final(self)@ == spec_handle(old(self)@, event),
            step@ == spec_step(old(self)@, event),
    {
        let idle = Step { connect: false, write: Vec::new(), close: false };
        if self.is_done() {
            return idle;
        }
        match event {
            Event::Received(Message::Data(data)) => {
                let connect = match self.phase {
                    Phase::Connecting => true,
                    _ => false,
                };
                self.phase = Phase::Streaming;
                let write = self.gather(data);
                Step { connect, write, close: false }
            },
            Event::Received(Message::Abort)
            | Event::Received(Message::End)
            | Event::TimedOut
            | Event::Disconnected => {
                let close = match self.phase {
                    Phase::Streaming => true,
                    _ => false,
                };
                let mut write: Vec<u8> = Vec::new();
                std::mem::swap(&mut self.buffer, &mut write);
                self.phase = Phase::Closing;
                Step { connect: false, write, close }
            },
            Event::Received(Message::Start) | Event::Received(Message::Padding(_)) => idle,
        }
    }

    /// Adds `data` to the buffer and returns what has to be written now.
    fn gather(&mut self, data: Vec<u8>) -> (write: Vec<u8>)
        ensures
            final(self).phase == old(self).phase,
            final(self).capacity == old(self).capacity,
            final(self).buffer@ == spec_buffer_after(
                old(self).buffer@,
                old(self).capacity as nat,
                data@,
            ),
            write@ == spec_written_on(old(self).buffer@, old(self).capacity as nat, data@),
    {
        let mut data = data;
        if self.buffer.len() < self.capacity && data.len() < self.capacity - self.buffer.len() {
            self.buffer.append(&mut data);
            Vec::new()
        } else if data.len() >= self.capacity {
            let mut write: Vec<u8> = Vec::new();
            std::mem::swap(&mut self.buffer, &mut write);
            write.append(&mut data);
            write
        } else {
            std::mem::swap(&mut self.buffer, &mut data);
            data
        }
    }
}

/// The worker after a run of events, first event first.
pub open spec fn spec_run(w: WorkerState, events: Seq<Event>) -> WorkerState
    decreases events.len(),
{
    if events.len() == 0 {
        w
    } else {
        spec_handle(spec_run(w, events.drop_last()), events.last())
    }
}

/// All bytes that a run of events has the driver write, in order.
pub open spec fn spec_run_written(w: WorkerState, events: Seq<Event>) -> Seq<u8>
    decreases events.len(),
{
    if events.len() == 0 {
        Seq::empty()
    } else {
        spec_run_written(w, events.drop_last()) + spec_step(
            spec_run(w, events.drop_last()),
            events.last(),
        ).write
    }
}

/// The data that a run of events brings before the first event that finishes
/// the worker, in order.
pub open spec fn spec_data_before_end(events: Seq<Event>) -> Seq<u8>
    decreases events.len(),
{
    if events.len() == 0 {
        Seq::empty()
    } else if events.first().is_terminal() {
        Seq::empty()
    } else {
        events.first().data() + spec_data_before_end(events.drop_first())
    }
}

/// Whether some event of the run finishes the worker.
pub open spec fn spec_has_terminal(events: Seq<Event>) -> bool {
    exists|i: int| 0 <= i < events.len() && (#[trigger] events[i]).is_terminal()
}

/// How often a run of events has the driver open the connection.
pub open spec fn spec_run_connects(w: WorkerState, events: Seq<Event>) -> nat
    decreases events.len(),
{
    if events.len() == 0 {
        0
    } else {
        let before = spec_run_connects(w, events.drop_last());
        if spec_step(spec_run(w, events.drop_last()), events.last()).connect {
            before + 1
        } else {
            before
        }
    }
}

/// How often a run of events has the driver close the connection.
pub open spec fn spec_run_closes(w: WorkerState, events: Seq<Event>) -> nat
    decreases events.len(),
{
    if events.len() == 0 {
        0
    } else {
        let before = spec_run_closes(w, events.drop_last());
        if spec_step(spec_run(w, events.drop_last()), events.last()).close {
            before + 1
        } else {
            before
        }
    }
}

/// The data before the first finishing event of `events` followed by `event`.
proof fn lemma_data_before_end_push(events: Seq<Event>, event: Event)
    ensures
        spec_data_before_end(events.push(event)) == if spec_has_terminal(events) {
            spec_data_before_end(events)
        } else {
            spec_data_before_end(events) + if event.is_terminal() {
                Seq::<u8>::empty()
            } else {
                event.data()
            }
        },
    decreases events.len(),
{
    let extended = events.push(event);
    if events.len() == 0 {
        assert(extended.drop_first() == Seq::<Event>::empty());
        assert(extended.first() == event);
        assert(spec_data_before_end(extended.drop_first()) == Seq::<u8>::empty());
    } else {
        assert(extended.first() == events.first());
        assert(extended.drop_first() == events.drop_first().push(event));
        if events.first().is_terminal() {
            assert(events[0].is_terminal());
        } else {
            lemma_data_before_end_push(events.drop_first(), event);
            let rest = events.drop_first();
            if spec_has_terminal(rest) {
                let i = choose|i: int| 0 <= i < rest.len() && (#[trigger] rest[i]).is_terminal();
                assert(events[i + 1].is_terminal());
            }
            if spec_has_terminal(events) {
                let i = choose|i: int|
                    0 <= i < events.len() && (#[trigger] events[i]).is_terminal();
                assert(rest[i - 1].is_terminal());
            }
        }
    }
}

/// A worker forwards exactly the data it was given, in order, over a
/// connection that it opens and closes at most once.
///
/// For every run of events on a new worker: what was written, followed by what
/// is still buffered, is the data that arrived before the first event that
/// finishes the worker. The buffer never outgrows its capacity. Once such an
/// event has arrived the worker is closing, the buffer is empty, and the
/// connection was closed if it was ever opened. Until then the connection was
/// not closed, and it was opened if and only if the worker is streaming.
pub proof fn lemma_worker_forwards_data_in_order(capacity: nat, events: Seq<Event>)
    ensures
        ({
            let start = WorkerState {
                phase: Phase::Connecting,
                buffered: Seq::empty(),
                capacity,
            };
            let end = spec_run(start, events);
            &&& spec_run_written(start, events) + end.buffered == spec_data_before_end(events)
            &&& end.capacity == capacity
            &&& end.buffered.len() <= capacity
            &&& spec_has_terminal(events) <==> end.phase == Phase::Closing
            &&& end.phase == Phase::Closing ==> end.buffered.len() == 0
            &&& spec_run_connects(start, events) <= 1
            &&& spec_run_closes(start, events) <= spec_run_connects(start, events)
            &&& end.phase == Phase::Connecting <==> spec_run_connects(start, events) == 0
                && !spec_has_terminal(events)
            &&& end.phase == Phase::Streaming ==> spec_run_closes(start, events) == 0
            &&& end.phase == Phase::Closing ==> spec_run_closes(start, events)
                == spec_run_connects(start, events)
        }),
    decreases events.len(),
{
    let start = WorkerState { phase: Phase::Connecting, buffered: Seq::empty(), capacity };
    if events.len() > 0 {
        let before = events.drop_last();
        let event = events.last();
        lemma_worker_forwards_data_in_order(capacity, before);
        lemma_data_before_end_push(before, event);
        assert(before.push(event) == events);
        let mid = spec_run(start, before);
        if spec_has_terminal(before) {
            let i = choose|i: int| 0 <= i < before.len() && (#[trigger] before[i]).is_terminal();
            assert(events[i].is_terminal());
        } else {
            if event.is_terminal() {
                assert(events[events.len() - 1].is_terminal());
            } else {
                if spec_has_terminal(events) {
                    let i = choose|i: int|
                        0 <= i < events.len() && (#[trigger] events[i]).is_terminal();
                    assert(before[i].is_terminal());
                }
            }
        }
        assert(spec_run_written(start, events) + spec_run(start, events).buffered
            == spec_data_before_end(events));
    }
}

} // verus!
