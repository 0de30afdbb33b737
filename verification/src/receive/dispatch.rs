//! Fans the decoded message stream out to one forwarding session per client.
//!
//! The dispatcher keeps a table of sessions keyed by client id. A session is
//! *active* from its `Start` until its `Abort` or `End`, then *ended* while its
//! worker drains what is still queued, and is forgotten by the first `Padding`
//! that finds its queue empty. A client whose queue can no longer be fed is
//! *failed*: its messages are dropped until a new `Start` takes the id over.
//!
//! Each session has a queue; the worker that empties it runs elsewhere, on the
//! receiving end that [`Dispatcher::dispatch`] hands out when a session starts.
use crate::message::{ClientId, ClientMessage, Kind, Message};
use crate::sequence::reversed;
use crossbeam_channel::{Receiver, SendError, Sender};
use std::collections::{BTreeMap, BTreeSet};
use vstd::prelude::*;

verus! {

#[verifier::external_type_specification]
#[verifier::external_body]
#[verifier::reject_recursive_types(T)]
pub struct ExSender<T>(Sender<T>);

#[verifier::external_type_specification]
#[verifier::external_body]
#[verifier::reject_recursive_types(T)]
pub struct ExReceiver<T>(Receiver<T>);

#[verifier::external_type_specification]
#[verifier::external_body]
#[verifier::reject_recursive_types(T)]
pub struct ExSendError<T>(SendError<T>);

/// Calls `crossbeam_channel::unbounded`: a new queue without capacity limit,
/// as its sending and its receiving end. Nothing is claimed of the two ends.
#[verifier::external_body]
fn open_queue() -> (ends: (Sender<Message>, Receiver<Message>)) {
    crossbeam_channel::unbounded()
}

/// Calls `Sender::send`. Whether the message is taken depends on whether the
/// receiving end still exists, so nothing is claimed of the result.
#[verifier::external_body]
fn enqueue(queue: &Sender<Message>, message: Message) -> (sent: Result<(), SendError<Message>>) {
    queue.send(message)
}

/// Calls `Sender::is_empty`. The answer depends on how far the worker on the
/// other end has come, so nothing is claimed of the result.
#[verifier::external_body]
fn is_drained(queue: &Sender<Message>) -> (drained: bool) {
    queue.is_empty()
}

/// The session table as contracts see it.
pub struct Sessions {
    /// Clients with a session that takes messages.
    pub active: Set<ClientId>,
    /// Sessions that were ended and may still be draining, oldest first.
    pub ended: Seq<ClientId>,
    /// Clients whose messages are dropped.
    pub failed: Set<ClientId>,
}

/// What the dispatcher did with a message.
#[derive(Clone, Copy, Debug, PartialEq, Eq, Structural)]
pub enum Verdict {
    /// The client is failed; the message was dropped.
    Dropped,
    /// A `Padding`: drained ended sessions were forgotten.
    Swept,
    /// A `Start`: a session was opened.
    Started,
    /// A `Start` for a client whose session is still active; nothing changed.
    Rejected,
    /// The payload was queued and the session stays active.
    Forwarded,
    /// The terminal message was queued and the session is now ended.
    Ended,
    /// The queue no longer takes messages; the session was removed and the
    /// client recorded as failed.
    Failed,
    /// The client has no active session; nothing changed.
    Unknown,
}

/// What [`Dispatcher::dispatch`] returns: the verdict, and for a started
/// session the receiving end of its queue, on which the caller runs the worker.
pub enum Outcome {
    Dropped,
    Swept,
    Started(Receiver<Message>),
    Rejected,
    Forwarded,
    Ended,
    Failed,
    Unknown,
}

impl Outcome {
    /// The verdict alone.
    pub open spec fn verdict(&self) -> Verdict {
        match self {
            Outcome::Dropped => Verdict::Dropped,
            Outcome::Swept => Verdict::Swept,
            Outcome::Started(_) => Verdict::Started,
            Outcome::Rejected => Verdict::Rejected,
            Outcome::Forwarded => Verdict::Forwarded,
            Outcome::Ended => Verdict::Ended,
            Outcome::Failed => Verdict::Failed,
            Outcome::Unknown => Verdict::Unknown,
        }
    }

    /// The verdict alone.
    pub fn to_verdict(&self) -> (verdict: Verdict)
        ensures
            verdict == self.verdict(),
    {
        match self {
            Outcome::Dropped => Verdict::Dropped,
            Outcome::Swept => Verdict::Swept,
            Outcome::Started(_) => Verdict::Started,
            Outcome::Rejected => Verdict::Rejected,
            Outcome::Forwarded => Verdict::Forwarded,
            Outcome::Ended => Verdict::Ended,
            Outcome::Failed => Verdict::Failed,
            Outcome::Unknown => Verdict::Unknown,
        }
    }
}

/// The ended sessions that stay when those marked in `drained` are forgotten.
/// A session without a mark stays.
pub open spec fn spec_keep_undrained(ended: Seq<ClientId>, drained: Seq<bool>) -> Seq<ClientId>
    decreases ended.len(),
{
    if ended.len() == 0 {
        Seq::empty()
    } else {
        let rest = spec_keep_undrained(ended.drop_last(), drained);
        let last = ended.len() - 1;
        if last < drained.len() && drained[last] {
            rest
        } else {
            rest.push(ended.last())
        }
    }
}

/// The table after a `Start` for `client`.
pub open spec fn spec_start(s: Sessions, client: ClientId) -> Sessions {
    if s.active.contains(client) {
        s
    } else {
        Sessions {
            active: s.active.insert(client),
            ended: s.ended,
            failed: s.failed.remove(client),
        }
    }
}

/// The table after a payload for the active session of `client` was handed to
/// its queue: `terminal` says whether it was an `Abort` or `End`, `delivered`
/// whether the queue took it.
pub open spec fn spec_settle(s: Sessions, client: ClientId, terminal: bool, delivered: bool)
    -> Sessions {
    if !s.active.contains(client) {
        s
    } else if !delivered {
        Sessions {
            active: s.active.remove(client),
            ended: s.ended,
            failed: s.failed.insert(client),
        }
    } else if terminal {
        Sessions { active: s.active.remove(client), ended: s.ended.push(client), failed: s.failed }
    } else {
        s
    }
}

/// The verdict that goes with [`spec_settle`].
pub open spec fn spec_settle_verdict(s: Sessions, client: ClientId, terminal: bool, delivered: bool)
    -> Verdict {
    if !s.active.contains(client) {
        Verdict::Unknown
    } else if !delivered {
        Verdict::Failed
    } else if terminal {
        Verdict::Ended
    } else {
        Verdict::Forwarded
    }
}

/// The table after one message, given what the outside answered: `delivered` for
/// the queue that was fed, `drained` for the ended sessions that were asked.
pub open spec fn spec_dispatch(
    s: Sessions,
    client: ClientId,
    kind: Kind,
    delivered: bool,
    drained: Seq<bool>,
) -> Sessions {
    match kind {
        Kind::Padding => Sessions {
            active: s.active,
            ended: spec_keep_undrained(s.ended, drained),
            failed: s.failed,
        },
        Kind::Start => spec_start(s, client),
        Kind::Data => if s.failed.contains(client) {
            s
        } else {
            spec_settle(s, client, false, delivered)
        },
        Kind::Abort | Kind::End => if s.failed.contains(client) {
            s
        } else {
            spec_settle(s, client, true, delivered)
        },
    }
}

/// The verdict that goes with [`spec_dispatch`].
pub open spec fn spec_dispatch_verdict(s: Sessions, client: ClientId, kind: Kind, delivered: bool)
    -> Verdict {
    match kind {
        Kind::Padding => Verdict::Swept,
        Kind::Start => if s.active.contains(client) {
            Verdict::Rejected
        } else {
            Verdict::Started
        },
        Kind::Data => if s.failed.contains(client) {
            Verdict::Dropped
        } else {
            spec_settle_verdict(s, client, false, delivered)
        },
        Kind::Abort | Kind::End => if s.failed.contains(client) {
            Verdict::Dropped
        } else {
            spec_settle_verdict(s, client, true, delivered)
        },
    }
}

/// An ended session: the client it belonged to and the queue its worker drains.
struct Draining {
    client: ClientId,
    queue: Sender<Message>,
}

spec fn clients_of(ended: Seq<Draining>) -> Seq<ClientId> {
    ended.map_values(|d: Draining| d.client)
}

/// The session table.
pub struct Dispatcher {
    active: BTreeMap<ClientId, Sender<Message>>,
    ended: Vec<Draining>,
    failed: BTreeSet<ClientId>,
}

impl View for Dispatcher {
    type V = Sessions;

    closed spec fn view(&self) -> Sessions {
        Sessions {
            active: self.active@.dom(),
            ended: clients_of(self.ended@),
            failed: self.failed@,
        }
    }
}

impl Dispatcher {
    /// A table without sessions.
    pub fn new() -> (dispatcher: Self)
        ensures
            dispatcher@.active == Set::<ClientId>::empty(),
            dispatcher@.ended == Seq::<ClientId>::empty(),
            dispatcher@.failed == Set::<ClientId>::empty(),
    {
        Dispatcher { active: BTreeMap::new(), ended: Vec::new(), failed: BTreeSet::new() }
    }

    /// Whether `client` has an active session.
    pub fn is_active(&self, client: ClientId) -> (active: bool)
        ensures
            active == self@.active.contains(client),
    {
        self.active.contains_key(&client)
    }

    /// Whether messages for `client` are dropped.
    pub fn is_failed(&self, client: ClientId) -> (failed: bool)
        ensures
            failed == self@.failed.contains(client),
    {
        self.failed.contains(&client)
    }

    /// How many ended sessions have not been forgotten yet.
    pub fn nb_ended(&self) -> (count: usize)
        ensures
            count == self@.ended.len(),
    {
        self.ended.len()
    }

    /// Handles one message of the decoded stream.
    ///
    /// - `Padding` carries nothing for any client: ended sessions whose queue
    ///   is empty are forgotten.
    /// - `Start` opens a session and hands out the receiving end of its queue,
    ///   also for a failed client, which is thereby cleared. It is rejected
    ///   while the client's previous session is still active.
    /// - Anything else for a failed client is dropped.
    /// - `Data`, `Abort` and `End` go to the queue of the client's active
    ///   session. `Abort` and `End` then move the session to the ended ones,
    ///   where it stays until drained. If the queue no longer takes messages,
    ///   the session is removed and the client recorded as failed.
    ///
    /// What the queues answer is not in the dispatcher's hands: the table
    /// afterwards is the one [`spec_dispatch`] gives for some answer.
    pub fn dispatch(&mut self, message: ClientMessage) -> (outcome: Outcome)
        ensures
            exists|delivered: bool, drained: Seq<bool>|
                {
                    &&& drained.len() == old(self)@.ended.len()
                    &&& final(self)@ == #[trigger] spec_dispatch(
                        old(self)@,
                        message.client_id,
                        message.payload.kind(),
                        delivered,
                        drained,
                    )
                    &&& outcome.verdict() == spec_dispatch_verdict(
                        old(self)@,
                        message.client_id,
                        message.payload.kind(),
                        delivered,
                    )
                },
    {
        let client = message.client_id;
        let ghost before = self@;
        let ghost kind = message.payload.kind();
        let ghost unasked = Seq::new(before.ended.len(), |i: int| false);
        match message.payload {
            Message::Padding(_) => {
                let drained = self.sweep();
                assert(self@ == spec_dispatch(before, client, kind, true, drained@));
                Outcome::Swept
            },
            Message::Start => {
                let outcome = self.start(client);
                assert(self@ == spec_dispatch(before, client, kind, true, unasked));
                outcome
            },
            payload => {
                if self.failed.contains(&client) {
                    assert(self@ == spec_dispatch(before, client, kind, true, unasked));
                    return Outcome::Dropped;
                }
                let terminal = match payload {
                    Message::Abort | Message::End => true,
                    _ => false,
                };
                let delivered = match self.active.get(&client) {
                    None => true,
                    Some(queue) => enqueue(queue, payload).is_ok(),
                };
                let verdict = self.settle(client, terminal, delivered);
                assert(self@ == spec_dispatch(before, client, kind, delivered, unasked));
                match verdict {
                    Verdict::Forwarded => Outcome::Forwarded,
                    Verdict::Ended => Outcome::Ended,
                    Verdict::Failed => Outcome::Failed,
                    _ => Outcome::Unknown,
                }
            },
        }
    }

    /// Opens a session for `client`, unless it has an active one.
    pub fn start(&mut self, client: ClientId) -> (outcome: Outcome)
        ensures
            final(self)@ == spec_start(old(self)@, client),
            old(self)@.active.contains(client) ==> outcome is Rejected,
            !old(self)@.active.contains(client) ==> outcome is Started,
    {
        if self.active.contains_key(&client) {
            return Outcome::Rejected;
        }
        let (queue, worker_end) = open_queue();
        self.active.insert(client, queue);
        self.failed.remove(&client);
        Outcome::Started(worker_end)
    }

    /// Records what became of a payload that was handed to the queue of
    /// `client`: `terminal` says whether it was an `Abort` or `End`,
    /// `delivered` whether the queue took it.
    pub fn settle(&mut self, client: ClientId, terminal: bool, delivered: bool) -> (verdict:
        Verdict)
        ensures
            final(self)@ == spec_settle(old(self)@, client, terminal, delivered),
            verdict == spec_settle_verdict(old(self)@, client, terminal, delivered),
    {
        if !self.active.contains_key(&client) {
            return Verdict::Unknown;
        }
        if !delivered {
            self.active.remove(&client);
            self.failed.insert(client);
            return Verdict::Failed;
        }
        if !terminal {
            return Verdict::Forwarded;
        }
        let ghost ended = self.ended@;
        match self.active.remove(&client) {
            Some(queue) => {
                self.ended.push(Draining { client, queue });
                assert(clients_of(self.ended@) == clients_of(ended).push(client));
            },
            None => {},
        }
        Verdict::Ended
    }

    /// Asks each ended session whether its queue is empty and forgets those
    /// that are. Returns the answers, in the order of the ended sessions.
    fn sweep(&mut self) -> (drained: Ghost<Seq<bool>>)
        ensures
            drained@.len() == old(self)@.ended.len(),
            final(self)@.active == old(self)@.active,
            final(self)@.failed == old(self)@.failed,
            final(self)@.ended == spec_keep_undrained(old(self)@.ended, drained@),
    {
        let mut answers: Vec<bool> = Vec::new();
        let mut i: usize = 0;
        while i < self.ended.len()
            invariant
                i <= self.ended@.len(),
                answers@.len() == i,
                *self == *old(self),
            decreases self.ended@.len() - i,
        {
            answers.push(is_drained(&self.ended[i].queue));
            i += 1;
        }
        self.forget_drained(&answers);
        Ghost(answers@)
    }

    /// Forgets the ended sessions that `drained` marks, by position. A session
    /// without a mark stays.
    pub fn forget_drained(&mut self, drained: &Vec<bool>)
        ensures
            final(self)@.active == old(self)@.active,
            final(self)@.failed == old(self)@.failed,
            final(self)@.ended == spec_keep_undrained(old(self)@.ended, drained@),
    {
        let mut sessions: Vec<Draining> = Vec::new();
        std::mem::swap(&mut self.ended, &mut sessions);
        let ghost all = sessions@;
        assert(all.len() == sessions.len());
        let mut turned = reversed(sessions);
        let mut i: usize = 0;
        while turned.len() > 0
            invariant
                all.len() <= usize::MAX,
                i + turned@.len() == all.len(),
                turned@ == all.reverse().take(turned@.len() as int),
                clients_of(self.ended@) == spec_keep_undrained(
                    clients_of(all.take(i as int)),
                    drained@,
                ),
                self.active == old(self).active,
                self.failed == old(self).failed,
            decreases turned@.len(),
        {
            if let Some(session) = turned.pop() {
                let ghost kept = self.ended@;
                proof {
                    assert(session == all[i as int]);
                    assert(all.take(i + 1).drop_last() == all.take(i as int));
                    assert(clients_of(all.take(i + 1)).drop_last() == clients_of(
                        all.take(i as int),
                    ));
                    assert(clients_of(all.take(i + 1)).last() == session.client);
                }
                if !(i < drained.len() && drained[i]) {
                    self.ended.push(session);
                    assert(clients_of(self.ended@) == clients_of(kept).push(session.client));
                }
                i += 1;
            }
        }
        assert(all.take(i as int) == all);
    }
}

/// A client is never active and failed at once: from a table where no client
/// is both, every message leads to such a table, whatever the queues answer.
pub proof fn lemma_failed_is_not_active(
    s: Sessions,
    client: ClientId,
    kind: Kind,
    delivered: bool,
    drained: Seq<bool>,
)
    requires
        s.active.disjoint(s.failed),
    ensures
        spec_dispatch(s, client, kind, delivered, drained).active.disjoint(
            spec_dispatch(s, client, kind, delivered, drained).failed,
        ),
{
}

/// Nothing is forwarded for a failed client: every message but a `Start` leaves
/// the table as it is and is dropped.
pub proof fn lemma_failed_client_is_dropped(
    s: Sessions,
    client: ClientId,
    kind: Kind,
    delivered: bool,
    drained: Seq<bool>,
)
    requires
        s.failed.contains(client),
        kind != Kind::Start,
        kind != Kind::Padding,
    ensures
        spec_dispatch(s, client, kind, delivered, drained) == s,
        spec_dispatch_verdict(s, client, kind, delivered) == Verdict::Dropped,
{
}

/// Housekeeping touches ended sessions only, forgets exactly the drained ones
/// and keeps the others in order: when none is drained nothing changes, and
/// when all are drained none is left.
pub proof fn lemma_sweep_forgets_drained(ended: Seq<ClientId>, drained: Seq<bool>)
    requires
        drained.len() == ended.len(),
    ensures
        spec_keep_undrained(ended, drained).len() <= ended.len(),
        (forall|i: int| 0 <= i < drained.len() ==> !drained[i]) ==> spec_keep_undrained(
            ended,
            drained,
        ) == ended,
        (forall|i: int| 0 <= i < drained.len() ==> drained[i]) ==> spec_keep_undrained(
            ended,
            drained,
        ) == Seq::<ClientId>::empty(),
    decreases ended.len(),
{
    if ended.len() > 0 {
        lemma_sweep_forgets_drained(ended.drop_last(), drained.drop_last());
        lemma_marks_beyond_are_ignored(ended.drop_last(), drained);
        if forall|i: int| 0 <= i < drained.len() ==> !drained[i] {
            assert(ended.drop_last().push(ended.last()) == ended);
        }
    }
}

/// Marks for positions beyond the last ended session change nothing.
proof fn lemma_marks_beyond_are_ignored(ended: Seq<ClientId>, drained: Seq<bool>)
    requires
        ended.len() < drained.len(),
    ensures
        spec_keep_undrained(ended, drained) == spec_keep_undrained(ended, drained.drop_last()),
    decreases ended.len(),
{
    if ended.len() > 0 {
        lemma_marks_beyond_are_ignored(ended.drop_last(), drained);
        lemma_marks_beyond_are_ignored(ended.drop_last(), drained.drop_last());
    }
}

} // verus!
