//! Groups arriving packets by block and releases the blocks in cyclic order.
//!
//! Packets arrive in any order. They are kept per block number in a window that
//! starts at the *expected* block, the next one to be released. A block is
//! released, with the packets gathered for it, as soon as it holds enough
//! packets to be decoded, or when the flush timeout has passed since its first
//! packet. Blocks leave in cyclic order and none is skipped: when a block is
//! released, every block before it is released first, with whatever it holds,
//! which may be nothing. The expected block thereby advances by one with every
//! release, so a block that never completes cannot hold back those after it.
//! Packets for a block that is behind the expected one are discarded.
//!
//! Time is a count of milliseconds that never decreases, read by the caller.
use crate::cyclic::{
    lemma_advance_adds, lemma_distance_inverts_advance, lemma_passed_is_behind, spec_advance,
    spec_distance, BlockNumber, Position, WINDOW,
};
use crate::packet::Packet;
use crate::sequence::reversed;
use vstd::prelude::*;

verus! {

/// A block as it is released: its number and the packets gathered for it, in
/// the order of their arrival.
#[derive(Debug)]
pub struct Block {
    pub number: u8,
    pub packets: Vec<Packet>,
}

/// A released block as contracts see it.
pub struct BlockView {
    pub number: u8,
    pub packets: Seq<Packet>,
}

impl View for Block {
    type V = BlockView;

    open spec fn view(&self) -> BlockView {
        BlockView { number: self.number, packets: self.packets@ }
    }
}

/// The released blocks as contracts see them.
pub open spec fn spec_blocks(blocks: Seq<Block>) -> Seq<BlockView> {
    blocks.map_values(|b: Block| b@)
}

/// What is gathered for one block of the window.
pub struct Pending {
    /// When the block is released at the latest; of no meaning while the
    /// block holds no packet.
    pub deadline: u64,
    /// The packets gathered so far, in the order of their arrival.
    pub packets: Seq<Packet>,
}

/// The regrouping stage as contracts see it.
pub struct ReblockState {
    /// The next block to be released.
    pub expected: u8,
    /// How many packets make a block decodable.
    pub threshold: nat,
    /// How long a block waits for its packets, from the first one on.
    pub flush_timeout: u64,
    /// What is gathered for the expected block and those after it: the item
    /// at index `i` belongs to the block `i` steps after the expected one.
    pub window: Seq<Pending>,
}

/// A place of the window that holds no packet.
pub open spec fn spec_vacant() -> Pending {
    Pending { deadline: 0, packets: Seq::empty() }
}

/// The time `timeout` after `now`, or the last moment that can be told.
pub open spec fn spec_deadline(now: u64, timeout: u64) -> u64 {
    if now + timeout > u64::MAX {
        u64::MAX
    } else {
        (now + timeout) as u64
    }
}

/// The window, lengthened by vacant places to at least `len` places.
pub open spec fn spec_padded(window: Seq<Pending>, len: int) -> Seq<Pending> {
    if window.len() >= len {
        window
    } else {
        window + Seq::new((len - window.len()) as nat, |i: int| spec_vacant())
    }
}

/// The window after `packet` joined the block at `place`. The first packet of a
/// block sets its deadline.
pub open spec fn spec_store(window: Seq<Pending>, place: int, packet: Packet, deadline: u64) -> Seq<
    Pending,
> {
    let padded = spec_padded(window, place + 1);
    let before = padded[place];
    padded.update(
        place,
        Pending {
            deadline: if before.packets.len() == 0 {
                deadline
            } else {
                before.deadline
            },
            packets: before.packets.push(packet),
        },
    )
}

/// The first `count` blocks of the window, as they are released.
pub open spec fn spec_released(s: ReblockState, count: int) -> Seq<BlockView> {
    Seq::new(
        count as nat,
        |i: int| BlockView { number: spec_advance(s.expected, i), packets: s.window[i].packets },
    )
}

/// The stage after its first `count` blocks were released.
pub open spec fn spec_after_release(s: ReblockState, count: int) -> ReblockState {
    ReblockState {
        expected: spec_advance(s.expected, count),
        threshold: s.threshold,
        flush_timeout: s.flush_timeout,
        window: s.window.skip(count),
    }
}

/// Whether a block has waited for its packets long enough.
pub open spec fn spec_expired(pending: Pending, now: u64) -> bool {
    pending.packets.len() > 0 && pending.deadline <= now
}

/// How many blocks are due at `now`: all up to the last expired one.
pub open spec fn spec_due(window: Seq<Pending>, now: u64) -> int
    decreases window.len(),
{
    if window.len() == 0 {
        0
    } else if spec_expired(window.last(), now) {
        window.len() as int
    } else {
        spec_due(window.drop_last(), now)
    }
}

/// The stage after `packet` was taken in at `now`, before anything is
/// released: unchanged if the packet's block is behind the expected one.
pub open spec fn spec_taken_in(s: ReblockState, packet: Packet, now: u64) -> ReblockState {
    let place = spec_distance(s.expected, packet.block);
    if place >= WINDOW {
        s
    } else {
        ReblockState {
            expected: s.expected,
            threshold: s.threshold,
            flush_timeout: s.flush_timeout,
            window: spec_store(s.window, place, packet, spec_deadline(now, s.flush_timeout)),
        }
    }
}

/// How many blocks a packet releases: none, unless it completes its block, and
/// then all up to that block.
pub open spec fn spec_completed(s: ReblockState, packet: Packet, now: u64) -> int {
    let place = spec_distance(s.expected, packet.block);
    if place < WINDOW && spec_taken_in(s, packet, now).window[place].packets.len()
        >= s.threshold {
        place + 1
    } else {
        0
    }
}

/// The stage after a packet arrived.
pub open spec fn spec_push(s: ReblockState, packet: Packet, now: u64) -> ReblockState {
    spec_after_release(spec_taken_in(s, packet, now), spec_completed(s, packet, now))
}

/// The blocks that an arriving packet releases.
pub open spec fn spec_push_emits(s: ReblockState, packet: Packet, now: u64) -> Seq<BlockView> {
    spec_released(spec_taken_in(s, packet, now), spec_completed(s, packet, now))
}

/// The stage after the blocks due at `now` were released.
pub open spec fn spec_flush(s: ReblockState, now: u64) -> ReblockState {
    spec_after_release(s, spec_due(s.window, now))
}

/// The blocks that are released at `now` for having waited long enough.
pub open spec fn spec_flush_emits(s: ReblockState, now: u64) -> Seq<BlockView> {
    spec_released(s, spec_due(s.window, now))
}

/// The time `now`, `count` times.
pub open spec fn spec_always(now: u64, count: nat) -> Seq<u64> {
    Seq::new(count, |i: int| now)
}

/// The stage after the packets arrived one after the other, each at its time.
pub open spec fn spec_push_all(s: ReblockState, packets: Seq<Packet>, times: Seq<u64>)
    -> ReblockState
    decreases packets.len(),
{
    if packets.len() == 0 {
        s
    } else {
        spec_push(
            spec_push_all(s, packets.drop_last(), times.drop_last()),
            packets.last(),
            times.last(),
        )
    }
}

/// The blocks that the packets release as they arrive one after the other, in
/// the order of release.
pub open spec fn spec_push_all_emits(s: ReblockState, packets: Seq<Packet>, times: Seq<u64>) -> Seq<
    BlockView,
>
    decreases packets.len(),
{
    if packets.len() == 0 {
        Seq::empty()
    } else {
        spec_push_all_emits(s, packets.drop_last(), times.drop_last()) + spec_push_emits(
            spec_push_all(s, packets.drop_last(), times.drop_last()),
            packets.last(),
            times.last(),
        )
    }
}

/// Whether the window is no longer than the numbering allows and every packet
/// in it lies at the place of its block.
pub open spec fn spec_sorted(s: ReblockState) -> bool {
    &&& s.window.len() <= WINDOW
    &&& forall|i: int, j: int|
        0 <= i < s.window.len() && 0 <= j < s.window[i].packets.len() ==> (
        #[trigger] s.window[i].packets[j]).block == spec_advance(s.expected, i)
}

struct Slot {
    deadline: u64,
    packets: Vec<Packet>,
}

impl View for Slot {
    type V = Pending;

    closed spec fn view(&self) -> Pending {
        Pending { deadline: self.deadline, packets: self.packets@ }
    }
}

impl Slot {
    /// Whether the block has waited for its packets long enough.
    fn is_expired(&self, now: u64) -> (expired: bool)
        ensures
            expired == spec_expired(self@, now),
    {
        self.packets.len() > 0 && self.deadline <= now
    }
}

spec fn spec_slots(slots: Seq<Slot>) -> Seq<Pending> {
    slots.map_values(|s: Slot| s@)
}

/// The regrouping stage.
pub struct Reblock {
    expected: BlockNumber,
    threshold: u64,
    flush_timeout: u64,
    window: Vec<Slot>,
}

impl View for Reblock {
    type V = ReblockState;

    closed spec fn view(&self) -> ReblockState {
        ReblockState {
            expected: self.expected.value,
            threshold: self.threshold as nat,
            flush_timeout: self.flush_timeout,
            window: spec_slots(self.window@),
        }
    }
}

impl Reblock {
    #[verifier::type_invariant]
    spec fn sorted(&self) -> bool {
        spec_sorted(self@)
    }

    /// A stage that holds no packet and expects the block `first`. A block is
    /// taken for decodable once it holds `threshold` packets, and waits
    /// `flush_timeout` milliseconds for them.
    pub fn new(first: u8, threshold: u64, flush_timeout: u64) -> (stage: Self)
        ensures
            stage@.expected == first,
            stage@.threshold == threshold,
            stage@.flush_timeout == flush_timeout,
            stage@.window == Seq::<Pending>::empty(),
            spec_sorted(stage@),
    {
        let stage = Reblock {
            expected: BlockNumber::new(first),
            threshold,
            flush_timeout,
            window: Vec::new(),
        };
        assert(stage@.window =~= Seq::<Pending>::empty());
        stage
    }

    /// The next block to be released.
    pub fn expected(&self) -> (number: u8)
        ensures
            number == self@.expected,
            spec_sorted(self@),
    {
        proof {
            use_type_invariant(self);
        }
        self.expected.value()
    }

    /// How many packets are gathered for the block `number`.
    pub fn gathered(&self, number: u8) -> (count: usize)
        ensures
            count == if spec_distance(self@.expected, number) < self@.window.len() {
                self@.window[spec_distance(self@.expected, number)].packets.len()
            } else {
                0
            },
    {
        let place = self.expected.distance_to(BlockNumber::new(number)) as usize;
        if place < self.window.len() {
            self.window[place].packets.len()
        } else {
            0
        }
    }

    /// Takes in one packet that arrived at `now` and returns the blocks that
    /// it releases, in cyclic order from the expected block on.
    pub fn push(&mut self, packet: Packet, now: u64) -> (released: Vec<Block>)
        ensures
            final(self)@ == spec_push(old(self)@, packet, now),
            spec_blocks(released@) == spec_push_emits(old(self)@, packet, now),
            spec_sorted(final(self)@),
            forall|i: int, j: int|
                0 <= i < released@.len() && 0 <= j < released@[i].packets@.len() ==> (
                #[trigger] released@[i].packets@[j]).block == released@[i].number,
    {
        proof {
            use_type_invariant(&*self);
        }
        let ghost before = self@;
        let number = BlockNumber::new(packet.block);
        if let Position::Behind = self.expected.position_of(number) {
            proof {
                assert(self@.window.skip(0) =~= self@.window);
                assert(spec_blocks(Seq::<Block>::empty()) =~= spec_push_emits(before, packet, now));
            }
            return Vec::new();
        }
        let place = self.expected.distance_to(number) as usize;
        let deadline = now.saturating_add(self.flush_timeout);
        self.store(place, packet, deadline);
        let complete = self.window[place].packets.len() as u64 >= self.threshold;
        let count = if complete {
            place + 1
        } else {
            0
        };
        self.release(count)
    }

    /// Takes in the packets of one batch, all arrived at `now`, in their order,
    /// and returns the blocks that they release, in the order of release.
    pub fn push_batch(&mut self, packets: Vec<Packet>, now: u64) -> (released: Vec<Block>)
        ensures
            final(self)@ == spec_push_all(old(self)@, packets@, spec_always(now, packets@.len())),
            spec_blocks(released@) == spec_push_all_emits(
                old(self)@,
                packets@,
                spec_always(now, packets@.len()),
            ),
            spec_sorted(final(self)@),
            forall|i: int, j: int|
                0 <= i < released@.len() && 0 <= j < released@[i].packets@.len() ==> (
                #[trigger] released@[i].packets@[j]).block == released@[i].number,
    {
        proof {
            use_type_invariant(&*self);
        }
        let ghost all = packets@;
        let ghost times = spec_always(now, all.len());
        let mut turned = reversed(packets);
        let mut released: Vec<Block> = Vec::new();
        let ghost mut done: int = 0;
        proof {
            assert(all.take(0) =~= Seq::<Packet>::empty());
            assert(spec_blocks(released@) =~= Seq::<BlockView>::empty());
        }
        while turned.len() > 0
            invariant
                done + turned@.len() == all.len(),
                0 <= done,
                times == spec_always(now, all.len()),
                turned@ == all.reverse().take(turned@.len() as int),
                self@ == spec_push_all(old(self)@, all.take(done), times.take(done)),
                spec_blocks(released@) == spec_push_all_emits(
                    old(self)@,
                    all.take(done),
                    times.take(done),
                ),
                forall|i: int, j: int|
                    0 <= i < released@.len() && 0 <= j < released@[i].packets@.len() ==> (
                    #[trigger] released@[i].packets@[j]).block == released@[i].number,
            decreases turned@.len(),
        {
            if let Some(packet) = turned.pop() {
                let ghost so_far = released@;
                let mut more = self.push(packet, now);
                let ghost added = more@;
                released.append(&mut more);
                proof {
                    assert(packet == all[done]);
                    assert(all.take(done + 1).drop_last() == all.take(done));
                    assert(times.take(done + 1).drop_last() == times.take(done));
                    assert(all.take(done + 1).last() == packet);
                    assert(times.take(done + 1).last() == now);
                    assert(spec_blocks(released@) =~= spec_blocks(so_far) + spec_blocks(added));
                    done = done + 1;
                }
            }
        }
        proof {
            use_type_invariant(&*self);
            assert(all.take(done) == all);
            assert(times.take(done) == times);
        }
        released
    }

    /// Returns the blocks that are due at `now`: every block that has waited
    /// for its packets since `flush_timeout` or longer, and every block before
    /// such a one, in cyclic order from the expected block on.
    pub fn flush(&mut self, now: u64) -> (released: Vec<Block>)
        ensures
            final(self)@ == spec_flush(old(self)@, now),
            spec_blocks(released@) == spec_flush_emits(old(self)@, now),
            spec_sorted(final(self)@),
            forall|i: int, j: int|
                0 <= i < released@.len() && 0 <= j < released@[i].packets@.len() ==> (
                #[trigger] released@[i].packets@[j]).block == released@[i].number,
    {
        let ghost window = self@.window;
        let mut count = self.window.len();
        assert(window.take(count as int) == window);
        while count > 0 && !self.window[count - 1].is_expired(now)
            invariant
                count <= self.window@.len(),
                *self == *old(self),
                window == spec_slots(self.window@),
                spec_due(window, now) == spec_due(window.take(count as int), now),
            decreases count,
        {
            assert(window.take(count as int).drop_last() == window.take(count - 1));
            count -= 1;
        }
        proof {
            if count > 0 {
                assert(window.take(count as int).last() == window[count - 1]);
            }
        }
        self.release(count)
    }

    /// Adds `packet` to the block at `place`.
    fn store(&mut self, place: usize, packet: Packet, deadline: u64)
        requires
            place < WINDOW,
            place == spec_distance(old(self)@.expected, packet.block),
        ensures
            final(self)@.expected == old(self)@.expected,
            final(self)@.threshold == old(self)@.threshold,
            final(self)@.flush_timeout == old(self)@.flush_timeout,
            final(self)@.window == spec_store(old(self)@.window, place as int, packet, deadline),
            final(self).window@.len() > place,
    {
        proof {
            use_type_invariant(&*self);
        }
        let ghost start = self@.window;
        while self.window.len() <= place
            invariant
                place < WINDOW,
                self.expected == old(self).expected,
                self.threshold == old(self).threshold,
                self.flush_timeout == old(self).flush_timeout,
                start == old(self)@.window,
                start.len() <= self.window@.len() <= WINDOW,
                self.window@.len() <= start.len() || self.window@.len() <= place + 1,
                spec_slots(self.window@) == spec_padded(start, self.window@.len() as int),
                spec_sorted(old(self)@),
            decreases place + 1 - self.window@.len(),
        {
            let ghost slots = self.window@;
            let mut grown: Vec<Slot> = Vec::new();
            std::mem::swap(&mut self.window, &mut grown);
            grown.push(Slot { deadline: 0, packets: Vec::new() });
            proof {
                assert(grown@ == slots.push(grown@.last()));
                assert(grown@.last()@ == spec_vacant());
                assert(spec_slots(grown@) =~= spec_slots(slots).push(spec_vacant()));
                assert(spec_slots(grown@) =~= spec_padded(start, grown@.len() as int));
                lemma_padded_is_sorted(old(self)@, grown@.len() as int);
            }
            self.window = grown;
        }
        let ghost padded = spec_slots(self.window@);
        assert(padded == spec_padded(start, place + 1));
        proof {
            lemma_padded_is_sorted(old(self)@, place + 1);
        }
        let mut slots: Vec<Slot> = Vec::new();
        std::mem::swap(&mut self.window, &mut slots);
        let mut slot = slots.remove(place);
        if slot.packets.len() == 0 {
            slot.deadline = deadline;
        }
        slot.packets.push(packet);
        slots.insert(place, slot);
        proof {
            assert(spec_slots(slots@) =~= spec_store(start, place as int, packet, deadline));
            let stored = spec_slots(slots@);
            assert forall|i: int, j: int|
                0 <= i < stored.len() && 0 <= j < stored[i].packets.len() implies (
            #[trigger] stored[i].packets[j]).block == spec_advance(old(self)@.expected, i) by {
                if i == place && j == stored[i].packets.len() - 1 {
                } else {
                    assert(stored[i].packets[j] == padded[i].packets[j]);
                }
            }
        }
        self.window = slots;
    }

    /// Takes the first `count` blocks out of the window.
    fn release(&mut self, count: usize) -> (released: Vec<Block>)
        requires
            count <= old(self)@.window.len(),
        ensures
            final(self)@ == spec_after_release(old(self)@, count as int),
            spec_sorted(final(self)@),
            spec_blocks(released@) == spec_released(old(self)@, count as int),
            forall|i: int, j: int|
                0 <= i < released@.len() && 0 <= j < released@[i].packets@.len() ==> (
                #[trigger] released@[i].packets@[j]).block == released@[i].number,
    {
        proof {
            use_type_invariant(&*self);
        }
        let ghost before = self@;
        let mut head: Vec<Slot> = Vec::new();
        std::mem::swap(&mut self.window, &mut head);
        let rest = head.split_off(count);
        let first = self.expected;
        self.expected = first.advance(count as u8);
        proof {
            assert(spec_slots(rest@) =~= before.window.skip(count as int));
            assert forall|i: int, j: int|
                0 <= i < rest@.len() && 0 <= j < rest@[i].packets@.len() implies (
            #[trigger] spec_slots(rest@)[i].packets[j]).block == spec_advance(
                self.expected.value,
                i,
            ) by {
                lemma_advance_adds(first.value, count as int, i);
                assert(spec_slots(rest@)[i].packets[j] == before.window[i + count].packets[j]);
            }
        }
        self.window = rest;
        let ghost slots = head@;
        let mut turned = reversed(head);
        let mut released: Vec<Block> = Vec::new();
        let mut i: usize = 0;
        while turned.len() > 0
            invariant
                count <= WINDOW,
                slots.len() == count,
                i + turned@.len() == count,
                turned@ == slots.reverse().take(turned@.len() as int),
                released@.len() == i,
                forall|k: int|
                    0 <= k < i ==> (#[trigger] released@[k])@ == (BlockView {
                        number: spec_advance(first.value, k),
                        packets: slots[k].packets@,
                    }),
            decreases turned@.len(),
        {
            if let Some(slot) = turned.pop() {
                assert(slot == slots[i as int]);
                let number = first.advance(i as u8).value();
                released.push(Block { number, packets: slot.packets });
                i += 1;
            }
        }
        proof {
            assert(spec_blocks(released@) =~= spec_released(before, count as int)) by {
                assert forall|k: int| 0 <= k < count implies spec_blocks(released@)[k]
                    == spec_released(before, count as int)[k] by {
                    assert(released@[k]@.packets == slots[k].packets@);
                    assert(slots[k] == old(self).window@[k]);
                }
            }
            assert forall|k: int, j: int|
                0 <= k < released@.len() && 0 <= j < released@[k].packets@.len() implies (
            #[trigger] released@[k].packets@[j]).block == released@[k].number by {
                assert(released@[k]@.packets == slots[k].packets@);
                assert(slots[k] == old(self).window@[k]);
                assert(before.window[k].packets[j].block == spec_advance(before.expected, k));
            }
        }
        released
    }
}

/// The number of due blocks lies within the window.
pub proof fn lemma_due_is_within_window(window: Seq<Pending>, now: u64)
    ensures
        0 <= spec_due(window, now) <= window.len(),
        forall|i: int|
            spec_due(window, now) <= i < window.len() ==> !spec_expired(#[trigger] window[i], now),
        spec_due(window, now) > 0 ==> spec_expired(window[spec_due(window, now) - 1], now),
    decreases window.len(),
{
    if window.len() > 0 && !spec_expired(window.last(), now) {
        lemma_due_is_within_window(window.drop_last(), now);
        assert forall|i: int| spec_due(window, now) <= i < window.len() implies !spec_expired(
            #[trigger] window[i],
            now,
        ) by {
            if i < window.len() - 1 {
                assert(window[i] == window.drop_last()[i]);
            }
        }
    }
}

/// The first `count` blocks of a window are released under consecutive
/// numbers, which are all behind the block expected afterwards.
proof fn lemma_released_numbers(s: ReblockState, count: int)
    requires
        0 <= count <= WINDOW,
    ensures
        spec_released(s, count).len() == count,
        spec_after_release(s, count).expected == spec_advance(s.expected, count),
        forall|i: int|
            0 <= i < count ==> (#[trigger] spec_released(s, count)[i]).number == spec_advance(
                s.expected,
                i,
            ),
        forall|i: int|
            0 <= i < count ==> spec_distance(
                spec_advance(s.expected, count),
                (#[trigger] spec_released(s, count)[i]).number,
            ) >= WINDOW,
{
    assert forall|i: int| 0 <= i < count implies spec_distance(
        spec_advance(s.expected, count),
        (#[trigger] spec_released(s, count)[i]).number,
    ) >= WINDOW by {
        lemma_passed_is_behind(s.expected, count, i);
    }
}

/// Blocks leave in cyclic order and the expected block advances by one with
/// each of them.
///
/// Whatever a packet releases is numbered from the expected block on without
/// a gap, and afterwards the expected block is the one that follows the last
/// released. Every released number is then behind the expected block.
pub proof fn lemma_push_releases_in_cyclic_order(s: ReblockState, packet: Packet, now: u64)
    ensures
        forall|i: int|
            0 <= i < spec_push_emits(s, packet, now).len() ==> (#[trigger] spec_push_emits(
                s,
                packet,
                now,
            )[i]).number == spec_advance(s.expected, i),
        spec_push(s, packet, now).expected == spec_advance(
            s.expected,
            spec_push_emits(s, packet, now).len() as int,
        ),
        forall|i: int|
            0 <= i < spec_push_emits(s, packet, now).len() ==> spec_distance(
                spec_push(s, packet, now).expected,
                (#[trigger] spec_push_emits(s, packet, now)[i]).number,
            ) >= WINDOW,
{
    let taken = spec_taken_in(s, packet, now);
    let count = spec_completed(s, packet, now);
    assert(taken.expected == s.expected);
    lemma_released_numbers(taken, count);
}

/// What the passing of time releases leaves in cyclic order too: numbered from
/// the expected block on without a gap, the expected block afterwards being the
/// one that follows the last released, and every released number behind it.
pub proof fn lemma_flush_releases_in_cyclic_order(s: ReblockState, now: u64)
    requires
        spec_sorted(s),
    ensures
        forall|i: int|
            0 <= i < spec_flush_emits(s, now).len() ==> (#[trigger] spec_flush_emits(
                s,
                now,
            )[i]).number == spec_advance(s.expected, i),
        spec_flush(s, now).expected == spec_advance(
            s.expected,
            spec_flush_emits(s, now).len() as int,
        ),
        forall|i: int|
            0 <= i < spec_flush_emits(s, now).len() ==> spec_distance(
                spec_flush(s, now).expected,
                (#[trigger] spec_flush_emits(s, now)[i]).number,
            ) >= WINDOW,
{
    lemma_due_is_within_window(s.window, now);
    lemma_released_numbers(s, spec_due(s.window, now));
}

/// A packet for a block behind the expected one is discarded: nothing changes
/// and nothing is released.
pub proof fn lemma_packet_behind_is_discarded(s: ReblockState, packet: Packet, now: u64)
    requires
        spec_distance(s.expected, packet.block) >= WINDOW,
    ensures
        spec_push(s, packet, now) == s,
        spec_push_emits(s, packet, now) == Seq::<BlockView>::empty(),
{
    assert(s.window.skip(0) =~= s.window);
    assert(spec_push_emits(s, packet, now) =~= Seq::<BlockView>::empty());
}

/// No block outstays its deadline, and a block that got too few packets in
/// time is released all the same.
///
/// After the blocks due at `now` were released, no block in the window has
/// expired. If the expected block holds a packet and has expired, it is the
/// first to be released, with what it holds, the expected block advances, and a
/// packet for the block that is expected next is taken in.
pub proof fn lemma_flush_releases_expired_blocks(
    s: ReblockState,
    now: u64,
    next: Packet,
    later: u64,
)
    requires
        spec_sorted(s),
        next.block == spec_flush(s, now).expected,
    ensures
        forall|i: int|
            0 <= i < spec_flush(s, now).window.len() ==> !spec_expired(
                #[trigger] spec_flush(s, now).window[i],
                now,
            ),
        s.window.len() > 0 && spec_expired(s.window[0], now) ==> {
            &&& spec_flush_emits(s, now).len() >= 1
            &&& spec_flush_emits(s, now)[0] == (BlockView {
                number: s.expected,
                packets: s.window[0].packets,
            })
            &&& spec_flush(s, now).expected != s.expected
        },
        spec_taken_in(spec_flush(s, now), next, later).window[0].packets.len() > 0,
        spec_taken_in(spec_flush(s, now), next, later).window[0].packets.last() == next,
{
    lemma_due_is_within_window(s.window, now);
    let due = spec_due(s.window, now);
    assert forall|i: int| 0 <= i < spec_flush(s, now).window.len() implies !spec_expired(
        #[trigger] spec_flush(s, now).window[i],
        now,
    ) by {
        assert(spec_flush(s, now).window[i] == s.window[i + due]);
    }
}

/// The window after the packets `more` joined the block at `place`; `deadline`
/// is set if they are the first of their block.
#[verifier::opaque]
pub open spec fn spec_gathered(window: Seq<Pending>, place: int, more: Seq<Packet>, deadline: u64)
    -> Seq<Pending> {
    let padded = spec_padded(window, place + 1);
    let before = padded[place];
    padded.update(
        place,
        Pending {
            deadline: if before.packets.len() == 0 {
                deadline
            } else {
                before.deadline
            },
            packets: before.packets + more,
        },
    )
}

/// A stage with another window.
pub open spec fn spec_with_window(s: ReblockState, window: Seq<Pending>) -> ReblockState {
    ReblockState {
        expected: s.expected,
        threshold: s.threshold,
        flush_timeout: s.flush_timeout,
        window,
    }
}

/// What the block at `place` holds; nothing if the window does not reach it.
pub open spec fn spec_held(window: Seq<Pending>, place: int) -> Seq<Packet> {
    spec_padded(window, place + 1)[place].packets
}

/// Storing one more packet in a block continues the gathering.
proof fn lemma_store_continues_gathering(
    window: Seq<Pending>,
    place: int,
    more: Seq<Packet>,
    packet: Packet,
    first: u64,
    at: u64,
)
    requires
        0 <= place,
    ensures
        more.len() > 0 ==> spec_store(spec_gathered(window, place, more, first), place, packet, at)
            == spec_gathered(window, place, more.push(packet), first),
        spec_store(window, place, packet, at) == spec_gathered(window, place, seq![packet], at),
        spec_gathered(window, place, more, first).len() > place,
        spec_gathered(window, place, more, first)[place].packets == spec_held(window, place)
            + more,
{
    reveal(spec_gathered);
    let held = spec_held(window, place);
    assert(held.push(packet) =~= held + seq![packet]);
    assert(spec_store(window, place, packet, at) =~= spec_gathered(
        window,
        place,
        seq![packet],
        at,
    ));
    if more.len() > 0 {
        let earlier = spec_gathered(window, place, more, first);
        assert(spec_padded(earlier, place + 1) == earlier);
        assert((held + more).push(packet) =~= held + more.push(packet));
        assert(spec_store(earlier, place, packet, at) =~= spec_gathered(
            window,
            place,
            more.push(packet),
            first,
        ));
    }
}

/// What a packet does to a stage whose window is known after the packet was
/// stored: it releases nothing while its block is short of packets, and the
/// blocks up to its own once the block is complete.
proof fn lemma_push_by_stored_window(
    s: ReblockState,
    packet: Packet,
    now: u64,
    stored: Seq<Pending>,
)
    requires
        spec_distance(s.expected, packet.block) < WINDOW,
        stored == spec_store(
            s.window,
            spec_distance(s.expected, packet.block),
            packet,
            spec_deadline(now, s.flush_timeout),
        ),
    ensures
        stored[spec_distance(s.expected, packet.block)].packets.len() < s.threshold ==> {
            &&& spec_push(s, packet, now) == spec_with_window(s, stored)
            &&& spec_push_emits(s, packet, now) == Seq::<BlockView>::empty()
        },
        stored[spec_distance(s.expected, packet.block)].packets.len() >= s.threshold ==> {
            &&& spec_push(s, packet, now) == spec_after_release(
                spec_with_window(s, stored),
                spec_distance(s.expected, packet.block) + 1,
            )
            &&& spec_push_emits(s, packet, now) == spec_released(
                spec_with_window(s, stored),
                spec_distance(s.expected, packet.block) + 1,
            )
        },
{
    assert(stored.skip(0) =~= stored);
    assert(spec_released(spec_with_window(s, stored), 0) =~= Seq::<BlockView>::empty());
}

/// While a block is short of its packets, those that arrive for it are
/// gathered and nothing is released.
proof fn lemma_gathering_short_of_threshold(
    s: ReblockState,
    number: u8,
    packets: Seq<Packet>,
    times: Seq<u64>,
)
    requires
        spec_distance(s.expected, number) < WINDOW,
        packets.len() >= 1,
        times.len() == packets.len(),
        forall|i: int| 0 <= i < packets.len() ==> (#[trigger] packets[i]).block == number,
        spec_held(s.window, spec_distance(s.expected, number)).len() + packets.len() < s.threshold,
    ensures
        spec_push_all(s, packets, times) == spec_with_window(
            s,
            spec_gathered(
                s.window,
                spec_distance(s.expected, number),
                packets,
                spec_deadline(times[0], s.flush_timeout),
            ),
        ),
        spec_push_all_emits(s, packets, times) == Seq::<BlockView>::empty(),
    decreases packets.len(),
{
    let place = spec_distance(s.expected, number);
    let deadline = spec_deadline(times[0], s.flush_timeout);
    let last = packets.last();
    let at = spec_deadline(times.last(), s.flush_timeout);
    let before = spec_push_all(s, packets.drop_last(), times.drop_last());
    let target = spec_gathered(s.window, place, packets, deadline);
    assert(packets.drop_last().push(last) == packets);
    lemma_store_continues_gathering(s.window, place, packets.drop_last(), last, deadline, at);
    lemma_store_continues_gathering(s.window, place, packets, last, deadline, at);
    if packets.len() == 1 {
        assert(packets == seq![last]);
        assert(before == s);
        assert(spec_push_all_emits(s, packets.drop_last(), times.drop_last()) == Seq::<
            BlockView,
        >::empty());
    } else {
        lemma_gathering_short_of_threshold(s, number, packets.drop_last(), times.drop_last());
        assert(times.drop_last()[0] == times[0]);
    }
    assert(before.expected == s.expected && before.threshold == s.threshold
        && before.flush_timeout == s.flush_timeout);
    lemma_push_by_stored_window(before, last, times.last(), target);
    assert(spec_with_window(before, target) == spec_with_window(s, target));
}

/// The packets of one block are gathered in the order of their arrival, and
/// the block is released with the packet that completes it.
///
/// Let packets of one block, which is not behind the expected one, arrive one
/// after the other, as many as the block still needs. Nothing is released
/// before the last of them; the last releases the blocks up to theirs, and
/// theirs with what it held before followed by the packets in their order.
pub proof fn lemma_packets_gather_in_their_block(
    s: ReblockState,
    number: u8,
    packets: Seq<Packet>,
    times: Seq<u64>,
)
    requires
        spec_distance(s.expected, number) < WINDOW,
        packets.len() >= 1,
        times.len() == packets.len(),
        forall|i: int| 0 <= i < packets.len() ==> (#[trigger] packets[i]).block == number,
        spec_held(s.window, spec_distance(s.expected, number)).len() + packets.len()
            == s.threshold,
    ensures
        spec_push_all_emits(s, packets.drop_last(), times.drop_last()) == Seq::<
            BlockView,
        >::empty(),
        spec_push_all(s, packets, times) == spec_after_release(
            spec_with_window(
                s,
                spec_gathered(
                    s.window,
                    spec_distance(s.expected, number),
                    packets,
                    spec_deadline(times[0], s.flush_timeout),
                ),
            ),
            spec_distance(s.expected, number) + 1,
        ),
        spec_push_all_emits(s, packets, times) == spec_released(
            spec_with_window(
                s,
                spec_gathered(
                    s.window,
                    spec_distance(s.expected, number),
                    packets,
                    spec_deadline(times[0], s.flush_timeout),
                ),
            ),
            spec_distance(s.expected, number) + 1,
        ),
        spec_push_all_emits(s, packets, times).len() == spec_distance(s.expected, number) + 1,
        spec_push_all_emits(s, packets, times)[spec_distance(s.expected, number)] == (BlockView {
            number,
            packets: spec_held(s.window, spec_distance(s.expected, number)) + packets,
        }),
{
    let place = spec_distance(s.expected, number);
    let deadline = spec_deadline(times[0], s.flush_timeout);
    let last = packets.last();
    let at = spec_deadline(times.last(), s.flush_timeout);
    let before = spec_push_all(s, packets.drop_last(), times.drop_last());
    let target = spec_gathered(s.window, place, packets, deadline);
    assert(packets.drop_last().push(last) == packets);
    lemma_store_continues_gathering(s.window, place, packets.drop_last(), last, deadline, at);
    lemma_store_continues_gathering(s.window, place, packets, last, deadline, at);
    if packets.len() == 1 {
        assert(packets == seq![last]);
        assert(before == s);
        assert(spec_push_all_emits(s, packets.drop_last(), times.drop_last()) == Seq::<
            BlockView,
        >::empty());
    } else {
        lemma_gathering_short_of_threshold(s, number, packets.drop_last(), times.drop_last());
        assert(times.drop_last()[0] == times[0]);
    }
    assert(before.expected == s.expected && before.threshold == s.threshold
        && before.flush_timeout == s.flush_timeout);
    lemma_push_by_stored_window(before, last, times.last(), target);
    assert(spec_with_window(before, target) == spec_with_window(s, target));
    assert(spec_push_all_emits(s, packets, times) =~= spec_released(
        spec_with_window(s, target),
        place + 1,
    ));
    lemma_distance_inverts_advance(s.expected, number, 0);
}

/// Gathering packets for one block leaves the other blocks as they are.
proof fn lemma_gathered_elsewhere(
    window: Seq<Pending>,
    place: int,
    more: Seq<Packet>,
    deadline: u64,
)
    requires
        0 <= place,
    ensures
        spec_gathered(window, place, more, deadline).len() == spec_padded(window, place + 1).len(),
        spec_gathered(window, place, more, deadline).len() > place,
        spec_gathered(window, place, more, deadline)[place].packets == spec_held(window, place)
            + more,
        forall|k: int|
            0 <= k < spec_padded(window, place + 1).len() && k != place ==> (
            #[trigger] spec_gathered(window, place, more, deadline)[k]) == spec_padded(
                window,
                place + 1,
            )[k],
{
    reveal(spec_gathered);
}

/// The order in which the packets of a block arrive does not matter.
///
/// Let the same packets of one block arrive in two orders, at whatever times,
/// as many as the block still needs. Then both arrivals release the same
/// blocks, with the same packets up to their order, and leave the stage
/// expecting the same block.
pub proof fn lemma_arrival_order_is_irrelevant(
    s: ReblockState,
    number: u8,
    one: Seq<Packet>,
    one_times: Seq<u64>,
    other: Seq<Packet>,
    other_times: Seq<u64>,
)
    requires
        spec_distance(s.expected, number) < WINDOW,
        one.len() >= 1,
        one.to_multiset() == other.to_multiset(),
        one_times.len() == one.len(),
        other_times.len() == other.len(),
        forall|i: int| 0 <= i < one.len() ==> (#[trigger] one[i]).block == number,
        spec_held(s.window, spec_distance(s.expected, number)).len() + one.len() == s.threshold,
    ensures
        spec_push_all(s, one, one_times).expected == spec_push_all(
            s,
            other,
            other_times,
        ).expected,
        spec_push_all_emits(s, one, one_times).len() == spec_push_all_emits(
            s,
            other,
            other_times,
        ).len(),
        forall|k: int|
            0 <= k < spec_push_all_emits(s, one, one_times).len() ==> {
                &&& (#[trigger] spec_push_all_emits(s, one, one_times)[k]).number
                    == spec_push_all_emits(s, other, other_times)[k].number
                &&& spec_push_all_emits(s, one, one_times)[k].packets.to_multiset()
                    == spec_push_all_emits(s, other, other_times)[k].packets.to_multiset()
            },
{
    vstd::seq_lib::to_multiset_len(one);
    vstd::seq_lib::to_multiset_len(other);
    assert(other.len() == one.len());
    assert forall|i: int| 0 <= i < other.len() implies (#[trigger] other[i]).block == number by {
        vstd::seq_lib::to_multiset_contains(other, other[i]);
        vstd::seq_lib::to_multiset_contains(one, other[i]);
        assert(other.to_multiset().contains(other[i]));
        let j = choose|j: int| 0 <= j < one.len() && one[j] == other[i];
        assert(one[j].block == number);
    }
    lemma_packets_gather_in_their_block(s, number, one, one_times);
    lemma_packets_gather_in_their_block(s, number, other, other_times);
    let place = spec_distance(s.expected, number);
    let held = spec_held(s.window, place);
    let first = spec_gathered(
        s.window,
        place,
        one,
        spec_deadline(one_times[0], s.flush_timeout),
    );
    let second = spec_gathered(
        s.window,
        place,
        other,
        spec_deadline(other_times[0], s.flush_timeout),
    );
    lemma_gathered_elsewhere(s.window, place, one, spec_deadline(one_times[0], s.flush_timeout));
    lemma_gathered_elsewhere(
        s.window,
        place,
        other,
        spec_deadline(other_times[0], s.flush_timeout),
    );
    vstd::seq_lib::lemma_multiset_commutative(held, one);
    vstd::seq_lib::lemma_multiset_commutative(held, other);
    let left = spec_released(spec_with_window(s, first), place + 1);
    let right = spec_released(spec_with_window(s, second), place + 1);
    assert forall|k: int| 0 <= k < left.len() implies (#[trigger] left[k]).number
        == right[k].number && left[k].packets.to_multiset() == right[k].packets.to_multiset() by {
        if k != place {
            assert(first[k] == second[k]);
        }
    }
}

/// All packets of a window, block after block.
pub open spec fn spec_window_packets(window: Seq<Pending>) -> Seq<Packet>
    decreases window.len(),
{
    if window.len() == 0 {
        Seq::empty()
    } else {
        spec_window_packets(window.drop_last()) + window.last().packets
    }
}

/// All packets of released blocks, block after block.
pub open spec fn spec_block_packets(blocks: Seq<BlockView>) -> Seq<Packet>
    decreases blocks.len(),
{
    if blocks.len() == 0 {
        Seq::empty()
    } else {
        spec_block_packets(blocks.drop_last()) + blocks.last().packets
    }
}

/// The packets of a window are those of its first places followed by those of
/// the others.
proof fn lemma_window_packets_split(window: Seq<Pending>, at: int)
    requires
        0 <= at <= window.len(),
    ensures
        spec_window_packets(window) == spec_window_packets(window.take(at)) + spec_window_packets(
            window.skip(at),
        ),
    decreases window.len(),
{
    if at == window.len() {
        assert(window.take(at) =~= window);
        assert(window.skip(at) =~= Seq::<Pending>::empty());
        assert(spec_window_packets(window) =~= spec_window_packets(window.take(at))
            + spec_window_packets(window.skip(at)));
    } else {
        lemma_window_packets_split(window.drop_last(), at);
        assert(window.drop_last().take(at) =~= window.take(at));
        assert(window.drop_last().skip(at) =~= window.skip(at).drop_last());
        assert(window.skip(at).last() == window.last());
        assert(spec_window_packets(window) =~= spec_window_packets(window.take(at))
            + spec_window_packets(window.skip(at)));
    }
}

/// The packets of the released blocks are those of the places they left.
proof fn lemma_released_packets(s: ReblockState, count: int)
    requires
        0 <= count <= s.window.len(),
    ensures
        spec_block_packets(spec_released(s, count)) == spec_window_packets(s.window.take(count)),
    decreases count,
{
    if count > 0 {
        lemma_released_packets(s, count - 1);
        assert(spec_released(s, count).drop_last() =~= spec_released(s, count - 1));
        assert(s.window.take(count).drop_last() =~= s.window.take(count - 1));
        assert(s.window.take(count).last() == s.window[count - 1]);
    } else {
        assert(s.window.take(count) =~= Seq::<Pending>::empty());
    }
}

/// Vacant places add no packets.
proof fn lemma_padded_packets(window: Seq<Pending>, len: int)
    ensures
        spec_window_packets(spec_padded(window, len)) == spec_window_packets(window),
    decreases len - window.len(),
{
    if len > window.len() {
        lemma_padded_packets(window, len - 1);
        assert(spec_padded(window, len).drop_last() =~= spec_padded(window, len - 1));
        assert(spec_window_packets(spec_padded(window, len)) =~= spec_window_packets(window));
    }
}

/// A packet that joins a block adds itself to the packets of the window.
proof fn lemma_stored_packets(window: Seq<Pending>, place: int, packet: Packet, deadline: u64)
    requires
        0 <= place,
    ensures
        spec_window_packets(spec_store(window, place, packet, deadline)).to_multiset()
            == spec_window_packets(window).to_multiset().insert(packet),
{
    let padded = spec_padded(window, place + 1);
    let stored = spec_store(window, place, packet, deadline);
    let before = spec_window_packets(padded.take(place));
    let held = padded[place].packets;
    let behind = spec_window_packets(padded.skip(place + 1));
    lemma_padded_packets(window, place + 1);
    lemma_window_packets_split(padded, place);
    lemma_window_packets_split(padded.skip(place), 1);
    lemma_window_packets_split(stored, place);
    lemma_window_packets_split(stored.skip(place), 1);
    assert(stored.take(place) =~= padded.take(place));
    assert(stored.skip(place).skip(1) =~= padded.skip(place + 1));
    assert(padded.skip(place).skip(1) =~= padded.skip(place + 1));
    assert(spec_window_packets(padded.skip(place).take(1)) =~= held) by {
        let one = padded.skip(place).take(1);
        assert(one.drop_last() =~= Seq::<Pending>::empty());
        assert(spec_window_packets(one.drop_last()) =~= Seq::<Packet>::empty());
        assert(one.last() == padded[place]);
    }
    assert(spec_window_packets(stored.skip(place).take(1)) =~= held.push(packet)) by {
        let one = stored.skip(place).take(1);
        assert(one.drop_last() =~= Seq::<Pending>::empty());
        assert(spec_window_packets(one.drop_last()) =~= Seq::<Packet>::empty());
        assert(one.last() == stored[place]);
    }
    assert(spec_window_packets(padded) == before + (held + behind));
    assert(spec_window_packets(stored) == before + (held.push(packet) + behind));
    vstd::seq_lib::lemma_multiset_commutative(before, held + behind);
    vstd::seq_lib::lemma_multiset_commutative(before, held.push(packet) + behind);
    vstd::seq_lib::lemma_multiset_commutative(held, behind);
    vstd::seq_lib::lemma_multiset_commutative(held.push(packet), behind);
    vstd::seq_lib::to_multiset_build(held, packet);
    assert(spec_window_packets(stored).to_multiset() =~= spec_window_packets(
        padded,
    ).to_multiset().insert(packet));
}

/// Regrouping neither loses nor doubles a packet.
///
/// A packet whose block is not behind the expected one is afterwards among the
/// packets that the stage released or holds, once more than before, and all
/// other packets are there as often as before. The passing of time moves
/// packets from the window to the released blocks and leaves their order.
pub proof fn lemma_packets_are_conserved(s: ReblockState, packet: Packet, now: u64)
    ensures
        spec_distance(s.expected, packet.block) < WINDOW ==> (spec_block_packets(
            spec_push_emits(s, packet, now),
        ) + spec_window_packets(spec_push(s, packet, now).window)).to_multiset()
            == spec_window_packets(s.window).to_multiset().insert(packet),
        spec_block_packets(spec_flush_emits(s, now)) + spec_window_packets(
            spec_flush(s, now).window,
        ) == spec_window_packets(s.window),
{
    lemma_due_is_within_window(s.window, now);
    let due = spec_due(s.window, now);
    lemma_released_packets(s, due);
    lemma_window_packets_split(s.window, due);
    let place = spec_distance(s.expected, packet.block);
    if place < WINDOW {
        let taken = spec_taken_in(s, packet, now);
        let count = spec_completed(s, packet, now);
        lemma_stored_packets(s.window, place, packet, spec_deadline(now, s.flush_timeout));
        lemma_released_packets(taken, count);
        lemma_window_packets_split(taken.window, count);
    }
}

/// Lengthening a window by vacant places keeps every packet at the place of
/// its block.
proof fn lemma_padded_is_sorted(s: ReblockState, len: int)
    requires
        spec_sorted(s),
        len <= WINDOW,
    ensures
        spec_sorted(
            ReblockState {
                expected: s.expected,
                threshold: s.threshold,
                flush_timeout: s.flush_timeout,
                window: spec_padded(s.window, len),
            },
        ),
{
}

} // verus!
