//! Cyclic block numbers.
//!
//! Blocks are numbered modulo 256. Two numbers are compared by their modular
//! distance, never by plain subtraction: a number is *ahead* of a reference when
//! it is reached from it in fewer than [`WINDOW`] steps, and *behind* it
//! otherwise.
use vstd::prelude::*;

verus! {

/// How many block numbers there are.
pub const MODULUS: u16 = 256;

/// Numbers less than this many steps after a reference count as ahead of it.
pub const WINDOW: u8 = 128;

/// Where a block number lies relative to a reference number.
#[derive(Clone, Copy, Debug, PartialEq, Eq, Structural)]
pub enum Position {
    /// The number is the reference itself.
    Current,
    /// The number is still to come.
    Ahead,
    /// The number has already been passed.
    Behind,
}

/// A block number, counted modulo 256.
#[derive(Clone, Copy, Debug, PartialEq, Eq, Structural)]
pub struct BlockNumber {
    pub value: u8,
}

/// The number reached from `from` in `steps` steps.
pub open spec fn spec_advance(from: u8, steps: int) -> u8 {
    ((from as int + steps) % 256) as u8
}

/// The number of steps that lead from `from` to `to`.
pub open spec fn spec_distance(from: u8, to: u8) -> int {
    (to as int - from as int) % 256
}

/// The position of `number` seen from `reference`.
pub open spec fn spec_position(reference: u8, number: u8) -> Position {
    let d = spec_distance(reference, number);
    if d == 0 {
        Position::Current
    } else if d < WINDOW as int {
        Position::Ahead
    } else {
        Position::Behind
    }
}

impl BlockNumber {
    /// The block number `value`.
    pub fn new(value: u8) -> (number: Self)
        ensures
            number.value == value,
    {
        BlockNumber { value }
    }

    /// The number as a plain value.
    pub fn value(self) -> (value: u8)
        ensures
            value == self.value,
    {
        self.value
    }

    /// The number that follows this one.
    pub fn next(self) -> (number: Self)
        ensures
            number.value == spec_advance(self.value, 1),
    {
        BlockNumber { value: self.value.wrapping_add(1) }
    }

    /// The number reached after `steps` steps.
    pub fn advance(self, steps: u8) -> (number: Self)
        ensures
            number.value == spec_advance(self.value, steps as int),
    {
        BlockNumber { value: self.value.wrapping_add(steps) }
    }

    /// The number of steps that lead from this number to `other`.
    pub fn distance_to(self, other: Self) -> (steps: u8)
        ensures
            steps as int == spec_distance(self.value, other.value),
    {
        other.value.wrapping_sub(self.value)
    }

    /// Where `other` lies, seen from this number.
    pub fn position_of(self, other: Self) -> (position: Position)
        ensures
            position == spec_position(self.value, other.value),
    {
        let steps: u8 = self.distance_to(other);
        if steps == 0 {
            Position::Current
        } else if steps < WINDOW {
            Position::Ahead
        } else {
            Position::Behind
        }
    }
}

/// Stepping forward by the distance between two numbers leads from the first
/// to the second, and the distance to a number reached in `steps` steps is
/// `steps`.
pub proof fn lemma_distance_inverts_advance(from: u8, to: u8, steps: u8)
    ensures
        spec_advance(from, spec_distance(from, to)) == to,
        spec_distance(from, spec_advance(from, steps as int)) == steps as int,
        0 <= spec_distance(from, to) < 256,
{
}

/// Steps add up: going `a` steps and then `b` steps is going `a + b` steps.
pub proof fn lemma_advance_adds(from: u8, a: int, b: int)
    requires
        0 <= a,
        0 <= b,
    ensures
        spec_advance(spec_advance(from, a), b) == spec_advance(from, a + b),
{
    let x = from as int + a;
    assert((x % 256 + b) % 256 == (x + b) % 256) by {
        vstd::arithmetic::div_mod::lemma_add_mod_noop(x, b, 256);
        vstd::arithmetic::div_mod::lemma_add_mod_noop(x % 256, b, 256);
        vstd::arithmetic::div_mod::lemma_mod_twice(x, 256);
    }
}

/// What was passed on the way is behind: after `count` steps, at most half the
/// cycle, every number that an earlier step reached is behind the number
/// reached last.
pub proof fn lemma_passed_is_behind(from: u8, count: int, earlier: int)
    requires
        0 <= earlier < count <= WINDOW,
    ensures
        spec_distance(spec_advance(from, count), spec_advance(from, earlier)) == 256 - (count
            - earlier),
        spec_distance(spec_advance(from, count), spec_advance(from, earlier)) >= WINDOW,
{
}

/// A number is never both ahead of and behind another: seen from each other,
/// two different numbers lie on opposite sides, except at exactly half the
/// cycle, where each is behind the other.
pub proof fn lemma_positions_oppose(a: u8, b: u8)
    ensures
        spec_position(a, b) == Position::Current <==> a == b,
        spec_position(a, b) == Position::Ahead ==> spec_position(b, a) == Position::Behind,
        a != b ==> spec_distance(a, b) + spec_distance(b, a) == 256,
{
}

} // verus!
