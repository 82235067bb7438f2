//! Directions of the carving walk and the injected direction source.
//!
//! The carving algorithm needs one external collaborator: a source of
//! uniformly random directions. The core takes it as an explicit parameter
//! (the [`DirectionSource`] trait) so that generation is pure and can be
//! replayed from a recorded sequence. Nothing is assumed about the values a
//! source yields: every contract of the generator holds for every possible
//! sequence of draws.

use vstd::prelude::*;

verus! {

/// One of the four cardinal unit directions of the walk.
///
/// The coordinate convention is the grid's: `x` grows to the right, `y`
/// grows downward, so `Up` decreases `y`.
#[derive(Clone, Copy, Debug, PartialEq, Eq, Structural)]
pub enum Dir {
    Up,
    Right,
    Down,
    Left,
}

/// Horizontal component of a unit step in direction `d`.
pub open spec fn dir_dx(d: Dir) -> int {
    match d {
        Dir::Up => 0,
        Dir::Right => 1,
        Dir::Down => 0,
        Dir::Left => -1,
    }
}

/// Vertical component of a unit step in direction `d`.
pub open spec fn dir_dy(d: Dir) -> int {
    match d {
        Dir::Up => -1,
        Dir::Right => 0,
        Dir::Down => 1,
        Dir::Left => 0,
    }
}

/// Maps a uniform draw from four equal quartiles, numbered 0 to 3, onto the
/// direction that quartile selects: up, right, down, left in that order.
pub fn dir_from_quartile(q: u8) -> (d: Dir)
    requires
        q < 4,
    ensures
        d == spec_dir_from_quartile(q),
{
    if q == 0 {
        Dir::Up
    } else if q == 1 {
        Dir::Right
    } else if q == 2 {
        Dir::Down
    } else {
        Dir::Left
    }
}

/// Which direction each quartile of a uniform sample selects.
pub open spec fn spec_dir_from_quartile(q: u8) -> Dir {
    if q == 0 {
        Dir::Up
    } else if q == 1 {
        Dir::Right
    } else if q == 2 {
        Dir::Down
    } else {
        Dir::Left
    }
}

/// The sole injected collaborator of the generator: an endless source of
/// directions, expected (but nowhere assumed) to be uniformly random.
///
/// The trait promises nothing about the drawn values, so everything proved
/// about generation holds for every implementation, however adversarial.
pub trait DirectionSource {
    /// Draws the next direction.
    fn next_dir(&mut self) -> Dir;
}

/// A direction source that replays a fixed recorded sequence of draws,
/// cycling once the record is exhausted. Two generations driven by equal
/// records see exactly the same draws.
pub struct ReplayDirs {
    record: Vec<Dir>,
    next: usize,
}

impl ReplayDirs {
    /// The recorded draws being replayed.
    pub closed spec fn spec_record(&self) -> Seq<Dir> {
        self.record@
    }

    /// How many draws have been handed out so far.
    pub closed spec fn spec_position(&self) -> int {
        self.next as int
    }

    /// Starts a replay of `record` from its beginning.
    pub fn new(record: Vec<Dir>) -> (s: ReplayDirs)
        ensures
            s.spec_record() == record@,
            s.spec_position() == 0,
    {
        ReplayDirs { record, next: 0 }
    }
}

impl DirectionSource for ReplayDirs {
    /// Returns the next recorded draw, cycling; an empty record falls back
    /// to a constant direction.
    fn next_dir(&mut self) -> (d: Dir)
        ensures
            old(self).spec_record().len() == 0 ==> d == Dir::Up,
            old(self).spec_record().len() > 0 ==> d == old(self).spec_record()[old(
                self,
            ).spec_position() % old(self).spec_record().len() as int],
            final(self).spec_record() == old(self).spec_record(),
            final(self).spec_position() == if old(self).spec_position() + 1
                < old(self).spec_record().len() {
                old(self).spec_position() + 1
            } else {
                0
            },
    {
        if self.record.len() == 0 {
            self.next = 0;
            Dir::Up
        } else {
            let i = self.next % self.record.len();
            let d = self.record[i];
            self.next = if self.next < self.record.len() - 1 {
                self.next + 1
            } else {
                0
            };
            d
        }
    }
}

} // verus!
