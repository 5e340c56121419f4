//! Skip list levels.
//!
//! This module provides newtypes for so called "levels", which are merely a
//! form of bounded integers used to keep track of skip list nodes.  Holding
//! the bound as an invariant on the newtype allows getting around bound
//! checks safely.

use vstd::prelude::*;
use crate::random::{self, Xorshift};

verus! {

/// Number of possible levels.
///
/// This bounds the maximal level.  A higher number of levels results in more
/// memory usage; a lower one gives a worse distribution of node heights.
pub const LEVELS: usize = 8;

/// A "level".
///
/// A level represents a layer of the stack of lists in a skip list.  The
/// lowest (and densest) level is 0.  The contained value is always below
/// `LEVELS`.
#[derive(Clone, Copy, PartialEq, Eq, Structural, Debug)]
pub struct Level(pub usize);

/// The byte that level generation draws its coinflips from.
///
/// The low bits of a `xorshift+` word are its weakest, so the byte is taken
/// a little above the bottom of the word.
pub open spec fn spec_flip_bits(r: u64) -> u64 {
    (r >> 7) & 0xFF
}

/// The level generated from a random word: the number of coinflips (bits)
/// before the first heads, less one.  A heads on the first flip, or no heads
/// at all, generates no level.
pub open spec fn spec_generate(r: u64) -> Option<Level> {
    let b = spec_flip_bits(r);
    if b == 0 || b & 0x01 == 0x01 {
        None
    } else if b & 0x02 == 0x02 {
        Some(Level(0))
    } else if b & 0x04 == 0x04 {
        Some(Level(1))
    } else if b & 0x08 == 0x08 {
        Some(Level(2))
    } else if b & 0x10 == 0x10 {
        Some(Level(3))
    } else if b & 0x20 == 0x20 {
        Some(Level(4))
    } else if b & 0x40 == 0x40 {
        Some(Level(5))
    } else {
        Some(Level(6))
    }
}

impl Level {
    /// The level is in bounds.
    pub open spec fn wf(self) -> bool {
        self.0 < LEVELS
    }

    /// Generate a level.
    ///
    /// This is equivalent to making some number of coinflips and counting
    /// until you get heads, saturating if none are made.  `None` (at
    /// probability close to one half) represents that no level is generated
    /// and that the node in question should hold no shortcuts.
    pub fn generate(rng: &mut Xorshift) -> (r: Option<Level>)
        ensures
            r == spec_generate(random::spec_draw(*old(rng))),
            *final(rng) == random::spec_step(*old(rng)),
            r matches Some(lv) ==> lv.wf(),
    {
        let word: u64 = random::get(rng);
        let b: u64 = (word >> 7) & 0xFF;

        if b == 0 || b & 0x01 == 0x01 {
            None
        } else if b & 0x02 == 0x02 {
            Some(Level(0))
        } else if b & 0x04 == 0x04 {
            Some(Level(1))
        } else if b & 0x08 == 0x08 {
            Some(Level(2))
        } else if b & 0x10 == 0x10 {
            Some(Level(3))
        } else if b & 0x20 == 0x20 {
            Some(Level(4))
        } else if b & 0x40 == 0x40 {
            Some(Level(5))
        } else {
            Some(Level(6))
        }
    }

    /// Get the level above this level.
    ///
    /// This is exactly one level higher than this level.  If this level is
    /// the top (maximal) level, `None` is returned.
    pub fn above(self) -> (r: Option<NonBottomLevel>)
        requires
            self.wf(),
        ensures
            r is None <==> self.0 == LEVELS - 1,
            r matches Some(nb) ==> nb.0.0 == self.0 + 1 && nb.wf(),
    {
        if self.0 == LEVELS - 1 {
            None
        } else {
            Some(NonBottomLevel(Level(self.0 + 1)))
        }
    }

    /// Get the minimal level, level 0.
    pub fn min() -> (r: Level)
        ensures
            r.0 == 0,
            r.wf(),
    {
        Level(0)
    }

    /// Get the maximal level, level `LEVELS - 1`.
    pub fn max() -> (r: Level)
        ensures
            r.0 == LEVELS - 1,
            r.wf(),
    {
        Level(LEVELS - 1)
    }

    /// Create a level from its respective `usize`.
    ///
    /// A value out of bounds is a programming bug and is excluded by
    /// contract.
    pub fn from_usize(lv: usize) -> (r: Level)
        requires
            lv < LEVELS,
        ensures
            r.0 == lv,
            r.wf(),
    {
        Level(lv)
    }
}

/// A non-bottom level.
///
/// This newtype holds the invariant that the contained level is greater
/// than zero (the bottom level).
#[derive(Clone, Copy, PartialEq, Eq, Structural, Debug)]
pub struct NonBottomLevel(pub Level);

impl NonBottomLevel {
    /// The contained level is in bounds and above the bottom.
    pub open spec fn wf(self) -> bool {
        0 < self.0.0 < LEVELS
    }

    /// Get the level below this level.
    ///
    /// This needs no `None` value, because of the invariant of this newtype.
    pub fn below(self) -> (r: Level)
        requires
            self.wf(),
        ensures
            r.0 == self.0.0 - 1,
            r.wf(),
    {
        Level(self.0.0 - 1)
    }
}

/// An iterator over an interval of levels.
#[derive(Clone, Copy, PartialEq, Eq, Structural, Debug)]
pub struct Iter {
    /// The next level to be returned.
    pub lv: usize,
    /// The last level to be returned before the iterator stops.
    pub to: usize,
}

impl Iter {
    /// The iterator stays inside the level bounds.
    pub open spec fn wf(self) -> bool {
        self.to < LEVELS
    }

    /// Create an iterator starting at some level, through the last level.
    pub fn start_at(lv: Level) -> (r: Iter)
        requires
            lv.wf(),
        ensures
            r.lv == lv.0,
            r.to == LEVELS - 1,
            r.wf(),
    {
        Iter { lv: lv.0, to: LEVELS - 1 }
    }

    /// Create an iterator over all the possible levels.
    pub fn all() -> (r: Iter)
        ensures
            r.lv == 0,
            r.to == LEVELS - 1,
            r.wf(),
    {
        Iter::start_at(Level::min())
    }

    /// Create an iterator over all the levels above the bottom level.
    pub fn non_bottom() -> (r: Iter)
        ensures
            r.lv == 1,
            r.to == LEVELS - 1,
            r.wf(),
    {
        Iter { lv: 1, to: LEVELS - 1 }
    }

    /// Set the upper bound (last level) of this iterator.
    pub fn to(self, to: Level) -> (r: Iter)
        requires
            to.wf(),
        ensures
            r.lv == self.lv,
            r.to == to.0,
            r.wf(),
    {
        Iter { lv: self.lv, to: to.0 }
    }

    /// The next level of the iterator, if any is left.
    pub fn next(&mut self) -> (r: Option<Level>)
        requires
            old(self).wf(),
        ensures
            final(self).wf(),
            final(self).to == old(self).to,
            old(self).lv <= old(self).to ==> {
                &&& r == Some(Level(old(self).lv))
                &&& final(self).lv == old(self).lv + 1
            },
            old(self).lv > old(self).to ==> r is None && *final(self) == *old(self),
            r matches Some(lv) ==> lv.wf(),
    {
        if self.lv <= self.to {
            let ret: usize = self.lv;
            self.lv = ret + 1;
            Some(Level(ret))
        } else {
            None
        }
    }
}

/// An array with one slot per level.
///
/// The bound is encoded in the indexing type (`Level`), so indexing is
/// statically in bounds.
#[derive(PartialEq, Eq, Debug)]
pub struct Array<T> {
    /// The inner slots, one per level.
    pub inner: Vec<T>,
}

impl<T: Copy> Array<T> {
    /// One slot per level.
    pub open spec fn wf(self) -> bool {
        self.inner.len() == LEVELS
    }

    /// Create an array with every slot holding `fill`.
    pub fn new(fill: T) -> (r: Array<T>)
        ensures
            r.wf(),
            forall|i: int| 0 <= i < LEVELS ==> r.inner[i] == fill,
    {
        let mut inner: Vec<T> = Vec::new();
        inner.push(fill);
        inner.push(fill);
        inner.push(fill);
        inner.push(fill);
        inner.push(fill);
        inner.push(fill);
        inner.push(fill);
        inner.push(fill);
        Array { inner }
    }

    /// Read the slot of level `lv`.
    pub fn get(&self, lv: Level) -> (r: T)
        requires
            self.wf(),
            lv.wf(),
        ensures
            r == self.inner[lv.0 as int],
    {
        self.inner[lv.0]
    }

    /// Write the slot of level `lv`.
    pub fn set(&mut self, lv: Level, value: T)
        requires
            old(self).wf(),
            lv.wf(),
        ensures
            final(self).wf(),
            final(self).inner@ == old(self).inner@.update(lv.0 as int, value),
    {
        self.inner[lv.0] = value;
    }
}

} // verus!
