//! Fixed-size arenas.
//!
//! This module contains primitives for typed, fixed-size arenas.  An arena
//! keeps a list of free slot addresses; allocating pops a slot and wraps the
//! value in a `Jar`, freeing a jar recycles its slot.  Refilling hands the
//! arena a fresh block, which is divided into slots.

use vstd::prelude::*;
use crate::ptr::Pointer;
use crate::block::Block;

verus! {

/// The slot stride of an arena, in bytes.
pub const SLOT_SIZE: usize = 16;

/// An owned value together with the slot that holds it.
pub struct Jar<T> {
    /// The slot address.
    pub ptr: Pointer,
    /// The inner value.
    pub value: T,
}

impl<T> Jar<T> {
    /// Read the inner value.
    pub fn get(&self) -> (r: &T)
        ensures
            *r == self.value,
    {
        &self.value
    }

    /// Overwrite the inner value.
    pub fn set(&mut self, value: T)
        ensures
            final(self).value == value,
            final(self).ptr == old(self).ptr,
    {
        self.value = value;
    }
}

/// A typed arena, represented as a list of free slots.
pub struct Arena<T> {
    /// The free slot addresses.
    pub list: Vec<Pointer>,
    /// The number of slots currently in the arena.
    pub len: usize,
    /// Marks the element type of the arena.
    pub _phantom: core::marker::PhantomData<T>,
}

impl<T> Arena<T> {
    /// The slot count agrees with the free list.
    pub open spec fn wf(self) -> bool {
        self.len == self.list.len()
    }

    /// The free slots of the arena.
    pub open spec fn slots(self) -> Seq<Pointer> {
        self.list@
    }

    /// Create a new empty arena.
    pub fn new() -> (r: Arena<T>)
        ensures
            r.wf(),
            r.slots() =~= Seq::<Pointer>::empty(),
    {
        Arena { list: Vec::new(), len: 0, _phantom: core::marker::PhantomData }
    }

    /// Allocate a jar with some initial value.
    ///
    /// Succeeds if and only if the arena has a free slot; the jar then
    /// holds the given value in the most recently freed slot.
    pub fn allocate(&mut self, inner: T) -> (r: Result<Jar<T>, ()>)
        requires
            old(self).wf(),
        ensures
            final(self).wf(),
            r is Ok <==> old(self).slots().len() > 0,
            r matches Ok(jar) ==> {
                &&& jar.value == inner
                &&& jar.ptr == old(self).slots().last()
                &&& final(self).slots() == old(self).slots().drop_last()
            },
            r is Err ==> final(self).slots() == old(self).slots(),
    {
        match self.list.pop() {
            Some(ptr) => {
                self.len = self.len - 1;
                Ok(Jar { ptr, value: inner })
            }
            None => Err(()),
        }
    }

    /// Free a jar to the arena, dropping the value and recycling the slot.
    pub fn free(&mut self, jar: Jar<T>)
        requires
            old(self).wf(),
            old(self).slots().len() < usize::MAX,
        ensures
            final(self).wf(),
            final(self).slots() == old(self).slots().push(jar.ptr),
    {
        self.len = self.len + 1;
        self.list.push(jar.ptr);
    }

    /// Refill this arena with a fresh block.
    ///
    /// The block is divided into slots of `SLOT_SIZE` bytes, which are all
    /// pushed onto the free list.
    pub fn refill(&mut self, new: Block)
        requires
            old(self).wf(),
            new.wf(),
            old(self).slots().len() + new.size as int / SLOT_SIZE as int <= usize::MAX,
        ensures
            final(self).wf(),
            final(self).slots().len()
                == old(self).slots().len() + new.size as int / SLOT_SIZE as int,
            forall|i: int|
                0 <= i < old(self).slots().len()
                    ==> final(self).slots()[i] == old(self).slots()[i],
            forall|i: int|
                0 <= i < new.size as int / SLOT_SIZE as int
                    ==> #[trigger] final(self).slots()[old(self).slots().len() + i] == (Pointer {
                    addr: (new.addr() + i * SLOT_SIZE) as usize,
                }),
    {
        let count: usize = new.size() / SLOT_SIZE;
        let base: usize = new.ptr.get();
        let mut n: usize = 0;
        while n < count
            invariant
                n <= count,
                count == new.size as int / SLOT_SIZE as int,
                count * SLOT_SIZE <= new.size,
                base == new.ptr.addr,
                new.wf(),
                self.wf(),
                self.slots().len() == old(self).slots().len() + n,
                old(self).slots().len() + count <= usize::MAX,
                forall|i: int|
                    0 <= i < old(self).slots().len()
                        ==> self.slots()[i] == old(self).slots()[i],
                forall|i: int|
                    0 <= i < n ==> #[trigger] self.slots()[old(self).slots().len() + i] == (Pointer {
                        addr: (new.addr() + i * SLOT_SIZE) as usize,
                    }),
            decreases count - n,
        {
            proof {
                assert(n * SLOT_SIZE + SLOT_SIZE <= count * SLOT_SIZE) by (nonlinear_arith)
                    requires n < count && SLOT_SIZE == 16;
            }
            let ptr = Pointer::new(base + n * SLOT_SIZE);
            self.list.push(ptr);
            self.len = self.len + 1;
            n = n + 1;
        }
    }

    /// Get the number of slots currently in the arena.
    pub fn len(&self) -> (r: usize)
        requires
            self.wf(),
        ensures
            r == self.slots().len(),
    {
        self.len
    }
}

} // verus!
