//! A fixed-capacity circular (ring) buffer.
//!
//! A [`CircularBuffer`] stores up to a fixed number of elements and hands them
//! back in first-in-first-out order.  Storage is a heap-allocated run of
//! optional slots; two cursors track the next slot to read and the next slot
//! to write, each advancing circularly modulo the capacity, and an occupancy
//! count distinguishes an empty buffer from a full one when the cursors
//! coincide.
//!
//! The abstract state of a buffer is the sequence of its unread elements,
//! oldest first; every operation's contract is stated against that sequence.

use vstd::prelude::*;

pub mod laws;

verus! {

/// The error cases a buffer operation can report.
#[derive(Clone, Copy, Debug, PartialEq, Eq, Structural)]
pub enum Error {
    /// An operation that needed an occupied slot found none (e.g. a read).
    EmptyBuffer,
    /// An operation that needed a free slot found none (e.g. a write).
    FullBuffer,
}

/// What `write` reports for a buffer holding `contents` with the given
/// capacity: writes succeed exactly while the buffer is not full.
pub open spec fn write_outcome<T>(contents: Seq<T>, capacity: nat) -> Result<(), Error> {
    if contents.len() < capacity {
        Result::Ok(())
    } else {
        Result::Err(Error::FullBuffer)
    }
}

/// The unread elements after a `write`: a successful write appends the new
/// element; a refused write leaves the buffer unchanged.
pub open spec fn contents_after_write<T>(contents: Seq<T>, capacity: nat, element: T) -> Seq<T> {
    if contents.len() < capacity {
        contents.push(element)
    } else {
        contents
    }
}

/// What `read` reports and returns: the oldest unread element, or
/// `EmptyBuffer` when there is none.
pub open spec fn read_outcome<T>(contents: Seq<T>) -> Result<T, Error> {
    if contents.len() == 0 {
        Result::Err(Error::EmptyBuffer)
    } else {
        Result::Ok(contents[0])
    }
}

/// The unread elements after a `read`: a successful read removes the oldest
/// element; a read of an empty buffer changes nothing.
pub open spec fn contents_after_read<T>(contents: Seq<T>) -> Seq<T> {
    if contents.len() == 0 {
        contents
    } else {
        contents.drop_first()
    }
}

/// The unread elements after an `overwrite`.  On a non-full buffer it acts as
/// a plain write; on a full buffer of positive capacity it evicts the oldest
/// element to make room; a zero-capacity buffer has no slot to store into and
/// stays empty.
pub open spec fn contents_after_overwrite<T>(contents: Seq<T>, capacity: nat, element: T) -> Seq<
    T,
> {
    if contents.len() < capacity {
        contents.push(element)
    } else if capacity > 0 {
        contents.drop_first().push(element)
    } else {
        contents
    }
}

/// The unread elements after a `clear`: none, whatever was stored before.
pub open spec fn contents_after_clear<T>(contents: Seq<T>) -> Seq<T> {
    Seq::empty()
}

/// Advancing a cursor one step wraps to 0 exactly at the end of storage.
proof fn lemma_cursor_step(cursor: int, size: int)
    requires
        0 < size,
        0 <= cursor < size,
    ensures
        (cursor + 1) % size == if cursor + 1 == size {
            0int
        } else {
            cursor + 1
        },
{
    if cursor + 1 == size {
        vstd::arithmetic::div_mod::lemma_mod_self_0(size);
    } else {
        vstd::arithmetic::div_mod::lemma_small_mod((cursor + 1) as nat, size as nat);
    }
}

/// A fixed-capacity first-in-first-out buffer over slots reused circularly.
pub struct CircularBuffer<T> {
    /// The slots; an occupied slot holds `Some`, a vacant slot holds `None`.
    data: Vec<Option<T>>,
    /// The capacity: the number of slots, fixed at construction.
    size: usize,
    /// The read cursor: index of the slot holding the oldest element.
    start: usize,
    /// The write cursor: index of the next slot to be written.
    end: usize,
    /// The number of occupied slots; disambiguates empty from full when the
    /// cursors coincide.
    count: usize,
}

impl<T> CircularBuffer<T> {
    /// The capacity this buffer was constructed with.
    pub closed spec fn capacity(&self) -> nat {
        self.size as nat
    }

    /// The index of the slot `offset` places after the read cursor, wrapping
    /// around the end of storage (meaningful for `0 <= offset <= size`).
    spec fn slot(&self, offset: int) -> int {
        if self.start + offset < self.size {
            self.start + offset
        } else {
            self.start + offset - self.size
        }
    }

    /// The representation invariant.  Every slot within `count` steps of the
    /// read cursor is occupied, every other slot is vacant, the write cursor
    /// sits `count` steps after the read cursor, and both cursors lie inside
    /// storage (at zero capacity there is no valid index, so both stay 0).
    pub closed spec fn well_formed(&self) -> bool {
        &&& self.data.len() == self.size
        &&& self.count <= self.size
        &&& (if self.size == 0 {
            self.start == 0 && self.end == 0
        } else {
            self.start < self.size && self.end < self.size
        })
        &&& self.end as int == self.slot(self.count as int)
        &&& (forall|offset: int|
            0 <= offset < self.count ==> self.data[#[trigger] self.slot(offset)] is Some)
        &&& (forall|offset: int|
            self.count <= offset < self.size ==> self.data[#[trigger] self.slot(offset)] is None)
    }
}

impl<T> View for CircularBuffer<T> {
    type V = Seq<T>;

    /// The unread elements, oldest first.
    closed spec fn view(&self) -> Seq<T> {
        Seq::new(self.count as nat, |offset: int| self.data[self.slot(offset)]->Some_0)
    }
}

impl<T> CircularBuffer<T> {
    /// Returns a new buffer with the specified capacity, holding nothing.
    pub fn new(capacity: usize) -> (buffer: Self)
        ensures
            buffer.well_formed(),
            buffer.capacity() == capacity,
            buffer@ == Seq::<T>::empty(),
    {
        let mut data: Vec<Option<T>> = Vec::new();
        let mut filled: usize = 0;
        while filled < capacity
            invariant
                filled <= capacity,
                data.len() == filled,
                forall|i: int| 0 <= i < filled ==> data[i] is None,
            decreases capacity - filled,
        {
            data.push(None);
            filled = filled + 1;
        }
        let buffer = CircularBuffer { data, size: capacity, start: 0, end: 0, count: 0 };
        proof {
            assert(buffer@ =~= Seq::<T>::empty());
        }
        buffer
    }

    /// Writes a value into the buffer.
    ///
    /// Succeeds, storing the element as the newest, exactly when the buffer
    /// is not full; on a full buffer it refuses with `FullBuffer` and leaves
    /// every slot and both cursors unchanged, and the element stays with the
    /// caller's expression (it is dropped, never stored).
    pub fn write(&mut self, element: T) -> (result: Result<(), Error>)
        requires
            old(self).well_formed(),
        ensures
            final(self).well_formed(),
            final(self).capacity() == old(self).capacity(),
            result == write_outcome::<T>(old(self)@, old(self).capacity()),
            final(self)@ == contents_after_write(old(self)@, old(self).capacity(), element),
    {
        if self.count == self.size {
            Result::Err(Error::FullBuffer)
        } else {
            self.data.set(self.end, Some(element));
            self.end = (self.end + 1) % self.size;
            self.count = self.count + 1;
            proof {
                let prev = *old(self);
                lemma_cursor_step(prev.end as int, prev.size as int);
                assert forall|offset: int| 0 <= offset < self.count implies self.data[#[trigger] self.slot(
                    offset,
                )] is Some by {
                    if offset < prev.count {
                        assert(prev.data[prev.slot(offset)] is Some);
                        assert(self.slot(offset) == prev.slot(offset));
                        assert(prev.slot(offset) != prev.end);
                    }
                }
                assert forall|offset: int| self.count <= offset < self.size implies self.data[#[trigger] self.slot(
                    offset,
                )] is None by {
                    assert(prev.data[prev.slot(offset)] is None);
                    assert(self.slot(offset) == prev.slot(offset));
                    assert(prev.slot(offset) != prev.end);
                }
                assert forall|offset: int| 0 <= offset < prev.count implies self@[offset]
                    == prev@[offset] by {
                    assert(prev.slot(offset) != prev.end);
                }
                assert(self@ =~= prev@.push(element));
            }
            Result::Ok(())
        }
    }

    /// Reads the oldest value out of the buffer.
    ///
    /// Succeeds exactly when the buffer is not empty, moving the oldest
    /// element out (its slot becomes vacant and cannot be read again without
    /// an intervening write); on an empty buffer it refuses with
    /// `EmptyBuffer` and changes nothing.
    pub fn read(&mut self) -> (result: Result<T, Error>)
        requires
            old(self).well_formed(),
        ensures
            final(self).well_formed(),
            final(self).capacity() == old(self).capacity(),
            result == read_outcome::<T>(old(self)@),
            final(self)@ == contents_after_read(old(self)@),
    {
        if self.count == 0 {
            Result::Err(Error::EmptyBuffer)
        } else {
            let taken = self.data[self.start].take();
            self.start = (self.start + 1) % self.size;
            self.count = self.count - 1;
            proof {
                let prev = *old(self);
                assert(prev.slot(0) == prev.start);
                lemma_cursor_step(prev.start as int, prev.size as int);
                assert forall|offset: int| 0 <= offset < self.size implies self.slot(offset)
                    == prev.slot(offset + 1) by {}
                assert forall|offset: int| 0 <= offset < self.count implies self.data[#[trigger] self.slot(
                    offset,
                )] is Some by {
                    assert(prev.data[prev.slot(offset + 1)] is Some);
                    assert(prev.slot(offset + 1) != prev.slot(0));
                }
                assert forall|offset: int| self.count <= offset < self.size implies self.data[#[trigger] self.slot(
                    offset,
                )] is None by {
                    if offset + 1 < prev.size {
                        assert(prev.data[prev.slot(offset + 1)] is None);
                    } else {
                        assert(prev.slot(offset + 1) == prev.start);
                    }
                }
                assert forall|offset: int| 0 <= offset < self.count implies self@[offset]
                    == prev@[offset + 1] by {
                    assert(prev.slot(offset + 1) != prev.slot(0));
                }
                assert(self@ =~= prev@.drop_first());
            }
            match taken {
                Some(value) => Result::Ok(value),
                None => {
                    proof {
                        assert(old(self).slot(0) == old(self).start);
                        assert(false);
                    }
                    Result::Err(Error::EmptyBuffer)
                },
            }
        }
    }

    /// Empties the buffer, reading and discarding every unread element.
    ///
    /// Never fails, and clearing an already-empty buffer is a no-op for
    /// every later operation.
    pub fn clear(&mut self)
        requires
            old(self).well_formed(),
        ensures
            final(self).well_formed(),
            final(self).capacity() == old(self).capacity(),
            final(self)@ == contents_after_clear(old(self)@),
    {
        while self.count > 0
            invariant
                self.well_formed(),
                self.capacity() == old(self).capacity(),
            decreases self@.len(),
        {
            let _ = self.read();
        }
        proof {
            assert(self@ =~= Seq::<T>::empty());
        }
    }

    /// Writes a value, evicting the oldest element if the buffer is full.
    ///
    /// On a non-full buffer this is exactly a successful `write`.  On a full
    /// buffer of positive capacity the oldest element is discarded — never
    /// returned to any caller — and the new element takes the newest
    /// position, both cursors advancing together.  On a zero-capacity buffer
    /// there is no slot to store into, so nothing changes.  Never fails.
    pub fn overwrite(&mut self, element: T)
        requires
            old(self).well_formed(),
        ensures
            final(self).well_formed(),
            final(self).capacity() == old(self).capacity(),
            final(self)@ == contents_after_overwrite(old(self)@, old(self).capacity(), element),
    {
        if self.size == 0 {
            // Nothing can be stored; the element is dropped, as on a failed
            // write.
        } else if self.count == self.size {
            self.data.set(self.start, Some(element));
            self.start = (self.start + 1) % self.size;
            self.end = self.start;
            proof {
                let prev = *old(self);
                assert(prev.slot(0) == prev.start);
                lemma_cursor_step(prev.start as int, prev.size as int);
                assert forall|offset: int| 0 <= offset < self.size implies self.slot(offset)
                    == prev.slot(offset + 1) by {}
                assert forall|offset: int| 0 <= offset < self.count implies self.data[#[trigger] self.slot(
                    offset,
                )] is Some by {
                    if offset + 1 < prev.size {
                        assert(prev.data[prev.slot(offset + 1)] is Some);
                    } else {
                        assert(prev.slot(offset + 1) == prev.start);
                    }
                }
                assert(self.end as int == self.slot(self.count as int));
                assert forall|offset: int| 0 <= offset < self.count - 1 implies self@[offset]
                    == prev@[offset + 1] by {
                    assert(prev.slot(offset + 1) != prev.slot(0));
                }
                assert(self@[self.count - 1] == element);
                assert(self@ =~= prev@.drop_first().push(element));
            }
        } else {
            let _ = self.write(element);
        }
    }
}

} // verus!
