//! Laws the buffer obeys across whole workloads of operations.
//!
//! The operations' contracts describe one call at a time.  This module models
//! a workload — a sequence of writes and reads applied in order — over the
//! same spec functions those contracts use, and proves the buffer's global
//! guarantees: the capacity bound, first-in-first-out delivery, conservation
//! of elements under arbitrary interleaving, and the stated behaviour of
//! `overwrite` and `clear`.

use vstd::prelude::*;

verus! {

use crate::Error;
use crate::contents_after_clear;
use crate::contents_after_overwrite;
use crate::contents_after_read;
use crate::contents_after_write;
use crate::read_outcome;
use crate::write_outcome;

/// One step of a workload: an attempted `write` of a value, or an attempted
/// `read`.
pub enum BufferOp<T> {
    Write(T),
    Read,
}

/// The unread elements after one operation, as the contracts of `write` and
/// `read` state them.
pub open spec fn apply_op<T>(contents: Seq<T>, capacity: nat, op: BufferOp<T>) -> Seq<T> {
    match op {
        BufferOp::Write(element) => contents_after_write(contents, capacity, element),
        BufferOp::Read => contents_after_read(contents),
    }
}

/// The unread elements after a whole workload.
pub open spec fn run<T>(contents: Seq<T>, capacity: nat, ops: Seq<BufferOp<T>>) -> Seq<T>
    decreases ops.len(),
{
    if ops.len() == 0 {
        contents
    } else {
        run(apply_op(contents, capacity, ops[0]), capacity, ops.drop_first())
    }
}

/// The values the successful writes of a workload store, in order.
pub open spec fn accepted_writes<T>(contents: Seq<T>, capacity: nat, ops: Seq<BufferOp<T>>) -> Seq<
    T,
>
    decreases ops.len(),
{
    if ops.len() == 0 {
        Seq::empty()
    } else {
        let rest = accepted_writes(apply_op(contents, capacity, ops[0]), capacity, ops.drop_first());
        match ops[0] {
            BufferOp::Write(element) => if contents.len() < capacity {
                seq![element] + rest
            } else {
                rest
            },
            BufferOp::Read => rest,
        }
    }
}

/// The values the successful reads of a workload return, in order.
pub open spec fn delivered_reads<T>(contents: Seq<T>, capacity: nat, ops: Seq<BufferOp<T>>) -> Seq<
    T,
>
    decreases ops.len(),
{
    if ops.len() == 0 {
        Seq::empty()
    } else {
        let rest = delivered_reads(apply_op(contents, capacity, ops[0]), capacity, ops.drop_first());
        match ops[0] {
            BufferOp::Read => if contents.len() > 0 {
                seq![contents[0]] + rest
            } else {
                rest
            },
            BufferOp::Write(element) => rest,
        }
    }
}

/// Holds when no write of the workload ever finds the buffer full — that is,
/// when the workload never exceeds `capacity` outstanding elements.
pub open spec fn all_writes_accepted<T>(
    contents: Seq<T>,
    capacity: nat,
    ops: Seq<BufferOp<T>>,
) -> bool
    decreases ops.len(),
{
    ops.len() == 0 || {
        &&& (match ops[0] {
            BufferOp::Write(element) => contents.len() < capacity,
            BufferOp::Read => true,
        })
        &&& all_writes_accepted(apply_op(contents, capacity, ops[0]), capacity, ops.drop_first())
    }
}

/// The values every write of a workload attempts to store, in order.
pub open spec fn attempted_writes<T>(ops: Seq<BufferOp<T>>) -> Seq<T>
    decreases ops.len(),
{
    if ops.len() == 0 {
        Seq::empty()
    } else {
        let rest = attempted_writes(ops.drop_first());
        match ops[0] {
            BufferOp::Write(element) => seq![element] + rest,
            BufferOp::Read => rest,
        }
    }
}

/// A workload of writes alone, storing the given values in order.
pub open spec fn write_ops<T>(values: Seq<T>) -> Seq<BufferOp<T>> {
    values.map_values(|value: T| BufferOp::Write(value))
}

/// A workload of `n` reads.
pub open spec fn read_ops<T>(n: nat) -> Seq<BufferOp<T>> {
    Seq::new(n, |i: int| BufferOp::<T>::Read)
}

/// Conservation: over any workload, the elements read followed by the
/// elements still unread are exactly the elements the buffer started with
/// followed by the elements successfully written.  Reads therefore deliver
/// written elements in write order, each at most once, and deliver nothing
/// that was never written.
pub proof fn conservation<T>(contents: Seq<T>, capacity: nat, ops: Seq<BufferOp<T>>)
    ensures
        delivered_reads(contents, capacity, ops) + run(contents, capacity, ops) == contents
            + accepted_writes(contents, capacity, ops),
    decreases ops.len(),
{
    if ops.len() == 0 {
        assert(delivered_reads(contents, capacity, ops) + run(contents, capacity, ops) =~= contents
            + accepted_writes(contents, capacity, ops));
    } else {
        let next = apply_op(contents, capacity, ops[0]);
        let rest = ops.drop_first();
        conservation(next, capacity, rest);
        match ops[0] {
            BufferOp::Write(element) => {
                if contents.len() < capacity {
                    assert(next == contents.push(element));
                    assert(contents + (seq![element] + accepted_writes(next, capacity, rest))
                        =~= next + accepted_writes(next, capacity, rest));
                } else {
                    assert(next == contents);
                }
            },
            BufferOp::Read => {
                if contents.len() > 0 {
                    assert(next == contents.drop_first());
                    assert((seq![contents[0]] + delivered_reads(next, capacity, rest)) + run(
                        next,
                        capacity,
                        rest,
                    ) =~= seq![contents[0]] + (delivered_reads(next, capacity, rest) + run(
                        next,
                        capacity,
                        rest,
                    )));
                    assert(seq![contents[0]] + (next + accepted_writes(next, capacity, rest))
                        =~= contents + accepted_writes(next, capacity, rest));
                } else {
                    assert(next == contents);
                }
            },
        }
    }
}

/// Running a concatenated workload is running the halves in turn; what the
/// halves read and accept concatenates likewise.
proof fn lemma_run_append<T>(contents: Seq<T>, capacity: nat, front: Seq<BufferOp<T>>, back: Seq<
    BufferOp<T>,
>)
    ensures
        run(contents, capacity, front + back) == run(
            run(contents, capacity, front),
            capacity,
            back,
        ),
        delivered_reads(contents, capacity, front + back) == delivered_reads(
            contents,
            capacity,
            front,
        ) + delivered_reads(run(contents, capacity, front), capacity, back),
    decreases front.len(),
{
    if front.len() == 0 {
        assert(front + back =~= back);
        assert(delivered_reads(contents, capacity, front) + delivered_reads(
            run(contents, capacity, front),
            capacity,
            back,
        ) =~= delivered_reads(contents, capacity, back));
    } else {
        let next = apply_op(contents, capacity, front[0]);
        lemma_run_append(next, capacity, front.drop_first(), back);
        assert((front + back).drop_first() =~= front.drop_first() + back);
        match front[0] {
            BufferOp::Read => {
                if contents.len() > 0 {
                    assert(seq![contents[0]] + (delivered_reads(next, capacity, front.drop_first())
                        + delivered_reads(run(next, capacity, front.drop_first()), capacity, back))
                        =~= (seq![contents[0]] + delivered_reads(next, capacity, front.drop_first()))
                        + delivered_reads(run(next, capacity, front.drop_first()), capacity, back));
                }
            },
            BufferOp::Write(element) => {},
        }
    }
}

/// A workload of writes alone reads nothing, and — as long as it fits beside
/// what the buffer already holds — is accepted in full, appending its values
/// in order.
proof fn lemma_write_run<T>(contents: Seq<T>, capacity: nat, values: Seq<T>)
    requires
        contents.len() + values.len() <= capacity,
    ensures
        all_writes_accepted(contents, capacity, write_ops(values)),
        run(contents, capacity, write_ops(values)) == contents + values,
        delivered_reads(contents, capacity, write_ops(values)) == Seq::<T>::empty(),
    decreases values.len(),
{
    let ops = write_ops(values);
    if values.len() == 0 {
        assert(contents + values =~= contents);
    } else {
        let next = contents.push(values[0]);
        assert(ops[0] == BufferOp::Write(values[0]));
        assert(apply_op(contents, capacity, ops[0]) == next);
        lemma_write_run(next, capacity, values.drop_first());
        assert(ops.drop_first() =~= write_ops(values.drop_first()));
        assert(next + values.drop_first() =~= contents + values);
    }
}

/// A workload of reads alone writes nothing and, as long as enough elements
/// are stored, delivers the oldest elements in order and leaves the rest.
proof fn lemma_read_run<T>(contents: Seq<T>, capacity: nat, n: nat)
    requires
        n <= contents.len(),
    ensures
        run(contents, capacity, read_ops::<T>(n)) == contents.skip(n as int),
        delivered_reads(contents, capacity, read_ops::<T>(n)) == contents.take(n as int),
    decreases n,
{
    let ops = read_ops::<T>(n);
    if n == 0 {
        assert(contents.skip(0) =~= contents);
        assert(contents.take(0) =~= Seq::<T>::empty());
    } else {
        let next = contents.drop_first();
        assert(ops[0] == BufferOp::<T>::Read);
        lemma_read_run(next, capacity, (n - 1) as nat);
        assert(ops.drop_first() =~= read_ops::<T>((n - 1) as nat));
        assert(next.skip(n - 1) =~= contents.skip(n as int));
        assert(seq![contents[0]] + next.take(n - 1) =~= contents.take(n as int));
    }
}

/// When every write of a workload is accepted, the accepted writes are all
/// the attempted ones.
proof fn lemma_accepted_is_attempted<T>(contents: Seq<T>, capacity: nat, ops: Seq<BufferOp<T>>)
    requires
        all_writes_accepted(contents, capacity, ops),
    ensures
        accepted_writes(contents, capacity, ops) == attempted_writes(ops),
    decreases ops.len(),
{
    if ops.len() > 0 {
        lemma_accepted_is_attempted(apply_op(contents, capacity, ops[0]), capacity, ops.drop_first());
    }
}

/// Capacity bound: starting empty, a buffer of capacity `N` accepts `N`
/// writes in full, then holds exactly the `N` written values, and the next
/// write is refused with `FullBuffer`.
pub proof fn capacity_bound<T>(capacity: nat, values: Seq<T>)
    requires
        values.len() == capacity,
    ensures
        all_writes_accepted(Seq::empty(), capacity, write_ops(values)),
        run(Seq::empty(), capacity, write_ops(values)) == values,
        write_outcome::<T>(run(Seq::empty(), capacity, write_ops(values)), capacity) == Result::<
            (),
            Error,
        >::Err(Error::FullBuffer),
{
    lemma_write_run(Seq::empty(), capacity, values);
    assert(Seq::<T>::empty() + values =~= values);
}

/// Empty bound: a buffer holding nothing — as a freshly constructed one
/// does — refuses its first read with `EmptyBuffer` and stays unchanged.
pub proof fn empty_bound<T>(contents: Seq<T>)
    requires
        contents.len() == 0,
    ensures
        read_outcome::<T>(contents) == Result::<T, Error>::Err(Error::EmptyBuffer),
        contents_after_read::<T>(contents) == contents,
{
}

/// First-in-first-out order: starting empty, writing at most `capacity`
/// values and then reading them all back delivers exactly those values, in
/// the order they were written, and leaves the buffer empty.
pub proof fn fifo_order<T>(capacity: nat, values: Seq<T>)
    requires
        values.len() <= capacity,
    ensures
        delivered_reads(
            Seq::empty(),
            capacity,
            write_ops(values) + read_ops::<T>(values.len()),
        ) == values,
        run(Seq::empty(), capacity, write_ops(values) + read_ops::<T>(values.len())) == Seq::<
            T,
        >::empty(),
{
    let filled = Seq::<T>::empty() + values;
    lemma_run_append(Seq::empty(), capacity, write_ops(values), read_ops::<T>(values.len()));
    lemma_write_run(Seq::empty(), capacity, values);
    lemma_read_run(filled, capacity, values.len());
    assert(filled =~= values);
    assert(filled.take(values.len() as int) =~= values);
    assert(filled.skip(values.len() as int) =~= Seq::<T>::empty());
    assert(Seq::<T>::empty() + values =~= values);
}

/// Round trip under interleaving: over any workload that never exceeds the
/// capacity in outstanding elements (so every write is accepted), the values
/// read are exactly the first values written, in write order, and the values
/// still unread are exactly the remaining written values — so every written
/// element is read exactly once, in order, by reading on until the buffer is
/// empty, and no read ever delivers anything else.
pub proof fn round_trip<T>(capacity: nat, ops: Seq<BufferOp<T>>)
    requires
        all_writes_accepted(Seq::empty(), capacity, ops),
    ensures
        delivered_reads(Seq::empty(), capacity, ops) + run(Seq::empty(), capacity, ops)
            == attempted_writes(ops),
        delivered_reads(Seq::empty(), capacity, ops) == attempted_writes(ops).take(
            delivered_reads(Seq::empty(), capacity, ops).len() as int,
        ),
        run(Seq::empty(), capacity, ops) == attempted_writes(ops).skip(
            delivered_reads(Seq::empty(), capacity, ops).len() as int,
        ),
{
    conservation(Seq::empty(), capacity, ops);
    lemma_accepted_is_attempted(Seq::empty(), capacity, ops);
    let reads = delivered_reads(Seq::empty(), capacity, ops);
    let unread = run(Seq::empty(), capacity, ops);
    let writes = attempted_writes(ops);
    assert(Seq::<T>::empty() + accepted_writes(Seq::empty(), capacity, ops) =~= accepted_writes(
        Seq::empty(),
        capacity,
        ops,
    ));
    assert(reads =~= writes.take(reads.len() as int));
    assert(unread =~= writes.skip(reads.len() as int));
}

/// Overwrite eviction: on a full buffer of positive capacity holding
/// `contents`, an overwrite discards the oldest element, keeps the rest in
/// order, and appends the new element — reading everything back delivers the
/// old elements but the first, then the new one, and the evicted element is
/// never observable again.
pub proof fn overwrite_eviction<T>(capacity: nat, contents: Seq<T>, element: T)
    requires
        contents.len() == capacity,
        capacity > 0,
    ensures
        contents_after_overwrite(contents, capacity, element) == contents.drop_first().push(
            element,
        ),
        delivered_reads(
            contents_after_overwrite(contents, capacity, element),
            capacity,
            read_ops::<T>(capacity),
        ) == contents.drop_first().push(element),
        run(
            contents_after_overwrite(contents, capacity, element),
            capacity,
            read_ops::<T>(capacity),
        ) == Seq::<T>::empty(),
{
    let after = contents_after_overwrite(contents, capacity, element);
    lemma_read_run(after, capacity, capacity);
    assert(after.take(capacity as int) =~= after);
    assert(after.skip(capacity as int) =~= Seq::<T>::empty());
}

/// Overwrite on a non-full buffer is exactly a write: both accept the
/// element and leave the very same contents, so every later read delivers
/// the same values.
pub proof fn overwrite_matches_write<T>(capacity: nat, contents: Seq<T>, element: T)
    requires
        contents.len() < capacity,
    ensures
        contents_after_overwrite(contents, capacity, element) == contents_after_write(
            contents,
            capacity,
            element,
        ),
        write_outcome::<T>(contents, capacity) == Result::<(), Error>::Ok(()),
{
}

/// Clear idempotence: after a clear nothing is stored, whatever was stored
/// before, so the next read is refused with `EmptyBuffer`; clearing twice
/// leaves the same state as clearing once.
pub proof fn clear_idempotent<T>(contents: Seq<T>)
    ensures
        contents_after_clear::<T>(contents) == Seq::<T>::empty(),
        read_outcome::<T>(contents_after_clear(contents)) == Result::<T, Error>::Err(
            Error::EmptyBuffer,
        ),
        contents_after_clear::<T>(contents_after_clear(contents)) == contents_after_clear::<T>(
            contents,
        ),
{
}

} // verus!
