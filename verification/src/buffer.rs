//! Batching of writes.
//!
//! Lines on their way to a file are gathered as bytes. As soon as the bytes
//! held are as many as the capacity, or more, they leave together as one
//! batch, to be written with one call.

use crate::text::{texts, total_bytes};
use vstd::prelude::*;
use vstd::utf8::encode_utf8;

verus! {

/// The bytes of all `lines`, one line after the other.
pub open spec fn written(lines: Seq<Seq<char>>) -> Seq<u8>
    decreases lines.len(),
{
    if lines.len() == 0 {
        Seq::empty()
    } else {
        written(lines.drop_last()) + encode_utf8(lines.last())
    }
}

/// The bytes of all `batches`, one batch after the other.
pub open spec fn joined(batches: Seq<Seq<u8>>) -> Seq<u8>
    decreases batches.len(),
{
    if batches.len() == 0 {
        Seq::empty()
    } else {
        joined(batches.drop_last()) + batches.last()
    }
}

/// The batches completed and the bytes still held after `lines` were taken in,
/// with batches of `capacity` bytes.
pub open spec fn batching(lines: Seq<Seq<char>>, capacity: nat) -> (Seq<Seq<u8>>, Seq<u8>)
    decreases lines.len(),
{
    if lines.len() == 0 {
        (Seq::empty(), Seq::empty())
    } else {
        let (done, held) = batching(lines.drop_last(), capacity);
        let grown = held + encode_utf8(lines.last());
        if grown.len() >= capacity {
            (done.push(grown), Seq::empty())
        } else {
            (done, grown)
        }
    }
}

/// The batches in which `lines` are written: those completed, and then the
/// bytes left over, if there are any.
pub open spec fn batches_of(lines: Seq<Seq<char>>, capacity: nat) -> Seq<Seq<u8>> {
    let (done, held) = batching(lines, capacity);
    if held.len() > 0 {
        done.push(held)
    } else {
        done
    }
}

/// The views of `batches`, in order.
pub open spec fn batch_views(batches: Seq<Vec<u8>>) -> Seq<Seq<u8>> {
    batches.map_values(|batch: Vec<u8>| batch@)
}

/// The bytes held back for the next write.
pub struct WriteBuffer {
    capacity: usize,
    bytes: Vec<u8>,
}

impl WriteBuffer {
    /// The number of bytes at which the bytes held leave as a batch.
    pub closed spec fn spec_capacity(&self) -> usize {
        self.capacity
    }

    /// The bytes held, oldest first.
    pub closed spec fn pending(&self) -> Seq<u8> {
        self.bytes@
    }

    /// A buffer that holds no byte.
    pub fn new(capacity: usize) -> (buffer: WriteBuffer)
        ensures
            buffer.spec_capacity() == capacity,
            buffer.pending() == Seq::<u8>::empty(),
    {
        WriteBuffer { capacity, bytes: Vec::new() }
    }

    /// The number of bytes at which the bytes held leave as a batch.
    #[verifier::when_used_as_spec(spec_capacity)]
    pub fn capacity(&self) -> (capacity: usize)
        ensures
            capacity == self.spec_capacity(),
    {
        self.capacity
    }

    /// Takes in the bytes of `line`. Where the bytes held then reach the
    /// capacity, they are returned as a batch and none is held any more.
    pub fn push(&mut self, line: &str) -> (full: Option<Vec<u8>>)
        ensures
            final(self).spec_capacity() == old(self).spec_capacity(),
            (old(self).pending() + encode_utf8(line@)).len() >= old(self).spec_capacity() ==> {
                &&& full matches Some(batch)
                &&& batch@ == old(self).pending() + encode_utf8(line@)
                &&& final(self).pending() == Seq::<u8>::empty()
            },
            (old(self).pending() + encode_utf8(line@)).len() < old(self).spec_capacity() ==> {
                &&& full is None
                &&& final(self).pending() == old(self).pending() + encode_utf8(line@)
            },
    {
        self.bytes.extend_from_slice(line.as_bytes());
        assert(self.bytes@ =~= old(self).bytes@ + encode_utf8(line@));
        if self.bytes.len() >= self.capacity {
            let mut batch: Vec<u8> = Vec::new();
            core::mem::swap(&mut batch, &mut self.bytes);
            Some(batch)
        } else {
            None
        }
    }

    /// Ends the output. The bytes still held are returned as the last batch;
    /// where none is held, there is no such batch.
    pub fn finish(&mut self) -> (last: Option<Vec<u8>>)
        ensures
            final(self).spec_capacity() == old(self).spec_capacity(),
            final(self).pending() == Seq::<u8>::empty(),
            old(self).pending().len() > 0 ==> {
                &&& last matches Some(batch)
                &&& batch@ == old(self).pending()
            },
            old(self).pending().len() == 0 ==> last is None,
    {
        if self.bytes.len() == 0 {
            return None;
        }
        let mut batch: Vec<u8> = Vec::new();
        core::mem::swap(&mut batch, &mut self.bytes);
        Some(batch)
    }
}

/// The batches in which `lines` go to a file, with batches of `capacity`
/// bytes: every batch but the last ends with the line that made it reach the
/// capacity.
pub fn batch_lines(lines: &Vec<String>, capacity: usize) -> (batches: Vec<Vec<u8>>)
    ensures
        batch_views(batches@) == batches_of(texts(lines@), capacity as nat),
{
    let mut buffer = WriteBuffer::new(capacity);
    let mut batches: Vec<Vec<u8>> = Vec::new();
    let mut i: usize = 0;
    assert(texts(lines@.take(0)) =~= Seq::<Seq<char>>::empty());
    assert(batch_views(batches@) =~= Seq::<Seq<u8>>::empty());
    while i < lines.len()
        invariant
            i <= lines@.len(),
            buffer.spec_capacity() == capacity,
            batch_views(batches@) == batching(texts(lines@.take(i as int)), capacity as nat).0,
            buffer.pending() == batching(texts(lines@.take(i as int)), capacity as nat).1,
        decreases lines@.len() - i,
    {
        let ghost seen = texts(lines@.take(i as int));
        let ghost now = texts(lines@.take(i + 1));
        let ghost before = batches@;
        assert(now.drop_last() =~= seen);
        assert(now.last() == lines@[i as int]@);
        if let Some(batch) = buffer.push(lines[i].as_str()) {
            batches.push(batch);
            assert(batch_views(batches@) =~= batch_views(before).push(batch@));
        }
        i += 1;
    }
    assert(lines@.take(i as int) =~= lines@);
    let ghost before = batches@;
    if let Some(batch) = buffer.finish() {
        batches.push(batch);
        assert(batch_views(batches@) =~= batch_views(before).push(batch@));
    }
    batches
}

/// The lines are written in as many bytes as they weigh.
pub proof fn lemma_written_len(lines: Seq<Seq<char>>)
    ensures
        written(lines).len() == total_bytes(lines),
    decreases lines.len(),
{
    if lines.len() > 0 {
        lemma_written_len(lines.drop_last());
    }
}

/// Appending one batch appends its bytes.
proof fn lemma_joined_push(batches: Seq<Seq<u8>>, batch: Seq<u8>)
    ensures
        joined(batches.push(batch)) == joined(batches) + batch,
{
    assert(batches.push(batch).drop_last() =~= batches);
}

/// What holds of the batches completed and of the bytes held at any moment:
/// together they are the bytes of the lines taken in; a completed batch holds
/// at least as many bytes as the capacity; the bytes held are fewer.
pub proof fn lemma_batching(lines: Seq<Seq<char>>, capacity: nat)
    ensures
        joined(batching(lines, capacity).0) + batching(lines, capacity).1 == written(lines),
        forall|i: int|
            0 <= i < batching(lines, capacity).0.len() ==> (#[trigger] batching(
                lines,
                capacity,
            ).0[i]).len() >= capacity,
        batching(lines, capacity).1.len() == 0 || batching(lines, capacity).1.len() < capacity,
    decreases lines.len(),
{
    if lines.len() == 0 {
        assert(joined(batching(lines, capacity).0) + batching(lines, capacity).1 =~= written(
            lines,
        ));
    } else {
        let (done, held) = batching(lines.drop_last(), capacity);
        lemma_batching(lines.drop_last(), capacity);
        let grown = held + encode_utf8(lines.last());
        assert(joined(done) + grown =~= written(lines));
        if grown.len() >= capacity {
            lemma_joined_push(done, grown);
            assert(joined(done.push(grown)) + Seq::<u8>::empty() =~= written(lines));
        }
    }
}

/// Batching changes no byte and no order: the batches, one after the other,
/// are the bytes of the lines. No batch is empty, and every batch but the last
/// holds at least as many bytes as the capacity.
pub proof fn lemma_batches_join(lines: Seq<Seq<char>>, capacity: nat)
    ensures
        joined(batches_of(lines, capacity)) == written(lines),
        forall|i: int|
            0 <= i < batches_of(lines, capacity).len() - 1 ==> (#[trigger] batches_of(
                lines,
                capacity,
            )[i]).len() >= capacity,
        capacity > 0 ==> forall|i: int|
            0 <= i < batches_of(lines, capacity).len() ==> (#[trigger] batches_of(
                lines,
                capacity,
            )[i]).len() > 0,
{
    let (done, held) = batching(lines, capacity);
    lemma_batching(lines, capacity);
    if held.len() > 0 {
        lemma_joined_push(done, held);
        assert forall|i: int| 0 <= i < batches_of(lines, capacity).len() - 1 implies (
        #[trigger] batches_of(lines, capacity)[i]).len() >= capacity by {
            assert(batches_of(lines, capacity)[i] == done[i]);
        }
        if capacity > 0 {
            assert forall|i: int| 0 <= i < batches_of(lines, capacity).len() implies (
            #[trigger] batches_of(lines, capacity)[i]).len() > 0 by {
                if i < done.len() {
                    assert(batches_of(lines, capacity)[i] == done[i]);
                }
            }
        }
    } else {
        assert(joined(done) + held =~= joined(done));
    }
}

} // verus!
