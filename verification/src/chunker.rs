//! The first stage: cutting the input into chunks.
//!
//! Lines are taken one at a time. As soon as the lines held weigh as many
//! bytes as the threshold, or more, they leave together as one chunk. What is
//! held when the input ends leaves as a last, smaller chunk.

use crate::text::{
    byte_len, chunk_texts, concat, lemma_concat_push, lemma_total_bytes_add,
    lemma_total_bytes_push, line_size, texts, total_bytes,
};
use vstd::prelude::*;

verus! {

/// The chunks completed and the lines still held after `lines` were taken in,
/// with chunks of `threshold` bytes.
pub open spec fn chunking(lines: Seq<Seq<char>>, threshold: nat) -> (
    Seq<Seq<Seq<char>>>,
    Seq<Seq<char>>,
)
    decreases lines.len(),
{
    if lines.len() == 0 {
        (Seq::empty(), Seq::empty())
    } else {
        let (done, held) = chunking(lines.drop_last(), threshold);
        let grown = held.push(lines.last());
        if total_bytes(grown) >= threshold {
            (done.push(grown), Seq::empty())
        } else {
            (done, grown)
        }
    }
}

/// The chunks that `lines` are cut into: those completed, and then the lines
/// left over, if there are any.
pub open spec fn chunks_of(lines: Seq<Seq<char>>, threshold: nat) -> Seq<Seq<Seq<char>>> {
    let (done, held) = chunking(lines, threshold);
    if held.len() > 0 {
        done.push(held)
    } else {
        done
    }
}

/// `bytes` divided by `threshold`, rounded up.
pub open spec fn chunks_needed(bytes: nat, threshold: nat) -> int {
    (bytes + threshold - 1) / (threshold as int)
}

/// The state of the first stage: the lines held for the next chunk.
pub struct Chunker {
    threshold: usize,
    lines: Vec<String>,
    size: usize,
}

impl Chunker {
    /// The number of bytes at which the lines held leave as a chunk.
    pub closed spec fn spec_threshold(&self) -> usize {
        self.threshold
    }

    /// The lines held, oldest first.
    pub closed spec fn pending(&self) -> Seq<Seq<char>> {
        texts(self.lines@)
    }

    /// The invariant of the state: the lines held are fewer bytes than the
    /// threshold, and their size is known.
    pub closed spec fn wf(&self) -> bool {
        &&& self.size == total_bytes(texts(self.lines@))
        &&& self.lines@.len() == 0 || self.size < self.threshold
    }

    /// Between two calls, the lines held are fewer bytes than the threshold.
    pub proof fn lemma_pending_is_small(&self)
        requires
            self.wf(),
        ensures
            self.pending().len() == 0 || total_bytes(self.pending()) < self.spec_threshold(),
    {
    }

    /// A chunker that holds no line.
    pub fn new(threshold: usize) -> (chunker: Chunker)
        ensures
            chunker.wf(),
            chunker.spec_threshold() == threshold,
            chunker.pending() == Seq::<Seq<char>>::empty(),
    {
        let chunker = Chunker { threshold, lines: Vec::new(), size: 0 };
        assert(chunker.pending() =~= Seq::<Seq<char>>::empty());
        chunker
    }

    /// The number of bytes at which the lines held leave as a chunk.
    #[verifier::when_used_as_spec(spec_threshold)]
    pub fn threshold(&self) -> (threshold: usize)
        ensures
            threshold == self.spec_threshold(),
    {
        self.threshold
    }

    /// Takes in the next line. Where the lines held then reach the threshold,
    /// they are returned as a chunk, in the order in which they came, and none
    /// is held any more.
    pub fn push(&mut self, line: String) -> (full: Option<Vec<String>>)
        requires
            old(self).wf(),
        ensures
            final(self).wf(),
            final(self).spec_threshold() == old(self).spec_threshold(),
            total_bytes(old(self).pending().push(line@)) >= old(self).spec_threshold() ==> {
                &&& full matches Some(chunk)
                &&& texts(chunk@) == old(self).pending().push(line@)
                &&& final(self).pending() == Seq::<Seq<char>>::empty()
            },
            total_bytes(old(self).pending().push(line@)) < old(self).spec_threshold() ==> {
                &&& full is None
                &&& final(self).pending() == old(self).pending().push(line@)
            },
    {
        let added = line_size(&line);
        let ghost grown = self.pending().push(line@);
        proof {
            lemma_total_bytes_push(self.pending(), line@);
        }
        self.lines.push(line);
        assert(texts(self.lines@) =~= grown);
        let full = if added > usize::MAX - self.size {
            true
        } else {
            self.size = self.size + added;
            self.size >= self.threshold
        };
        if full {
            let mut chunk: Vec<String> = Vec::new();
            core::mem::swap(&mut chunk, &mut self.lines);
            self.size = 0;
            assert(texts(self.lines@) =~= Seq::<Seq<char>>::empty());
            Some(chunk)
        } else {
            None
        }
    }

    /// Ends the input. The lines still held are returned as the last chunk;
    /// where none is held, there is no such chunk.
    pub fn finish(&mut self) -> (last: Option<Vec<String>>)
        requires
            old(self).wf(),
        ensures
            final(self).wf(),
            final(self).spec_threshold() == old(self).spec_threshold(),
            final(self).pending() == Seq::<Seq<char>>::empty(),
            old(self).pending().len() > 0 ==> {
                &&& last matches Some(chunk)
                &&& texts(chunk@) == old(self).pending()
            },
            old(self).pending().len() == 0 ==> last is None,
    {
        if self.lines.len() == 0 {
            assert(texts(self.lines@) =~= Seq::<Seq<char>>::empty());
            return None;
        }
        let mut chunk: Vec<String> = Vec::new();
        core::mem::swap(&mut chunk, &mut self.lines);
        self.size = 0;
        assert(texts(self.lines@) =~= Seq::<Seq<char>>::empty());
        Some(chunk)
    }
}

/// Cuts `lines` into chunks of `threshold` bytes: every chunk but the last
/// ends with the line that made it reach the threshold.
pub fn split_into_chunks(lines: &Vec<String>, threshold: usize) -> (chunks: Vec<Vec<String>>)
    ensures
        chunk_texts(chunks@) == chunks_of(texts(lines@), threshold as nat),
{
    let mut chunker = Chunker::new(threshold);
    let mut chunks: Vec<Vec<String>> = Vec::new();
    let mut i: usize = 0;
    assert(texts(lines@.take(0)) =~= Seq::<Seq<char>>::empty());
    assert(chunk_texts(chunks@) =~= Seq::<Seq<Seq<char>>>::empty());
    while i < lines.len()
        invariant
            i <= lines@.len(),
            chunker.wf(),
            chunker.spec_threshold() == threshold,
            chunk_texts(chunks@) == chunking(texts(lines@.take(i as int)), threshold as nat).0,
            chunker.pending() == chunking(texts(lines@.take(i as int)), threshold as nat).1,
        decreases lines@.len() - i,
    {
        let line = lines[i].clone();
        let ghost seen = texts(lines@.take(i as int));
        let ghost now = texts(lines@.take(i + 1));
        let ghost before = chunks@;
        assert(now.drop_last() =~= seen);
        assert(now.last() == line@);
        if let Some(chunk) = chunker.push(line) {
            chunks.push(chunk);
            assert(chunk_texts(chunks@) =~= chunk_texts(before).push(texts(chunk@)));
        }
        i += 1;
    }
    assert(lines@.take(i as int) =~= lines@);
    let ghost before = chunks@;
    if let Some(chunk) = chunker.finish() {
        chunks.push(chunk);
        assert(chunk_texts(chunks@) =~= chunk_texts(before).push(texts(chunk@)));
    }
    chunks
}

/// What holds of the chunks completed and of the lines held at any moment:
/// together they are the lines taken in, in order; a completed chunk reaches
/// the threshold only with its last line; the lines held do not reach it.
pub proof fn lemma_chunking(lines: Seq<Seq<char>>, threshold: nat)
    ensures
        concat(chunking(lines, threshold).0) + chunking(lines, threshold).1 == lines,
        forall|i: int|
            0 <= i < chunking(lines, threshold).0.len() ==> {
                let chunk = #[trigger] chunking(lines, threshold).0[i];
                &&& chunk.len() > 0
                &&& total_bytes(chunk) >= threshold
                &&& chunk.len() == 1 || total_bytes(chunk.drop_last()) < threshold
            },
        chunking(lines, threshold).1.len() == 0 || total_bytes(chunking(lines, threshold).1)
            < threshold,
    decreases lines.len(),
{
    if lines.len() == 0 {
        assert(concat(chunking(lines, threshold).0) + chunking(lines, threshold).1 =~= lines);
    } else {
        let (done, held) = chunking(lines.drop_last(), threshold);
        lemma_chunking(lines.drop_last(), threshold);
        let grown = held.push(lines.last());
        assert(grown.drop_last() =~= held);
        assert(concat(done) + grown =~= lines) by {
            assert(concat(done) + grown =~= (concat(done) + held).push(lines.last()));
            assert(lines.drop_last().push(lines.last()) =~= lines);
        }
        if total_bytes(grown) >= threshold {
            lemma_concat_push(done, grown);
            assert(concat(done.push(grown)) + Seq::<Seq<char>>::empty() =~= lines);
        }
    }
}

/// Cutting changes no line and no order: the chunks, one after the other, are
/// the input. No chunk is empty; every chunk but the last reaches the
/// threshold, and each one only with its last line.
pub proof fn lemma_chunks_partition(lines: Seq<Seq<char>>, threshold: nat)
    ensures
        concat(chunks_of(lines, threshold)) == lines,
        forall|i: int|
            0 <= i < chunks_of(lines, threshold).len() ==> {
                let chunk = #[trigger] chunks_of(lines, threshold)[i];
                &&& chunk.len() > 0
                &&& i < chunks_of(lines, threshold).len() - 1 ==> total_bytes(chunk) >= threshold
                &&& chunk.len() == 1 || total_bytes(chunk.drop_last()) < threshold
            },
{
    let (done, held) = chunking(lines, threshold);
    lemma_chunking(lines, threshold);
    if held.len() > 0 {
        lemma_concat_push(done, held);
        lemma_total_bytes_push(held.drop_last(), held.last());
        assert(held.drop_last().push(held.last()) =~= held);
        assert forall|i: int| 0 <= i < chunks_of(lines, threshold).len() implies {
            let chunk = #[trigger] chunks_of(lines, threshold)[i];
            &&& chunk.len() > 0
            &&& i < chunks_of(lines, threshold).len() - 1 ==> total_bytes(chunk) >= threshold
            &&& chunk.len() == 1 || total_bytes(chunk.drop_last()) < threshold
        } by {
            if i < done.len() {
                assert(chunks_of(lines, threshold)[i] == done[i]);
            }
        }
    } else {
        assert(concat(done) + held =~= concat(done));
    }
}

/// Chunks that each reach the threshold weigh, together, at least as many
/// thresholds as there are chunks.
proof fn lemma_full_chunks_weigh(done: Seq<Seq<Seq<char>>>, threshold: nat)
    requires
        forall|i: int| 0 <= i < done.len() ==> total_bytes(#[trigger] done[i]) >= threshold,
    ensures
        total_bytes(concat(done)) >= done.len() * threshold,
    decreases done.len(),
{
    if done.len() > 0 {
        lemma_full_chunks_weigh(done.drop_last(), threshold);
        lemma_total_bytes_add(concat(done.drop_last()), done.last());
        assert(done.len() * threshold == (done.len() - 1) * threshold + threshold)
            by (nonlinear_arith);
    }
}

/// Lines of at least one byte each weigh at least one byte where there is one.
proof fn lemma_lines_weigh(lines: Seq<Seq<char>>)
    requires
        forall|i: int| 0 <= i < lines.len() ==> byte_len(#[trigger] lines[i]) > 0,
    ensures
        total_bytes(lines) >= lines.len(),
    decreases lines.len(),
{
    if lines.len() > 0 {
        lemma_lines_weigh(lines.drop_last());
    }
}

/// The number of chunks, for lines of at least one byte each and a threshold
/// above zero. No line gives no chunk. Otherwise there is at least one chunk,
/// and never more than the bytes of the input divided by the threshold,
/// rounded up. That bound is met exactly where the input is no larger than as
/// many thresholds as there are chunks; a chunk that runs over the threshold
/// with its last line can make them fewer.
pub proof fn lemma_chunk_count(lines: Seq<Seq<char>>, threshold: nat)
    requires
        threshold > 0,
        forall|i: int| 0 <= i < lines.len() ==> byte_len(#[trigger] lines[i]) > 0,
    ensures
        total_bytes(lines) == 0 <==> lines.len() == 0,
        total_bytes(lines) == 0 ==> chunks_of(lines, threshold).len() == 0,
        total_bytes(lines) > 0 ==> 1 <= chunks_of(lines, threshold).len() <= chunks_needed(
            total_bytes(lines),
            threshold,
        ),
        chunks_of(lines, threshold).len() == chunks_needed(total_bytes(lines), threshold)
            <==> total_bytes(lines) <= chunks_of(lines, threshold).len() * threshold,
{
    let (done, held) = chunking(lines, threshold);
    let bytes = total_bytes(lines);
    let count = chunks_of(lines, threshold).len();
    lemma_chunking(lines, threshold);
    lemma_lines_weigh(lines);
    lemma_full_chunks_weigh(done, threshold);
    lemma_total_bytes_add(concat(done), held);
    assert(bytes == total_bytes(concat(done)) + total_bytes(held));
    if lines.len() == 0 {
        assert(bytes == 0);
        assert(count == 0);
        assert(chunks_needed(bytes, threshold) == 0) by (nonlinear_arith)
            requires
                bytes == 0,
                threshold > 0,
        ;
        assert(count * threshold == 0) by (nonlinear_arith)
            requires
                count == 0,
        ;
    } else {
        assert(bytes > 0);
        if held.len() > 0 {
            assert forall|i: int| 0 <= i < held.len() implies byte_len(#[trigger] held[i])
                > 0 by {
                assert(held[i] == lines[concat(done).len() + i]);
            }
            lemma_lines_weigh(held);
        } else {
            assert(done.len() > 0) by {
                if done.len() == 0 {
                    assert(concat(done) + held =~= Seq::<Seq<char>>::empty());
                }
            }
        }
        // Either way the chunks before the last weigh less than the input.
        assert((count - 1) * threshold < bytes) by (nonlinear_arith)
            requires
                threshold > 0,
                count >= 1,
                held.len() > 0 ==> count == done.len() + 1 && done.len() * threshold < bytes,
                held.len() == 0 ==> count == done.len() && done.len() * threshold <= bytes,
        ;
        lemma_rounded_up(bytes, threshold, count as int);
    }
}

/// `count` is `bytes` divided by `threshold`, rounded up, exactly if `bytes`
/// lies above `count - 1` thresholds and not above `count` of them.
proof fn lemma_rounded_up(bytes: nat, threshold: nat, count: int)
    requires
        threshold > 0,
        bytes > 0,
        count >= 1,
        (count - 1) * threshold < bytes,
    ensures
        count <= chunks_needed(bytes, threshold),
        count == chunks_needed(bytes, threshold) <==> bytes <= count * threshold,
{
    let t = threshold as int;
    let q = (bytes + t - 1) / t;
    let r = (bytes + t - 1) % t;
    assert(bytes + t - 1 == q * t + r && 0 <= r < t) by (nonlinear_arith)
        requires
            t > 0,
            q == (bytes + t - 1) / t,
            r == (bytes + t - 1) % t,
    ;
    assert(count <= q) by (nonlinear_arith)
        requires
            (count - 1) * t < bytes,
            bytes + t - 1 == q * t + r,
            0 <= r < t,
            t > 0,
    ;
    assert(count == q <==> bytes <= count * t) by (nonlinear_arith)
        requires
            count <= q,
            bytes + t - 1 == q * t + r,
            0 <= r < t,
            t > 0,
    ;
}

} // verus!
