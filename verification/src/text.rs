//! Lines as the contracts see them.
//!
//! A line is the sequence of characters that was read, terminator included. It
//! is never parsed: the library only moves it, copies it and measures it in
//! bytes.

use vstd::multiset::{lemma_multiset_empty_len, Multiset};
use vstd::prelude::*;
use vstd::seq_lib::{to_multiset_build, to_multiset_contains, to_multiset_len, to_multiset_remove};
use vstd::utf8::encode_utf8;

verus! {

/// The characters of each line of `lines`, in order.
pub open spec fn texts(lines: Seq<String>) -> Seq<Seq<char>> {
    lines.map_values(|line: String| line@)
}

/// The characters of each line of each chunk of `chunks`, in order.
pub open spec fn chunk_texts(chunks: Seq<Vec<String>>) -> Seq<Seq<Seq<char>>> {
    chunks.map_values(|chunk: Vec<String>| texts(chunk@))
}

/// The number of bytes that `line` takes when written out.
pub open spec fn byte_len(line: Seq<char>) -> nat {
    encode_utf8(line).len()
}

/// The number of bytes that `lines` take together.
pub open spec fn total_bytes(lines: Seq<Seq<char>>) -> nat
    decreases lines.len(),
{
    if lines.len() == 0 {
        0
    } else {
        total_bytes(lines.drop_last()) + byte_len(lines.last())
    }
}

/// The lines of all `chunks`, one chunk after the other.
pub open spec fn concat(chunks: Seq<Seq<Seq<char>>>) -> Seq<Seq<char>>
    decreases chunks.len(),
{
    if chunks.len() == 0 {
        Seq::empty()
    } else {
        concat(chunks.drop_last()) + chunks.last()
    }
}

/// `a` and `b` hold the same lines, each as often in the one as in the other;
/// the order alone may differ.
pub open spec fn same_lines(a: Seq<Seq<char>>, b: Seq<Seq<char>>) -> bool {
    a.to_multiset() == b.to_multiset()
}

/// The size of `line` in bytes.
pub fn line_size(line: &String) -> (n: usize)
    ensures
        n == byte_len(line@),
{
    line.as_str().as_bytes().len()
}

/// Appending one line adds its bytes to the total.
pub proof fn lemma_total_bytes_push(lines: Seq<Seq<char>>, line: Seq<char>)
    ensures
        total_bytes(lines.push(line)) == total_bytes(lines) + byte_len(line),
{
    assert(lines.push(line).drop_last() =~= lines);
}

/// The bytes of two runs of lines add up.
pub proof fn lemma_total_bytes_add(front: Seq<Seq<char>>, back: Seq<Seq<char>>)
    ensures
        total_bytes(front + back) == total_bytes(front) + total_bytes(back),
    decreases back.len(),
{
    if back.len() == 0 {
        assert(front + back =~= front);
    } else {
        lemma_total_bytes_add(front, back.drop_last());
        assert((front + back).drop_last() =~= front + back.drop_last());
    }
}

/// Where there is no line, none is counted.
pub proof fn lemma_no_lines(lines: Seq<Seq<char>>)
    requires
        lines.len() == 0,
    ensures
        lines.to_multiset() == Multiset::<Seq<char>>::empty(),
{
    to_multiset_len(lines);
    lemma_multiset_empty_len(lines.to_multiset());
}

/// Sequences that hold the same lines hold as many.
pub proof fn lemma_same_lines_len(a: Seq<Seq<char>>, b: Seq<Seq<char>>)
    requires
        same_lines(a, b),
    ensures
        a.len() == b.len(),
{
    to_multiset_len(a);
    to_multiset_len(b);
}

/// Appending one line counts that line once more.
pub proof fn lemma_line_added(lines: Seq<Seq<char>>, line: Seq<char>)
    ensures
        lines.push(line).to_multiset() == lines.to_multiset().insert(line),
{
    to_multiset_build(lines, line);
}

/// Taking one line out takes its bytes off the total.
pub proof fn lemma_total_bytes_remove(lines: Seq<Seq<char>>, at: int)
    requires
        0 <= at < lines.len(),
    ensures
        total_bytes(lines) == total_bytes(lines.remove(at)) + byte_len(lines[at]),
{
    let front = lines.take(at);
    let back = lines.skip(at + 1);
    assert(lines =~= front.push(lines[at]) + back);
    assert(lines.remove(at) =~= front + back);
    lemma_total_bytes_add(front.push(lines[at]), back);
    lemma_total_bytes_push(front, lines[at]);
    lemma_total_bytes_add(front, back);
}

/// The same lines in another order weigh the same.
pub proof fn lemma_same_lines_same_bytes(a: Seq<Seq<char>>, b: Seq<Seq<char>>)
    requires
        same_lines(a, b),
    ensures
        total_bytes(a) == total_bytes(b),
    decreases a.len(),
{
    lemma_same_lines_len(a, b);
    if a.len() > 0 {
        let line = a.last();
        assert(a.drop_last().push(line) =~= a);
        to_multiset_build(a.drop_last(), line);
        assert(b.to_multiset().count(line) > 0);
        to_multiset_contains(b, line);
        let at = choose|at: int| 0 <= at < b.len() && b[at] == line;
        to_multiset_remove(b, at);
        assert(a.drop_last().to_multiset() =~= b.remove(at).to_multiset());
        lemma_same_lines_same_bytes(a.drop_last(), b.remove(at));
        lemma_total_bytes_remove(b, at);
    }
}

/// Appending one chunk appends its lines.
pub proof fn lemma_concat_push(chunks: Seq<Seq<Seq<char>>>, chunk: Seq<Seq<char>>)
    ensures
        concat(chunks.push(chunk)) == concat(chunks) + chunk,
{
    assert(chunks.push(chunk).drop_last() =~= chunks);
}

} // verus!
