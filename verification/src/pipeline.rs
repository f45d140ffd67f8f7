//! Both stages on lines held in memory.
//!
//! What a run on files does with reads and writes in between is done here on
//! vectors: the input is cut into chunks, each chunk is permuted, and the
//! chunks are merged by random draws.

use crate::buffer::{lemma_written_len, written};
use crate::chunker::{chunks_of, lemma_chunks_partition, split_into_chunks};
use crate::merger::{lemma_live_cursors, live_cursors, Merger, ReadOutcome};
use crate::shuffle::{arranged, is_permutation, lemma_same_items_arranged, shuffle_chunk};
use crate::text::{
    chunk_texts, concat, lemma_line_added, lemma_no_lines, lemma_same_lines_len,
    lemma_same_lines_same_bytes, same_lines, texts,
};
use rand::rngs::StdRng;
use vstd::prelude::*;
use vstd::seq_lib::lemma_multiset_commutative;

verus! {

/// The number of lines that a merge has yet to give out, where cursor `c` has
/// given out the first `taken[c]` lines of chunk `c`.
spec fn lines_left(chunks: Seq<Seq<Seq<char>>>, taken: Seq<usize>) -> nat
    decreases chunks.len(),
{
    if chunks.len() == 0 {
        0
    } else {
        lines_left(chunks.drop_last(), taken.drop_last()) + (chunks.last().len()
            - taken.last()) as nat
    }
}

/// A step leaves one line fewer to give out.
proof fn lemma_lines_left_step(chunks: Seq<Seq<Seq<char>>>, taken: Seq<usize>, cursor: int)
    requires
        taken.len() == chunks.len(),
        0 <= cursor < chunks.len(),
        taken[cursor] < chunks[cursor].len(),
        taken[cursor] < usize::MAX,
    ensures
        lines_left(chunks, taken) == lines_left(
            chunks,
            taken.update(cursor, (taken[cursor] + 1) as usize),
        ) + 1,
    decreases chunks.len(),
{
    let moved = taken.update(cursor, (taken[cursor] + 1) as usize);
    if cursor == chunks.len() - 1 {
        assert(moved.drop_last() =~= taken.drop_last());
    } else {
        lemma_lines_left_step(chunks.drop_last(), taken.drop_last(), cursor);
        assert(moved.drop_last() =~= taken.drop_last().update(
            cursor,
            (taken[cursor] + 1) as usize,
        ));
    }
}

/// Chunks that hold the same lines one by one hold the same lines together.
proof fn lemma_concat_same_lines(a: Seq<Seq<Seq<char>>>, b: Seq<Seq<Seq<char>>>)
    requires
        a.len() == b.len(),
        forall|c: int| 0 <= c < a.len() ==> same_lines(#[trigger] a[c], b[c]),
    ensures
        same_lines(concat(a), concat(b)),
    decreases a.len(),
{
    if a.len() > 0 {
        lemma_concat_same_lines(a.drop_last(), b.drop_last());
        lemma_multiset_commutative(concat(a.drop_last()), a.last());
        lemma_multiset_commutative(concat(b.drop_last()), b.last());
        assert(same_lines(a[a.len() - 1], b[a.len() - 1]));
    }
}

/// The lines of `out` that came from chunk `c`, in the order in which `out`
/// holds them, where `sources[i]` is the chunk that gave `out[i]`.
pub open spec fn drawn_from(out: Seq<Seq<char>>, sources: Seq<int>, c: int) -> Seq<Seq<char>>
    decreases out.len(),
{
    if out.len() == 0 {
        Seq::empty()
    } else if sources.last() == c {
        drawn_from(out.drop_last(), sources.drop_last(), c).push(out.last())
    } else {
        drawn_from(out.drop_last(), sources.drop_last(), c)
    }
}

/// `out` is `chunks` interleaved: each of its lines came from one of the
/// chunks, as `sources` says, and the lines that came from one chunk are that
/// chunk, whole and in its order.
pub open spec fn is_interleaving(
    out: Seq<Seq<char>>,
    sources: Seq<int>,
    chunks: Seq<Seq<Seq<char>>>,
) -> bool {
    &&& sources.len() == out.len()
    &&& forall|i: int| 0 <= i < sources.len() ==> 0 <= #[trigger] sources[i] < chunks.len()
    &&& forall|c: int| 0 <= c < chunks.len() ==> #[trigger] drawn_from(out, sources, c) == chunks[c]
}

/// Taking the last line off one chunk takes that line, once, off the lines of
/// all chunks.
proof fn lemma_concat_shortened(chunks: Seq<Seq<Seq<char>>>, c: int)
    requires
        0 <= c < chunks.len(),
        chunks[c].len() > 0,
    ensures
        concat(chunks).to_multiset() == concat(
            chunks.update(c, chunks[c].drop_last()),
        ).to_multiset().insert(chunks[c].last()),
    decreases chunks.len(),
{
    let shorter = chunks.update(c, chunks[c].drop_last());
    let front = concat(chunks.drop_last());
    lemma_multiset_commutative(front, chunks.last());
    if c == chunks.len() - 1 {
        assert(shorter.drop_last() =~= chunks.drop_last());
        lemma_multiset_commutative(front, shorter.last());
        assert(chunks[c].drop_last().push(chunks[c].last()) =~= chunks[c]);
        lemma_line_added(chunks[c].drop_last(), chunks[c].last());
        assert(concat(chunks).to_multiset() =~= concat(shorter).to_multiset().insert(
            chunks[c].last(),
        ));
    } else {
        lemma_concat_shortened(chunks.drop_last(), c);
        assert(shorter.drop_last() =~= chunks.drop_last().update(c, chunks[c].drop_last()));
        lemma_multiset_commutative(concat(shorter.drop_last()), shorter.last());
        assert(concat(chunks).to_multiset() =~= concat(shorter).to_multiset().insert(
            chunks[c].last(),
        ));
    }
}

/// Chunks without lines hold no line together.
proof fn lemma_concat_of_empty(chunks: Seq<Seq<Seq<char>>>)
    requires
        forall|c: int| 0 <= c < chunks.len() ==> (#[trigger] chunks[c]).len() == 0,
    ensures
        concat(chunks).len() == 0,
    decreases chunks.len(),
{
    if chunks.len() > 0 {
        lemma_concat_of_empty(chunks.drop_last());
    }
}

/// Interleaving loses and adds nothing: what comes out holds the lines of all
/// chunks, each as often as they do.
pub proof fn lemma_interleaving_keeps_lines(
    out: Seq<Seq<char>>,
    sources: Seq<int>,
    chunks: Seq<Seq<Seq<char>>>,
)
    requires
        is_interleaving(out, sources, chunks),
    ensures
        same_lines(out, concat(chunks)),
    decreases out.len(),
{
    if out.len() == 0 {
        assert forall|c: int| 0 <= c < chunks.len() implies (#[trigger] chunks[c]).len() == 0 by {
            assert(drawn_from(out, sources, c) == chunks[c]);
        }
        lemma_concat_of_empty(chunks);
        lemma_no_lines(out);
        lemma_no_lines(concat(chunks));
    } else {
        let c = sources.last();
        let line = out.last();
        assert(0 <= sources[sources.len() - 1] < chunks.len());
        assert(drawn_from(out, sources, c) == chunks[c]);
        let shorter = chunks.update(c, chunks[c].drop_last());
        assert(chunks[c].drop_last() =~= drawn_from(out.drop_last(), sources.drop_last(), c));
        assert forall|i: int| 0 <= i < shorter.len() implies #[trigger] drawn_from(
            out.drop_last(),
            sources.drop_last(),
            i,
        ) == shorter[i] by {
            assert(drawn_from(out, sources, i) == chunks[i]);
        }
        assert forall|i: int| 0 <= i < sources.drop_last().len() implies 0
            <= #[trigger] sources.drop_last()[i] < shorter.len() by {
            assert(0 <= sources[i] < chunks.len());
        }
        lemma_interleaving_keeps_lines(out.drop_last(), sources.drop_last(), shorter);
        lemma_concat_shortened(chunks, c);
        assert(out.drop_last().push(line) =~= out);
        lemma_line_added(out.drop_last(), line);
    }
}

/// The line that a cursor holds once it has given out `taken` lines of
/// `chunk`.
pub open spec fn line_ahead(chunk: Seq<Seq<char>>, taken: usize) -> Option<Seq<char>> {
    if taken < chunk.len() {
        Some(chunk[taken as int])
    } else {
        None
    }
}

/// Merges `chunks` into one sequence of lines: at every step the next line
/// comes from a chunk drawn among those that still have one, and from each
/// chunk the lines come in the order in which the chunk holds them. The
/// result holds the lines of all chunks, each as often as they do.
pub fn merge_chunks(chunks: &Vec<Vec<String>>, rng: &mut StdRng) -> (lines: Vec<String>)
    ensures
        same_lines(texts(lines@), concat(chunk_texts(chunks@))),
        lines@.len() == concat(chunk_texts(chunks@)).len(),
        exists|sources: Seq<int>| is_interleaving(texts(lines@), sources, chunk_texts(chunks@)),
{
    let ghost all = chunk_texts(chunks@);
    let mut merger = Merger::new();
    let mut taken: Vec<usize> = Vec::new();
    let mut c: usize = 0;
    while c < chunks.len()
        invariant
            c <= chunks@.len(),
            all == chunk_texts(chunks@),
            merger.wf(),
            merger.awaited() is None,
            taken@.len() == c,
            merger.buffered().len() == c,
            forall|i: int| 0 <= i < c ==> taken@[i] == 0,
            forall|i: int| 0 <= i < c ==> merger.buffered()[i] == line_ahead(all[i], 0),
        decreases chunks@.len() - c,
    {
        let first = if chunks[c].len() > 0 {
            ReadOutcome::Line(chunks[c][0].clone())
        } else {
            ReadOutcome::Exhausted
        };
        let _ = merger.attach(first);
        taken.push(0);
        c += 1;
    }
    let mut lines: Vec<String> = Vec::new();
    let ghost mut sources: Seq<int> = Seq::empty();
    proof {
        assert forall|i: int| 0 <= i < all.len() implies #[trigger] drawn_from(
            texts(lines@),
            sources,
            i,
        ) == all[i].take(taken@[i] as int) by {
            assert(all[i].take(0) =~= Seq::<Seq<char>>::empty());
        }
    }
    loop
        invariant_except_break
            merger.awaited() is None,
        invariant
            all == chunk_texts(chunks@),
            merger.wf(),
            taken@.len() == chunks@.len(),
            merger.buffered().len() == chunks@.len(),
            forall|i: int| 0 <= i < taken@.len() ==> taken@[i] <= all[i].len(),
            forall|i: int|
                0 <= i < taken@.len() ==> merger.buffered()[i] == line_ahead(all[i], taken@[i]),
            sources.len() == lines@.len(),
            forall|i: int| 0 <= i < sources.len() ==> 0 <= #[trigger] sources[i] < all.len(),
            forall|i: int|
                0 <= i < all.len() ==> #[trigger] drawn_from(texts(lines@), sources, i)
                    == all[i].take(taken@[i] as int),
        ensures
            is_interleaving(texts(lines@), sources, all),
        decreases lines_left(all, taken@),
    {
        let ghost held = merger.buffered();
        match merger.step(rng) {
            None => {
                proof {
                    lemma_live_cursors(held);
                    assert forall|i: int| 0 <= i < taken@.len() implies taken@[i]
                        == all[i].len() by {
                        if held[i] is Some {
                            assert(live_cursors(held).contains(i));
                        }
                    }
                    assert forall|i: int| 0 <= i < all.len() implies #[trigger] drawn_from(
                        texts(lines@),
                        sources,
                        i,
                    ) == all[i] by {
                        assert(all[i].take(taken@[i] as int) =~= all[i]);
                    }
                }
                break ;
            },
            Some((cursor, line)) => {
                let ghost before = taken@;
                let ghost out = lines@;
                let ghost origins = sources;
                assert(held[cursor as int] == line_ahead(all[cursor as int], taken@[cursor as int]));
                let chunk = &chunks[cursor];
                let size = chunk.len();
                assert(all[cursor as int].len() == size);
                let position = taken[cursor] + 1;
                taken[cursor] = position;
                lines.push(line);
                let next = if position < size {
                    ReadOutcome::Line(chunk[position].clone())
                } else {
                    ReadOutcome::Exhausted
                };
                let _ = merger.refill(next);
                proof {
                    lemma_lines_left_step(all, before, cursor as int);
                    assert(taken@ =~= before.update(cursor as int, position));
                    assert(texts(lines@) =~= texts(out).push(line@));
                    sources = origins.push(cursor as int);
                    assert(sources.drop_last() =~= origins);
                    assert(texts(lines@).drop_last() =~= texts(out));
                    assert forall|i: int| 0 <= i < all.len() implies #[trigger] drawn_from(
                        texts(lines@),
                        sources,
                        i,
                    ) == all[i].take(taken@[i] as int) by {
                        assert(drawn_from(texts(out), origins, i) == all[i].take(before[i] as int));
                        if i == cursor {
                            assert(all[i].take(before[i] as int).push(line@) =~= all[i].take(
                                taken@[i] as int,
                            ));
                        }
                    }
                }
            },
        }
    }
    proof {
        lemma_interleaving_keeps_lines(texts(lines@), sources, all);
        lemma_same_lines_len(texts(lines@), concat(all));
    }
    lines
}

/// `out` can come of a run on `input` with chunks of `threshold` bytes: it is an
/// interleaving of the chunks of `input`, each of them permuted.
pub open spec fn is_run_of(out: Seq<Seq<char>>, input: Seq<Seq<char>>, threshold: nat) -> bool {
    exists|permuted: Seq<Seq<Seq<char>>>, sources: Seq<int>|
        {
            &&& #[trigger] is_interleaving(out, sources, permuted)
            &&& permuted.len() == chunks_of(input, threshold).len()
            &&& forall|c: int|
                0 <= c < permuted.len() ==> same_lines(
                    #[trigger] permuted[c],
                    chunks_of(input, threshold)[c],
                )
        }
}

/// The lines of `lines` in a random order. The input is cut into chunks of
/// `threshold` bytes, each chunk is permuted, and the chunks are merged. The
/// result holds every line of the input exactly as often as the input does,
/// whatever the threshold.
pub fn shuffle_lines(lines: &Vec<String>, threshold: usize, rng: &mut StdRng) -> (shuffled: Vec<
    String,
>)
    ensures
        same_lines(texts(shuffled@), texts(lines@)),
        shuffled@.len() == lines@.len(),
        is_run_of(texts(shuffled@), texts(lines@), threshold as nat),
{
    let chunks = split_into_chunks(lines, threshold);
    let mut permuted: Vec<Vec<String>> = Vec::new();
    let mut c: usize = 0;
    while c < chunks.len()
        invariant
            c <= chunks@.len(),
            permuted@.len() == c,
            forall|i: int|
                0 <= i < c ==> same_lines(
                    #[trigger] chunk_texts(permuted@)[i],
                    chunk_texts(chunks@)[i],
                ),
        decreases chunks@.len() - c,
    {
        let chunk = shuffle_chunk(&chunks[c], rng);
        let ghost before = permuted@;
        permuted.push(chunk);
        proof {
            assert forall|i: int| 0 <= i < c + 1 implies same_lines(
                #[trigger] chunk_texts(permuted@)[i],
                chunk_texts(chunks@)[i],
            ) by {
                if i < c {
                    assert(chunk_texts(permuted@)[i] == chunk_texts(before)[i]);
                }
            }
        }
        c += 1;
    }
    proof {
        lemma_concat_same_lines(chunk_texts(permuted@), chunk_texts(chunks@));
        lemma_chunks_partition(texts(lines@), threshold as nat);
    }
    let shuffled = merge_chunks(&permuted, rng);
    proof {
        lemma_same_lines_len(texts(shuffled@), texts(lines@));
        let sources = choose|sources: Seq<int>|
            is_interleaving(texts(shuffled@), sources, chunk_texts(permuted@));
        assert(is_interleaving(texts(shuffled@), sources, chunk_texts(permuted@)));
    }
    shuffled
}

/// A run keeps every line, whatever the threshold: what comes out holds the
/// lines of the input, each as often as the input does.
pub proof fn lemma_run_keeps_lines(out: Seq<Seq<char>>, input: Seq<Seq<char>>, threshold: nat)
    requires
        is_run_of(out, input, threshold),
    ensures
        same_lines(out, input),
        out.len() == input.len(),
{
    let (permuted, sources) = choose|permuted: Seq<Seq<Seq<char>>>, sources: Seq<int>|
        {
            &&& #[trigger] is_interleaving(out, sources, permuted)
            &&& permuted.len() == chunks_of(input, threshold).len()
            &&& forall|c: int|
                0 <= c < permuted.len() ==> same_lines(
                    #[trigger] permuted[c],
                    chunks_of(input, threshold)[c],
                )
        };
    lemma_interleaving_keeps_lines(out, sources, permuted);
    lemma_concat_same_lines(permuted, chunks_of(input, threshold));
    lemma_chunks_partition(input, threshold);
    lemma_same_lines_len(out, input);
}

/// A run writes as many bytes as it read: none where the input held none, and
/// some where the input held some.
pub proof fn lemma_run_keeps_bytes(out: Seq<Seq<char>>, input: Seq<Seq<char>>, threshold: nat)
    requires
        is_run_of(out, input, threshold),
    ensures
        written(out).len() == written(input).len(),
{
    lemma_run_keeps_lines(out, input, threshold);
    lemma_same_lines_same_bytes(out, input);
    lemma_written_len(out);
    lemma_written_len(input);
}

/// A run changes the order of the lines and nothing else: what comes out is
/// the input laid out by the permutation returned. No line is cut, joined to
/// another or changed.
pub proof fn lemma_run_only_reorders(
    out: Seq<Seq<char>>,
    input: Seq<Seq<char>>,
    threshold: nat,
) -> (order: Seq<usize>)
    requires
        input.len() <= usize::MAX,
        is_run_of(out, input, threshold),
    ensures
        is_permutation(order, input.len()),
        out == arranged(input, order),
{
    lemma_run_keeps_lines(out, input, threshold);
    lemma_same_items_arranged(input, out)
}

/// Two runs on the same input may differ in the order of their lines and in
/// nothing else: what the one holds the other holds, as often. The runs need
/// not use the same threshold.
pub proof fn lemma_runs_agree(
    input: Seq<Seq<char>>,
    first: Seq<Seq<char>>,
    first_threshold: nat,
    second: Seq<Seq<char>>,
    second_threshold: nat,
)
    requires
        is_run_of(first, input, first_threshold),
        is_run_of(second, input, second_threshold),
    ensures
        same_lines(first, second),
        first.len() == second.len(),
{
    lemma_run_keeps_lines(first, input, first_threshold);
    lemma_run_keeps_lines(second, input, second_threshold);
}

} // verus!
