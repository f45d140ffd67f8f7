//! The second stage: interleaving the chunks.
//!
//! Each chunk is read through a cursor that holds at most one line, read ahead
//! of its use. A step draws one cursor among those that hold a line, gives that
//! line out and asks the caller for the cursor's next read. The caller reads
//! and hands the outcome in; a read that failed is never taken for the end of
//! the chunk.

use crate::error::ShuffleError;
use crate::random::draw_below;
use rand::rngs::StdRng;
use vstd::prelude::*;

verus! {

/// What an attempt to read the next line of a chunk gave.
#[derive(Debug)]
pub enum ReadOutcome {
    /// A line, terminator included.
    Line(String),
    /// The chunk has no further line.
    Exhausted,
    /// The read failed.
    Failed,
}

/// The cursors of `buffered` that hold a line, in rising order.
pub open spec fn live_cursors(buffered: Seq<Option<Seq<char>>>) -> Seq<int>
    decreases buffered.len(),
{
    if buffered.len() == 0 {
        Seq::empty()
    } else if buffered.last() is Some {
        live_cursors(buffered.drop_last()).push(buffered.len() - 1)
    } else {
        live_cursors(buffered.drop_last())
    }
}

/// `active` lists exactly the cursors of `buffered` that hold a line, in
/// rising order.
spec fn is_live_order(active: Seq<usize>, buffered: Seq<Option<Seq<char>>>) -> bool {
    &&& forall|i: int, j: int| 0 <= i < j < active.len() ==> active[i] < active[j]
    &&& forall|j: int|
        0 <= j < active.len() ==> active[j] < buffered.len() && buffered[active[j] as int] is Some
    &&& forall|i: int| 0 <= i < buffered.len() && buffered[i] is Some ==> holds(active, i)
}

/// `cursor` is listed in `active`.
spec fn holds(active: Seq<usize>, cursor: int) -> bool {
    exists|j: int| 0 <= j < active.len() && #[trigger] active[j] == cursor
}

/// There is only one rising list of the cursors that hold a line.
proof fn lemma_live_order_unique(active: Seq<usize>, buffered: Seq<Option<Seq<char>>>)
    requires
        is_live_order(active, buffered),
    ensures
        active.map_values(|c: usize| c as int) == live_cursors(buffered),
    decreases buffered.len(),
{
    let ints = active.map_values(|c: usize| c as int);
    if buffered.len() == 0 {
        assert(active.len() == 0) by {
            if active.len() > 0 {
                assert(active[0] < buffered.len());
            }
        }
        assert(ints =~= live_cursors(buffered));
    } else {
        let rest = buffered.drop_last();
        let top = buffered.len() - 1;
        if buffered.last() is Some {
            assert(holds(active, top));
            let p = choose|p: int| 0 <= p < active.len() && #[trigger] active[p] == top;
            assert(p == active.len() - 1) by {
                if p < active.len() - 1 {
                    assert(active[p] < active[p + 1]);
                    assert(active[p + 1] < buffered.len());
                }
            }
            let front = active.drop_last();
            assert forall|i: int| 0 <= i < rest.len() && rest[i] is Some implies holds(front, i) by {
                assert(buffered[i] is Some);
                assert(holds(active, i));
                let q = choose|q: int| 0 <= q < active.len() && #[trigger] active[q] == i;
                assert(front[q] == i);
            }
            assert forall|j: int| 0 <= j < front.len() implies front[j] < rest.len()
                && rest[front[j] as int] is Some by {
                assert(active[j] < active[p]);
                assert(buffered[active[j] as int] is Some);
            }
            assert(is_live_order(front, rest));
            lemma_live_order_unique(front, rest);
            assert(ints =~= front.map_values(|c: usize| c as int).push(top));
        } else {
            assert forall|i: int| 0 <= i < rest.len() && rest[i] is Some implies holds(active, i) by {
                assert(buffered[i] is Some);
            }
            assert forall|j: int| 0 <= j < active.len() implies active[j] < rest.len()
                && rest[active[j] as int] is Some by {
                assert(buffered[active[j] as int] is Some);
            }
            assert(is_live_order(active, rest));
            lemma_live_order_unique(active, rest);
        }
    }
}

/// A cursor holds a line exactly if it is listed among the live ones.
pub proof fn lemma_live_cursors(buffered: Seq<Option<Seq<char>>>)
    ensures
        forall|k: int|
            0 <= k < live_cursors(buffered).len() ==> 0 <= #[trigger] live_cursors(buffered)[k]
                < buffered.len() && buffered[live_cursors(buffered)[k]] is Some,
        forall|i: int|
            0 <= i < buffered.len() && buffered[i] is Some ==> live_cursors(buffered).contains(i),
        forall|i: int, j: int|
            0 <= i < j < live_cursors(buffered).len() ==> live_cursors(buffered)[i]
                < live_cursors(buffered)[j],
        live_cursors(buffered).len() <= buffered.len(),
    decreases buffered.len(),
{
    if buffered.len() > 0 {
        let rest = buffered.drop_last();
        lemma_live_cursors(rest);
        let live = live_cursors(buffered);
        let before = live_cursors(rest);
        assert forall|i: int| 0 <= i < buffered.len() && buffered[i] is Some implies live.contains(
            i,
        ) by {
            if i < rest.len() {
                assert(rest[i] is Some);
                assert(before.contains(i));
                let q = choose|q: int| 0 <= q < before.len() && before[q] == i;
                assert(live[q] == i);
            } else {
                assert(live[live.len() - 1] == i);
            }
        }
        assert forall|k: int| 0 <= k < live.len() implies 0 <= #[trigger] live[k] < buffered.len()
            && buffered[live[k]] is Some by {
            if k < before.len() {
                assert(live[k] == before[k]);
                assert(rest[before[k]] is Some);
            }
        }
        assert forall|i: int, j: int| 0 <= i < j < live.len() implies live[i] < live[j] by {
            if j < before.len() {
                assert(before[i] < before[j]);
            } else {
                assert(live[i] == before[i]);
                assert(0 <= before[i] < rest.len());
            }
        }
    }
}

/// The state of a merge: one cursor for each chunk.
pub struct Merger {
    slots: Vec<Option<String>>,
    active: Vec<usize>,
    awaiting: Option<usize>,
}

impl Merger {
    /// For each cursor, the line that it holds, if any.
    pub closed spec fn buffered(&self) -> Seq<Option<Seq<char>>> {
        self.slots@.map_values(
            |slot: Option<String>|
                match slot {
                    Some(line) => Some(line@),
                    None => None,
                },
        )
    }

    /// The cursor whose line was given out and whose next read is owed.
    pub closed spec fn awaited(&self) -> Option<usize> {
        self.awaiting
    }

    /// The invariant of the state: every cursor that holds a line is known to
    /// be active, and the cursor that awaits its read holds none.
    pub closed spec fn wf(&self) -> bool {
        &&& forall|i: int, j: int|
            0 <= i < j < self.active@.len() ==> self.active@[i] < self.active@[j]
        &&& forall|j: int| 0 <= j < self.active@.len() ==> self.active@[j] < self.slots@.len()
        &&& forall|i: int|
            0 <= i < self.slots@.len() && self.slots@[i] is Some ==> holds(self.active@, i)
        &&& self.awaiting matches Some(c) ==> c < self.slots@.len() && self.slots@[c as int] is None
            && holds(self.active@, c as int)
    }

    /// While a read is owed, the cursor concerned is one of the merge and holds
    /// no line.
    pub proof fn lemma_awaited_is_empty(&self)
        requires
            self.wf(),
        ensures
            self.awaited() matches Some(c) ==> c < self.buffered().len() && self.buffered()[c as int]
                is None,
    {
    }

    /// A merge without cursors.
    pub fn new() -> (merger: Merger)
        ensures
            merger.wf(),
            merger.buffered() == Seq::<Option<Seq<char>>>::empty(),
            merger.awaited() is None,
    {
        let merger = Merger { slots: Vec::new(), active: Vec::new(), awaiting: None };
        assert(merger.buffered() =~= Seq::<Option<Seq<char>>>::empty());
        merger
    }

    /// The number of cursors.
    pub fn cursor_count(&self) -> (n: usize)
        ensures
            n == self.buffered().len(),
    {
        self.slots.len()
    }

    /// The cursor whose next read is owed, if one is.
    pub fn awaiting(&self) -> (c: Option<usize>)
        ensures
            c == self.awaited(),
    {
        self.awaiting
    }

    /// Adds a cursor for one more chunk, given the outcome of its first read,
    /// and returns the cursor's number. A failed read adds nothing.
    pub fn attach(&mut self, first: ReadOutcome) -> (r: Result<usize, ShuffleError>)
        requires
            old(self).wf(),
        ensures
            final(self).wf(),
            final(self).awaited() == old(self).awaited(),
            match first {
                ReadOutcome::Line(line) => r == Ok::<usize, ShuffleError>(
                    old(self).buffered().len() as usize,
                ) && final(self).buffered() == old(self).buffered().push(Some(line@)),
                ReadOutcome::Exhausted => r == Ok::<usize, ShuffleError>(
                    old(self).buffered().len() as usize,
                ) && final(self).buffered() == old(self).buffered().push(None),
                ReadOutcome::Failed => r == Err::<usize, ShuffleError>(
                    ShuffleError::ReadCorruption,
                ) && final(self).buffered() == old(self).buffered(),
            },
    {
        let slot = match first {
            ReadOutcome::Line(line) => Some(line),
            ReadOutcome::Exhausted => None,
            ReadOutcome::Failed => {
                return Err(ShuffleError::ReadCorruption);
            },
        };
        let cursor = self.slots.len();
        let ghost before = *self;
        self.slots.push(slot);
        self.active.push(cursor);
        proof {
            assert(self.buffered() =~= before.buffered().push(
                match slot {
                    Some(line) => Some(line@),
                    None => None,
                },
            ));
            assert forall|i: int|
                0 <= i < self.slots@.len() && self.slots@[i] is Some implies holds(
                self.active@,
                i,
            ) by {
                if i < before.slots@.len() {
                    assert(before.slots@[i] is Some);
                    assert(holds(before.active@, i));
                    let q = choose|q: int|
                        0 <= q < before.active@.len() && #[trigger] before.active@[q] == i;
                    assert(self.active@[q] == i);
                } else {
                    assert(self.active@[self.active@.len() - 1] == i);
                }
            }
            if let Some(c) = self.awaiting {
                let q = choose|q: int|
                    0 <= q < before.active@.len() && #[trigger] before.active@[q] == c;
                assert(self.active@[q] == c);
            }
        }
        Ok(cursor)
    }

    /// Drops from the active cursors those that hold no line any more.
    fn refresh(&mut self)
        requires
            old(self).wf(),
            old(self).awaiting is None,
        ensures
            final(self).wf(),
            final(self).slots == old(self).slots,
            final(self).awaiting is None,
            final(self).active@.map_values(|c: usize| c as int) == live_cursors(
                final(self).buffered(),
            ),
    {
        let mut kept: Vec<usize> = Vec::new();
        let mut j: usize = 0;
        while j < self.active.len()
            invariant
                *self == *old(self),
                self.wf(),
                j <= self.active@.len(),
                forall|x: int, y: int| 0 <= x < y < kept@.len() ==> kept@[x] < kept@[y],
                forall|x: int|
                    0 <= x < kept@.len() ==> kept@[x] < self.slots@.len()
                        && self.slots@[kept@[x] as int] is Some && exists|y: int|
                        0 <= y < j && #[trigger] self.active@[y] == kept@[x],
                forall|y: int|
                    0 <= y < j && self.slots@[#[trigger] self.active@[y] as int] is Some ==> holds(
                        kept@,
                        self.active@[y] as int,
                    ),
            decreases self.active@.len() - j,
        {
            let cursor = self.active[j];
            if self.slots[cursor].is_some() {
                let ghost before = kept@;
                kept.push(cursor);
                proof {
                    assert forall|x: int, y: int| 0 <= x < y < kept@.len() implies kept@[x]
                        < kept@[y] by {
                        if y == before.len() {
                            let z = choose|z: int|
                                0 <= z < j && #[trigger] self.active@[z] == before[x];
                            assert(self.active@[z] < self.active@[j as int]);
                        }
                    }
                    assert forall|y: int|
                        0 <= y < j + 1 && self.slots@[#[trigger] self.active@[y] as int]
                            is Some implies holds(kept@, self.active@[y] as int) by {
                        if y < j {
                            assert(holds(before, self.active@[y] as int));
                            let q = choose|q: int|
                                0 <= q < before.len() && #[trigger] before[q] == self.active@[y];
                            assert(kept@[q] == self.active@[y]);
                        } else {
                            assert(kept@[kept@.len() - 1] == self.active@[y]);
                        }
                    }
                }
            }
            j += 1;
        }
        proof {
            assert(is_live_order(kept@, self.buffered())) by {
                assert forall|i: int|
                    0 <= i < self.buffered().len() && self.buffered()[i] is Some implies holds(
                    kept@,
                    i,
                ) by {
                    assert(self.slots@[i] is Some);
                    assert(holds(self.active@, i));
                    let y = choose|y: int|
                        0 <= y < self.active@.len() && #[trigger] self.active@[y] == i;
                    assert(self.slots@[self.active@[y] as int] is Some);
                }
            }
            lemma_live_order_unique(kept@, self.buffered());
        }
        self.active = kept;
    }

    /// The number of cursors that hold a line.
    pub fn live_count(&mut self) -> (n: usize)
        requires
            old(self).wf(),
            old(self).awaited() is None,
        ensures
            final(self).wf(),
            final(self).awaited() is None,
            final(self).buffered() == old(self).buffered(),
            n == live_cursors(old(self).buffered()).len(),
    {
        self.refresh();
        self.active.len()
    }

    /// Gives out the line of the cursor that `active` lists at `k`.
    fn take_at(&mut self, k: usize) -> (r: (usize, String))
        requires
            old(self).wf(),
            old(self).awaiting is None,
            old(self).active@.map_values(|c: usize| c as int) == live_cursors(
                old(self).buffered(),
            ),
            k < old(self).active@.len(),
        ensures
            final(self).wf(),
            r.0 == live_cursors(old(self).buffered())[k as int],
            r.0 < old(self).buffered().len(),
            old(self).buffered()[r.0 as int] == Some(r.1@),
            final(self).buffered() == old(self).buffered().update(r.0 as int, None),
            final(self).awaited() == Some(r.0),
    {
        proof {
            lemma_live_cursors(self.buffered());
        }
        let cursor = self.active[k];
        assert(cursor as int == self.active@.map_values(|c: usize| c as int)[k as int]);
        let ghost before = *self;
        let taken = self.slots[cursor].take();
        self.awaiting = Some(cursor);
        proof {
            assert(self.buffered() =~= before.buffered().update(cursor as int, None));
            assert forall|i: int|
                0 <= i < self.slots@.len() && self.slots@[i] is Some implies holds(
                self.active@,
                i,
            ) by {
                assert(before.slots@[i] is Some);
            }
            assert(holds(self.active@, cursor as int));
        }
        (cursor, taken.unwrap())
    }

    /// Gives out the line of the `k`-th cursor that holds one, counted from 0
    /// in rising order of the cursors, and the cursor's number. The cursor is
    /// left without a line and awaits its next read.
    pub fn select(&mut self, k: usize) -> (r: (usize, String))
        requires
            old(self).wf(),
            old(self).awaited() is None,
            k < live_cursors(old(self).buffered()).len(),
        ensures
            final(self).wf(),
            r.0 == live_cursors(old(self).buffered())[k as int],
            r.0 < old(self).buffered().len(),
            old(self).buffered()[r.0 as int] == Some(r.1@),
            final(self).buffered() == old(self).buffered().update(r.0 as int, None),
            final(self).awaited() == Some(r.0),
    {
        self.refresh();
        self.take_at(k)
    }

    /// One step of the merge: draws one of the cursors that hold a line and
    /// gives out that line and the cursor's number. The cursor then awaits its
    /// next read. Where no cursor holds a line the merge is over, and nothing
    /// changes.
    pub fn step(&mut self, rng: &mut StdRng) -> (r: Option<(usize, String)>)
        requires
            old(self).wf(),
            old(self).awaited() is None,
        ensures
            final(self).wf(),
            r is None <==> live_cursors(old(self).buffered()).len() == 0,
            r is None ==> final(self).buffered() == old(self).buffered() && final(self).awaited()
                is None,
            r matches Some((cursor, line)) ==> {
                &&& live_cursors(old(self).buffered()).contains(cursor as int)
                &&& cursor < old(self).buffered().len()
                &&& old(self).buffered()[cursor as int] == Some(line@)
                &&& final(self).buffered() == old(self).buffered().update(cursor as int, None)
                &&& final(self).awaited() == Some(cursor)
            },
    {
        self.refresh();
        let live = self.active.len();
        if live == 0 {
            return None;
        }
        let k = draw_below(rng, live);
        let emitted = self.take_at(k);
        Some(emitted)
    }

    /// Takes in the outcome of the read that the last step asked for. A line
    /// becomes the cursor's next one; at the end of its chunk the cursor stays
    /// without a line; a failed read is reported and leaves the read owed.
    pub fn refill(&mut self, outcome: ReadOutcome) -> (r: Result<(), ShuffleError>)
        requires
            old(self).wf(),
            old(self).awaited() is Some,
        ensures
            final(self).wf(),
            match outcome {
                ReadOutcome::Line(line) => {
                    &&& r is Ok
                    &&& final(self).awaited() is None
                    &&& final(self).buffered() == old(self).buffered().update(
                        old(self).awaited()->0 as int,
                        Some(line@),
                    )
                },
                ReadOutcome::Exhausted => {
                    &&& r is Ok
                    &&& final(self).awaited() is None
                    &&& final(self).buffered() == old(self).buffered()
                },
                ReadOutcome::Failed => {
                    &&& r == Err::<(), ShuffleError>(ShuffleError::ReadCorruption)
                    &&& final(self).awaited() == old(self).awaited()
                    &&& final(self).buffered() == old(self).buffered()
                },
            },
    {
        let cursor = self.awaiting.unwrap();
        let ghost before = *self;
        match outcome {
            ReadOutcome::Line(line) => {
                self.slots[cursor] = Some(line);
                self.awaiting = None;
                proof {
                    assert(self.buffered() =~= before.buffered().update(
                        cursor as int,
                        Some(line@),
                    ));
                    assert forall|i: int|
                        0 <= i < self.slots@.len() && self.slots@[i] is Some implies holds(
                        self.active@,
                        i,
                    ) by {
                        if i != cursor {
                            assert(before.slots@[i] is Some);
                        }
                    }
                }
                Ok(())
            },
            ReadOutcome::Exhausted => {
                self.awaiting = None;
                Ok(())
            },
            ReadOutcome::Failed => Err(ShuffleError::ReadCorruption),
        }
    }
}

} // verus!
