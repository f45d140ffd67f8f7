use line_shuffle::buffer::{batch_lines, WriteBuffer};
use line_shuffle::chunker::{split_into_chunks, Chunker};
use line_shuffle::error::{ShuffleError, Stage};
use line_shuffle::merger::{Merger, ReadOutcome};
use line_shuffle::shuffle::{arrange, shuffle_chunk, shuffled_order};
use line_shuffle::text::line_size;
use rand::rngs::StdRng;
use rand::SeedableRng;

fn lines_of(items: &[&str]) -> Vec<String> {
    items.iter().map(|s| s.to_string()).collect()
}

fn sorted(mut lines: Vec<String>) -> Vec<String> {
    lines.sort();
    lines
}

#[test]
fn line_size_counts_bytes_not_characters() {
    assert_eq!(line_size(&"abc\n".to_string()), 4);
    assert_eq!(line_size(&"\u{e9}\n".to_string()), 3);
    assert_eq!(line_size(&"\u{1f600}".to_string()), 4);
    assert_eq!(line_size(&String::new()), 0);
}

#[test]
fn chunker_holds_lines_until_the_threshold_is_reached() {
    let mut chunker = Chunker::new(10);
    assert_eq!(chunker.threshold(), 10);
    assert_eq!(chunker.push("abc\n".to_string()), None);
    assert_eq!(chunker.push("de\n".to_string()), None);
    assert_eq!(
        chunker.push("fgh\n".to_string()),
        Some(lines_of(&["abc\n", "de\n", "fgh\n"]))
    );
    assert_eq!(chunker.push("x\n".to_string()), None);
    assert_eq!(chunker.finish(), Some(lines_of(&["x\n"])));
    assert_eq!(chunker.finish(), None);
}

#[test]
fn chunker_closes_a_chunk_exactly_at_the_threshold() {
    let mut chunker = Chunker::new(8);
    assert_eq!(chunker.push("abc\n".to_string()), None);
    assert_eq!(
        chunker.push("def\n".to_string()),
        Some(lines_of(&["abc\n", "def\n"]))
    );
    assert_eq!(chunker.finish(), None);
}

#[test]
fn chunker_with_threshold_zero_gives_one_chunk_per_line() {
    let chunks = split_into_chunks(&lines_of(&["a\n", "b\n", "c\n"]), 0);
    assert_eq!(
        chunks,
        vec![lines_of(&["a\n"]), lines_of(&["b\n"]), lines_of(&["c\n"])]
    );
}

#[test]
fn chunker_measures_a_line_in_bytes() {
    // Two characters, three bytes: the threshold of three is reached at once.
    let mut chunker = Chunker::new(3);
    assert_eq!(
        chunker.push("\u{e9}\n".to_string()),
        Some(lines_of(&["\u{e9}\n"]))
    );
    assert_eq!(chunker.push("a\n".to_string()), None);
}

#[test]
fn split_keeps_every_line_in_order() {
    let lines = lines_of(&["one\n", "two\n", "three\n", "four\n", "five\n", "six"]);
    for threshold in 0..40 {
        let chunks = split_into_chunks(&lines, threshold);
        let glued: Vec<String> = chunks.iter().flatten().cloned().collect();
        assert_eq!(glued, lines);
        for (i, chunk) in chunks.iter().enumerate() {
            assert!(!chunk.is_empty());
            let bytes: usize = chunk.iter().map(|l| l.len()).sum();
            let without_last: usize = bytes - chunk[chunk.len() - 1].len();
            if i + 1 < chunks.len() {
                assert!(bytes >= threshold);
            }
            assert!(chunk.len() == 1 || without_last < threshold);
        }
    }
}

#[test]
fn chunk_count_meets_the_rounded_quotient_when_chunks_fit() {
    // Four lines of five bytes, chunks of ten: 20 / 10 = 2.
    let lines = lines_of(&["aaaa\n", "bbbb\n", "cccc\n", "dddd\n"]);
    assert_eq!(split_into_chunks(&lines, 10).len(), 2);
    // Five lines of five bytes: 25 / 10 rounded up is 3.
    let lines = lines_of(&["aaaa\n", "bbbb\n", "cccc\n", "dddd\n", "eeee\n"]);
    assert_eq!(split_into_chunks(&lines, 10).len(), 3);
}

#[test]
fn chunk_count_stays_below_the_rounded_quotient_when_chunks_run_over() {
    // Four lines of seven bytes, chunks of ten: each chunk takes two lines,
    // 14 bytes, so there are 2 chunks where 28 / 10 rounded up is 3.
    let lines = lines_of(&["aaaaaa\n", "bbbbbb\n", "cccccc\n", "dddddd\n"]);
    let chunks = split_into_chunks(&lines, 10);
    assert_eq!(chunks.len(), 2);
    assert_eq!(chunks[0], lines_of(&["aaaaaa\n", "bbbbbb\n"]));
    assert_eq!(chunks[1], lines_of(&["cccccc\n", "dddddd\n"]));
}

#[test]
fn chunk_count_is_at_least_one_and_at_most_the_rounded_quotient() {
    let lines: Vec<String> = (0..50).map(|i| format!("line {}\n", i * i)).collect();
    let bytes: usize = lines.iter().map(|l| l.len()).sum();
    for threshold in 1..(bytes + 5) {
        let count = split_into_chunks(&lines, threshold).len();
        let rounded_up = (bytes + threshold - 1) / threshold;
        assert!(count >= 1);
        assert!(count <= rounded_up);
        assert_eq!(count == rounded_up, bytes <= count * threshold);
    }
    assert_eq!(split_into_chunks(&lines, bytes).len(), 1);
    assert_eq!(split_into_chunks(&lines, bytes + 1000).len(), 1);
}

#[test]
fn write_buffer_gives_a_batch_at_capacity() {
    let mut buffer = WriteBuffer::new(6);
    assert_eq!(buffer.capacity(), 6);
    assert_eq!(buffer.push("ab\n"), None);
    assert_eq!(buffer.push("cd\n"), Some(b"ab\ncd\n".to_vec()));
    assert_eq!(buffer.push("e\n"), None);
    assert_eq!(buffer.push("fghijk\n"), Some(b"e\nfghijk\n".to_vec()));
    assert_eq!(buffer.finish(), None);
    assert_eq!(buffer.push("z"), None);
    assert_eq!(buffer.finish(), Some(b"z".to_vec()));
    assert_eq!(buffer.finish(), None);
}

#[test]
fn write_buffer_writes_utf8() {
    let mut buffer = WriteBuffer::new(100);
    assert_eq!(buffer.push("\u{e9}\n"), None);
    assert_eq!(buffer.finish(), Some(vec![0xc3, 0xa9, b'\n']));
}

#[test]
fn batches_join_to_the_bytes_of_the_lines() {
    let lines = lines_of(&["alpha\n", "be\n", "gamma gamma\n", "\n", "d\n", "last"]);
    let all: Vec<u8> = lines.iter().flat_map(|l| l.bytes()).collect();
    for capacity in 0..40 {
        let batches = batch_lines(&lines, capacity);
        let joined: Vec<u8> = batches.iter().flatten().copied().collect();
        assert_eq!(joined, all);
        for (i, batch) in batches.iter().enumerate() {
            if i + 1 < batches.len() {
                assert!(batch.len() >= capacity);
            }
            if capacity > 0 {
                assert!(!batch.is_empty());
            }
        }
    }
    assert_eq!(
        batch_lines(&lines_of(&["ab\n", "cd\n", "e\n"]), 5),
        vec![b"ab\ncd\n".to_vec(), b"e\n".to_vec()]
    );
}

#[test]
fn batches_of_no_lines_are_none() {
    assert_eq!(batch_lines(&Vec::new(), 8), Vec::<Vec<u8>>::new());
}

#[test]
fn shuffled_order_is_a_permutation() {
    for seed in 0..20 {
        let mut rng = StdRng::seed_from_u64(seed);
        for n in 0..30 {
            let mut order = shuffled_order(n, &mut rng);
            assert_eq!(order.len(), n);
            order.sort();
            assert_eq!(order, (0..n).collect::<Vec<usize>>());
        }
    }
}

#[test]
fn shuffled_order_does_change_the_order() {
    let identity: Vec<usize> = (0..50).collect();
    let mut changed = 0;
    for seed in 0..20 {
        let mut rng = StdRng::seed_from_u64(seed);
        if shuffled_order(50, &mut rng) != identity {
            changed += 1;
        }
    }
    assert_eq!(changed, 20);
}

#[test]
fn shuffled_order_is_fixed_by_the_seed() {
    let mut first = StdRng::seed_from_u64(7);
    let mut second = StdRng::seed_from_u64(7);
    assert_eq!(shuffled_order(100, &mut first), shuffled_order(100, &mut second));
}

#[test]
fn arrange_lays_lines_out_by_position() {
    let chunk = lines_of(&["a\n", "b\n", "c\n", "d\n"]);
    assert_eq!(
        arrange(&chunk, &vec![2, 0, 3, 1]),
        lines_of(&["c\n", "a\n", "d\n", "b\n"])
    );
    assert_eq!(arrange(&chunk, &vec![1, 1]), lines_of(&["b\n", "b\n"]));
    assert_eq!(arrange(&chunk, &Vec::new()), Vec::<String>::new());
}

#[test]
fn shuffle_chunk_keeps_every_line() {
    let chunk = lines_of(&["x\n", "y\n", "x\n", "z\n", "x\n"]);
    for seed in 0..20 {
        let mut rng = StdRng::seed_from_u64(seed);
        let lines = shuffle_chunk(&chunk, &mut rng);
        assert_eq!(sorted(lines), sorted(chunk.clone()));
    }
}

#[test]
fn merger_selects_the_live_cursor_by_rank() {
    let mut merger = Merger::new();
    assert_eq!(merger.attach(ReadOutcome::Line("a0\n".to_string())), Ok(0));
    assert_eq!(merger.attach(ReadOutcome::Exhausted), Ok(1));
    assert_eq!(merger.attach(ReadOutcome::Line("c0\n".to_string())), Ok(2));
    assert_eq!(merger.attach(ReadOutcome::Line("d0\n".to_string())), Ok(3));
    assert_eq!(merger.cursor_count(), 4);
    assert_eq!(merger.live_count(), 3);
    assert_eq!(merger.awaiting(), None);

    // The live cursors are 0, 2 and 3: rank 1 is cursor 2.
    assert_eq!(merger.select(1), (2, "c0\n".to_string()));
    assert_eq!(merger.awaiting(), Some(2));
    assert_eq!(merger.refill(ReadOutcome::Exhausted), Ok(()));
    assert_eq!(merger.awaiting(), None);
    assert_eq!(merger.live_count(), 2);

    // Now they are 0 and 3: rank 1 is cursor 3.
    assert_eq!(merger.select(1), (3, "d0\n".to_string()));
    assert_eq!(merger.refill(ReadOutcome::Line("d1\n".to_string())), Ok(()));
    assert_eq!(merger.live_count(), 2);
    assert_eq!(merger.select(1), (3, "d1\n".to_string()));
    assert_eq!(merger.refill(ReadOutcome::Exhausted), Ok(()));
    assert_eq!(merger.select(0), (0, "a0\n".to_string()));
    assert_eq!(merger.refill(ReadOutcome::Exhausted), Ok(()));
    assert_eq!(merger.live_count(), 0);
}

#[test]
fn merger_without_lines_is_over_at_once() {
    let mut rng = StdRng::seed_from_u64(1);
    let mut merger = Merger::new();
    assert_eq!(merger.step(&mut rng), None);
    assert_eq!(merger.attach(ReadOutcome::Exhausted), Ok(0));
    assert_eq!(merger.step(&mut rng), None);
    assert_eq!(merger.awaiting(), None);
}

#[test]
fn merger_does_not_attach_a_cursor_whose_first_read_failed() {
    let mut merger = Merger::new();
    assert_eq!(merger.attach(ReadOutcome::Line("a\n".to_string())), Ok(0));
    assert_eq!(
        merger.attach(ReadOutcome::Failed),
        Err(ShuffleError::ReadCorruption)
    );
    assert_eq!(merger.cursor_count(), 1);
    assert_eq!(merger.live_count(), 1);
}

#[test]
fn merger_step_draws_among_all_live_cursors() {
    // Three cursors with one line each: over many seeds each of them is
    // drawn first at some time, and no other cursor ever is.
    let mut first_drawn = [0usize; 3];
    for seed in 0..200 {
        let mut rng = StdRng::seed_from_u64(seed);
        let mut merger = Merger::new();
        for c in 0..3 {
            assert_eq!(merger.attach(ReadOutcome::Line(format!("{}\n", c))), Ok(c));
        }
        let (cursor, line) = merger.step(&mut rng).unwrap();
        assert_eq!(line, format!("{}\n", cursor));
        first_drawn[cursor] += 1;
    }
    assert!(first_drawn.iter().all(|&n| n > 20));
}

#[test]
fn failure_kinds_follow_the_operation() {
    assert_eq!(ShuffleError::during(Stage::OpenInput), ShuffleError::InputUnavailable);
    assert_eq!(ShuffleError::during(Stage::ReadInput), ShuffleError::InputUnavailable);
    assert_eq!(ShuffleError::during(Stage::CreateStorage), ShuffleError::StorageUnavailable);
    assert_eq!(ShuffleError::during(Stage::CreateChunk), ShuffleError::StorageUnavailable);
    assert_eq!(ShuffleError::during(Stage::WriteChunk), ShuffleError::StorageUnavailable);
    assert_eq!(ShuffleError::during(Stage::CreateOutput), ShuffleError::StorageUnavailable);
    assert_eq!(ShuffleError::during(Stage::WriteOutput), ShuffleError::StorageUnavailable);
    assert_eq!(ShuffleError::during(Stage::ReadChunk), ShuffleError::ReadCorruption);
}
