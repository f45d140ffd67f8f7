use line_shuffle::buffer::batch_lines;
use line_shuffle::chunker::split_into_chunks;
use line_shuffle::error::ShuffleError;
use line_shuffle::merger::{Merger, ReadOutcome};
use line_shuffle::pipeline::{merge_chunks, shuffle_lines};
use rand::rngs::StdRng;
use rand::SeedableRng;

fn to_lines(items: &[&str]) -> Vec<String> {
    items.iter().map(|s| s.to_string()).collect()
}

fn in_order(mut lines: Vec<String>) -> Vec<String> {
    lines.sort();
    lines
}

#[test]
fn three_lines_under_a_large_threshold_make_one_chunk() {
    let input = to_lines(&["a\n", "b\n", "c\n"]);
    let chunks = split_into_chunks(&input, 1024);
    assert_eq!(chunks.len(), 1);
    assert_eq!(chunks[0], input);

    let mut seen: Vec<Vec<String>> = Vec::new();
    for seed in 0..300 {
        let mut rng = StdRng::seed_from_u64(seed);
        let output = shuffle_lines(&input, 1024, &mut rng);
        assert_eq!(output.len(), 3);
        assert_eq!(in_order(output.clone()), input);
        if !seen.contains(&output) {
            seen.push(output);
        }
    }
    // All 3! orders come up.
    assert_eq!(seen.len(), 6);
}

#[test]
fn ten_thousand_lines_go_through_many_chunks() {
    let input: Vec<String> = (0..10_000).map(|i| format!("{:099}\n", i)).collect();
    assert!(input.iter().all(|line| line.len() == 100));

    // Six lines of 100 bytes reach 512: 10000 / 6 rounded up.
    let chunks = split_into_chunks(&input, 512);
    assert_eq!(chunks.len(), 1667);
    assert!(chunks[..1666].iter().all(|chunk| chunk.len() == 6));
    assert_eq!(chunks[1666].len(), 4);

    let mut rng = StdRng::seed_from_u64(2024);
    let merged = merge_chunks(&chunks, &mut rng);
    assert_eq!(merged.len(), 10_000);
    assert_eq!(in_order(merged), input);

    let mut rng = StdRng::seed_from_u64(2025);
    let output = shuffle_lines(&input, 512, &mut rng);
    assert_eq!(output.len(), 10_000);
    assert_ne!(output, input);
    assert_eq!(in_order(output), input);
}

#[test]
fn empty_input_gives_no_chunk_and_empty_output() {
    let input: Vec<String> = Vec::new();
    assert_eq!(split_into_chunks(&input, 512).len(), 0);
    let mut rng = StdRng::seed_from_u64(3);
    assert_eq!(merge_chunks(&Vec::new(), &mut rng), Vec::<String>::new());
    assert_eq!(shuffle_lines(&input, 512, &mut rng), Vec::<String>::new());
    assert_eq!(batch_lines(&input, 512), Vec::<Vec<u8>>::new());
}

#[test]
fn a_read_that_fails_midway_is_not_taken_for_the_end() {
    // One chunk of five lines whose reads fail once three lines were read.
    let chunk = to_lines(&["l0\n", "l1\n", "l2\n", "l3\n", "l4\n"]);
    let yields = 3;
    let mut rng = StdRng::seed_from_u64(11);
    let mut merger = Merger::new();
    let mut reads = 0;
    let mut read = |reads: &mut usize| {
        if *reads < yields {
            *reads += 1;
            ReadOutcome::Line(chunk[*reads - 1].clone())
        } else {
            ReadOutcome::Failed
        }
    };
    assert_eq!(merger.attach(read(&mut reads)), Ok(0));

    let mut emitted: Vec<String> = Vec::new();
    let outcome = loop {
        match merger.step(&mut rng) {
            None => break Ok(()),
            Some((cursor, line)) => {
                assert_eq!(cursor, 0);
                emitted.push(line);
                if let Err(e) = merger.refill(read(&mut reads)) {
                    break Err(e);
                }
            }
        }
    };
    assert_eq!(outcome, Err(ShuffleError::ReadCorruption));
    assert!(emitted.len() <= yields);
    assert_eq!(emitted, chunk[..yields].to_vec());
    // The read is still owed: the merge has not come to its end.
    assert_eq!(merger.awaiting(), Some(0));
}

#[test]
fn output_holds_each_line_as_often_as_the_input() {
    let input = to_lines(&[
        "dup\n", "one\n", "dup\n", "two\n", "\n", "dup\n", "three\n", "\n", "four",
    ]);
    for threshold in 0..60 {
        let mut rng = StdRng::seed_from_u64(threshold as u64);
        let output = shuffle_lines(&input, threshold, &mut rng);
        assert_eq!(output.len(), input.len());
        assert_eq!(in_order(output), in_order(input.clone()));
    }
}

#[test]
fn two_runs_hold_the_same_lines() {
    let input: Vec<String> = (0..500).map(|i| format!("row {}\n", i % 37)).collect();
    let mut first_rng = StdRng::seed_from_u64(1);
    let mut second_rng = StdRng::seed_from_u64(2);
    let first = shuffle_lines(&input, 64, &mut first_rng);
    let second = shuffle_lines(&input, 64, &mut second_rng);
    assert_ne!(first, second);
    assert_eq!(in_order(first), in_order(second));
}

#[test]
fn merge_keeps_the_order_within_each_chunk() {
    let chunks = vec![
        to_lines(&["a0\n", "a1\n", "a2\n", "a3\n"]),
        Vec::new(),
        to_lines(&["b0\n"]),
        to_lines(&["c0\n", "c1\n", "c2\n"]),
    ];
    for seed in 0..50 {
        let mut rng = StdRng::seed_from_u64(seed);
        let merged = merge_chunks(&chunks, &mut rng);
        assert_eq!(merged.len(), 8);
        for chunk in &chunks {
            let from_chunk: Vec<String> =
                merged.iter().filter(|l| chunk.contains(l)).cloned().collect();
            assert_eq!(&from_chunk, chunk);
        }
    }
}

#[test]
fn merge_interleaves_the_chunks() {
    let chunks = vec![
        (0..20).map(|i| format!("a{}\n", i)).collect::<Vec<String>>(),
        (0..20).map(|i| format!("b{}\n", i)).collect::<Vec<String>>(),
    ];
    let glued: Vec<String> = chunks.iter().flatten().cloned().collect();
    let mut interleaved = 0;
    for seed in 0..20 {
        let mut rng = StdRng::seed_from_u64(seed);
        if merge_chunks(&chunks, &mut rng) != glued {
            interleaved += 1;
        }
    }
    assert_eq!(interleaved, 20);
}
