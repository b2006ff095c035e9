//! Tests of the sorting engine: chunking, merging, scheduling, the
//! whole pipeline, and the text round trip through the decimal codec
//! that the unverified shell uses.

use extsort::chunker::{divide, ChunkProducer};
use extsort::codec::{bits_of_key, encode_run, key_of_bits};
use extsort::merge::{merge_encoded, merge_runs};
use extsort::pipeline::{export_bits, external_sort};
use extsort::scheduler::{reduce, MergeScheduler};
use extsort::sorting::is_sorted_run;
use extsort::SortError;

fn key_of(v: f64) -> u64 {
    key_of_bits(v.to_bits())
}

fn keys_of(vs: &[f64]) -> Vec<u64> {
    vs.iter().map(|v| key_of(*v)).collect()
}

fn vals_of(ks: &[u64]) -> Vec<f64> {
    ks.iter().map(|k| f64::from_bits(bits_of_key(*k))).collect()
}

#[test]
fn sorts_values_ascending() {
    let input = keys_of(&[3.5, -1.25, 0.0, 1e10, -2.5e-7, 3.5, -1e300]);
    let sorted = external_sort(&input, 3);
    assert_eq!(
        vals_of(&sorted),
        vec![-1e300, -1.25, -2.5e-7, 0.0, 3.5, 3.5, 1e10]
    );
}

#[test]
fn output_has_input_length_and_values() {
    let input = keys_of(&[9.0, 9.0, -9.0, 0.5]);
    let sorted = external_sort(&input, 2);
    assert_eq!(sorted.len(), input.len());
    let mut expected = input.clone();
    expected.sort();
    assert_eq!(sorted, expected);
}

#[test]
fn parse_format_round_trip() {
    let samples: Vec<f64> = vec![
        0.0,
        -0.0,
        1.0,
        -1.0,
        0.1,
        -0.1,
        1.5e300,
        -1.5e300,
        2.5e-7,
        -2.5e-7,
        f64::MAX,
        f64::MIN,
        f64::MIN_POSITIVE,
        3.141592653589793,
    ];
    for v in samples {
        let line = lexical::to_string(v);
        let back: f64 = lexical::parse(&line).unwrap();
        assert_eq!(back.to_bits(), v.to_bits());
    }
}

#[test]
fn resort_is_idempotent() {
    let input = keys_of(&[4.0, -4.0, 2.0, 2.0, 1e-3]);
    let once = external_sort(&input, 2);
    let twice = external_sort(&once, 3);
    assert_eq!(once, twice);
    let lines_once: Vec<String> = vals_of(&once).iter().map(|v| lexical::to_string(*v)).collect();
    let lines_twice: Vec<String> = vals_of(&twice).iter().map(|v| lexical::to_string(*v)).collect();
    assert_eq!(lines_once, lines_twice);
}

#[test]
fn chunking_capacity_does_not_change_result() {
    let input = keys_of(&[5.5, -3.25, 7.0, 0.0, -0.0, 2.5, 2.5, -9.75, 1e200, -1e-200]);
    let reference = external_sort(&input, 1);
    for capacity in [2, 3, 4, 7, 100] {
        assert_eq!(external_sort(&input, capacity), reference);
    }
}

#[test]
fn merges_two_runs() {
    let a = keys_of(&[1.0, 3.0, 5.0]);
    let b = keys_of(&[2.0, 2.0, 4.0]);
    let merged = merge_runs(&a, &b);
    assert_eq!(vals_of(&merged), vec![1.0, 2.0, 2.0, 3.0, 4.0, 5.0]);
}

#[test]
fn merges_record_streams() {
    let a = encode_run(&keys_of(&[1.0, 3.0, 5.0]));
    let b = encode_run(&keys_of(&[2.0, 2.0, 4.0]));
    let merged = merge_encoded(&a, &b).unwrap();
    let bits = export_bits(&merged).unwrap();
    let vals: Vec<f64> = bits.iter().map(|b| f64::from_bits(*b)).collect();
    assert_eq!(vals, vec![1.0, 2.0, 2.0, 3.0, 4.0, 5.0]);
}

#[test]
fn merge_rejects_partial_records() {
    let a = encode_run(&keys_of(&[1.0]));
    let mut b = encode_run(&keys_of(&[2.0]));
    b.pop();
    assert_eq!(merge_encoded(&a, &b), Err(SortError::MalformedRunError));
}

#[test]
fn reduction_takes_one_step_less_than_runs() {
    for n in [1usize, 2, 3, 7] {
        let mut queue: Vec<Vec<u64>> = Vec::new();
        for i in 0..n {
            queue.push(vec![key_of(i as f64)]);
        }
        let (run, steps) = reduce(queue);
        assert_eq!(steps, n - 1);
        assert_eq!(run.len(), n);
    }
}

#[test]
fn empty_input_gives_empty_output() {
    let input: Vec<u64> = Vec::new();
    let runs = divide(&input, 4);
    assert_eq!(runs.len(), 0);
    let sorted = external_sort(&input, 4);
    assert_eq!(sorted.len(), 0);
}

#[test]
fn fatal_parse_input_is_rejected() {
    // The shell aborts the whole pipeline with SortError::ParseError as
    // soon as a line fails to parse; this is the rejection it relies on.
    let r: Result<f64, _> = lexical::parse("not_a_number");
    assert!(r.is_err());
    assert_ne!(SortError::ParseError, SortError::IoError);
}

#[test]
fn chunk_producer_flushes_full_sorted_runs() {
    let mut producer = ChunkProducer::new(2);
    assert_eq!(producer.push(key_of(3.0)), None);
    assert_eq!(producer.push(key_of(1.0)), None);
    // Buffer is full: the third key flushes [3.0, 1.0] sorted.
    let run = producer.push(key_of(2.0)).unwrap();
    assert_eq!(vals_of(&run), vec![1.0, 3.0]);
    // The residual buffer holds only the new key.
    let last = producer.finish().unwrap();
    assert_eq!(vals_of(&last), vec![2.0]);
    assert_eq!(producer.finish(), None);
}

#[test]
fn divide_cuts_ceiling_of_n_over_capacity_runs() {
    let input = keys_of(&[4.0, 2.0, 6.0, 1.0, 3.0]);
    let runs = divide(&input, 2);
    assert_eq!(runs.len(), 3);
    assert_eq!(vals_of(&runs[0]), vec![2.0, 4.0]);
    assert_eq!(vals_of(&runs[1]), vec![1.0, 6.0]);
    assert_eq!(vals_of(&runs[2]), vec![3.0]);
}

#[test]
fn record_stream_pipeline_matches_in_memory_sort() {
    let input = keys_of(&[8.0, -2.0, 3.5, 3.5, 0.25, -9.0, 44.0]);
    let runs = divide(&input, 2);
    // The same loop the file-backed shell runs: merge the two oldest
    // record streams, enqueue the result, until one stream remains.
    let mut streams: Vec<Vec<u8>> = runs.iter().map(|r| encode_run(r)).collect();
    let mut steps: usize = 0;
    while streams.len() > 1 {
        let a = streams.remove(0);
        let b = streams.remove(0);
        streams.push(merge_encoded(&a, &b).unwrap());
        steps += 1;
    }
    assert_eq!(steps, runs.len() - 1);
    let bits = export_bits(&streams[0]).unwrap();
    let expected: Vec<u64> = external_sort(&input, 2)
        .iter()
        .map(|k| bits_of_key(*k))
        .collect();
    assert_eq!(bits, expected);
}

#[test]
fn recognises_sorted_runs() {
    assert!(is_sorted_run(&keys_of(&[])));
    assert!(is_sorted_run(&keys_of(&[7.0])));
    assert!(is_sorted_run(&keys_of(&[-2.0, -0.0, 0.0, 1.0, 1.0, 8.5])));
    assert!(!is_sorted_run(&keys_of(&[1.0, 0.5])));
    assert!(!is_sorted_run(&keys_of(&[0.0, -0.0])));
}

#[test]
fn scheduler_pairs_oldest_first() {
    let mut sched = MergeScheduler::new(vec![10, 11, 12]);
    assert_eq!(sched.pending_count(), 3);
    assert_eq!(sched.merges_completed(), 0);
    assert_eq!(sched.final_run(), None);
    assert_eq!(sched.next_pair(), Some((10, 11)));
    sched.complete(13);
    assert_eq!(sched.merges_completed(), 1);
    assert_eq!(sched.next_pair(), Some((12, 13)));
    sched.complete(14);
    assert_eq!(sched.next_pair(), None);
    assert_eq!(sched.final_run(), Some(14));
    assert_eq!(sched.merges_completed(), 2);
}
