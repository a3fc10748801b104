use adapto_rs::adapter::AdapterSpec;
use adapto_rs::arena::Arena;
use adapto_rs::engine::{emit_batch, is_batch, process_batch, process_batch_in_parallel};
use adapto_rs::record::RecordLocator;
use adapto_rs::stream::process_reads;
use adapto_rs::window::TrimConfig;

const ADAPTER: &[u8] = b"AGATCGGAAGAGC";

fn config() -> TrimConfig {
    let required: Vec<usize> =
        (0..=ADAPTER.len()).map(|l| (0.9f32 * l as f32).ceil() as usize).collect();
    TrimConfig {
        adapter: AdapterSpec::fuzzy(ADAPTER.to_vec(), required, 3).unwrap(),
        cut_front: 0,
        cut_back: 20,
    }
}

fn records(count: usize) -> Vec<u8> {
    let mut state = 99u64;
    let mut next = |bound: u64| {
        state = state.wrapping_mul(6364136223846793005).wrapping_add(1442695040888963407);
        (state >> 33) % bound
    };
    let mut input = Vec::new();
    for id in 0..count {
        let mut bases: Vec<u8> = (0..next(60)).map(|_| b"ACGTN"[next(5) as usize]).collect();
        if next(2) == 0 {
            bases.extend_from_slice(&ADAPTER[..next(14) as usize]);
        }
        let quals: Vec<u8> = (0..bases.len()).map(|_| b"!5I"[next(3) as usize]).collect();
        input.extend_from_slice(format!("@read{id}\n").as_bytes());
        input.extend_from_slice(&bases);
        input.extend_from_slice(b"\n+\n");
        input.extend_from_slice(&quals);
        input.push(b'\n');
    }
    input
}

/// Runs the input through an arena, trimming each batch on a pool of
/// `threads` workers.
fn run_on_pool(threads: usize, capacity: usize, input: &[u8]) -> Vec<u8> {
    let pool = rayon::ThreadPoolBuilder::new().num_threads(threads).build().unwrap();
    let config = config();
    let mut arena = Arena::new(capacity);
    let mut batch: Vec<RecordLocator> = Vec::new();
    let mut out = Vec::new();
    let mut taken = 0;
    loop {
        arena.make_room().unwrap();
        taken += arena.fill_from(&input[taken..]);
        arena.scan_batch(&mut batch).unwrap();
        assert!(is_batch(&batch, arena.filled));
        pool.install(|| process_batch_in_parallel(arena.filled_mut(), &mut batch, &config));
        emit_batch(&arena.buf, &batch, &mut out);
        if !arena.is_full() {
            return out;
        }
    }
}

/// The same run with every batch trimmed on the calling thread, in order.
fn run_in_order(capacity: usize, input: &[u8]) -> Vec<u8> {
    let config = config();
    let mut arena = Arena::new(capacity);
    let mut batch: Vec<RecordLocator> = Vec::new();
    let mut out = Vec::new();
    let mut taken = 0;
    loop {
        arena.make_room().unwrap();
        taken += arena.fill_from(&input[taken..]);
        arena.scan_batch(&mut batch).unwrap();
        process_batch(arena.filled_mut(), &mut batch, &config);
        emit_batch(&arena.buf, &batch, &mut out);
        if !arena.is_full() {
            return out;
        }
    }
}

#[test]
fn one_worker_and_many_workers_write_the_same_bytes_in_the_same_order() {
    let input = records(500);
    let expected = run_in_order(4096, &input);
    assert_eq!(process_reads(4096, &config(), &input).unwrap(), expected);
    let single = run_on_pool(1, 4096, &input);
    assert_eq!(single, expected);
    for threads in [2, 4, 8] {
        assert_eq!(run_on_pool(threads, 4096, &input), single);
    }
}

#[test]
fn worker_pool_and_arena_capacity_do_not_show_in_the_output() {
    let input = records(200);
    let expected = process_reads(1 << 16, &config(), &input).unwrap();
    for (threads, capacity) in [(1, 256), (3, 256), (4, 1000), (2, 1 << 16)] {
        assert_eq!(run_on_pool(threads, capacity, &input), expected);
    }
}

#[test]
fn batch_trimmed_in_parallel_is_the_batch_trimmed_in_order() {
    let input = records(40);
    let mut in_order = Arena::new(input.len());
    assert_eq!(in_order.fill_from(&input), input.len());
    let mut first = Vec::new();
    in_order.scan_batch(&mut first).unwrap();
    assert_eq!(first.len(), 40);
    let mut in_parallel = Arena::new(input.len());
    assert_eq!(in_parallel.fill_from(&input), input.len());
    let mut second = first.clone();

    process_batch(in_order.filled_mut(), &mut first, &config());
    process_batch_in_parallel(in_parallel.filled_mut(), &mut second, &config());

    assert_eq!(second, first);
    assert_eq!(in_parallel.buf, in_order.buf);
    // Something was trimmed: the buffer is not what was filled in.
    assert!(in_parallel.buf != input);
}

#[test]
fn empty_batch_in_parallel_changes_nothing() {
    let mut buf = b"@a\nAC".to_vec();
    let mut batch: Vec<RecordLocator> = Vec::new();
    process_batch_in_parallel(&mut buf, &mut batch, &config());
    assert_eq!(buf, b"@a\nAC".to_vec());
}

#[test]
fn batch_in_the_middle_of_a_buffer_is_trimmed_in_parallel() {
    let untouched = b"....@a\nACGTNN\n+\nIIIIII\n@b\nACGT\n+\nII!!\n....".to_vec();
    let mut buf = untouched.clone();
    let mut batch = vec![
        RecordLocator {
            name_start: 4,
            seq_start: 7,
            plus_start: 14,
            qual_start: 16,
            end: 23,
            start: 0,
            stop: 6,
        },
        RecordLocator {
            name_start: 23,
            seq_start: 26,
            plus_start: 31,
            qual_start: 33,
            end: 38,
            start: 0,
            stop: 4,
        },
    ];
    assert!(is_batch(&batch, buf.len()));
    process_batch_in_parallel(&mut buf, &mut batch, &config());
    assert_eq!(&buf[..4], b"....");
    assert_eq!(&buf[4..19], b"@a\nACGT\n+\nIIII\n");
    assert_eq!(batch[0].end, 19);
    assert_eq!(&buf[23..34], b"@b\nAC\n+\nII\n");
    assert_eq!(batch[1].end, 34);
    assert_eq!(&buf[38..], b"....");
}

#[test]
fn only_a_run_of_sound_adjoining_records_is_a_batch() {
    let rec = |n: usize| RecordLocator {
        name_start: n,
        seq_start: n + 3,
        plus_start: n + 6,
        qual_start: n + 8,
        end: n + 11,
        start: 0,
        stop: 2,
    };
    assert!(is_batch(&vec![], 0));
    assert!(is_batch(&vec![rec(0), rec(11), rec(22)], 33));
    assert!(is_batch(&vec![rec(5), rec(16)], 40));
    // Beyond the buffer.
    assert!(!is_batch(&vec![rec(0), rec(11), rec(22)], 32));
    // A gap between records.
    assert!(!is_batch(&vec![rec(0), rec(12)], 40));
    // Out of order.
    assert!(!is_batch(&vec![rec(11), rec(0)], 40));
    // An unsound locator.
    let mut bad = rec(11);
    bad.stop = 3;
    assert!(!is_batch(&vec![rec(0), bad], 40));
}
