use adapto_rs::adapter::AdapterSpec;
use adapto_rs::error::TrimError;
use adapto_rs::stream::process_reads;
use adapto_rs::window::TrimConfig;

const ADAPTER: &[u8] = b"AGATCGGAAGAGC";

fn config(frac: f32, min_overlap: usize, cutoff: i32) -> TrimConfig {
    let required: Vec<usize> =
        (0..=ADAPTER.len()).map(|l| (frac * l as f32).ceil() as usize).collect();
    TrimConfig {
        adapter: AdapterSpec::fuzzy(ADAPTER.to_vec(), required, min_overlap).unwrap(),
        cut_front: 0,
        cut_back: cutoff,
    }
}

fn standard() -> TrimConfig {
    config(0.9, 5, 20)
}

#[test]
fn round_trip_of_one_record() {
    let input = b"@r1\nACGTACGTNN\n+\nIIIIII!!!!\n";
    let out = process_reads(256, &standard(), input).unwrap();
    // Ambiguous bases stop the read at 8; the low-quality tail stops it at
    // 6, which is the tighter of the two.
    assert_eq!(out, b"@r1\nACGTAC\n+\nIIIIII\n".to_vec());
    let lines: Vec<&[u8]> = out.split(|&b| b == b'\n').collect();
    assert_eq!(lines[1].len(), lines[3].len());
    assert!(!lines[1].contains(&b'N'));
    assert!(!lines[3].contains(&b'!'));
}

#[test]
fn round_trip_without_quality_cut_stops_at_the_ambiguous_bases() {
    let input = b"@r1\nACGTACGTNN\n+\nIIIIIIIIII\n";
    let out = process_reads(256, &standard(), input).unwrap();
    assert_eq!(out, b"@r1\nACGTACGT\n+\nIIIIIIII\n".to_vec());
}

#[test]
fn clean_records_pass_with_only_the_separator_normalised() {
    let input = b"@r1 first\nACGTACGTAC\n+r1 first\nIIIIIIIIII\n@r2\nGGGTTTCCCA\n+\n5555555555\n";
    let out = process_reads(256, &standard(), input).unwrap();
    assert_eq!(
        out,
        b"@r1 first\nACGTACGTAC\n+\nIIIIIIIIII\n@r2\nGGGTTTCCCA\n+\n5555555555\n".to_vec()
    );
}

#[test]
fn adapter_is_cut_from_every_record_that_holds_it() {
    let input = b"@a\nCCCCCAGATCGGAAGAGC\n+\nIIIIIIIIIIIIIIIIII\n@b\nACGT\n+\nIIII\n@c\nTTAGATCGGTAGAGCAA\n+\nIIIIIIIIIIIIIIIII\n";
    let out = process_reads(256, &standard(), input).unwrap();
    assert_eq!(out, b"@a\nCCCCC\n+\nIIIII\n@b\nACGT\n+\nIIII\n@c\nTT\n+\nII\n".to_vec());
}

#[test]
fn read_of_only_ambiguous_bases_leaves_empty_lines() {
    let input = b"@r1\nNNNN\n+\nIIII\n";
    let out = process_reads(256, &standard(), input).unwrap();
    assert_eq!(out, b"@r1\n\n+\n\n".to_vec());
}

#[test]
fn output_does_not_depend_on_the_arena_capacity() {
    let input = b"@a\nACGTNN\n+a\nIIIIII\n@b\nCCCCCAGATCGGAAGAGC\n+\nIIIIIIIIIIIIIIIIII\n@c\nACGT\n+\nII!!\n@d\nNACGTACGT\n+\nIIIIIIIII\n";
    let expected =
        b"@a\nACGT\n+\nIIII\n@b\nCCCCC\n+\nIIIII\n@c\nAC\n+\nII\n@d\nACGTACGT\n+\nIIIIIIII\n"
            .to_vec();
    // The longest record has 43 bytes.
    for capacity in [43, 44, 50, 64, 100, input.len(), input.len() + 1, 4096] {
        assert_eq!(process_reads(capacity, &standard(), input), Ok(expected.clone()));
    }
    assert_eq!(process_reads(42, &standard(), input), Err(TrimError::RecordTooLarge));
}

#[test]
fn record_longer_than_the_arena_is_a_fault() {
    let input = b"@a\nAC\n+\nII\n@b\nACGTACGT\n+\nIIIIIIII\n";
    // 11 and 23 bytes.
    assert_eq!(process_reads(22, &standard(), input), Err(TrimError::RecordTooLarge));
    assert_eq!(process_reads(11, &standard(), input), Err(TrimError::RecordTooLarge));
    assert_eq!(process_reads(10, &standard(), input), Err(TrimError::RecordTooLarge));
    assert_eq!(
        process_reads(23, &standard(), input),
        Ok(b"@a\nAC\n+\nII\n@b\nACGTACGT\n+\nIIIIIIII\n".to_vec())
    );
}

#[test]
fn arena_without_capacity_lets_nothing_through() {
    assert_eq!(process_reads(0, &standard(), b""), Err(TrimError::RecordTooLarge));
    assert_eq!(process_reads(0, &standard(), b"@a\nAC\n+\nII\n"), Err(TrimError::RecordTooLarge));
}

#[test]
fn empty_input_gives_empty_output() {
    assert_eq!(process_reads(16, &standard(), b""), Ok(Vec::new()));
    assert_eq!(process_reads(1, &standard(), b""), Ok(Vec::new()));
}

#[test]
fn truncated_last_record_is_dropped() {
    let input = b"@a\nAC\n+\nII\n@b\nACGT\n+\nII";
    assert_eq!(process_reads(64, &standard(), input), Ok(b"@a\nAC\n+\nII\n".to_vec()));
    assert_eq!(process_reads(64, &standard(), b"@b\nACGT\n+\nIIII"), Ok(Vec::new()));
    assert_eq!(process_reads(64, &standard(), b"no record here"), Ok(Vec::new()));
}

#[test]
fn truncated_last_record_that_fills_the_arena_is_a_fault() {
    // Eleven bytes of a complete record, then twelve of an incomplete one.
    let input = b"@a\nAC\n+\nII\n@b\nACGT\n+\nII";
    assert_eq!(process_reads(13, &standard(), input), Ok(b"@a\nAC\n+\nII\n".to_vec()));
    assert_eq!(process_reads(12, &standard(), input), Err(TrimError::RecordTooLarge));
}

#[test]
fn unsound_record_is_a_fault_of_the_run() {
    let good = b"@a\nAC\n+\nII\n";
    let mut input = good.to_vec();
    input.extend_from_slice(b"b\nAC\n+\nII\n");
    assert_eq!(process_reads(64, &standard(), &input), Err(TrimError::MissingSentinel));
    let mut input = good.to_vec();
    input.extend_from_slice(b"@b\nAC\n\nII\n");
    assert_eq!(process_reads(64, &standard(), &input), Err(TrimError::EmptySeparator));
    let mut input = good.to_vec();
    input.extend_from_slice(b"@b\nACGT\n+\nII\n");
    assert_eq!(process_reads(64, &standard(), &input), Err(TrimError::ShortQuality));
}

#[test]
fn fault_that_comes_first_in_the_stream_is_the_one_reported() {
    // An unsound record of 10 bytes, then a record of 23 bytes that does
    // not fit an arena of 16.
    let input = b"a\nAC\n+\nII\n@b\nACGTACGT\n+\nIIIIIIII\n";
    assert_eq!(process_reads(16, &standard(), input), Err(TrimError::MissingSentinel));
    // The other way round.
    let input = b"@b\nACGTACGT\n+\nIIIIIIII\na\nAC\n+\nII\n";
    assert_eq!(process_reads(16, &standard(), input), Err(TrimError::RecordTooLarge));
    assert_eq!(process_reads(64, &standard(), input), Err(TrimError::MissingSentinel));
}

#[test]
fn trimmed_stream_with_nothing_left_to_trim_is_a_fixed_point() {
    let input = b"@a\nACGTNN\n+a\nIIIIII\n@b\nCCCCCAGATCGGAAGAGC\n+\nIIIIIIIIIIIIIIIIII\n@c\nACGT\n+\nII!!\n";
    let once = process_reads(64, &standard(), input).unwrap();
    assert_eq!(once, b"@a\nACGT\n+\nIIII\n@b\nCCCCC\n+\nIIIII\n@c\nAC\n+\nII\n".to_vec());
    let twice = process_reads(64, &standard(), &once).unwrap();
    assert_eq!(twice, once);
}

#[test]
fn low_quality_laid_bare_by_another_cut_is_trimmed_in_a_second_run() {
    // The ambiguous base at the end is of high quality and shields the low
    // quality before it from the first run's walk.
    let input = b"@r\nACGTN\n+\nIII!I\n";
    let once = process_reads(64, &standard(), input).unwrap();
    assert_eq!(once, b"@r\nACGT\n+\nIII!\n".to_vec());
    let twice = process_reads(64, &standard(), &once).unwrap();
    assert_eq!(twice, b"@r\nACG\n+\nIII\n".to_vec());
}

#[test]
fn short_adapter_prefix_laid_bare_by_a_cut_is_trimmed_in_a_second_run() {
    let lenient = config(0.9, 1, 20);
    let input = b"@r\nCCAAGAT\n+\nIIIIIII\n";
    let once = process_reads(64, &lenient, input).unwrap();
    assert_eq!(once, b"@r\nCCA\n+\nIII\n".to_vec());
    let twice = process_reads(64, &lenient, &once).unwrap();
    assert_eq!(twice, b"@r\nCC\n+\nII\n".to_vec());
}

#[test]
fn exact_policy_trims_a_stream() {
    let exact =
        TrimConfig { adapter: AdapterSpec::exact(ADAPTER.to_vec()), cut_front: 0, cut_back: 20 };
    let input = b"@a\nCCCCCAGATCGGAAGAGCTT\n+\nIIIIIIIIIIIIIIIIIIII\n@b\nACGTAG\n+\nIIIIII\n";
    let out = process_reads(64, &exact, input).unwrap();
    assert_eq!(out, b"@a\nCCCCC\n+\nIIIII\n@b\nACGT\n+\nIIII\n".to_vec());
}

/// A small linear congruential generator, for inputs that vary without
/// chance.
struct Lcg(u64);

impl Lcg {
    fn next(&mut self, bound: u64) -> u64 {
        self.0 = self.0.wrapping_mul(6364136223846793005).wrapping_add(1442695040888963407);
        (self.0 >> 33) % bound
    }
}

fn varied_records(count: usize) -> Vec<u8> {
    let mut gen = Lcg(2024);
    let mut input = Vec::new();
    for id in 0..count {
        let len = gen.next(40) as usize;
        let mut bases: Vec<u8> = (0..len).map(|_| b"ACGTN"[gen.next(5) as usize]).collect();
        if gen.next(3) == 0 {
            let keep = gen.next(14) as usize;
            bases.extend_from_slice(&ADAPTER[..keep.min(ADAPTER.len())]);
        }
        let quals: Vec<u8> = (0..bases.len()).map(|_| b"!5I"[gen.next(3) as usize]).collect();
        input.extend_from_slice(format!("@read{id}\n").as_bytes());
        input.extend_from_slice(&bases);
        input.extend_from_slice(b"\n+\n");
        input.extend_from_slice(&quals);
        input.push(b'\n');
    }
    input
}

#[test]
fn varied_stream_is_trimmed_alike_through_every_arena_that_holds_its_records() {
    let input = varied_records(300);
    let reference = process_reads(input.len(), &standard(), &input).unwrap();
    for capacity in [128, 129, 200, 777, 4096, input.len() + 5] {
        assert_eq!(process_reads(capacity, &standard(), &input).unwrap(), reference);
    }
    let lines: Vec<&[u8]> = reference.split(|&b| b == b'\n').collect();
    assert_eq!(lines.len(), 4 * 300 + 1);
    for (id, record) in lines.chunks_exact(4).enumerate() {
        assert_eq!(record[0], format!("@read{id}").as_bytes());
        assert_eq!(record[2], b"+");
        assert_eq!(record[1].len(), record[3].len());
        assert!(record[1].first() != Some(&b'N'));
        assert!(record[1].last() != Some(&b'N'));
    }
}
