use adapto_rs::adapter::AdapterSpec;
use adapto_rs::record::{move_down, RecordLocator, NEWLINE, SENTINEL, SEPARATOR};
use adapto_rs::window::TrimConfig;

const ADAPTER: &[u8] = b"AGATCGGAAGAGC";

fn config(cutoff: i32) -> TrimConfig {
    let required: Vec<usize> =
        (0..=ADAPTER.len()).map(|l| (0.9f32 * l as f32).ceil() as usize).collect();
    TrimConfig {
        adapter: AdapterSpec::fuzzy(ADAPTER.to_vec(), required, 5).unwrap(),
        cut_front: 0,
        cut_back: cutoff,
    }
}

fn locator(n: usize, r: usize, o: usize, q: usize, e: usize) -> RecordLocator {
    RecordLocator {
        name_start: n,
        seq_start: r,
        plus_start: o,
        qual_start: q,
        end: e,
        start: 0,
        stop: o - r - 1,
    }
}

fn as_tuple(rec: &RecordLocator) -> (usize, usize, usize, usize, usize, usize, usize) {
    (rec.name_start, rec.seq_start, rec.plus_start, rec.qual_start, rec.end, rec.start, rec.stop)
}

#[test]
fn record_symbols() {
    assert_eq!(NEWLINE, b'\n');
    assert_eq!(SENTINEL, b'@');
    assert_eq!(SEPARATOR, b'+');
}

#[test]
fn move_down_copies_toward_the_front() {
    let mut buf = b"0123456789".to_vec();
    move_down(&mut buf, 4, 1, 3);
    assert_eq!(buf, b"0456456789".to_vec());
}

#[test]
fn move_down_with_overlapping_stretches() {
    let mut buf = b"0123456789".to_vec();
    move_down(&mut buf, 2, 0, 8);
    assert_eq!(buf, b"2345678989".to_vec());
}

#[test]
fn move_down_of_nothing_or_onto_itself_changes_nothing() {
    let mut buf = b"0123456789".to_vec();
    move_down(&mut buf, 5, 2, 0);
    assert_eq!(buf, b"0123456789".to_vec());
    move_down(&mut buf, 3, 3, 7);
    assert_eq!(buf, b"0123456789".to_vec());
}

#[test]
fn compact_rewrites_the_record_to_its_window() {
    let mut buf = b"@r1\nACGTACGTNN\n+r1\nIIIIII!!!!\n@r2".to_vec();
    let mut rec = locator(0, 4, 15, 19, 30);
    rec.start = 2;
    rec.stop = 7;
    rec.compact(&mut buf);
    assert_eq!(as_tuple(&rec), (0, 4, 10, 12, 18, 0, 5));
    assert_eq!(&buf[..18], b"@r1\nGTACG\n+\nIIII!\n");
    // Behind the rewritten record every byte is as it was.
    assert_eq!(&buf[18..], &b"@r1\nACGTACGTNN\n+r1\nIIIIII!!!!\n@r2"[18..]);
}

#[test]
fn compact_with_the_full_window_only_shortens_the_separator() {
    let mut buf = b"@r1\nACGT\n+r1 again\nIIII\n".to_vec();
    let mut rec = locator(0, 4, 9, 19, 24);
    rec.compact(&mut buf);
    assert_eq!(as_tuple(&rec), (0, 4, 9, 11, 16, 0, 4));
    assert_eq!(&buf[..16], b"@r1\nACGT\n+\nIIII\n");
}

#[test]
fn compact_of_a_minimal_record_changes_nothing() {
    let untouched = b"@r1\nACGT\n+\nIIII\n".to_vec();
    let mut buf = untouched.clone();
    let mut rec = locator(0, 4, 9, 11, 16);
    rec.compact(&mut buf);
    assert_eq!(as_tuple(&rec), (0, 4, 9, 11, 16, 0, 4));
    assert_eq!(buf, untouched);
}

#[test]
fn compact_with_the_empty_window_leaves_empty_lines() {
    let mut buf = b"@r1\nACGT\n+\nIIII\n".to_vec();
    let mut rec = locator(0, 4, 9, 11, 16);
    rec.start = 0;
    rec.stop = 0;
    rec.compact(&mut buf);
    assert_eq!(as_tuple(&rec), (0, 4, 5, 7, 8, 0, 0));
    assert_eq!(&buf[..8], b"@r1\n\n+\n\n");
}

#[test]
fn compact_drops_surplus_quality_characters() {
    let mut buf = b"@r1\nACGT\n+\nIIIIII\n".to_vec();
    let mut rec = locator(0, 4, 9, 11, 18);
    rec.compact(&mut buf);
    assert_eq!(as_tuple(&rec), (0, 4, 9, 11, 16, 0, 4));
    assert_eq!(&buf[..16], b"@r1\nACGT\n+\nIIII\n");
}

#[test]
fn decide_sets_the_window_and_nothing_else() {
    let buf = b"@r1\nACGTACGTNN\n+\nIIIIII!!!!\n".to_vec();
    let mut rec = locator(0, 4, 15, 17, 28);
    rec.decide(&buf, &config(20));
    assert_eq!(as_tuple(&rec), (0, 4, 15, 17, 28, 0, 6));
    let mut rec = locator(0, 4, 15, 17, 28);
    rec.decide(&buf, &config(0));
    assert_eq!(as_tuple(&rec), (0, 4, 15, 17, 28, 0, 8));
}

#[test]
fn process_trims_ambiguous_and_low_quality_tail() {
    let untouched = b"@r1\nACGTACGTNN\n+\nIIIIII!!!!\n".to_vec();
    let mut buf = untouched.clone();
    let mut rec = locator(0, 4, 15, 17, 28);
    rec.process(&mut buf, &config(20));
    assert_eq!(as_tuple(&rec), (0, 4, 11, 13, 20, 0, 6));
    assert_eq!(&buf[..20], b"@r1\nACGTAC\n+\nIIIIII\n");
    assert_eq!(&buf[20..], &untouched[20..]);
}

#[test]
fn process_of_a_record_in_the_middle_touches_no_neighbour() {
    let untouched = b"@a\nAC\n+\nII\n@r1\nACGTNN\n+\nIIIIII\n@b\nGT\n+\nII\n".to_vec();
    let mut buf = untouched.clone();
    let mut rec = locator(11, 15, 22, 24, 31);
    rec.process(&mut buf, &config(20));
    assert_eq!(as_tuple(&rec), (11, 15, 20, 22, 27, 0, 4));
    assert_eq!(&buf[..11], &untouched[..11]);
    assert_eq!(&buf[11..27], b"@r1\nACGT\n+\nIIII\n");
    assert_eq!(&buf[27..], &untouched[27..]);
}

#[test]
fn process_cuts_at_the_adapter() {
    let mut buf = b"@r1\nCCCCCAGATCGGAAGAGC\n+\nIIIIIIIIIIIIIIIIII\n".to_vec();
    let mut rec = locator(0, 4, 23, 25, 44);
    rec.process(&mut buf, &config(20));
    assert_eq!(as_tuple(&rec), (0, 4, 10, 12, 18, 0, 5));
    assert_eq!(&buf[..18], b"@r1\nCCCCC\n+\nIIIII\n");
}

#[test]
fn process_span_gives_what_process_gives_in_the_buffer() {
    let untouched = b"@a\nAC\n+\nII\n@r1\nNACGTNN\n+r1\nIII!III\n@b\nGT\n+\nII\n".to_vec();
    let (n, r, o, q, e) = (11, 15, 23, 27, 35);
    let mut whole = untouched.clone();
    let mut in_buffer = locator(n, r, o, q, e);
    in_buffer.process(&mut whole, &config(20));

    let mut apart = untouched.clone();
    let mut in_span = locator(n, r, o, q, e);
    in_span.process_span(&mut apart[n..e], &config(20));

    assert_eq!(as_tuple(&in_span), as_tuple(&in_buffer));
    assert_eq!(apart, whole);
    assert_eq!(as_tuple(&in_span), (11, 15, 20, 22, 27, 0, 4));
    assert_eq!(&whole[11..27], b"@r1\nACGT\n+\nII!I\n");
}

#[test]
fn fits_tells_sound_locators_within_the_buffer() {
    let rec = locator(0, 4, 15, 17, 28);
    assert!(rec.fits(28));
    assert!(rec.fits(100));
    assert!(!rec.fits(27));
    // Empty separator line.
    assert!(!locator(0, 4, 9, 10, 15).fits(100));
    // Quality line shorter than the base-call line.
    assert!(!locator(0, 4, 9, 11, 15).fits(100));
    // Window beyond the bases.
    let mut wide = locator(0, 4, 9, 11, 16);
    wide.stop = 5;
    assert!(!wide.fits(100));
    // Window out of order.
    let mut crossed = locator(0, 4, 9, 11, 16);
    crossed.start = 3;
    crossed.stop = 2;
    assert!(!crossed.fits(100));
    // Header line without a byte.
    assert!(!locator(4, 4, 9, 11, 16).fits(100));
}
