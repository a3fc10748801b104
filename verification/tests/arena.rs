use adapto_rs::arena::Arena;
use adapto_rs::error::TrimError;
use adapto_rs::record::RecordLocator;

fn arena_with(capacity: usize, bytes: &[u8]) -> Arena {
    let mut arena = Arena::new(capacity);
    assert_eq!(arena.fill_from(bytes), bytes.len().min(capacity));
    arena
}

fn as_tuple(rec: &RecordLocator) -> (usize, usize, usize, usize, usize, usize, usize) {
    (rec.name_start, rec.seq_start, rec.plus_start, rec.qual_start, rec.end, rec.start, rec.stop)
}

#[test]
fn new_arena_is_empty() {
    let arena = Arena::new(16);
    assert_eq!(arena.capacity(), 16);
    assert_eq!(arena.cursor, 0);
    assert_eq!(arena.filled, 0);
    assert_eq!(arena.spare(), 16);
    assert!(!arena.is_full());
    assert_eq!(arena.buf, vec![0u8; 16]);
}

#[test]
fn arena_without_capacity_is_full_from_the_start() {
    let arena = Arena::new(0);
    assert_eq!(arena.spare(), 0);
    assert!(arena.is_full());
}

#[test]
fn fill_takes_what_fits() {
    let mut arena = Arena::new(8);
    assert_eq!(arena.fill_from(b"ABCDE"), 5);
    assert_eq!(arena.filled, 5);
    assert_eq!(&arena.buf[..5], b"ABCDE");
    assert_eq!(arena.fill_from(b"FGHIJ"), 3);
    assert_eq!(arena.filled, 8);
    assert_eq!(arena.buf, b"ABCDEFGH".to_vec());
    assert!(arena.is_full());
    assert_eq!(arena.fill_from(b"K"), 0);
    assert_eq!(arena.buf, b"ABCDEFGH".to_vec());
}

#[test]
fn spare_part_and_commit_stand_for_a_fill() {
    let mut arena = arena_with(8, b"ABC");
    {
        let spare = arena.spare_mut();
        assert_eq!(spare.len(), 5);
        spare[0] = b'D';
        spare[1] = b'E';
    }
    assert!(arena.commit(2));
    assert_eq!(arena.filled, 5);
    assert_eq!(&arena.buf[..5], b"ABCDE");
    assert!(!arena.commit(4));
    assert_eq!(arena.filled, 5);
    assert!(arena.commit(3));
    assert!(arena.is_full());
    assert!(arena.commit(0));
}

#[test]
fn shift_moves_the_pending_bytes_to_the_front() {
    let mut arena = arena_with(10, b"0123456789");
    arena.cursor = 6;
    arena.shift();
    assert_eq!(arena.cursor, 0);
    assert_eq!(arena.filled, 4);
    assert_eq!(arena.buf, b"6789456789".to_vec());
    assert_eq!(arena.spare(), 6);
}

#[test]
fn shift_with_nothing_consumed_changes_nothing() {
    let mut arena = arena_with(10, b"01234");
    arena.shift();
    assert_eq!(arena.cursor, 0);
    assert_eq!(arena.filled, 5);
    assert_eq!(&arena.buf[..5], b"01234");
}

#[test]
fn shift_with_everything_consumed_empties_the_arena() {
    let mut arena = arena_with(10, b"01234");
    arena.cursor = 5;
    arena.shift();
    assert_eq!(arena.cursor, 0);
    assert_eq!(arena.filled, 0);
}

#[test]
fn next_line_returns_the_offset_past_the_terminator() {
    let arena = arena_with(16, b"ab\ncd\n\nef");
    assert_eq!(arena.next_line(0), Some(3));
    assert_eq!(arena.next_line(2), Some(3));
    assert_eq!(arena.next_line(3), Some(6));
    assert_eq!(arena.next_line(6), Some(7));
    assert_eq!(arena.next_line(7), None);
    assert_eq!(arena.next_line(9), None);
    assert_eq!(arena.next_line(100), None);
    assert_eq!(arena.next_line(usize::MAX), None);
}

#[test]
fn next_line_looks_at_filled_bytes_only() {
    let mut arena = Arena::new(16);
    arena.buf[5] = b'\n';
    assert_eq!(arena.fill_from(b"abc"), 3);
    assert_eq!(arena.next_line(0), None);
}

#[test]
fn complete_record_is_located() {
    let mut arena = arena_with(64, b"@r1\nACGTACGTNN\n+\nIIIIII!!!!\n@r2\nAC");
    let rec = arena.get_next_record().unwrap().unwrap();
    assert_eq!(as_tuple(&rec), (0, 4, 15, 17, 28, 0, 10));
    assert_eq!(arena.cursor, 28);
    assert_eq!(arena.record_bytes(&rec), b"@r1\nACGTACGTNN\n+\nIIIIII!!!!\n");
}

#[test]
fn incomplete_record_asks_for_more_and_leaves_the_cursor() {
    for text in [
        &b""[..],
        b"@r1",
        b"@r1\nACGT",
        b"@r1\nACGT\n+",
        b"@r1\nACGT\n+\nIIII",
    ] {
        let mut arena = arena_with(64, text);
        assert_eq!(arena.get_next_record().unwrap().map(|rec| as_tuple(&rec)), None);
        assert_eq!(arena.cursor, 0);
    }
}

#[test]
fn incomplete_record_is_not_judged_by_its_first_byte() {
    let mut arena = arena_with(64, b"Xr1\nACGT\n+\nIIII");
    assert!(matches!(arena.get_next_record(), Ok(None)));
}

#[test]
fn header_without_sentinel_is_a_fault() {
    let mut arena = arena_with(64, b"Xr1\nACGT\n+\nIIII\n");
    assert_eq!(arena.get_next_record().map(|rec| rec.is_some()), Err(TrimError::MissingSentinel));
    assert_eq!(arena.cursor, 0);
}

#[test]
fn empty_separator_line_is_a_fault() {
    let mut arena = arena_with(64, b"@r1\nACGT\n\nIIII\n");
    assert_eq!(arena.get_next_record().map(|rec| rec.is_some()), Err(TrimError::EmptySeparator));
    assert_eq!(arena.cursor, 0);
}

#[test]
fn quality_line_shorter_than_the_bases_is_a_fault() {
    let mut arena = arena_with(64, b"@r1\nACGT\n+\nIII\n");
    assert_eq!(arena.get_next_record().map(|rec| rec.is_some()), Err(TrimError::ShortQuality));
    assert_eq!(arena.cursor, 0);
}

#[test]
fn missing_sentinel_is_reported_before_the_other_faults() {
    let mut arena = arena_with(64, b"r1\nACGT\n\nI\n");
    assert_eq!(arena.get_next_record().map(|rec| rec.is_some()), Err(TrimError::MissingSentinel));
    let mut arena = arena_with(64, b"@r1\nACGT\n\nI\n");
    assert_eq!(arena.get_next_record().map(|rec| rec.is_some()), Err(TrimError::EmptySeparator));
}

#[test]
fn longer_quality_line_and_separator_text_are_accepted() {
    let mut arena = arena_with(64, b"@r1\nACGT\n+r1 again\nIIIIII\n");
    let rec = arena.get_next_record().unwrap().unwrap();
    assert_eq!(as_tuple(&rec), (0, 4, 9, 19, 26, 0, 4));
}

#[test]
fn record_with_empty_read_is_located() {
    let mut arena = arena_with(64, b"@r1\n\n+\n\n");
    let rec = arena.get_next_record().unwrap().unwrap();
    assert_eq!(as_tuple(&rec), (0, 4, 5, 7, 8, 0, 0));
}

#[test]
fn records_are_scanned_one_after_the_other() {
    let mut arena = arena_with(64, b"@a\nAC\n+\nII\n@b\nGTA\n+\nIII\n@c\nAC");
    let first = arena.get_next_record().unwrap().unwrap();
    let second = arena.get_next_record().unwrap().unwrap();
    assert_eq!(as_tuple(&first), (0, 3, 6, 8, 11, 0, 2));
    assert_eq!(as_tuple(&second), (11, 14, 18, 20, 24, 0, 3));
    assert!(matches!(arena.get_next_record(), Ok(None)));
    assert_eq!(arena.cursor, 24);
}

#[test]
fn batch_holds_the_complete_records_in_order() {
    let mut arena = arena_with(64, b"@a\nAC\n+\nII\n@b\nGTA\n+\nIII\n@c\nAC");
    let mut batch = vec![RecordLocator {
        name_start: 9,
        seq_start: 9,
        plus_start: 9,
        qual_start: 9,
        end: 9,
        start: 9,
        stop: 9,
    }];
    assert_eq!(arena.scan_batch(&mut batch), Ok(()));
    assert_eq!(batch.len(), 2);
    assert_eq!(as_tuple(&batch[0]), (0, 3, 6, 8, 11, 0, 2));
    assert_eq!(as_tuple(&batch[1]), (11, 14, 18, 20, 24, 0, 3));
    // The spans are disjoint and in the order of discovery.
    assert!(batch[0].end <= batch[1].name_start);
    assert_eq!(arena.cursor, 24);
    assert_eq!(arena.filled, 29);
}

#[test]
fn batch_of_an_arena_without_a_complete_record_is_empty() {
    let mut arena = arena_with(64, b"@a\nAC\n+\nI");
    let mut batch = Vec::new();
    assert_eq!(arena.scan_batch(&mut batch), Ok(()));
    assert!(batch.is_empty());
    assert_eq!(arena.cursor, 0);
}

#[test]
fn batch_stops_at_the_first_fault_and_keeps_what_came_before() {
    let mut arena = arena_with(64, b"@a\nAC\n+\nII\nb\nGTA\n+\nIII\n@c\nAC\n+\nII\n");
    let mut batch = Vec::new();
    assert_eq!(arena.scan_batch(&mut batch), Err(TrimError::MissingSentinel));
    assert_eq!(batch.len(), 1);
    assert_eq!(as_tuple(&batch[0]), (0, 3, 6, 8, 11, 0, 2));
    assert_eq!(arena.cursor, 11);
}

#[test]
fn filled_part_is_handed_out_for_rewriting() {
    let mut arena = arena_with(16, b"ABCDE");
    {
        let head = arena.filled_mut();
        assert_eq!(head.len(), 5);
        head[4] = b'X';
    }
    assert_eq!(&arena.buf[..5], b"ABCDX");
    assert_eq!(arena.filled, 5);
}

#[test]
fn make_room_shifts_and_tells_the_room() {
    let mut arena = arena_with(10, b"0123456789");
    arena.cursor = 6;
    assert_eq!(arena.make_room(), Ok(6));
    assert_eq!(arena.cursor, 0);
    assert_eq!(arena.filled, 4);
    assert_eq!(&arena.buf[..4], b"6789");
}

#[test]
fn make_room_in_an_arena_full_of_pending_bytes_is_a_fault() {
    let mut arena = arena_with(10, b"0123456789");
    assert_eq!(arena.make_room(), Err(TrimError::RecordTooLarge));
    assert_eq!(arena.filled, 10);
    let mut none = Arena::new(0);
    assert_eq!(none.make_room(), Err(TrimError::RecordTooLarge));
}
