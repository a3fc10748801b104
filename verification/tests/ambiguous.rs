use adapto_rs::ambiguous::{trim_n_ends, AMBIGUOUS_BASE};

#[test]
fn ambiguous_symbol_is_upper_case_n() {
    assert_eq!(AMBIGUOUS_BASE, b'N');
}

#[test]
fn trailing_ambiguous_run_is_dropped() {
    assert_eq!(trim_n_ends(b"ACGTACGTNN"), (0, 8));
}

#[test]
fn ambiguous_runs_at_both_ends_are_dropped() {
    assert_eq!(trim_n_ends(b"NNACGTNNN"), (2, 6));
}

#[test]
fn ambiguous_bases_inside_the_read_stay() {
    assert_eq!(trim_n_ends(b"ACNNGT"), (0, 6));
    assert_eq!(trim_n_ends(b"NACNNGTN"), (1, 7));
}

#[test]
fn read_of_only_ambiguous_bases_gives_empty_window() {
    assert_eq!(trim_n_ends(b"NNNN"), (0, 0));
    assert_eq!(trim_n_ends(b"N"), (0, 0));
}

#[test]
fn empty_read_gives_empty_window() {
    assert_eq!(trim_n_ends(b""), (0, 0));
}

#[test]
fn single_resolved_base_is_kept() {
    assert_eq!(trim_n_ends(b"A"), (0, 1));
    assert_eq!(trim_n_ends(b"NNANN"), (2, 3));
}

#[test]
fn lower_case_n_is_a_resolved_symbol() {
    assert_eq!(trim_n_ends(b"nACGn"), (0, 5));
}

#[test]
fn resolved_part_is_not_cut_again() {
    let read: &[u8] = b"NNNACNNGTNN";
    let (start, stop) = trim_n_ends(read);
    assert_eq!((start, stop), (3, 9));
    assert_eq!(trim_n_ends(&read[start..stop]), (0, stop - start));
}
