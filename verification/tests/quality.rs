use adapto_rs::quality::{qual_trim, QUAL_BASE};

#[test]
fn quality_base_is_phred_33() {
    assert_eq!(QUAL_BASE, 33);
}

#[test]
fn low_quality_tail_is_cut_where_the_score_peaks() {
    // Threshold character is 20 + 33 = 53. From the back the score runs
    // 20, 40, 60, 80 over the four '!', then falls by 20 per 'I'.
    assert_eq!(qual_trim(b"IIIIII!!!!", 0, 20), (0, 6));
}

#[test]
fn uniformly_high_quality_is_kept_whole() {
    assert_eq!(qual_trim(b"IIIIIIIIII", 0, 20), (0, 10));
}

#[test]
fn uniformly_low_quality_collapses_to_empty() {
    assert_eq!(qual_trim(b"!!!!", 0, 20), (0, 0));
}

#[test]
fn quality_at_the_threshold_is_not_cut() {
    // '5' is character 53: each position adds zero to the score.
    assert_eq!(qual_trim(b"5555", 20, 20), (0, 4));
}

#[test]
fn front_is_cut_only_for_a_positive_front_cutoff() {
    assert_eq!(qual_trim(b"!!IIIIII", 20, 20), (2, 8));
    assert_eq!(qual_trim(b"!!IIIIII", 0, 20), (0, 8));
    assert_eq!(qual_trim(b"!!IIIIII", -5, 20), (0, 8));
}

#[test]
fn walk_stops_the_moment_the_score_goes_negative() {
    // From the back: '!' gives 20, 'I' gives 0, 'I' gives -20: stop. The
    // leading '!' is never looked at.
    assert_eq!(qual_trim(b"!II!", 0, 20), (0, 3));
}

#[test]
fn later_peak_must_be_strictly_higher_to_move_the_cut() {
    // From the back: 20 at position 2, 0 at position 1, 20 again at
    // position 0. The first peak stands.
    assert_eq!(qual_trim(b"!I!", 0, 20), (0, 2));
}

#[test]
fn front_and_back_cuts_that_cross_collapse_to_empty() {
    assert_eq!(qual_trim(b"!!!", 20, 20), (0, 0));
}

#[test]
fn empty_quality_gives_empty_window() {
    assert_eq!(qual_trim(b"", 20, 20), (0, 0));
}

#[test]
fn zero_back_cutoff_uses_the_base_offset_alone() {
    assert_eq!(qual_trim(b"!!", 0, 0), (0, 2));
    assert_eq!(qual_trim(b"I I", 0, 0), (0, 3));
}

#[test]
fn extreme_cutoffs_do_not_overflow() {
    assert_eq!(qual_trim(b"II", 0, i32::MAX), (0, 0));
    assert_eq!(qual_trim(b"II", 0, i32::MIN), (0, 2));
    assert_eq!(qual_trim(b"II", i32::MAX, i32::MIN), (0, 0));
}

#[test]
fn trimmed_quality_is_not_cut_again() {
    let qual: &[u8] = b"!!IIII5I!!I!!";
    let (start, stop) = qual_trim(qual, 20, 20);
    assert!(start < stop);
    assert_eq!(qual_trim(&qual[start..stop], 20, 20), (0, stop - start));
}
