use adapto_rs::adapter::AdapterSpec;
use adapto_rs::window::TrimConfig;

const ADAPTER: &[u8] = b"AGATCGGAAGAGC";

fn fuzzy_config(frac: f32, min_overlap: usize, cutoff: i32) -> TrimConfig {
    let required: Vec<usize> =
        (0..=ADAPTER.len()).map(|l| (frac * l as f32).ceil() as usize).collect();
    TrimConfig {
        adapter: AdapterSpec::fuzzy(ADAPTER.to_vec(), required, min_overlap).unwrap(),
        cut_front: 0,
        cut_back: cutoff,
    }
}

fn exact_config(cutoff: i32) -> TrimConfig {
    TrimConfig { adapter: AdapterSpec::exact(ADAPTER.to_vec()), cut_front: 0, cut_back: cutoff }
}

#[test]
fn clean_read_is_kept_whole() {
    let fuzzy = fuzzy_config(0.9, 1, 20);
    assert_eq!(fuzzy.trim_window(b"ACGTACGTAC", b"IIIIIIIIII"), (0, 10));
    let exact = exact_config(20);
    assert_eq!(exact.trim_window(b"ACGTACGTAC", b"IIIIIIIIII"), (0, 10));
}

#[test]
fn read_of_only_ambiguous_bases_is_trimmed_to_nothing() {
    let fuzzy = fuzzy_config(0.9, 1, 20);
    assert_eq!(fuzzy.trim_window(b"NNNNNN", b"IIIIII"), (0, 0));
    assert_eq!(fuzzy.trim_window(b"NNNNNN", b"!!!!!!"), (0, 0));
    assert_eq!(fuzzy.trim_window(b"NNNNNN", b"I!I!I!"), (0, 0));
    let exact = exact_config(0);
    assert_eq!(exact.trim_window(b"NNNNNN", b"IIIIII"), (0, 0));
    let with_front = TrimConfig { cut_front: 30, ..fuzzy_config(0.5, 3, 40) };
    assert_eq!(with_front.trim_window(b"NNNNNN", b"IIIIII"), (0, 0));
}

#[test]
fn exact_adapter_in_a_clean_read_sets_the_stop() {
    let exact = exact_config(20);
    let read: &[u8] = b"CCCCCAGATCGGAAGAGCTT";
    let qual: &[u8] = b"IIIIIIIIIIIIIIIIIIII";
    assert_eq!(exact.trim_window(read, qual), (0, 5));
}

#[test]
fn tighter_of_quality_and_ambiguous_stop_wins() {
    let fuzzy = fuzzy_config(0.9, 5, 20);
    // Ambiguous bases alone would stop at 8, quality stops at 6.
    assert_eq!(fuzzy.trim_window(b"ACGTACGTNN", b"IIIIII!!!!"), (0, 6));
    // Quality alone would keep all ten, ambiguous bases stop at 8.
    assert_eq!(fuzzy.trim_window(b"ACGTACGTNN", b"IIIIIIIIII"), (0, 8));
}

#[test]
fn adapter_is_looked_for_only_before_the_quality_stop() {
    let fuzzy = fuzzy_config(1.0, 13, 20);
    let read: &[u8] = b"CCCCCAGATCGGAAGAGC";
    // All of the adapter is of low quality: quality stops at 5, and the
    // window of five bases is too short for a candidate.
    assert_eq!(fuzzy.trim_window(read, b"IIIII!!!!!!!!!!!!!"), (0, 5));
    // Half of the adapter is of low quality: what is left of it in the
    // window is no full match any more.
    assert_eq!(fuzzy.trim_window(read, b"IIIIIIIIIII!!!!!!!"), (0, 11));
    assert_eq!(fuzzy.trim_window(read, b"IIIIIIIIIIIIIIIIII"), (0, 5));
}

#[test]
fn ambiguous_bases_laid_bare_by_the_adapter_cut_are_dropped() {
    let fuzzy = fuzzy_config(0.9, 5, 20);
    let read: &[u8] = b"ACGTNNAGATCGGAAGAGC";
    let qual: &[u8] = b"IIIIIIIIIIIIIIIIIII";
    assert_eq!(fuzzy.trim_window(read, qual), (0, 4));
}

#[test]
fn leading_ambiguous_bases_set_the_start() {
    let fuzzy = fuzzy_config(0.9, 5, 20);
    assert_eq!(fuzzy.trim_window(b"NNACGT", b"IIIIII"), (2, 6));
}

#[test]
fn front_quality_cut_and_leading_ambiguous_bases_take_the_later_start() {
    let config = TrimConfig { cut_front: 20, ..fuzzy_config(0.9, 5, 20) };
    assert_eq!(config.trim_window(b"NACGTACG", b"!!!IIIII"), (3, 8));
    assert_eq!(config.trim_window(b"NNNNTACG", b"!!IIIIII"), (4, 8));
}

#[test]
fn start_never_passes_the_stop() {
    let fuzzy = fuzzy_config(0.9, 1, 20);
    // The adapter stands at the very start: stop is 0, and the start that
    // the leading ambiguous base asks for is held back to it.
    let read: &[u8] = b"AGATCGGAAGAGCNACGT";
    let qual: &[u8] = b"IIIIIIIIIIIIIIIIII";
    assert_eq!(fuzzy.trim_window(read, qual), (0, 0));
    let read: &[u8] = b"NAGATCGGAAGAGC";
    let qual: &[u8] = b"IIIIIIIIIIIIII";
    assert_eq!(fuzzy.trim_window(read, qual), (0, 0));
}

#[test]
fn empty_read_has_the_empty_window() {
    let fuzzy = fuzzy_config(0.9, 1, 20);
    assert_eq!(fuzzy.trim_window(b"", b""), (0, 0));
}

#[test]
fn quality_shorter_than_the_read_bounds_the_window() {
    let fuzzy = fuzzy_config(0.9, 5, 20);
    assert_eq!(fuzzy.trim_window(b"ACGTACGT", b"IIII"), (0, 4));
}

/// The decision written out plainly, step by step, to hold the library
/// against on inputs that vary.
fn plain_window(read: &[u8], qual: &[u8], cutoff: i32, frac: f32, min_overlap: usize) -> (usize, usize) {
    // Quality, from the back only.
    let mut quality_stop = qual.len();
    let (mut score, mut best) = (0i64, 0i64);
    for i in (0..qual.len()).rev() {
        score += (cutoff + 33) as i64 - qual[i] as i64;
        if score < 0 {
            break;
        }
        if score > best {
            best = score;
            quality_stop = i;
        }
    }
    let quality_start = 0;
    if quality_start >= quality_stop {
        quality_stop = 0;
    }
    // Ambiguous bases.
    let ends = |bases: &[u8]| {
        let first = bases.iter().position(|&b| b != b'N').unwrap_or(0);
        let last = bases.iter().rposition(|&b| b != b'N').map_or(0, |at| at + 1);
        (first, last)
    };
    let (n_start, n_stop) = ends(read);
    let clean = quality_stop.min(n_stop);
    // Adapter.
    let mut adapter_start = clean;
    if min_overlap <= clean {
        for i in 0..=clean - min_overlap {
            let overlap = (clean - i).min(ADAPTER.len());
            let required = (frac * overlap as f32).ceil() as usize;
            let differing = (0..overlap).filter(|&j| read[i + j] != ADAPTER[j]).count();
            if differing + required <= overlap {
                adapter_start = i;
                break;
            }
        }
    }
    let cut = clean.min(adapter_start);
    let stop = cut.min(ends(&read[..cut]).1);
    (quality_start.max(n_start).min(stop), stop)
}

#[test]
fn decision_agrees_with_the_plain_rendering_on_varied_reads() {
    let mut state = 7u64;
    let mut next = |bound: u64| {
        state = state.wrapping_mul(6364136223846793005).wrapping_add(1442695040888963407);
        (state >> 33) % bound
    };
    for round in 0..4000 {
        let len = next(30) as usize;
        let mut read: Vec<u8> = (0..len).map(|_| b"ACGTNN"[next(6) as usize]).collect();
        if next(2) == 0 {
            let mut piece = ADAPTER[..next(14) as usize].to_vec();
            for base in piece.iter_mut() {
                if next(8) == 0 {
                    *base = b'C';
                }
            }
            read.extend_from_slice(&piece);
            read.extend((0..next(4)).map(|_| b'T'));
        }
        let qual: Vec<u8> = (0..read.len()).map(|_| b"!+5?I"[next(5) as usize]).collect();
        let frac = [0.5f32, 0.75, 0.9, 1.0][round % 4];
        let min_overlap = [1usize, 3, 5, 13][(round / 4) % 4];
        let cutoff = [0, 10, 20, 30][(round / 16) % 4];
        let config = fuzzy_config(frac, min_overlap, cutoff);
        assert_eq!(
            config.trim_window(&read, &qual),
            plain_window(&read, &qual, cutoff, frac, min_overlap),
            "read {:?} qual {:?}",
            String::from_utf8_lossy(&read),
            String::from_utf8_lossy(&qual)
        );
    }
}
