//! Adapter search: where in a read the adapter starts, under exact/prefix
//! matching or under matching that tolerates a bounded share of mismatches.

use vstd::prelude::*;

verus! {

/// How many adapter bytes are laid against the read when the adapter is
/// tried at position `i` of a window of `window` bases: as many as fit.
pub open spec fn overlap_len(window: int, adapter_len: int, i: int) -> int {
    if window - i < adapter_len {
        window - i
    } else {
        adapter_len
    }
}

/// Number of positions `j < len` at which `read[i + j]` differs from
/// `adapter[j]`.
pub open spec fn mismatches(read: Seq<u8>, adapter: Seq<u8>, i: int, len: int) -> int
    decreases len,
{
    if len <= 0 {
        0
    } else {
        mismatches(read, adapter, i, len - 1) + if read[i + len - 1] != adapter[len - 1] {
            1int
        } else {
            0int
        }
    }
}

/// A table of required matches is usable for an adapter of `adapter_len`
/// bytes: one entry per overlap length, none asking for more matches than
/// the overlap has positions.
pub open spec fn thresholds_fit(required: Seq<usize>, adapter_len: int) -> bool {
    &&& required.len() == adapter_len + 1
    &&& forall|l: int| 0 <= l <= adapter_len ==> #[trigger] required[l] <= l
}

/// The adapter laid at position `i` agrees with the read closely enough:
/// the mismatches over the overlap stay within the overlap length less the
/// matches required for that length.
pub open spec fn fuzzy_hit(
    read: Seq<u8>,
    window: int,
    adapter: Seq<u8>,
    required: Seq<usize>,
    i: int,
) -> bool {
    let l = overlap_len(window, adapter.len() as int, i);
    mismatches(read, adapter, i, l) + required[l] <= l
}

/// `k` is the first candidate position with a fuzzy hit. Candidates run
/// from 0 up to `window - min_overlap`.
pub open spec fn is_first_fuzzy_hit(
    read: Seq<u8>,
    window: int,
    adapter: Seq<u8>,
    required: Seq<usize>,
    min_overlap: int,
    k: int,
) -> bool {
    &&& 0 <= k <= window - min_overlap
    &&& fuzzy_hit(read, window, adapter, required, k)
    &&& forall|i: int| 0 <= i < k ==> !fuzzy_hit(read, window, adapter, required, i)
}

/// Where fuzzy matching cuts the window: at the first candidate with a hit,
/// or at the window's end when no candidate has one.
pub open spec fn fuzzy_cut(
    read: Seq<u8>,
    window: int,
    adapter: Seq<u8>,
    required: Seq<usize>,
    min_overlap: int,
) -> int {
    if exists|k: int| is_first_fuzzy_hit(read, window, adapter, required, min_overlap, k) {
        choose|k: int| is_first_fuzzy_hit(read, window, adapter, required, min_overlap, k)
    } else {
        window
    }
}

/// The first fuzzy hit, where there is one, is the fuzzy cut.
pub proof fn lemma_fuzzy_cut_is(
    read: Seq<u8>,
    window: int,
    adapter: Seq<u8>,
    required: Seq<usize>,
    min_overlap: int,
    k: int,
)
    requires
        is_first_fuzzy_hit(read, window, adapter, required, min_overlap, k),
    ensures
        fuzzy_cut(read, window, adapter, required, min_overlap) == k,
{
    let c = choose|c: int| is_first_fuzzy_hit(read, window, adapter, required, min_overlap, c);
    assert(is_first_fuzzy_hit(read, window, adapter, required, min_overlap, c));
    if c < k {
        assert(!fuzzy_hit(read, window, adapter, required, c));
    }
    if k < c {
        assert(!fuzzy_hit(read, window, adapter, required, k));
    }
}

/// With no hit at any candidate, the fuzzy cut is the window's end.
pub proof fn lemma_fuzzy_cut_none(
    read: Seq<u8>,
    window: int,
    adapter: Seq<u8>,
    required: Seq<usize>,
    min_overlap: int,
)
    requires
        forall|i: int|
            0 <= i <= window - min_overlap ==> !fuzzy_hit(read, window, adapter, required, i),
    ensures
        fuzzy_cut(read, window, adapter, required, min_overlap) == window,
{
}

/// Counts the mismatches of the adapter laid at `i` over `len` positions,
/// giving up once they exceed `allowed`.
fn within_allowance(adapter: &[u8], read: &[u8], i: usize, len: usize, allowed: usize) -> (ok: bool)
    requires
        i + len <= read.len(),
        len <= adapter.len(),
    ensures
        ok <==> mismatches(read@, adapter@, i as int, len as int) <= allowed,
{
    let mut d: usize = 0;
    let mut j: usize = 0;
    while d <= allowed && j < len
        invariant
            i + len <= read.len(),
            len <= adapter.len(),
            0 <= j <= len,
            d as int == mismatches(read@, adapter@, i as int, j as int),
            d <= j,
        decreases len - j,
    {
        if read[i + j] != adapter[j] {
            d = d + 1;
        }
        j = j + 1;
    }
    proof {
        lemma_mismatches_grow(read@, adapter@, i as int, j as int, len as int);
    }
    d <= allowed
}

/// Counting over more positions never lowers the count.
pub proof fn lemma_mismatches_grow(read: Seq<u8>, adapter: Seq<u8>, i: int, a: int, b: int)
    requires
        a <= b,
    ensures
        mismatches(read, adapter, i, a) <= mismatches(read, adapter, i, b),
        0 <= mismatches(read, adapter, i, a),
    decreases b,
{
    if a < b && b > 0 {
        lemma_mismatches_grow(read, adapter, i, a, b - 1);
    } else if a > 0 {
        lemma_mismatches_grow(read, adapter, i, a - 1, a - 1);
    }
}

/// Finds where the adapter starts in the first `m` bases of `read`,
/// tolerating mismatches.
///
/// Each candidate start `i` from 0 up to `m - min_letters` lays the adapter
/// over the `min(m - i, adapter length)` bases that follow; `required` gives,
/// for each such overlap length, the number of positions that must agree.
/// The first candidate whose mismatches stay within the rest is returned,
/// and `m` when there is none.
pub fn naive_matching(
    adapter: &[u8],
    read: &[u8],
    m: usize,
    required: &[usize],
    min_letters: usize,
) -> (cut: usize)
    requires
        m <= read@.len(),
        thresholds_fit(required@, adapter@.len() as int),
    ensures
        cut as int == fuzzy_cut(
            read@,
            m as int,
            adapter@,
            required@,
            min_letters as int,
        ),
        cut <= m,
{
    let n = adapter.len();
    if min_letters > m {
        proof {
            lemma_fuzzy_cut_none(read@, m as int, adapter@, required@, min_letters as int);
        }
        return m;
    }
    let last = m - min_letters;
    let mut i: usize = 0;
    while i <= last
        invariant
            n == adapter@.len(),
            m <= read@.len(),
            last == m - min_letters,
            thresholds_fit(required@, n as int),
            0 <= i <= last + 1,
            forall|c: int| 0 <= c < i ==> !fuzzy_hit(read@, m as int, adapter@, required@, c),
        decreases last + 1 - i,
    {
        let j_lim = if m - i < n {
            m - i
        } else {
            n
        };
        let d_max = j_lim - required[j_lim];
        if within_allowance(adapter, read, i, j_lim, d_max) {
            proof {
                lemma_fuzzy_cut_is(
                    read@,
                    m as int,
                    adapter@,
                    required@,
                    min_letters as int,
                    i as int,
                );
            }
            return i;
        }
        i = i + 1;
    }
    proof {
        lemma_fuzzy_cut_none(read@, m as int, adapter@, required@, min_letters as int);
    }
    m
}

/// The adapter laid at position `i` agrees with the read on every position
/// of the overlap: all of the adapter where it fits in the window, else the
/// part of it that the window's tail has room for.
pub open spec fn prefix_match(read: Seq<u8>, window: int, adapter: Seq<u8>, i: int) -> bool {
    forall|j: int|
        0 <= j < overlap_len(window, adapter.len() as int, i) ==>
            read[i + j] == #[trigger] adapter[j]
}

/// `k` is the first position at which the adapter agrees with the read
/// over the whole overlap.
pub open spec fn is_exact_cut(read: Seq<u8>, window: int, adapter: Seq<u8>, k: int) -> bool {
    &&& 0 <= k <= window
    &&& prefix_match(read, window, adapter, k)
    &&& forall|i: int| 0 <= i < k ==> !prefix_match(read, window, adapter, i)
}

/// Where exact/prefix matching cuts the window: at the first full
/// occurrence of the adapter or, failing that, at the start of the longest
/// tail of the window that is a prefix of the adapter. A window with
/// neither is cut at its end.
pub open spec fn exact_cut(read: Seq<u8>, window: int, adapter: Seq<u8>) -> int {
    choose|k: int| is_exact_cut(read, window, adapter, k)
}

/// The first position with a full-overlap match is the exact cut.
pub proof fn lemma_exact_cut_is(read: Seq<u8>, window: int, adapter: Seq<u8>, k: int)
    requires
        is_exact_cut(read, window, adapter, k),
    ensures
        exact_cut(read, window, adapter) == k,
{
    let c = exact_cut(read, window, adapter);
    assert(is_exact_cut(read, window, adapter, c));
    if c < k {
        assert(!prefix_match(read, window, adapter, c));
    }
    if k < c {
        assert(!prefix_match(read, window, adapter, k));
    }
}

/// A window in which the adapter agrees at `k` has a first position at
/// which it agrees.
proof fn lemma_exact_cut_before(read: Seq<u8>, window: int, adapter: Seq<u8>, k: int)
    requires
        0 <= k <= window,
        prefix_match(read, window, adapter, k),
    ensures
        exists|c: int| is_exact_cut(read, window, adapter, c),
    decreases k,
{
    if forall|i: int| 0 <= i < k ==> !prefix_match(read, window, adapter, i) {
        assert(is_exact_cut(read, window, adapter, k));
    } else {
        let i = choose|i: int| 0 <= i < k && prefix_match(read, window, adapter, i);
        lemma_exact_cut_before(read, window, adapter, i);
    }
}

/// Every window has its exact cut, which lies within the window.
pub proof fn lemma_exact_cut_exists(read: Seq<u8>, window: int, adapter: Seq<u8>)
    requires
        0 <= window,
    ensures
        is_exact_cut(read, window, adapter, exact_cut(read, window, adapter)),
        0 <= exact_cut(read, window, adapter) <= window,
{
    lemma_exact_cut_before(read, window, adapter, window);
}

/// The `k` bytes of `text` that end at `end` are the first `k` bytes of
/// `pat`.
#[verifier::opaque]
pub open spec fn ends_with_prefix(text: Seq<u8>, end: int, pat: Seq<u8>, k: int) -> bool {
    &&& 0 <= k <= end <= text.len()
    &&& k <= pat.len()
    &&& forall|j: int| 0 <= j < k ==> text[end - k + j] == #[trigger] pat[j]
}

/// `k` is the length of a border of the first `len` bytes of `pat`: a
/// proper prefix of them that is also their suffix.
pub open spec fn is_border(pat: Seq<u8>, len: int, k: int) -> bool {
    k < len && ends_with_prefix(pat, len, pat, k)
}

/// `b` is the length of the longest border of the first `len` bytes of
/// `pat`.
pub open spec fn is_longest_border(pat: Seq<u8>, len: int, b: int) -> bool {
    &&& is_border(pat, len, b)
    &&& forall|k: int| is_border(pat, len, k) ==> k <= b
}

/// `table` is the longest-proper-prefix table of `pat`: its entry `i` is
/// the length of the longest border of `pat[..=i]`.
pub open spec fn is_prefix_table(pat: Seq<u8>, table: Seq<usize>) -> bool {
    &&& table.len() == pat.len()
    &&& forall|i: int| 0 <= i < pat.len() ==>
        is_longest_border(pat, i + 1, #[trigger] table[i] as int)
}

/// A prefix that ends a text is no longer than the text up to there, nor
/// than the pattern.
proof fn lemma_prefix_bounds(text: Seq<u8>, end: int, pat: Seq<u8>, k: int)
    requires
        ends_with_prefix(text, end, pat, k),
    ensures
        0 <= k <= end <= text.len(),
        k <= pat.len(),
{
    reveal(ends_with_prefix);
}

/// The empty prefix ends a text anywhere.
proof fn lemma_empty_prefix(text: Seq<u8>, end: int, pat: Seq<u8>)
    requires
        0 <= end <= text.len(),
    ensures
        ends_with_prefix(text, end, pat, 0),
{
    reveal(ends_with_prefix);
}

/// Of two prefixes of `pat` that both end a text at the same place, the
/// shorter is a border of the longer.
proof fn lemma_shorter_is_border(text: Seq<u8>, end: int, pat: Seq<u8>, long: int, short: int)
    requires
        ends_with_prefix(text, end, pat, long),
        ends_with_prefix(text, end, pat, short),
        short < long,
    ensures
        is_border(pat, long, short),
{
    reveal(ends_with_prefix);
    assert forall|j: int| 0 <= j < short implies pat[long - short + j] == #[trigger] pat[j] by {
        assert(text[end - long + (long - short + j)] == pat[long - short + j]);
        assert(text[end - short + j] == pat[j]);
    }
}

/// A border of a prefix that ends a text ends that text too.
proof fn lemma_border_ends_text(text: Seq<u8>, end: int, pat: Seq<u8>, long: int, short: int)
    requires
        ends_with_prefix(text, end, pat, long),
        is_border(pat, long, short),
    ensures
        ends_with_prefix(text, end, pat, short),
{
    reveal(ends_with_prefix);
    assert forall|j: int| 0 <= j < short implies text[end - short + j] == #[trigger] pat[j] by {
        assert(pat[long - short + j] == pat[j]);
        assert(text[end - long + (long - short + j)] == pat[long - short + j]);
    }
}

/// A prefix one byte longer ends the text one byte further on exactly when
/// the shorter one ends it here and the next bytes agree.
proof fn lemma_extend(text: Seq<u8>, end: int, pat: Seq<u8>, k: int)
    requires
        0 <= k < pat.len(),
        0 <= end < text.len(),
    ensures
        ends_with_prefix(text, end + 1, pat, k + 1) <==> (ends_with_prefix(text, end, pat, k)
            && text[end] == pat[k]),
{
    reveal(ends_with_prefix);
    if ends_with_prefix(text, end + 1, pat, k + 1) {
        assert(text[end + 1 - (k + 1) + k] == pat[k]);
        assert forall|j: int| 0 <= j < k implies text[end - k + j] == #[trigger] pat[j] by {
            assert(text[end + 1 - (k + 1) + j] == pat[j]);
        }
    }
    if ends_with_prefix(text, end, pat, k) && text[end] == pat[k] {
        assert forall|j: int| 0 <= j < k + 1
            implies text[end + 1 - (k + 1) + j] == #[trigger] pat[j] by {
            if j < k {
                assert(text[end - k + j] == pat[j]);
            }
        }
    }
}

/// One step of the scan: from the longest prefix that ends the text at
/// `end` and can be extended by the byte at `end`, or from knowing that
/// none can, to the longest prefix that ends the text at `end + 1`.
proof fn lemma_scan_step(
    text: Seq<u8>,
    end: int,
    next: int,
    pat: Seq<u8>,
    matched: int,
    grown: int,
)
    requires
        0 <= end < text.len(),
        next == end + 1,
        0 <= matched < pat.len(),
        ends_with_prefix(text, end, pat, matched),
        forall|c: int|
            0 <= c < pat.len() && ends_with_prefix(text, end, pat, c) && pat[c] == text[end] ==> c
                <= matched,
        matched > 0 ==> text[end] == pat[matched],
        grown == if text[end] == pat[matched] {
            matched + 1
        } else {
            0
        },
    ensures
        ends_with_prefix(text, next, pat, grown),
        grown <= next,
        forall|k: int| ends_with_prefix(text, next, pat, k) ==> k <= grown,
{
    if text[end] == pat[matched] {
        lemma_extend(text, end, pat, matched);
    } else {
        lemma_empty_prefix(text, next, pat);
    }
    lemma_prefix_bounds(text, next, pat, grown);
    assert forall|k: int| ends_with_prefix(text, next, pat, k) implies k <= grown by {
        lemma_prefix_bounds(text, next, pat, k);
        if k > 0 {
            lemma_extend(text, end, pat, k - 1);
        }
    }
}

/// One step back in the scan: where the byte at `end` does not extend the
/// prefix of length `matched`, only the borders of that prefix are left to
/// try, the longest of them first.
proof fn lemma_scan_fall(text: Seq<u8>, end: int, pat: Seq<u8>, matched: int, fall: int)
    requires
        0 <= end < text.len(),
        0 < matched < pat.len(),
        ends_with_prefix(text, end, pat, matched),
        forall|c: int|
            0 <= c < pat.len() && ends_with_prefix(text, end, pat, c) && pat[c] == text[end] ==> c
                <= matched,
        text[end] != pat[matched],
        is_longest_border(pat, matched, fall),
    ensures
        0 <= fall < matched,
        ends_with_prefix(text, end, pat, fall),
        forall|c: int|
            0 <= c < pat.len() && ends_with_prefix(text, end, pat, c) && pat[c] == text[end] ==> c
                <= fall,
{
    lemma_border_ends_text(text, end, pat, matched, fall);
    lemma_prefix_bounds(text, end, pat, fall);
    assert forall|c: int|
        0 <= c < pat.len() && ends_with_prefix(text, end, pat, c) && pat[c] == text[end] implies c
        <= fall by {
        lemma_shorter_is_border(text, end, pat, matched, c);
    }
}

/// Builds the longest-proper-prefix table of a byte pattern.
pub fn prefix_table(pat: &[u8]) -> (table: Vec<usize>)
    ensures
        is_prefix_table(pat@, table@),
{
    let n = pat.len();
    let mut table: Vec<usize> = Vec::new();
    if n == 0 {
        return table;
    }
    table.push(0);
    proof {
        lemma_empty_prefix(pat@, 1, pat@);
        assert forall|k: int| is_border(pat@, 1, k) implies k <= 0 by {}
    }
    let mut i: usize = 1;
    while i < n
        invariant
            n == pat.len(),
            1 <= i <= n,
            table@.len() == i,
            forall|p: int| 0 <= p < i ==>
                is_longest_border(pat@, p + 1, #[trigger] table@[p] as int),
        decreases n - i,
    {
        let mut k: usize = table[i - 1];
        proof {
            assert(is_longest_border(pat@, i as int, k as int));
            assert forall|c: int|
                0 <= c < i && ends_with_prefix(pat@, i as int, pat@, c) && pat@[c] == pat@[i as int]
                implies c <= k by {
                assert(is_border(pat@, i as int, c));
            }
        }
        while k > 0 && pat[i] != pat[k]
            invariant
                n == pat.len(),
                1 <= i < n,
                table@.len() == i,
                forall|p: int|
                    0 <= p < i ==> is_longest_border(pat@, p + 1, #[trigger] table@[p] as int),
                k < i,
                ends_with_prefix(pat@, i as int, pat@, k as int),
                forall|c: int|
                    0 <= c < i && ends_with_prefix(pat@, i as int, pat@, c)
                        && pat@[c] == pat@[i as int]
                        ==> c <= k,
            decreases k,
        {
            let fall = table[k - 1];
            proof {
                assert(is_longest_border(pat@, k as int, fall as int));
                lemma_border_ends_text(pat@, i as int, pat@, k as int, fall as int);
                lemma_prefix_bounds(pat@, k as int, pat@, fall as int);
                assert forall|c: int|
                    0 <= c < i && ends_with_prefix(pat@, i as int, pat@, c)
                        && pat@[c] == pat@[i as int]
                    implies c <= fall by {
                    lemma_shorter_is_border(pat@, i as int, pat@, k as int, c);
                }
            }
            k = fall;
        }
        let entry = if pat[i] == pat[k] {
            k + 1
        } else {
            0
        };
        proof {
            let len = i + 1;
            if pat@[i as int] == pat@[k as int] {
                lemma_extend(pat@, i as int, pat@, k as int);
            } else {
                lemma_empty_prefix(pat@, len, pat@);
            }
            assert(is_border(pat@, len, entry as int));
            assert forall|b: int| is_border(pat@, len, b) implies b <= entry by {
                lemma_prefix_bounds(pat@, len, pat@, b);
                if b > 0 {
                    lemma_extend(pat@, i as int, pat@, b - 1);
                }
            }
        }
        table.push(entry);
        i = i + 1;
    }
    table
}

/// Finds where the adapter starts in the first `m` bases of `read` by one
/// left-to-right scan with the adapter's longest-proper-prefix table.
///
/// Returns the start of the first full occurrence of the adapter or,
/// failing that, the start of the longest tail of the window that is a
/// prefix of the adapter; `m` when not even the last base starts one.
pub fn exact_matching(adapter: &[u8], table: &[usize], read: &[u8], m: usize) -> (cut: usize)
    requires
        m <= read.len(),
        is_prefix_table(adapter@, table@),
    ensures
        cut as int == exact_cut(read@, m as int, adapter@),
        is_exact_cut(read@, m as int, adapter@, cut as int),
        cut <= m,
{
    let n = adapter.len();
    if n == 0 {
        proof {
            lemma_exact_cut_is(read@, m as int, adapter@, 0);
        }
        return 0;
    }
    let mut matched: usize = 0;
    let mut idx: usize = 0;
    proof {
        lemma_empty_prefix(read@, 0, adapter@);
        assert forall|k: int| ends_with_prefix(read@, 0, adapter@, k) implies k <= 0 by {
            lemma_prefix_bounds(read@, 0, adapter@, k);
        }
        assert forall|e: int| 0 <= e <= 0
            implies !ends_with_prefix(read@, e, adapter@, n as int) by {
            if ends_with_prefix(read@, e, adapter@, n as int) {
                lemma_prefix_bounds(read@, e, adapter@, n as int);
            }
        }
    }
    while idx < m
        invariant
            n == adapter.len(),
            n > 0,
            m <= read.len(),
            is_prefix_table(adapter@, table@),
            0 <= idx <= m,
            matched < n,
            ends_with_prefix(read@, idx as int, adapter@, matched as int),
            forall|k: int| ends_with_prefix(read@, idx as int, adapter@, k) ==> k <= matched,
            forall|e: int| 0 <= e <= idx ==> !ends_with_prefix(read@, e, adapter@, n as int),
        decreases m - idx,
    {
        while matched > 0 && read[idx] != adapter[matched]
            invariant
                n == adapter.len(),
                m <= read.len(),
                is_prefix_table(adapter@, table@),
                0 <= idx < m,
                matched < n,
                ends_with_prefix(read@, idx as int, adapter@, matched as int),
                forall|c: int|
                    0 <= c < n && ends_with_prefix(read@, idx as int, adapter@, c) && adapter@[c]
                        == read@[idx as int] ==> c <= matched,
            decreases matched,
        {
            let fall = table[matched - 1];
            proof {
                assert(is_longest_border(adapter@, matched as int, fall as int));
                lemma_scan_fall(read@, idx as int, adapter@, matched as int, fall as int);
            }
            matched = fall;
        }
        let grown = if read[idx] == adapter[matched] {
            matched + 1
        } else {
            0
        };
        proof {
            lemma_scan_step(
                read@,
                idx as int,
                idx + 1,
                adapter@,
                matched as int,
                grown as int,
            );
        }
        if grown == n {
            let cut = idx + 1 - n;
            proof {
                lemma_occurrence_is_exact_cut(read@, m as int, adapter@, cut as int);
            }
            return cut;
        }
        proof {
            let next = idx + 1;
            assert forall|e: int| 0 <= e <= next implies !ends_with_prefix(
                read@,
                e,
                adapter@,
                n as int,
            ) by {}
        }
        matched = grown;
        idx = idx + 1;
    }
    proof {
        lemma_tail_is_exact_cut(read@, m as int, adapter@, matched as int);
    }
    m - matched
}

/// The first full occurrence of the adapter in the window is the exact cut.
proof fn lemma_occurrence_is_exact_cut(read: Seq<u8>, m: int, adapter: Seq<u8>, cut: int)
    requires
        adapter.len() > 0,
        0 <= cut,
        cut + adapter.len() <= m <= read.len(),
        ends_with_prefix(read, cut + adapter.len(), adapter, adapter.len() as int),
        forall|e: int|
            0 <= e < cut + adapter.len() ==>
                !ends_with_prefix(read, e, adapter, adapter.len() as int),
    ensures
        is_exact_cut(read, m, adapter, cut),
        exact_cut(read, m, adapter) == cut,
{
    reveal(ends_with_prefix);
    let n = adapter.len() as int;
    assert forall|j: int| 0 <= j < overlap_len(m, n, cut)
        implies read[cut + j] == #[trigger] adapter[j] by {
        assert(read[cut + n - n + j] == adapter[j]);
    }
    assert forall|i: int| 0 <= i < cut implies !prefix_match(read, m, adapter, i) by {
        if prefix_match(read, m, adapter, i) {
            assert(overlap_len(m, n, i) == n);
            assert forall|j: int| 0 <= j < n
                implies read[i + n - n + j] == #[trigger] adapter[j] by {
                assert(read[i + j] == adapter[j]);
            }
            assert(ends_with_prefix(read, i + n, adapter, n));
        }
    }
    lemma_exact_cut_is(read, m, adapter, cut);
}

/// With no full occurrence in the window, the longest adapter prefix that
/// ends the window marks the exact cut.
proof fn lemma_tail_is_exact_cut(read: Seq<u8>, m: int, adapter: Seq<u8>, matched: int)
    requires
        0 <= m <= read.len(),
        matched < adapter.len(),
        ends_with_prefix(read, m, adapter, matched),
        forall|k: int| ends_with_prefix(read, m, adapter, k) ==> k <= matched,
        forall|e: int| 0 <= e <= m ==> !ends_with_prefix(read, e, adapter, adapter.len() as int),
    ensures
        is_exact_cut(read, m, adapter, m - matched),
        exact_cut(read, m, adapter) == m - matched,
{
    reveal(ends_with_prefix);
    let n = adapter.len() as int;
    let cut = m - matched;
    assert forall|j: int| 0 <= j < overlap_len(m, n, cut)
        implies read[cut + j] == #[trigger] adapter[j] by {
        assert(read[m - matched + j] == adapter[j]);
    }
    assert forall|i: int| 0 <= i < cut implies !prefix_match(read, m, adapter, i) by {
        if prefix_match(read, m, adapter, i) {
            let l = overlap_len(m, n, i);
            assert forall|j: int| 0 <= j < l
                implies read[i + l - l + j] == #[trigger] adapter[j] by {
                assert(read[i + j] == adapter[j]);
            }
            assert(ends_with_prefix(read, i + l, adapter, l));
        }
    }
    lemma_exact_cut_is(read, m, adapter, cut);
}

/// The number of matches required of an overlap of `l` positions when the
/// share `num / den` of them must agree: that share of `l`, rounded up.
pub open spec fn ratio_threshold(num: int, den: int, l: int) -> int {
    (num * l + den - 1) / den
}

/// Computes [`ratio_threshold`] for one overlap length.
fn ratio_entry(num: u32, den: u32, l: usize) -> (entry: usize)
    requires
        0 < num <= den,
    ensures
        entry as int == ratio_threshold(num as int, den as int, l as int),
        entry <= l,
{
    assert(num * l <= 0x1_0000_0000 * 0x1_0000_0000_0000_0000) by (nonlinear_arith)
        requires
            0 <= num < 0x1_0000_0000,
            0 <= l < 0x1_0000_0000_0000_0000,
    ;
    let product: u128 = (num as u128) * (l as u128);
    let entry: u128 = (product + (den as u128 - 1)) / (den as u128);
    assert(entry <= l) by (nonlinear_arith)
        requires
            entry == (num * l + den - 1) / (den as int),
            0 < num <= den,
            0 <= l,
    ;
    entry as usize
}

/// How an adapter is looked for in a read.
pub enum MatchPolicy {
    /// Exact/prefix matching, driven by the adapter's longest-proper-prefix
    /// table.
    Exact { table: Vec<usize> },
    /// Matching that tolerates mismatches: `required[l]` is the number of
    /// positions that must agree in an overlap of `l` positions, and only
    /// starts that leave at least `min_overlap` bases of the window are
    /// tried.
    Fuzzy { required: Vec<usize>, min_overlap: usize },
}

/// An adapter sequence together with the policy by which it is matched.
pub struct AdapterSpec {
    pub bytes: Vec<u8>,
    pub policy: MatchPolicy,
}

impl AdapterSpec {
    /// The policy's table belongs to this adapter.
    pub open spec fn wf(&self) -> bool {
        match self.policy {
            MatchPolicy::Exact { table } => is_prefix_table(self.bytes@, table@),
            MatchPolicy::Fuzzy { required, min_overlap } => thresholds_fit(
                required@,
                self.bytes@.len() as int,
            ),
        }
    }

    /// Where this adapter cuts the first `window` bases of `read`.
    pub open spec fn cut_spec(&self, read: Seq<u8>, window: int) -> int {
        match self.policy {
            MatchPolicy::Exact { table } => exact_cut(read, window, self.bytes@),
            MatchPolicy::Fuzzy { required, min_overlap } => fuzzy_cut(
                read,
                window,
                self.bytes@,
                required@,
                min_overlap as int,
            ),
        }
    }

    /// The adapter does not occur in the first `window` bases of `read`:
    /// the search for it ends at the window's end.
    pub open spec fn absent(&self, read: Seq<u8>, window: int) -> bool {
        self.cut_spec(read, window) == window
    }

    /// The adapter's cut lies within the window.
    pub proof fn lemma_cut_bounds(&self, read: Seq<u8>, window: int)
        requires
            0 <= window,
        ensures
            0 <= self.cut_spec(read, window) <= window,
    {
        match self.policy {
            MatchPolicy::Exact { table } => {
                lemma_exact_cut_exists(read, window, self.bytes@);
            },
            MatchPolicy::Fuzzy { required, min_overlap } => {},
        }
    }

    /// An adapter matched exactly; its prefix table is computed here.
    pub fn exact(bytes: Vec<u8>) -> (spec: AdapterSpec)
        ensures
            spec.wf(),
            spec.bytes@ == bytes@,
            spec.policy is Exact,
    {
        let table = prefix_table(bytes.as_slice());
        AdapterSpec { bytes, policy: MatchPolicy::Exact { table } }
    }

    /// An adapter matched with tolerance, from a table of required matches
    /// per overlap length. `None` unless the table has one entry for each
    /// length from 0 to the adapter's and no entry exceeds its length.
    pub fn fuzzy(bytes: Vec<u8>, required: Vec<usize>, min_overlap: usize) -> (spec: Option<
        AdapterSpec,
    >)
        ensures
            spec is Some <==> thresholds_fit(required@, bytes@.len() as int),
            spec is Some ==> {
                &&& spec->0.wf()
                &&& spec->0.bytes@ == bytes@
                &&& spec->0.policy == (MatchPolicy::Fuzzy { required, min_overlap })
            },
    {
        let n = bytes.len();
        if required.len() == 0 || required.len() - 1 != n {
            return None;
        }
        let mut l: usize = 0;
        while l <= n
            invariant
                n == bytes@.len(),
                required.len() == n + 1,
                0 <= l <= n + 1,
                forall|k: int| 0 <= k < l ==> #[trigger] required@[k] <= k,
            decreases n + 1 - l,
        {
            if required[l] > l {
                return None;
            }
            l = l + 1;
        }
        Some(AdapterSpec { bytes, policy: MatchPolicy::Fuzzy { required, min_overlap } })
    }

    /// An adapter matched with tolerance, where the share `num / den` of
    /// every overlap must agree, rounded up to whole positions. `None`
    /// unless `0 < num <= den`.
    pub fn fuzzy_ratio(bytes: Vec<u8>, num: u32, den: u32, min_overlap: usize) -> (spec: Option<
        AdapterSpec,
    >)
        ensures
            spec is Some <==> 0 < num <= den,
            spec is Some ==> {
                &&& spec->0.wf()
                &&& spec->0.bytes@ == bytes@
                &&& spec->0.policy matches MatchPolicy::Fuzzy { required, min_overlap: overlap }
                &&& overlap == min_overlap
                &&& required@.len() == bytes@.len() + 1
                &&& forall|l: int|
                    0 <= l <= bytes@.len() ==> #[trigger] required@[l] as int == ratio_threshold(
                        num as int,
                        den as int,
                        l,
                    )
            },
    {
        if num == 0 || num > den {
            return None;
        }
        let n = bytes.len();
        let mut required: Vec<usize> = Vec::new();
        required.push(ratio_entry(num, den, 0));
        let mut l: usize = 0;
        while l < n
            invariant
                0 < num <= den,
                n == bytes@.len(),
                0 <= l <= n,
                required@.len() == l + 1,
                forall|k: int|
                    0 <= k <= l ==> #[trigger] required@[k] as int == ratio_threshold(
                        num as int,
                        den as int,
                        k,
                    ) && required@[k] <= k,
            decreases n - l,
        {
            l = l + 1;
            required.push(ratio_entry(num, den, l));
        }
        Some(AdapterSpec { bytes, policy: MatchPolicy::Fuzzy { required, min_overlap } })
    }

    /// Finds where the adapter starts in the first `m` bases of `read`, by
    /// this adapter's policy; `m` when it does not occur.
    pub fn find(&self, read: &[u8], m: usize) -> (cut: usize)
        requires
            self.wf(),
            m <= read.len(),
        ensures
            cut as int == self.cut_spec(read@, m as int),
            cut <= m,
    {
        match &self.policy {
            MatchPolicy::Exact { table } => exact_matching(
                self.bytes.as_slice(),
                table.as_slice(),
                read,
                m,
            ),
            MatchPolicy::Fuzzy { required, min_overlap } => naive_matching(
                self.bytes.as_slice(),
                read,
                m,
                required.as_slice(),
                *min_overlap,
            ),
        }
    }
}

} // verus!
