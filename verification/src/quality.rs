//! Quality trimming: the running-score walk over Phred-scaled quality
//! characters that finds how much of each end of a read to drop.

use vstd::prelude::*;

verus! {

/// Offset of the quality encoding: the character code of score zero.
pub const QUAL_BASE: i32 = 33;

/// Running score of the walk from the back once it has taken in the
/// positions `k..`: the sum of `threshold - qual[i]` over `i >= k`.
pub open spec fn tail_score(qual: Seq<u8>, threshold: int, k: int) -> int
    decreases qual.len() - k,
{
    if k < 0 || k >= qual.len() {
        0
    } else {
        threshold - qual[k] as int + tail_score(qual, threshold, k + 1)
    }
}

/// Running score of the walk from the front once it has taken in the
/// positions `..k`: the sum of `threshold - qual[i]` over `i < k`.
pub open spec fn head_score(qual: Seq<u8>, threshold: int, k: int) -> int
    decreases k,
{
    if k <= 0 || k > qual.len() {
        0
    } else {
        head_score(qual, threshold, k - 1) + threshold - qual[k - 1] as int
    }
}

/// The walk from the back gets as far as position `k`: the score has not
/// gone negative anywhere on the way.
pub open spec fn tail_walk_reaches(qual: Seq<u8>, threshold: int, k: int) -> bool {
    forall|j: int| k <= j < qual.len() ==> tail_score(qual, threshold, j) >= 0
}

/// The walk from the front gets as far as taking in `k` positions.
pub open spec fn head_walk_reaches(qual: Seq<u8>, threshold: int, k: int) -> bool {
    forall|j: int| 0 < j <= k ==> head_score(qual, threshold, j) >= 0
}

/// `k` is where the back of the read is cut: among the positions the walk
/// reaches, the one with the highest score, and of several such the one
/// nearest the end. With no positive score anywhere, that is the end itself.
pub open spec fn is_back_cut(qual: Seq<u8>, threshold: int, k: int) -> bool {
    &&& 0 <= k <= qual.len()
    &&& tail_walk_reaches(qual, threshold, k)
    &&& forall|j: int|
        0 <= j < k && tail_walk_reaches(qual, threshold, j) ==> tail_score(qual, threshold, j)
            <= tail_score(qual, threshold, k)
    &&& forall|j: int|
        k < j <= qual.len() ==> tail_score(qual, threshold, j) < tail_score(qual, threshold, k)
}

/// `k` is how many positions are cut from the front: the mirror image of
/// [`is_back_cut`].
pub open spec fn is_front_cut(qual: Seq<u8>, threshold: int, k: int) -> bool {
    &&& 0 <= k <= qual.len()
    &&& head_walk_reaches(qual, threshold, k)
    &&& forall|j: int|
        k < j <= qual.len() && head_walk_reaches(qual, threshold, j) ==> head_score(
            qual,
            threshold,
            j,
        ) <= head_score(qual, threshold, k)
    &&& forall|j: int|
        0 <= j < k ==> head_score(qual, threshold, j) < head_score(qual, threshold, k)
}

/// The position at which the back of the read is cut.
pub open spec fn back_cut(qual: Seq<u8>, threshold: int) -> int {
    choose|k: int| is_back_cut(qual, threshold, k)
}

/// The number of positions cut from the front of the read.
pub open spec fn front_cut(qual: Seq<u8>, threshold: int) -> int {
    choose|k: int| is_front_cut(qual, threshold, k)
}

/// The window that quality trimming keeps. Front trimming runs only for a
/// positive `cut_front`; a window that would be empty or inverted collapses
/// to `(0, 0)`.
pub open spec fn qual_trim_spec(qual: Seq<u8>, cut_front: int, cut_back: int) -> (int, int) {
    let start = if cut_front > 0 {
        front_cut(qual, cut_front + QUAL_BASE)
    } else {
        0
    };
    let stop = back_cut(qual, cut_back + QUAL_BASE);
    if start >= stop {
        (0, 0)
    } else {
        (start, stop)
    }
}

/// At most one position is the back cut.
pub proof fn lemma_back_cut_unique(qual: Seq<u8>, threshold: int, a: int, b: int)
    requires
        is_back_cut(qual, threshold, a),
        is_back_cut(qual, threshold, b),
    ensures
        a == b,
{
}

/// At most one count is the front cut.
pub proof fn lemma_front_cut_unique(qual: Seq<u8>, threshold: int, a: int, b: int)
    requires
        is_front_cut(qual, threshold, a),
        is_front_cut(qual, threshold, b),
    ensures
        a == b,
{
}

/// The walk from the back, taken up at position `i` with the best score so
/// far at `best_at`, arrives at a back cut.
proof fn lemma_back_cut_from(qual: Seq<u8>, threshold: int, i: int, best_at: int)
    requires
        0 <= i <= best_at <= qual.len(),
        tail_walk_reaches(qual, threshold, i),
        forall|j: int|
            i <= j <= qual.len() ==> tail_score(qual, threshold, j) <= tail_score(
                qual,
                threshold,
                best_at,
            ),
        forall|j: int|
            best_at < j <= qual.len() ==> tail_score(qual, threshold, j) < tail_score(
                qual,
                threshold,
                best_at,
            ),
    ensures
        exists|k: int| is_back_cut(qual, threshold, k),
    decreases i,
{
    if i == 0 {
        assert(is_back_cut(qual, threshold, best_at));
    } else if tail_score(qual, threshold, i - 1) < 0 {
        assert forall|j: int| 0 <= j < best_at && tail_walk_reaches(qual, threshold, j) implies j
            >= i by {
            if j < i {
                assert(tail_score(qual, threshold, i - 1) >= 0);
            }
        }
        assert(is_back_cut(qual, threshold, best_at));
    } else if tail_score(qual, threshold, i - 1) > tail_score(qual, threshold, best_at) {
        lemma_back_cut_from(qual, threshold, i - 1, i - 1);
    } else {
        lemma_back_cut_from(qual, threshold, i - 1, best_at);
    }
}

/// The walk from the front, taken up after `i` positions with the best
/// score so far at `best_at`, arrives at a front cut.
proof fn lemma_front_cut_from(qual: Seq<u8>, threshold: int, i: int, best_at: int)
    requires
        0 <= best_at <= i <= qual.len(),
        head_walk_reaches(qual, threshold, i),
        forall|j: int|
            0 <= j <= i ==> head_score(qual, threshold, j) <= head_score(qual, threshold, best_at),
        forall|j: int|
            0 <= j < best_at ==> head_score(qual, threshold, j) < head_score(
                qual,
                threshold,
                best_at,
            ),
    ensures
        exists|k: int| is_front_cut(qual, threshold, k),
    decreases qual.len() - i,
{
    if i == qual.len() {
        assert(is_front_cut(qual, threshold, best_at));
    } else if head_score(qual, threshold, i + 1) < 0 {
        assert forall|j: int|
            best_at < j <= qual.len() && head_walk_reaches(qual, threshold, j) implies j <= i by {
            if j > i {
                assert(head_score(qual, threshold, i + 1) >= 0);
            }
        }
        assert(is_front_cut(qual, threshold, best_at));
    } else if head_score(qual, threshold, i + 1) > head_score(qual, threshold, best_at) {
        lemma_front_cut_from(qual, threshold, i + 1, i + 1);
    } else {
        lemma_front_cut_from(qual, threshold, i + 1, best_at);
    }
}

/// Every sequence of quality values has its back cut and its front cut.
pub proof fn lemma_cuts_exist(qual: Seq<u8>, threshold: int)
    ensures
        is_back_cut(qual, threshold, back_cut(qual, threshold)),
        is_front_cut(qual, threshold, front_cut(qual, threshold)),
{
    lemma_back_cut_from(qual, threshold, qual.len() as int, qual.len() as int);
    lemma_front_cut_from(qual, threshold, 0, 0);
}

/// The window that quality trimming keeps is in order and within the read.
pub proof fn lemma_qual_trim_bounds(qual: Seq<u8>, cut_front: int, cut_back: int)
    ensures
        0 <= qual_trim_spec(qual, cut_front, cut_back).0 <= qual_trim_spec(
            qual,
            cut_front,
            cut_back,
        ).1 <= qual.len(),
{
    lemma_cuts_exist(qual, cut_front + QUAL_BASE);
    lemma_cuts_exist(qual, cut_back + QUAL_BASE);
}

/// Where every quality value is at least the threshold, no score of the
/// walk from the back is positive.
proof fn lemma_tail_not_positive(qual: Seq<u8>, threshold: int, k: int)
    requires
        forall|i: int| 0 <= i < qual.len() ==> qual[i] >= threshold,
    ensures
        tail_score(qual, threshold, k) <= 0,
    decreases qual.len() - k,
{
    if 0 <= k < qual.len() {
        lemma_tail_not_positive(qual, threshold, k + 1);
    }
}

/// Where every quality value is at least the threshold, no score of the
/// walk from the front is positive.
proof fn lemma_head_not_positive(qual: Seq<u8>, threshold: int, k: int)
    requires
        forall|i: int| 0 <= i < qual.len() ==> qual[i] >= threshold,
    ensures
        head_score(qual, threshold, k) <= 0,
    decreases k,
{
    if 0 < k <= qual.len() {
        lemma_head_not_positive(qual, threshold, k - 1);
    }
}

/// Quality values that are all at least the threshold are cut at neither
/// end.
pub proof fn lemma_high_quality_uncut(qual: Seq<u8>, threshold: int)
    requires
        forall|i: int| 0 <= i < qual.len() ==> qual[i] >= threshold,
    ensures
        back_cut(qual, threshold) == qual.len(),
        front_cut(qual, threshold) == 0,
{
    let n = qual.len() as int;
    assert forall|j: int| 0 <= j <= n implies tail_score(qual, threshold, j) <= 0
        && head_score(qual, threshold, j) <= 0 by {
        lemma_tail_not_positive(qual, threshold, j);
        lemma_head_not_positive(qual, threshold, j);
    }
    assert(is_back_cut(qual, threshold, n));
    assert(is_front_cut(qual, threshold, 0));
    lemma_cuts_exist(qual, threshold);
    lemma_back_cut_unique(qual, threshold, n, back_cut(qual, threshold));
    lemma_front_cut_unique(qual, threshold, 0, front_cut(qual, threshold));
}

/// The scores of the walk from the back over a stretch of quality values,
/// from its scores over the whole.
proof fn lemma_tail_of_stretch(qual: Seq<u8>, threshold: int, a: int, b: int, k: int)
    requires
        0 <= a <= b <= qual.len(),
        0 <= k <= b - a,
    ensures
        tail_score(qual.subrange(a, b), threshold, k) == tail_score(qual, threshold, a + k)
            - tail_score(qual, threshold, b),
    decreases b - a - k,
{
    if k < b - a {
        lemma_tail_of_stretch(qual, threshold, a, b, k + 1);
        assert(qual.subrange(a, b)[k] == qual[a + k]);
    }
}

/// The scores of the walk from the front over a stretch of quality values,
/// from its scores over the whole.
proof fn lemma_head_of_stretch(qual: Seq<u8>, threshold: int, a: int, b: int, k: int)
    requires
        0 <= a <= b <= qual.len(),
        0 <= k <= b - a,
    ensures
        head_score(qual.subrange(a, b), threshold, k) == head_score(qual, threshold, a + k)
            - head_score(qual, threshold, a),
    decreases k,
{
    if k > 0 {
        lemma_head_of_stretch(qual, threshold, a, b, k - 1);
        assert(qual.subrange(a, b)[k - 1] == qual[a + k - 1]);
    }
}

/// What is left once the back is cut has nothing more to cut at the back:
/// for any start `a` before the back cut, the stretch from `a` to the cut
/// has its own back cut at its end.
pub proof fn lemma_back_cut_settled(qual: Seq<u8>, threshold: int, a: int)
    requires
        0 <= a <= back_cut(qual, threshold),
    ensures
        back_cut(qual.subrange(a, back_cut(qual, threshold)), threshold) == back_cut(
            qual,
            threshold,
        ) - a,
{
    lemma_cuts_exist(qual, threshold);
    let b = back_cut(qual, threshold);
    let part = qual.subrange(a, b);
    let n = b - a;
    assert forall|j: int| 0 <= j < n && tail_walk_reaches(part, threshold, j) implies tail_score(
        part,
        threshold,
        j,
    ) <= tail_score(part, threshold, n) by {
        // The walk over the stretch reaches `j`; so the walk over the whole
        // reaches `a + j`, where its score is at most the score at the cut.
        assert forall|i: int| a + j <= i < qual.len() implies tail_score(qual, threshold, i)
            >= 0 by {
            if i < b {
                lemma_tail_of_stretch(qual, threshold, a, b, i - a);
                assert(tail_score(part, threshold, i - a) >= 0);
            }
        }
        assert(tail_walk_reaches(qual, threshold, a + j));
        lemma_tail_of_stretch(qual, threshold, a, b, j);
        lemma_tail_of_stretch(qual, threshold, a, b, n);
    }
    assert(is_back_cut(part, threshold, n));
    lemma_cuts_exist(part, threshold);
    lemma_back_cut_unique(part, threshold, n, back_cut(part, threshold));
}

/// What is left once the front is cut has nothing more to cut at the
/// front: for any end `b` behind the front cut, the stretch from the cut to
/// `b` has its own front cut at its start.
pub proof fn lemma_front_cut_settled(qual: Seq<u8>, threshold: int, b: int)
    requires
        front_cut(qual, threshold) <= b <= qual.len(),
    ensures
        front_cut(qual.subrange(front_cut(qual, threshold), b), threshold) == 0,
{
    lemma_cuts_exist(qual, threshold);
    let a = front_cut(qual, threshold);
    let part = qual.subrange(a, b);
    let n = b - a;
    assert forall|j: int| 0 < j <= n && head_walk_reaches(part, threshold, j) implies head_score(
        part,
        threshold,
        j,
    ) <= head_score(part, threshold, 0) by {
        assert forall|i: int| 0 < i <= a + j implies head_score(qual, threshold, i) >= 0 by {
            if i > a {
                lemma_head_of_stretch(qual, threshold, a, b, i - a);
                assert(head_score(part, threshold, i - a) >= 0);
            }
        }
        assert(head_walk_reaches(qual, threshold, a + j));
        lemma_head_of_stretch(qual, threshold, a, b, j);
        lemma_head_of_stretch(qual, threshold, a, b, 0);
    }
    assert(is_front_cut(part, threshold, 0));
    lemma_cuts_exist(part, threshold);
    lemma_front_cut_unique(part, threshold, 0, front_cut(part, threshold));
}

/// What quality trimming keeps, it keeps whole when it is trimmed again.
pub proof fn lemma_qual_trim_settled(qual: Seq<u8>, cut_front: int, cut_back: int)
    ensures
        ({
            let (start, stop) = qual_trim_spec(qual, cut_front, cut_back);
            qual_trim_spec(qual.subrange(start, stop), cut_front, cut_back) == (0int, stop - start)
        }),
{
    let (start, stop) = qual_trim_spec(qual, cut_front, cut_back);
    let part = qual.subrange(start, stop);
    lemma_qual_trim_bounds(qual, cut_front, cut_back);
    lemma_cuts_exist(qual, cut_front + QUAL_BASE);
    lemma_cuts_exist(qual, cut_back + QUAL_BASE);
    lemma_cuts_exist(part, cut_front + QUAL_BASE);
    lemma_cuts_exist(part, cut_back + QUAL_BASE);
    if start < stop {
        lemma_back_cut_settled(qual, cut_back + QUAL_BASE, start);
        if cut_front > 0 {
            lemma_front_cut_settled(qual, cut_front + QUAL_BASE, stop);
        }
    }
}

/// Walks the quality values from the end inward and returns the back cut.
fn back_walk(qual: &[u8], threshold: i64) -> (stop: usize)
    requires
        -0x1_0000_0000 <= threshold <= 0x1_0000_0000,
    ensures
        is_back_cut(qual@, threshold as int, stop as int),
        stop as int == back_cut(qual@, threshold as int),
{
    let n = qual.len();
    let ghost q = qual@;
    let ghost t = threshold as int;
    let mut i: usize = n;
    let mut score: i128 = 0;
    let mut best: i128 = 0;
    let mut stop: usize = n;
    let mut aborted = false;
    while i > 0 && !aborted
        invariant
            n == qual@.len(),
            q == qual@,
            t == threshold as int,
            -0x1_0000_0000 <= threshold <= 0x1_0000_0000,
            0 <= i <= stop <= n,
            score as int == tail_score(q, t, i as int),
            best as int == tail_score(q, t, stop as int),
            0 <= score as int <= (n - i) * 0x2_0000_0000,
            tail_walk_reaches(q, t, i as int),
            forall|j: int| i <= j <= n ==> tail_score(q, t, j) <= best as int,
            forall|j: int| stop < j <= n ==> tail_score(q, t, j) < best as int,
            aborted ==> i > 0 && tail_score(q, t, i - 1) < 0,
        decreases i + (if aborted { 0int } else { 1int }),
    {
        let next: i128 = score + (threshold as i128 - qual[i - 1] as i128);
        if next < 0 {
            aborted = true;
        } else {
            i = i - 1;
            score = next;
            if score > best {
                best = score;
                stop = i;
            }
        }
    }
    proof {
        assert forall|j: int| 0 <= j < stop && tail_walk_reaches(q, t, j) implies tail_score(
            q,
            t,
            j,
        ) <= tail_score(q, t, stop as int) by {
            if j < i {
                assert(tail_score(q, t, i - 1) >= 0);
            }
        }
        assert(is_back_cut(q, t, stop as int));
        lemma_cuts_exist(q, t);
        lemma_back_cut_unique(q, t, stop as int, back_cut(q, t));
    }
    stop
}

/// Walks the quality values from the front inward and returns the front cut.
fn front_walk(qual: &[u8], threshold: i64) -> (start: usize)
    requires
        -0x1_0000_0000 <= threshold <= 0x1_0000_0000,
    ensures
        is_front_cut(qual@, threshold as int, start as int),
        start as int == front_cut(qual@, threshold as int),
{
    let n = qual.len();
    let ghost q = qual@;
    let ghost t = threshold as int;
    let mut i: usize = 0;
    let mut score: i128 = 0;
    let mut best: i128 = 0;
    let mut start: usize = 0;
    let mut aborted = false;
    while i < n && !aborted
        invariant
            n == qual@.len(),
            q == qual@,
            t == threshold as int,
            -0x1_0000_0000 <= threshold <= 0x1_0000_0000,
            0 <= start <= i <= n,
            score as int == head_score(q, t, i as int),
            best as int == head_score(q, t, start as int),
            0 <= score as int <= i * 0x2_0000_0000,
            head_walk_reaches(q, t, i as int),
            forall|j: int| 0 <= j <= i ==> head_score(q, t, j) <= best as int,
            forall|j: int| 0 <= j < start ==> head_score(q, t, j) < best as int,
            aborted ==> i < n && head_score(q, t, i + 1) < 0,
        decreases n - i + (if aborted { 0int } else { 1int }),
    {
        let next: i128 = score + (threshold as i128 - qual[i] as i128);
        if next < 0 {
            aborted = true;
        } else {
            i = i + 1;
            score = next;
            if score > best {
                best = score;
                start = i;
            }
        }
    }
    proof {
        assert forall|j: int| start < j <= n && head_walk_reaches(q, t, j) implies head_score(
            q,
            t,
            j,
        ) <= head_score(q, t, start as int) by {
            if j > i {
                assert(head_score(q, t, i + 1) >= 0);
            }
        }
        assert(is_front_cut(q, t, start as int));
        lemma_cuts_exist(q, t);
        lemma_front_cut_unique(q, t, start as int, front_cut(q, t));
    }
    start
}

/// Finds the window of a read that quality trimming keeps.
///
/// From each end a running score adds `cutoff + QUAL_BASE - quality` per
/// position and stops the moment it goes negative; the cut falls where the
/// score peaked. The front is walked only for a positive `cut_front`.
pub fn qual_trim(qual: &[u8], cut_front: i32, cut_back: i32) -> (window: (usize, usize))
    ensures
        window.0 as int == qual_trim_spec(qual@, cut_front as int, cut_back as int).0,
        window.1 as int == qual_trim_spec(qual@, cut_front as int, cut_back as int).1,
        window.0 <= window.1 <= qual@.len(),
{
    let mut start: usize = 0;
    if cut_front > 0 {
        start = front_walk(qual, cut_front as i64 + QUAL_BASE as i64);
    }
    let mut stop = back_walk(qual, cut_back as i64 + QUAL_BASE as i64);
    if start >= stop {
        start = 0;
        stop = 0;
    }
    (start, stop)
}

} // verus!
