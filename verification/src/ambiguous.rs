//! Ambiguous-base trimming: runs of the unresolved-base symbol at either
//! end of a read are dropped.

use vstd::prelude::*;

verus! {

/// The symbol a sequencer writes for a base it could not resolve: ASCII 'N'.
pub const AMBIGUOUS_BASE: u8 = 78;

/// Every base of the read is the ambiguous symbol (true of the empty read).
pub open spec fn all_ambiguous(read: Seq<u8>) -> bool {
    forall|i: int| 0 <= i < read.len() ==> read[i] == AMBIGUOUS_BASE
}

/// `k` is the position of the first resolved base.
pub open spec fn is_first_called(read: Seq<u8>, k: int) -> bool {
    &&& 0 <= k < read.len()
    &&& read[k] != AMBIGUOUS_BASE
    &&& forall|j: int| 0 <= j < k ==> read[j] == AMBIGUOUS_BASE
}

/// `k` is the position of the last resolved base.
pub open spec fn is_last_called(read: Seq<u8>, k: int) -> bool {
    &&& 0 <= k < read.len()
    &&& read[k] != AMBIGUOUS_BASE
    &&& forall|j: int| k < j < read.len() ==> read[j] == AMBIGUOUS_BASE
}

/// Where the resolved part of the read starts; 0 when nothing is resolved.
pub open spec fn n_start(read: Seq<u8>) -> int {
    if all_ambiguous(read) {
        0
    } else {
        choose|k: int| is_first_called(read, k)
    }
}

/// One past where the resolved part of the read ends; 0 when nothing is
/// resolved.
pub open spec fn n_stop(read: Seq<u8>) -> int {
    if all_ambiguous(read) {
        0
    } else {
        (choose|k: int| is_last_called(read, k)) + 1
    }
}

/// A read with a resolved base at `k` starts its resolved part exactly there
/// when everything before `k` is ambiguous.
pub proof fn lemma_n_start_is(read: Seq<u8>, k: int)
    requires
        is_first_called(read, k),
    ensures
        n_start(read) == k,
        !all_ambiguous(read),
{
    let c = choose|c: int| is_first_called(read, c);
    assert(is_first_called(read, c));
    assert(c == k) by {
        if c < k {
            assert(read[c] == AMBIGUOUS_BASE);
        }
        if k < c {
            assert(read[k] == AMBIGUOUS_BASE);
        }
    }
}

/// A read with a resolved base at `k` ends its resolved part just after it
/// when everything behind `k` is ambiguous.
pub proof fn lemma_n_stop_is(read: Seq<u8>, k: int)
    requires
        is_last_called(read, k),
    ensures
        n_stop(read) == k + 1,
        !all_ambiguous(read),
{
    let c = choose|c: int| is_last_called(read, c);
    assert(is_last_called(read, c));
    assert(c == k) by {
        if c < k {
            assert(read[k] == AMBIGUOUS_BASE);
        }
        if k < c {
            assert(read[c] == AMBIGUOUS_BASE);
        }
    }
}

/// A read with a resolved base at `k` has a first resolved base at or
/// before `k`.
proof fn lemma_first_called_exists(read: Seq<u8>, k: int)
    requires
        0 <= k < read.len(),
        read[k] != AMBIGUOUS_BASE,
    ensures
        exists|f: int| is_first_called(read, f),
    decreases k,
{
    if forall|j: int| 0 <= j < k ==> read[j] == AMBIGUOUS_BASE {
        assert(is_first_called(read, k));
    } else {
        let j = choose|j: int| 0 <= j < k && read[j] != AMBIGUOUS_BASE;
        lemma_first_called_exists(read, j);
    }
}

/// A read with a resolved base at `k` has a last resolved base at or after
/// `k`.
proof fn lemma_last_called_exists(read: Seq<u8>, k: int)
    requires
        0 <= k < read.len(),
        read[k] != AMBIGUOUS_BASE,
    ensures
        exists|l: int| is_last_called(read, l),
    decreases read.len() - k,
{
    if forall|j: int| k < j < read.len() ==> read[j] == AMBIGUOUS_BASE {
        assert(is_last_called(read, k));
    } else {
        let j = choose|j: int| k < j < read.len() && read[j] != AMBIGUOUS_BASE;
        lemma_last_called_exists(read, j);
    }
}

/// The resolved part of a read lies within the read; unless the read has
/// no resolved base at all, it starts at the first and ends just after the
/// last of them.
pub proof fn lemma_n_ends_bounds(read: Seq<u8>)
    ensures
        0 <= n_start(read) <= n_stop(read) <= read.len(),
        !all_ambiguous(read) ==> is_first_called(read, n_start(read)) && is_last_called(
            read,
            n_stop(read) - 1,
        ),
{
    if !all_ambiguous(read) {
        let k = choose|k: int| 0 <= k < read.len() && read[k] != AMBIGUOUS_BASE;
        lemma_first_called_exists(read, k);
        lemma_last_called_exists(read, k);
        let f = n_start(read);
        let l = n_stop(read) - 1;
        assert(is_first_called(read, f));
        assert(is_last_called(read, l));
        if l < f {
            assert(read[l] == AMBIGUOUS_BASE);
        }
    }
}

/// A read without any ambiguous base keeps all of its bases.
pub proof fn lemma_resolved_read_whole(read: Seq<u8>)
    requires
        forall|i: int| 0 <= i < read.len() ==> read[i] != AMBIGUOUS_BASE,
    ensures
        n_start(read) == 0,
        n_stop(read) == read.len(),
{
    if read.len() > 0 {
        assert(read[0] != AMBIGUOUS_BASE);
        lemma_n_start_is(read, 0);
        lemma_n_stop_is(read, read.len() - 1);
    }
}

/// A stretch of a read that begins and ends with a resolved base keeps all
/// of its bases.
pub proof fn lemma_resolved_ends_whole(read: Seq<u8>)
    requires
        read.len() > 0,
        read[0] != AMBIGUOUS_BASE,
        read[read.len() - 1] != AMBIGUOUS_BASE,
    ensures
        n_start(read) == 0,
        n_stop(read) == read.len(),
{
    lemma_n_start_is(read, 0);
    lemma_n_stop_is(read, read.len() - 1);
}

/// What ambiguous-base trimming keeps, it keeps whole when it is trimmed
/// again.
pub proof fn lemma_n_ends_settled(read: Seq<u8>)
    ensures
        n_start(read.subrange(n_start(read), n_stop(read))) == 0,
        n_stop(read.subrange(n_start(read), n_stop(read))) == n_stop(read) - n_start(read),
{
    lemma_n_ends_bounds(read);
    let part = read.subrange(n_start(read), n_stop(read));
    if !all_ambiguous(read) {
        assert(part[0] == read[n_start(read)]);
        assert(part[part.len() - 1] == read[n_stop(read) - 1]);
        lemma_resolved_ends_whole(part);
    }
}

/// Finds the first resolved base and one past the last resolved base. A
/// read with no resolved base gives `(0, 0)`.
pub fn trim_n_ends(read: &[u8]) -> (ends: (usize, usize))
    ensures
        ends.0 as int == n_start(read@),
        ends.1 as int == n_stop(read@),
        ends.0 <= ends.1 <= read@.len(),
        all_ambiguous(read@) <==> ends.1 == 0,
{
    let n = read.len();
    let mut start: usize = 0;
    while start < n && read[start] == AMBIGUOUS_BASE
        invariant
            n == read@.len(),
            0 <= start <= n,
            forall|j: int| 0 <= j < start ==> read@[j] == AMBIGUOUS_BASE,
        decreases n - start,
    {
        start = start + 1;
    }
    if start == n {
        return (0, 0);
    }
    let mut stop: usize = n;
    while read[stop - 1] == AMBIGUOUS_BASE
        invariant
            n == read@.len(),
            start < stop <= n,
            read@[start as int] != AMBIGUOUS_BASE,
            forall|j: int| stop <= j < n ==> read@[j] == AMBIGUOUS_BASE,
        decreases stop,
    {
        stop = stop - 1;
    }
    proof {
        lemma_n_start_is(read@, start as int);
        lemma_n_stop_is(read@, stop - 1);
    }
    (start, stop)
}

} // verus!
