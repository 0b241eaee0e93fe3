//! Reassembly of decoded chunks: adjacent chunks must agree on the symbols
//! they share, and each chunk after the first adds only what follows them.

use vstd::prelude::*;
use vstd::slice::slice_to_vec;

use crate::error::IcgrError;

verus! {

/// What reassembling a list of chunks comes to.
pub enum MergeOutcome {
    /// The chunks agree and join into this sequence.
    Joined(Seq<u8>),
    /// A chunk is shorter than the overlap.
    TooShort,
    /// Two adjacent chunks disagree: the tail of the first, the head of the second.
    Mismatch(Seq<u8>, Seq<u8>),
}

/// The last `o` symbols of `c`.
pub open spec fn tail_of(c: Seq<u8>, o: nat) -> Seq<u8> {
    c.subrange(c.len() - o, c.len() as int)
}

/// The first `o` symbols of `c`.
pub open spec fn head_of(c: Seq<u8>, o: nat) -> Seq<u8> {
    c.subrange(0, o as int)
}

/// Reassembles `chunks` from the first to the last, stopping at the first
/// adjacent pair that is too short for the overlap or disagrees on it.
pub open spec fn merge_outcome(chunks: Seq<Seq<u8>>, o: nat) -> MergeOutcome
    decreases chunks.len(),
{
    if chunks.len() == 0 {
        MergeOutcome::Joined(Seq::empty())
    } else if chunks.len() == 1 {
        MergeOutcome::Joined(chunks[0])
    } else {
        let prev = chunks[chunks.len() - 2];
        let curr = chunks[chunks.len() - 1];
        match merge_outcome(chunks.drop_last(), o) {
            MergeOutcome::Joined(m) => {
                if prev.len() < o || curr.len() < o {
                    MergeOutcome::TooShort
                } else if tail_of(prev, o) != head_of(curr, o) {
                    MergeOutcome::Mismatch(tail_of(prev, o), head_of(curr, o))
                } else {
                    MergeOutcome::Joined(m + curr.subrange(o as int, curr.len() as int))
                }
            },
            fault => fault,
        }
    }
}

/// True when `r` is what reassembly reports for `outcome`.
pub open spec fn reports(r: Result<Vec<u8>, IcgrError>, outcome: MergeOutcome) -> bool {
    match outcome {
        MergeOutcome::Joined(m) => r matches Ok(v) && v@ == m,
        MergeOutcome::TooShort => r matches Err(IcgrError::ChunkTooShort),
        MergeOutcome::Mismatch(t, h) => r matches Err(
            IcgrError::OverlapMismatch { expected, actual },
        ) && expected@ == t && actual@ == h,
    }
}

/// The contents of a list of byte slices.
pub open spec fn slice_views(v: Seq<&[u8]>) -> Seq<Seq<u8>> {
    v.map_values(|c: &[u8]| c@)
}

/// Whether two byte slices hold the same bytes.
fn same_bytes(a: &[u8], b: &[u8]) -> (r: bool)
    ensures
        r == (a@ == b@),
{
    if a.len() != b.len() {
        return false;
    }
    let mut i: usize = 0;
    while i < a.len()
        invariant
            a@.len() == b@.len(),
            0 <= i <= a@.len(),
            forall|j: int| 0 <= j < i ==> a@[j] == b@[j],
        decreases a@.len() - i,
    {
        if a[i] != b[i] {
            return false;
        }
        i = i + 1;
    }
    proof {
        assert(a@ =~= b@);
    }
    true
}

/// Joins decoded chunks that overlap by `overlap` symbols: the first chunk is
/// taken whole, each later one must begin with the last `overlap` symbols of
/// its predecessor, and only its remainder is appended.
pub fn merge_with_overlap(chunks: Vec<&[u8]>, overlap: usize) -> (r: Result<Vec<u8>, IcgrError>)
    ensures
        reports(r, merge_outcome(slice_views(chunks@), overlap as nat)),
{
    let ghost all = slice_views(chunks@);
    if chunks.len() == 0 {
        return Ok(Vec::new());
    }
    let mut result = slice_to_vec(chunks[0]);
    let mut i: usize = 1;
    proof {
        assert(all.take(1).drop_last() =~= Seq::<Seq<u8>>::empty());
    }
    while i < chunks.len()
        invariant
            all == slice_views(chunks@),
            1 <= i <= chunks@.len(),
            merge_outcome(all.take(i as int), overlap as nat) == MergeOutcome::Joined(result@),
        decreases chunks@.len() - i,
    {
        let prev = chunks[i - 1];
        let curr = chunks[i];
        let ghost upto = all.take(i as int + 1);
        proof {
            assert(upto.drop_last() =~= all.take(i as int));
            assert(upto[upto.len() - 2] == prev@);
            assert(upto[upto.len() - 1] == curr@);
        }
        if prev.len() < overlap || curr.len() < overlap {
            proof {
                lemma_fault_persists(all, overlap as nat, i as int + 1);
            }
            return Err(IcgrError::ChunkTooShort);
        }
        let prev_tail = &prev[prev.len() - overlap..prev.len()];
        let curr_head = &curr[0..overlap];
        if !same_bytes(prev_tail, curr_head) {
            proof {
                lemma_fault_persists(all, overlap as nat, i as int + 1);
            }
            return Err(
                IcgrError::OverlapMismatch {
                    expected: slice_to_vec(prev_tail),
                    actual: slice_to_vec(curr_head),
                },
            );
        }
        let ghost before = result@;
        let mut j: usize = overlap;
        while j < curr.len()
            invariant
                overlap <= j <= curr@.len(),
                result@ == before + curr@.subrange(overlap as int, j as int),
            decreases curr@.len() - j,
        {
            result.push(curr[j]);
            proof {
                assert(curr@.subrange(overlap as int, j as int + 1) =~= curr@.subrange(
                    overlap as int,
                    j as int,
                ).push(curr@[j as int]));
            }
            j = j + 1;
        }
        i = i + 1;
    }
    proof {
        assert(all.take(chunks@.len() as int) =~= all);
    }
    Ok(result)
}

/// Once reassembly of a prefix has failed, reassembly of the whole list fails
/// the same way.
pub proof fn lemma_fault_persists(chunks: Seq<Seq<u8>>, o: nat, k: int)
    requires
        0 <= k <= chunks.len(),
        !(merge_outcome(chunks.take(k), o) is Joined),
    ensures
        merge_outcome(chunks, o) == merge_outcome(chunks.take(k), o),
    decreases chunks.len() - k,
{
    if k < chunks.len() {
        let next = chunks.take(k + 1);
        assert(next.drop_last() =~= chunks.take(k));
        lemma_fault_persists(chunks, o, k + 1);
    } else {
        assert(chunks.take(k) =~= chunks);
    }
}

/// The total number of symbols in `chunks`.
pub open spec fn total_len(chunks: Seq<Seq<u8>>) -> int
    decreases chunks.len(),
{
    if chunks.len() == 0 {
        0
    } else {
        total_len(chunks.drop_last()) + chunks.last().len()
    }
}

/// The length reassembly must produce: every symbol of every chunk, less
/// one overlap for each adjacent pair.
pub open spec fn joined_len(chunks: Seq<Seq<u8>>, o: nat) -> int {
    if chunks.len() == 0 {
        0
    } else {
        total_len(chunks) - o * (chunks.len() - 1)
    }
}

/// Whenever reassembly succeeds, the joined sequence is as long as all the
/// chunks together less one overlap per adjacent pair.
pub proof fn lemma_joined_length(chunks: Seq<Seq<u8>>, o: nat)
    requires
        merge_outcome(chunks, o) is Joined,
    ensures
        merge_outcome(chunks, o)->Joined_0.len() == joined_len(chunks, o),
    decreases chunks.len(),
{
    if chunks.len() == 1 {
        assert(total_len(chunks) == total_len(chunks.drop_last()) + chunks[0].len());
    } else if chunks.len() > 1 {
        let rest = chunks.drop_last();
        let curr = chunks.last();
        if !(merge_outcome(rest, o) is Joined) {
            assert(merge_outcome(chunks, o) == merge_outcome(rest, o));
        }
        lemma_joined_length(rest, o);
        let m = merge_outcome(rest, o)->Joined_0;
        assert(curr.len() >= o);
        assert(merge_outcome(chunks, o)->Joined_0 == m + curr.subrange(o as int, curr.len() as int));
        assert(total_len(chunks) == total_len(rest) + curr.len());
        assert(o * (chunks.len() - 1) == o * (rest.len() - 1) + o) by (nonlinear_arith)
            requires
                rest.len() == chunks.len() - 1,
        ;
    }
}

/// True when two adjacent chunks both hold the overlap and agree on it.
pub open spec fn window_ok(prev: Seq<u8>, curr: Seq<u8>, o: nat) -> bool {
    &&& prev.len() >= o
    &&& curr.len() >= o
    &&& tail_of(prev, o) == head_of(curr, o)
}

/// Reassembly succeeds exactly when every adjacent pair of chunks holds the
/// overlap and agrees on it.
pub proof fn lemma_joined_iff_windows_ok(chunks: Seq<Seq<u8>>, o: nat)
    ensures
        merge_outcome(chunks, o) is Joined <==> forall|i: int|
            1 <= i < chunks.len() ==> window_ok(chunks[i - 1], #[trigger] chunks[i], o),
    decreases chunks.len(),
{
    if chunks.len() >= 2 {
        let rest = chunks.drop_last();
        lemma_joined_iff_windows_ok(rest, o);
        if merge_outcome(chunks, o) is Joined {
            assert forall|i: int| 1 <= i < chunks.len() implies window_ok(
                chunks[i - 1],
                #[trigger] chunks[i],
                o,
            ) by {
                if i < chunks.len() - 1 {
                    assert(rest[i] == chunks[i] && rest[i - 1] == chunks[i - 1]);
                }
            }
        }
        if forall|i: int|
            1 <= i < chunks.len() ==> window_ok(chunks[i - 1], #[trigger] chunks[i], o) {
            assert forall|i: int| 1 <= i < rest.len() implies window_ok(
                rest[i - 1],
                #[trigger] rest[i],
                o,
            ) by {
                assert(window_ok(chunks[i - 1], chunks[i], o));
            }
            assert(window_ok(chunks[chunks.len() - 2], chunks[chunks.len() - 1], o));
        }
    }
}

/// Changing one symbol of a decoded chunk inside a region it shares with a
/// neighbour, and leaving the neighbour as it is, makes reassembly report an
/// overlap mismatch instead of a sequence.
pub proof fn lemma_corruption_detected(chunks: Seq<Seq<u8>>, o: nat, k: int, p: int, b: u8)
    requires
        merge_outcome(chunks, o) is Joined,
        0 <= k < chunks.len(),
        0 <= p < chunks[k].len(),
        b != chunks[k][p],
        (1 <= k && p < o) || (k + 1 < chunks.len() && p >= chunks[k].len() - o),
    ensures
        merge_outcome(chunks.update(k, chunks[k].update(p, b)), o) is Mismatch,
{
    let bad = chunks.update(k, chunks[k].update(p, b));
    let j = if 1 <= k && p < o {
        k
    } else {
        k + 1
    };
    lemma_joined_iff_windows_ok(chunks, o);
    assert(window_ok(chunks[j - 1], chunks[j], o));
    let upto = bad.take(j);
    assert forall|i: int| 1 <= i < upto.len() implies window_ok(
        upto[i - 1],
        #[trigger] upto[i],
        o,
    ) by {
        assert(window_ok(chunks[i - 1], chunks[i], o));
        if i == k {
            assert(head_of(bad[k], o) =~= head_of(chunks[k], o));
        }
    }
    lemma_joined_iff_windows_ok(upto, o);
    let next = bad.take(j + 1);
    assert(next.drop_last() =~= upto);
    if j == k {
        assert(head_of(bad[k], o)[p] != head_of(chunks[k], o)[p]);
    } else {
        let q = p - (chunks[k].len() - o);
        assert(tail_of(bad[k], o)[q] != tail_of(chunks[k], o)[q]);
    }
    assert(!window_ok(next[j - 1], next[j], o));
    lemma_fault_persists(bad, o, j + 1);
}

} // verus!
