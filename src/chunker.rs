//! Splitting a sequence into overlapping chunks of bounded length.

use vstd::arithmetic::div_mod::lemma_fundamental_div_mod;
use vstd::prelude::*;
use vstd::slice::slice_to_vec;

use crate::merge::{head_of, merge_outcome, tail_of, MergeOutcome};

verus! {

/// How many chunks a sequence of length `len` is cut into with blocks of `w`
/// symbols that overlap by `o`: none for the empty sequence, one when it fits
/// a block, and otherwise one for each start `k * (w - o)` that leaves at
/// least `o` symbols after it.
pub open spec fn window_count(len: nat, w: nat, o: nat) -> nat
    recommends
        o < w,
{
    if len == 0 {
        0
    } else if len <= w {
        1
    } else {
        ((len - o) / (w - o) + 1) as nat
    }
}

/// The `k`-th chunk: `w` symbols from position `k * (w - o)`, cut short at
/// the end of the sequence.
pub open spec fn window_at(s: Seq<u8>, w: nat, o: nat, k: int) -> Seq<u8> {
    let start = k * (w - o);
    let end = if start + w < s.len() {
        start + w
    } else {
        s.len() as int
    };
    s.subrange(start, end)
}

/// All chunks of `s`, in order.
pub open spec fn window_chunks(s: Seq<u8>, w: nat, o: nat) -> Seq<Seq<u8>> {
    Seq::new(window_count(s.len(), w, o), |k: int| window_at(s, w, o, k))
}

/// The contents of a list of byte vectors.
pub open spec fn views(v: Seq<Vec<u8>>) -> Seq<Seq<u8>> {
    v.map_values(|c: Vec<u8>| c@)
}

/// The chunk starts of a sequence longer than a block: `k * d` for every
/// `k <= q`, where `q` is the quotient of `len - o` by `d`.
proof fn lemma_starts(len: int, o: int, d: int, k: int)
    requires
        d > 0,
        0 <= o,
        len >= o,
        0 <= k <= (len - o) / d,
    ensures
        0 <= k * d <= len - o,
        k * d + d > len - o <==> k == (len - o) / d,
        (k + 1) * d == k * d + d,
{
    let q = (len - o) / d;
    lemma_fundamental_div_mod(len - o, d);
    assert(0 <= k * d <= q * d) by (nonlinear_arith)
        requires
            0 <= k <= q,
            d > 0,
    ;
    assert(q * d <= len - o) by (nonlinear_arith)
        requires
            len - o == d * q + (len - o) % d,
            0 <= (len - o) % d,
    ;
    assert(q * d + d > len - o) by (nonlinear_arith)
        requires
            len - o == d * q + (len - o) % d,
            (len - o) % d < d,
    ;
    assert((k + 1) * d == k * d + d) by (nonlinear_arith);
    if k < q {
        assert(k * d + d <= q * d) by (nonlinear_arith)
            requires
                k + 1 <= q,
                d > 0,
        ;
    }
}

/// A chunk that exists starts inside the sequence, so it holds between 1 and
/// `w` symbols, all taken from `s` in order; when the sequence is longer than
/// a block, at least `o` symbols follow its start.
pub proof fn lemma_window_in_range(s: Seq<u8>, w: nat, o: nat, k: int)
    requires
        0 < o < w,
        0 <= k < window_count(s.len(), w, o),
    ensures
        0 <= k * (w - o) < s.len(),
        s.len() > w ==> k * (w - o) + o <= s.len(),
        1 <= window_at(s, w, o, k).len() <= w,
        forall|j: int|
            0 <= j < window_at(s, w, o, k).len() ==> #[trigger] window_at(s, w, o, k)[j] == s[k
                * (w - o) + j],
{
    let d = (w - o) as int;
    if s.len() <= w {
        assert(k == 0);
        assert(k * d == 0);
    } else {
        lemma_starts(s.len() as int, o as int, d, k);
    }
}

/// Every chunk but the last is a full block.
pub proof fn lemma_inner_windows_full(s: Seq<u8>, w: nat, o: nat, k: int)
    requires
        0 < o < w,
        0 <= k,
        k + 1 < window_count(s.len(), w, o),
    ensures
        k * (w - o) + w <= s.len(),
        window_at(s, w, o, k).len() == w,
{
    let d = (w - o) as int;
    lemma_starts(s.len() as int, o as int, d, k);
    lemma_starts(s.len() as int, o as int, d, k + 1);
}

/// The last chunk ends where the sequence ends.
pub proof fn lemma_last_window_ends(s: Seq<u8>, w: nat, o: nat)
    requires
        0 < o < w,
        s.len() > 0,
    ensures
        (window_count(s.len(), w, o) - 1) * (w - o) + window_at(
            s,
            w,
            o,
            window_count(s.len(), w, o) - 1,
        ).len() == s.len(),
{
    let d = (w - o) as int;
    let c = window_count(s.len(), w, o) as int;
    if s.len() <= w {
        assert(c == 1);
        assert((c - 1) * d == 0) by (nonlinear_arith)
            requires
                c == 1,
        ;
    } else {
        lemma_starts(s.len() as int, o as int, d, c - 1);
    }
}

/// Adjacent chunks share `o` symbols: chunk `k` is a full block, chunk
/// `k + 1` holds at least `o` symbols, and the last `o` symbols of chunk `k`
/// are the first `o` symbols of chunk `k + 1`.
pub proof fn lemma_windows_overlap(s: Seq<u8>, w: nat, o: nat, k: int)
    requires
        0 < o < w,
        0 <= k,
        k + 1 < window_count(s.len(), w, o),
    ensures
        window_at(s, w, o, k).len() == w,
        window_at(s, w, o, k + 1).len() >= o,
        window_at(s, w, o, k).subrange(w - o, w as int) == window_at(s, w, o, k + 1).subrange(
            0,
            o as int,
        ),
{
    let d = (w - o) as int;
    lemma_inner_windows_full(s, w, o, k);
    lemma_window_in_range(s, w, o, k + 1);
    lemma_starts(s.len() as int, o as int, d, k);
    assert(window_at(s, w, o, k).subrange(w - o, w as int) =~= window_at(s, w, o, k + 1).subrange(
        0,
        o as int,
    ));
}

/// The shape of the chunks of a non-empty sequence: a sequence that fits a
/// block is its only chunk; otherwise every chunk but the last is a full
/// block, and the last holds at least `o` symbols and ends with the sequence.
pub proof fn lemma_chunks_shape(s: Seq<u8>, w: nat, o: nat)
    requires
        0 < o < w,
        s.len() > 0,
    ensures
        s.len() <= w ==> window_chunks(s, w, o) == seq![s],
        window_count(s.len(), w, o) >= 1,
        forall|k: int|
            0 <= k < window_count(s.len(), w, o) - 1 ==> (#[trigger] window_chunks(s, w, o)[k]).len()
                == w,
        s.len() > w ==> window_chunks(s, w, o).last().len() >= o,
        (window_count(s.len(), w, o) - 1) * (w - o) + window_chunks(s, w, o).last().len()
            == s.len(),
{
    let c = window_count(s.len(), w, o) as int;
    if s.len() <= w {
        assert(c == 1);
        assert(0 * (w - o) == 0);
        assert(window_at(s, w, o, 0) =~= s);
        assert(window_chunks(s, w, o) =~= seq![s]);
    }
    assert forall|k: int| 0 <= k < c - 1 implies (#[trigger] window_chunks(s, w, o)[k]).len()
        == w by {
        lemma_inner_windows_full(s, w, o, k);
    }
    lemma_window_in_range(s, w, o, c - 1);
    lemma_last_window_ends(s, w, o);
}

/// Reassembling the first `k + 1` chunks gives the sequence up to the end of
/// chunk `k`.
pub proof fn lemma_windows_rejoin(s: Seq<u8>, w: nat, o: nat, k: int)
    requires
        0 < o < w,
        0 <= k < window_count(s.len(), w, o),
    ensures
        merge_outcome(window_chunks(s, w, o).take(k + 1), o) == MergeOutcome::Joined(
            s.subrange(0, k * (w - o) + window_at(s, w, o, k).len()),
        ),
    decreases k,
{
    let d = (w - o) as int;
    let chunks = window_chunks(s, w, o);
    lemma_window_in_range(s, w, o, k);
    if k == 0 {
        assert(0 * d == 0);
        assert(chunks.take(1)[0] == window_at(s, w, o, 0));
        assert(window_at(s, w, o, 0) =~= s.subrange(0, window_at(s, w, o, 0).len() as int));
    } else {
        lemma_windows_rejoin(s, w, o, k - 1);
        lemma_windows_overlap(s, w, o, k - 1);
        let upto = chunks.take(k + 1);
        let prev = window_at(s, w, o, k - 1);
        let curr = window_at(s, w, o, k);
        assert(upto.drop_last() =~= chunks.take(k));
        assert(upto[upto.len() - 2] == prev);
        assert(upto[upto.len() - 1] == curr);
        assert(tail_of(prev, o) == prev.subrange(w - o, w as int));
        assert(head_of(curr, o) == curr.subrange(0, o as int));
        assert(k * d == (k - 1) * d + d) by (nonlinear_arith);
        assert(s.subrange(0, (k - 1) * d + w) + curr.subrange(o as int, curr.len() as int)
            =~= s.subrange(0, k * d + curr.len()));
    }
}

/// Reassembling all chunks of a sequence gives the sequence back.
pub proof fn lemma_windows_join(s: Seq<u8>, w: nat, o: nat)
    requires
        0 < o < w,
    ensures
        merge_outcome(window_chunks(s, w, o), o) == MergeOutcome::Joined(s),
{
    let chunks = window_chunks(s, w, o);
    if s.len() == 0 {
        assert(chunks.len() == 0);
        assert(s =~= Seq::<u8>::empty());
    } else {
        let c = window_count(s.len(), w, o) as int;
        lemma_last_window_ends(s, w, o);
        lemma_windows_rejoin(s, w, o, c - 1);
        assert(chunks.take(c) =~= chunks);
        assert(s.subrange(0, s.len() as int) =~= s);
    }
}

/// Cuts `s` into chunks of at most `chunk_size` symbols that overlap by
/// `overlap`: the whole of `s` when it fits one chunk, otherwise chunks
/// taken every `chunk_size - overlap` positions, of which only the last may
/// be shorter than `chunk_size`.
pub fn str_chunks_overlap(s: &[u8], chunk_size: usize, overlap: usize) -> (r: Vec<Vec<u8>>)
    requires
        0 < overlap < chunk_size,
    ensures
        views(r@) == window_chunks(s@, chunk_size as nat, overlap as nat),
{
    let len = s.len();
    let ghost w = chunk_size as nat;
    let ghost o = overlap as nat;
    let mut chunks: Vec<Vec<u8>> = Vec::new();
    if len == 0 {
        proof {
            assert(views(chunks@) =~= window_chunks(s@, w, o));
        }
        return chunks;
    }
    if len <= chunk_size {
        chunks.push(slice_to_vec(s));
        proof {
            assert(0 * (w - o) == 0);
            assert(s@.subrange(0, len as int) =~= s@);
            assert(views(chunks@) =~= window_chunks(s@, w, o));
        }
        return chunks;
    }
    let step = chunk_size - overlap;
    let ghost count = window_count(len as nat, w, o);
    let mut start: usize = 0;
    let mut more = true;
    let ghost mut k: int = 0;
    while more
        invariant
            len == s@.len(),
            len > chunk_size,
            step == w - o,
            step > 0,
            0 < o,
            w == chunk_size,
            o == overlap,
            count == window_count(len as nat, w, o),
            0 <= k <= count,
            more ==> k < count && start == k * step,
            !more ==> k == count,
            chunks@.len() == k,
            forall|j: int| 0 <= j < k ==> (#[trigger] chunks@[j])@ == window_at(s@, w, o, j),
        decreases count - k,
    {
        proof {
            lemma_window_in_range(s@, w, o, k);
            lemma_starts(len as int, overlap as int, step as int, k);
        }
        let end = if len - start > chunk_size {
            start + chunk_size
        } else {
            len
        };
        let piece = slice_to_vec(&s[start..end]);
        chunks.push(piece);
        proof {
            assert(chunks@[k]@ == window_at(s@, w, o, k));
        }
        if (len - overlap) - start < step {
            more = false;
        } else {
            start = start + step;
        }
        proof {
            k = k + 1;
        }
    }
    proof {
        assert(views(chunks@) =~= window_chunks(s@, w, o));
    }
    chunks
}

} // verus!
