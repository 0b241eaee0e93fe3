//! The integer chaos game: the exact coordinates of a chunk, and the
//! sign-driven recursion that recovers the chunk from them.

use vstd::prelude::*;

use crate::vertex::{is_nucleotide, lemma_vertex_bijection, symbol_of, vertex};

verus! {

/// `2^k`.
pub open spec fn two_pow(k: nat) -> int
    decreases k,
{
    if k == 0 {
        1
    } else {
        2 * two_pow((k - 1) as nat)
    }
}

/// True when every symbol of `s` is one of `A`, `T`, `C`, `G`.
pub open spec fn all_nucleotides(s: Seq<u8>) -> bool {
    forall|i: int| 0 <= i < s.len() ==> is_nucleotide(#[trigger] s[i])
}

/// The first coordinate of a chunk: symbol `i` moves it by `2^i` times the
/// first component of its corner.
pub open spec fn coord_x(s: Seq<u8>) -> int
    decreases s.len(),
{
    if s.len() == 0 {
        0
    } else {
        coord_x(s.drop_last()) + two_pow((s.len() - 1) as nat) * vertex(s.last()).0
    }
}

/// The second coordinate of a chunk: symbol `i` moves it by `2^i` times the
/// second component of its corner.
pub open spec fn coord_y(s: Seq<u8>) -> int
    decreases s.len(),
{
    if s.len() == 0 {
        0
    } else {
        coord_y(s.drop_last()) + two_pow((s.len() - 1) as nat) * vertex(s.last()).1
    }
}

/// The sign of an integer: 1, -1 or 0.
pub open spec fn sign(v: int) -> int {
    if v > 0 {
        1
    } else if v < 0 {
        -1
    } else {
        0
    }
}

/// The chunk of length `n` read back from the point `(x, y)`: its last symbol
/// is the one whose corner has the signs of `(x, y)`; that corner, scaled by
/// `2^(n-1)`, is taken off and the rest is read back the same way.
pub open spec fn decoded(x: int, y: int, n: nat) -> Seq<u8>
    decreases n,
{
    if n == 0 {
        Seq::empty()
    } else {
        let c = symbol_of(sign(x), sign(y));
        let p = two_pow((n - 1) as nat);
        decoded(x - p * vertex(c).0, y - p * vertex(c).1, (n - 1) as nat).push(c)
    }
}

pub proof fn lemma_two_pow_positive(k: nat)
    ensures
        two_pow(k) > 0,
    decreases k,
{
    if k > 0 {
        lemma_two_pow_positive((k - 1) as nat);
    }
}

pub proof fn lemma_two_pow_monotone(a: nat, b: nat)
    requires
        a <= b,
    ensures
        two_pow(a) <= two_pow(b),
    decreases b - a,
{
    if a < b {
        lemma_two_pow_monotone(a, (b - 1) as nat);
        lemma_two_pow_positive((b - 1) as nat);
    }
}

/// `2^(a + b) == 2^a * 2^b`.
pub proof fn lemma_two_pow_add(a: nat, b: nat)
    ensures
        two_pow(a + b) == two_pow(a) * two_pow(b),
    decreases b,
{
    if b > 0 {
        lemma_two_pow_add(a, (b - 1) as nat);
        assert(two_pow(a + b) == 2 * two_pow((a + b - 1) as nat));
        assert(two_pow(a) * two_pow(b) == two_pow(a) * (2 * two_pow((b - 1) as nat)));
        assert(two_pow(a) * (2 * two_pow((b - 1) as nat)) == 2 * (two_pow(a) * two_pow(
            (b - 1) as nat,
        ))) by (nonlinear_arith);
    }
}

/// `2^100`, the largest coordinate scale a chunk of the widest block reaches.
pub proof fn lemma_two_pow_100()
    ensures
        two_pow(100) == 1267650600228229401496703205376,
{
    reveal_with_fuel(two_pow, 11);
    assert(two_pow(10) == 1024);
    lemma_two_pow_add(10, 10);
    assert(two_pow(20) == 1048576);
    lemma_two_pow_add(20, 20);
    assert(two_pow(40) == 1099511627776);
    lemma_two_pow_add(40, 40);
    assert(two_pow(80) == 1208925819614629174706176);
    lemma_two_pow_add(80, 20);
}

/// `2^126`, the largest scale peeled off when decoding the longest chunk
/// whose coordinates fit 128-bit integers.
pub proof fn lemma_two_pow_126()
    ensures
        two_pow(126) == 85070591730234615865843651857942052864,
{
    lemma_two_pow_100();
    reveal_with_fuel(two_pow, 11);
    assert(two_pow(6) == 64);
    assert(two_pow(10) == 1024);
    lemma_two_pow_add(10, 10);
    assert(two_pow(20) == 1048576);
    lemma_two_pow_add(20, 6);
    assert(two_pow(26) == 67108864);
    lemma_two_pow_add(100, 26);
}

/// Multiplying by a corner component keeps the magnitude or clears it.
pub proof fn lemma_scale(p: int, v: int)
    requires
        v == 1 || v == -1 || v == 0,
    ensures
        v == 1 ==> p * v == p,
        v == -1 ==> p * v == -p,
        v == 0 ==> p * v == 0,
{
}

/// Both coordinates of a chunk of length `n` lie strictly within `2^n`.
pub proof fn lemma_coord_bound(s: Seq<u8>)
    ensures
        -two_pow(s.len()) < coord_x(s) < two_pow(s.len()),
        -two_pow(s.len()) < coord_y(s) < two_pow(s.len()),
    decreases s.len(),
{
    if s.len() > 0 {
        let c = s.last();
        lemma_coord_bound(s.drop_last());
        lemma_vertex_bijection(c, 0, 0);
        lemma_scale(two_pow((s.len() - 1) as nat), vertex(c).0);
        lemma_scale(two_pow((s.len() - 1) as nat), vertex(c).1);
    }
}

/// Reading back the coordinates of a chunk of canonical nucleotides gives the
/// chunk itself.
pub proof fn lemma_decoded_chunk(s: Seq<u8>)
    requires
        all_nucleotides(s),
    ensures
        decoded(coord_x(s), coord_y(s), s.len()) == s,
    decreases s.len(),
{
    if s.len() > 0 {
        let rest = s.drop_last();
        let c = s.last();
        let p = two_pow((s.len() - 1) as nat);
        assert(is_nucleotide(s[s.len() - 1]));
        lemma_coord_bound(rest);
        lemma_vertex_bijection(c, vertex(c).0, vertex(c).1);
        lemma_scale(p, vertex(c).0);
        lemma_scale(p, vertex(c).1);
        assert(sign(coord_x(s)) == vertex(c).0);
        assert(sign(coord_y(s)) == vertex(c).1);
        assert(all_nucleotides(rest)) by {
            assert forall|i: int| 0 <= i < rest.len() implies is_nucleotide(#[trigger] rest[i]) by {
                assert(rest[i] == s[i]);
            }
        }
        lemma_decoded_chunk(rest);
        assert(rest.push(c) =~= s);
    }
}

} // verus!
