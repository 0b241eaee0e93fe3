//! The four canonical nucleotides and the corners of the unit square they map to.

use vstd::prelude::*;

verus! {

/// Adenine, as an ASCII byte.
pub const ADENINE: u8 = 65;

/// Thymine, as an ASCII byte.
pub const THYMINE: u8 = 84;

/// Cytosine, as an ASCII byte.
pub const CYTOSINE: u8 = 67;

/// Guanine, as an ASCII byte.
pub const GUANINE: u8 = 71;

/// `N`: the symbol produced for a sign pattern that names no corner.
pub const UNKNOWN_SYMBOL: u8 = 78;

/// True of the four canonical nucleotide symbols `A`, `T`, `C` and `G`.
pub open spec fn is_nucleotide(b: u8) -> bool {
    b == ADENINE || b == THYMINE || b == CYTOSINE || b == GUANINE
}

/// The corner assigned to a symbol: `A` (1, 1), `T` (-1, 1), `C` (-1, -1),
/// `G` (1, -1); any other byte stays at the origin.
pub open spec fn vertex(b: u8) -> (int, int) {
    if b == ADENINE {
        (1, 1)
    } else if b == THYMINE {
        (-1, 1)
    } else if b == CYTOSINE {
        (-1, -1)
    } else if b == GUANINE {
        (1, -1)
    } else {
        (0, 0)
    }
}

/// The symbol whose corner has the signs `(sx, sy)`; `N` for any other pair.
pub open spec fn symbol_of(sx: int, sy: int) -> u8 {
    if sx == 1 && sy == 1 {
        ADENINE
    } else if sx == -1 && sy == 1 {
        THYMINE
    } else if sx == -1 && sy == -1 {
        CYTOSINE
    } else if sx == 1 && sy == -1 {
        GUANINE
    } else {
        UNKNOWN_SYMBOL
    }
}

/// The corner of a symbol, as a pair of signs.
pub fn vertex_of(b: u8) -> (r: (i8, i8))
    ensures
        r.0 == vertex(b).0,
        r.1 == vertex(b).1,
{
    match b {
        ADENINE => (1, 1),
        THYMINE => (-1, 1),
        CYTOSINE => (-1, -1),
        GUANINE => (1, -1),
        _ => (0, 0),
    }
}

/// The symbol at the corner with signs `(sx, sy)`, or `N` when the pair names no corner.
pub fn nucleotide_of(sx: i8, sy: i8) -> (r: u8)
    ensures
        r == symbol_of(sx as int, sy as int),
{
    match (sx, sy) {
        (1, 1) => ADENINE,
        (-1, 1) => THYMINE,
        (-1, -1) => CYTOSINE,
        (1, -1) => GUANINE,
        _ => UNKNOWN_SYMBOL,
    }
}

/// Whether `b` is one of `A`, `T`, `C`, `G`.
pub fn is_nucleotide_byte(b: u8) -> (r: bool)
    ensures
        r == is_nucleotide(b),
{
    b == ADENINE || b == THYMINE || b == CYTOSINE || b == GUANINE
}

/// The map from nucleotides to corners is a bijection onto the four sign
/// pairs: each nucleotide is recovered from its corner, and each pair of
/// non-zero signs is the corner of exactly one nucleotide.
pub proof fn lemma_vertex_bijection(b: u8, sx: int, sy: int)
    ensures
        is_nucleotide(b) ==> symbol_of(vertex(b).0, vertex(b).1) == b,
        !is_nucleotide(b) ==> vertex(b) == (0int, 0int),
        (sx == 1 || sx == -1) && (sy == 1 || sy == -1) ==> {
            &&& is_nucleotide(symbol_of(sx, sy))
            &&& vertex(symbol_of(sx, sy)) == (sx, sy)
        },
{
}

} // verus!
