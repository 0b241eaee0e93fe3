//! Tri-integers: the exact `(x, y, n)` encoding of one chunk, and lists of them
//! that encode a whole sequence.

use vstd::prelude::*;
use vstd::std_specs::iter::IteratorSpec;

use crate::chunker::{
    lemma_window_in_range, lemma_windows_join, str_chunks_overlap, views, window_at,
    window_chunks, window_count,
};
use crate::error::IcgrError;
use crate::merge::{
    lemma_joined_length, merge_outcome, merge_with_overlap, slice_views, total_len, MergeOutcome,
};
use crate::text::string_from_chars;
use crate::transform::{
    all_nucleotides, coord_x, coord_y, decoded, lemma_coord_bound, lemma_decoded_chunk,
    lemma_scale, lemma_two_pow_100, lemma_two_pow_126, lemma_two_pow_monotone,
    lemma_two_pow_positive, sign, two_pow,
};
use crate::vertex::{
    is_nucleotide, is_nucleotide_byte, lemma_vertex_bijection, nucleotide_of, vertex, vertex_of,
    UNKNOWN_SYMBOL,
};

verus! {

/// The widest block a sequence is encoded in.
pub const MAX_BLOCK_WIDTH: usize = 100;

/// The longest chunk a triple can announce and still be decoded with 128-bit
/// integers: the scale `2^(n-1)` peeled off first must fit.
pub const MAX_DECODED_LEN: usize = 127;

/// The encoding of one chunk: the final point `(x, y)` of the integer chaos
/// game and the chunk length `n`.
#[derive(Debug, Clone, Copy, PartialEq, Eq)]
pub struct TriIntegers {
    /// First coordinate.
    pub x: i128,
    /// Second coordinate.
    pub y: i128,
    /// Chunk length.
    pub n: usize,
}

/// True when `i` is the position of the first symbol of `s` that is not a
/// canonical nucleotide.
pub open spec fn first_unknown_at(s: Seq<u8>, i: int) -> bool {
    &&& 0 <= i < s.len()
    &&& !is_nucleotide(s[i])
    &&& forall|j: int| 0 <= j < i ==> is_nucleotide(#[trigger] s[j])
}

/// The encoding of a whole sequence: a list of triples, one per chunk, in order.
#[derive(Debug, Clone, PartialEq, Eq)]
pub struct TriIntegersList(pub Vec<TriIntegers>);

impl View for TriIntegersList {
    type V = Seq<TriIntegers>;

    open spec fn view(&self) -> Seq<TriIntegers> {
        self.0@
    }
}

/// True when `r` is the outcome of encoding `s` in blocks of `w` symbols that
/// overlap by `o`: in strict mode the first symbol other than `A`, `T`, `C`,
/// `G` is reported; otherwise each chunk of `s` is encoded in order.
pub open spec fn encodes_as(
    r: Result<TriIntegersList, IcgrError>,
    s: Seq<u8>,
    w: nat,
    o: nat,
    strict: bool,
) -> bool {
    if strict && !all_nucleotides(s) {
        r matches Err(e) && exists|i: int|
            first_unknown_at(s, i) && e == IcgrError::UnknownNucleotide(s[i] as char)
    } else {
        &&& r matches Ok(l)
        &&& r->Ok_0@.len() == window_chunks(s, w, o).len()
        &&& forall|i: int|
            0 <= i < r->Ok_0@.len() ==> encodes_chunk(
                #[trigger] r->Ok_0@[i],
                window_chunks(s, w, o)[i],
            )
        &&& forall|i: int| 0 <= i < r->Ok_0@.len() ==> 1 <= (#[trigger] r->Ok_0@[i]).n <= w
        &&& s.len() > 0 ==> total_n(r->Ok_0@) - o * (r->Ok_0@.len() - 1) == s.len()
    }
}

/// The sum of the chunk lengths of a list of triples.
pub open spec fn total_n(ts: Seq<TriIntegers>) -> int
    decreases ts.len(),
{
    if ts.len() == 0 {
        0
    } else {
        total_n(ts.drop_last()) + ts.last().n
    }
}

/// The chunks a list of triples decodes to, one per triple.
pub open spec fn decoded_chunks(ts: Seq<TriIntegers>) -> Seq<Seq<u8>> {
    ts.map_values(|t: TriIntegers| t.decoded())
}

/// True when every triple of `ts` has a chunk length the decoder accepts.
pub open spec fn all_wf(ts: Seq<TriIntegers>) -> bool {
    forall|i: int| 0 <= i < ts.len() ==> (#[trigger] ts[i]).wf()
}

/// True when `i` is the position of the first triple whose length is refused.
pub open spec fn first_bad_length_at(ts: Seq<TriIntegers>, i: int) -> bool {
    &&& 0 <= i < ts.len()
    &&& !ts[i].wf()
    &&& forall|j: int| 0 <= j < i ==> (#[trigger] ts[j]).wf()
}

/// Bytes read as text, one character each.
pub open spec fn as_text(m: Seq<u8>) -> Seq<char> {
    m.map_values(|b: u8| b as char)
}

/// True when `r` is the outcome of decoding `ts` with overlap `o`: the first
/// triple with a refused length is reported; otherwise the decoded chunks are
/// reassembled, and their join, or the reason it failed, is returned.
pub open spec fn decodes_as(r: Result<String, IcgrError>, ts: Seq<TriIntegers>, o: nat) -> bool {
    if !all_wf(ts) {
        r matches Err(e) && exists|i: int|
            first_bad_length_at(ts, i) && e == IcgrError::InvalidBlockLength(ts[i].n)
    } else {
        match merge_outcome(decoded_chunks(ts), o) {
            MergeOutcome::Joined(m) => r matches Ok(text) && text@ == as_text(m),
            MergeOutcome::TooShort => r matches Err(IcgrError::ChunkTooShort),
            MergeOutcome::Mismatch(t, h) => r matches Err(
                IcgrError::OverlapMismatch { expected, actual },
            ) && expected@ == t && actual@ == h,
        }
    }
}

/// True when `t` is the encoding of the chunk `c`.
pub open spec fn encodes_chunk(t: TriIntegers, c: Seq<u8>) -> bool {
    &&& t.x == coord_x(c)
    &&& t.y == coord_y(c)
    &&& t.n == c.len()
}

impl TriIntegers {
    /// A chunk length that the decoder accepts.
    pub open spec fn wf(&self) -> bool {
        1 <= self.n <= MAX_DECODED_LEN
    }

    /// The symbols this triple decodes to.
    pub open spec fn decoded(&self) -> Seq<u8> {
        decoded(self.x as int, self.y as int, self.n as nat)
    }

    /// A triple from small non-negative coordinates.
    pub fn new(x: u8, y: u8, n: usize) -> (r: TriIntegers)
        ensures
            r.x == x,
            r.y == y,
            r.n == n,
    {
        TriIntegers { x: x as i128, y: y as i128, n }
    }

    /// A triple from its three parts.
    pub fn from_parts(x: i128, y: i128, n: usize) -> (r: TriIntegers)
        ensures
            r.x == x,
            r.y == y,
            r.n == n,
    {
        TriIntegers { x, y, n }
    }

    /// Encodes one chunk. In strict mode the first symbol other than `A`, `T`,
    /// `C`, `G` is an error; otherwise such a symbol moves the point nowhere
    /// but still takes its position.
    pub fn icgr_from_chunk(chunk: &[u8], strict: bool) -> (r: Result<TriIntegers, IcgrError>)
        requires
            1 <= chunk@.len() <= MAX_BLOCK_WIDTH,
        ensures
            r is Err <==> strict && !all_nucleotides(chunk@),
            r matches Ok(t) ==> encodes_chunk(t, chunk@),
            r matches Err(e) ==> exists|i: int|
                first_unknown_at(chunk@, i) && e == IcgrError::UnknownNucleotide(
                    chunk@[i] as char,
                ),
    {
        let n = chunk.len();
        let mut x: i128 = 0;
        let mut y: i128 = 0;
        let mut power: i128 = 1;
        let mut i: usize = 0;
        proof {
            lemma_two_pow_100();
            assert(chunk@.take(0) =~= Seq::<u8>::empty());
        }
        while i < n
            invariant
                n == chunk@.len(),
                1 <= n <= MAX_BLOCK_WIDTH,
                0 <= i <= n,
                x == coord_x(chunk@.take(i as int)),
                y == coord_y(chunk@.take(i as int)),
                power == two_pow(i as nat),
                two_pow(100) == 1267650600228229401496703205376,
                strict ==> forall|j: int| 0 <= j < i ==> is_nucleotide(#[trigger] chunk@[j]),
            decreases n - i,
        {
            let b = chunk[i];
            let (vx, vy) = vertex_of(b);
            proof {
                lemma_vertex_bijection(b, 0, 0);
                lemma_coord_bound(chunk@.take(i as int));
                lemma_two_pow_monotone((i + 1) as nat, 100);
                let prefix = chunk@.take(i as int + 1);
                assert(prefix.drop_last() =~= chunk@.take(i as int));
                assert(prefix.last() == b);
                lemma_scale(two_pow(i as nat), vertex(b).0);
                lemma_scale(two_pow(i as nat), vertex(b).1);
                assert(coord_x(prefix) == x + two_pow(i as nat) * vertex(b).0);
                assert(coord_y(prefix) == y + two_pow(i as nat) * vertex(b).1);
            }
            if strict && vx == 0 {
                proof {
                    assert(first_unknown_at(chunk@, i as int));
                }
                return Err(IcgrError::UnknownNucleotide(b as char));
            }
            x = if vx == 1 {
                x + power
            } else if vx == -1 {
                x - power
            } else {
                x
            };
            y = if vy == 1 {
                y + power
            } else if vy == -1 {
                y - power
            } else {
                y
            };
            power = power * 2;
            i = i + 1;
        }
        proof {
            assert(chunk@.take(n as int) =~= chunk@);
        }
        Ok(TriIntegers { x, y, n })
    }
}

impl TriIntegersList {
    /// A list of triples.
    pub fn new(tri_integers: Vec<TriIntegers>) -> (r: TriIntegersList)
        ensures
            r@ == tri_integers@,
    {
        TriIntegersList(tri_integers)
    }

    /// The triples, in order.
    pub fn iter(&self) -> (r: std::slice::Iter<'_, TriIntegers>)
        ensures
            IteratorSpec::remaining(&r).unref() == self@,
    {
        self.0.iter()
    }

    /// The number of triples.
    pub fn len(&self) -> (r: usize)
        ensures
            r == self@.len(),
    {
        self.0.len()
    }

    /// Decodes every triple and reassembles the chunks, which overlap by
    /// `overlap` symbols, into the sequence they encode.
    pub fn to_dna(&self, overlap: u8) -> (r: Result<String, IcgrError>)
        ensures
            decodes_as(r, self@, overlap as nat),
    {
        let ghost ts = self@;
        let mut dna_chunks: Vec<Vec<u8>> = Vec::new();
        let mut total: u128 = 0;
        let mut i: usize = 0;
        while i < self.0.len()
            invariant
                ts == self@,
                0 <= i <= ts.len(),
                forall|j: int| 0 <= j < i ==> (#[trigger] ts[j]).wf(),
                views(dna_chunks@) == decoded_chunks(ts.take(i as int)),
                total == total_len(decoded_chunks(ts.take(i as int))),
                total <= MAX_DECODED_LEN * i,
            decreases ts.len() - i,
        {
            let t = self.0[i];
            if t.n < 1 || t.n > MAX_DECODED_LEN {
                proof {
                    assert(first_bad_length_at(ts, i as int));
                }
                return Err(IcgrError::InvalidBlockLength(t.n));
            }
            let chunk = tri_integers_to_dna(t);
            proof {
                let before = decoded_chunks(ts.take(i as int));
                let after = decoded_chunks(ts.take(i as int + 1));
                assert(after.drop_last() =~= before);
                assert(after.last() == chunk@);
            }
            let ghost prev = dna_chunks@;
            dna_chunks.push(chunk);
            total = total + t.n as u128;
            proof {
                let after = decoded_chunks(ts.take(i as int + 1));
                assert forall|j: int| 0 <= j < i + 1 implies views(dna_chunks@)[j] == after[j] by {
                    if j < i {
                        assert(dna_chunks@[j] == prev[j]);
                        assert(views(prev)[j] == prev[j]@);
                    }
                }
                assert(views(dna_chunks@) =~= after);
            }
            i = i + 1;
        }
        proof {
            assert(ts.take(ts.len() as int) =~= ts);
        }
        let mut refs: Vec<&[u8]> = Vec::new();
        let mut k: usize = 0;
        while k < dna_chunks.len()
            invariant
                0 <= k <= dna_chunks@.len(),
                refs@.len() == k,
                slice_views(refs@) =~= views(dna_chunks@).take(k as int),
            decreases dna_chunks@.len() - k,
        {
            let ghost prev = refs@;
            refs.push(dna_chunks[k].as_slice());
            proof {
                assert forall|j: int| 0 <= j < k + 1 implies slice_views(refs@)[j] == views(
                    dna_chunks@,
                )[j] by {
                    if j < k {
                        assert(refs@[j] == prev[j]);
                        assert(slice_views(prev)[j] == prev[j]@);
                    }
                }
                assert(slice_views(refs@) =~= views(dna_chunks@).take(k as int + 1));
            }
            k = k + 1;
        }
        proof {
            assert(views(dna_chunks@).take(dna_chunks@.len() as int) =~= views(dna_chunks@));
        }
        let merged = match merge_with_overlap(refs, overlap as usize) {
            Ok(m) => m,
            Err(e) => {
                return Err(e);
            },
        };
        let count = self.0.len() as u128;
        proof {
            lemma_joined_length(decoded_chunks(ts), overlap as nat);
        }
        let expected: u128 = if count == 0 {
            0
        } else {
            total - overlap as u128 * (count - 1)
        };
        if merged.len() as u128 != expected {
            return Err(
                IcgrError::LengthMismatch { expected: expected as usize, actual: merged.len() },
            );
        }
        let mut text: Vec<char> = Vec::new();
        let mut j: usize = 0;
        while j < merged.len()
            invariant
                0 <= j <= merged@.len(),
                text@ =~= as_text(merged@.take(j as int)),
            decreases merged@.len() - j,
        {
            text.push(merged[j] as char);
            proof {
                assert(as_text(merged@.take(j as int + 1)) =~= as_text(merged@.take(j as int)).push(
                    merged@[j as int] as char,
                ));
            }
            j = j + 1;
        }
        proof {
            assert(merged@.take(merged@.len() as int) =~= merged@);
        }
        Ok(string_from_chars(text.as_slice()))
    }
}

/// The sign of `v`, as -1, 0 or 1.
fn sign_of(v: i128) -> (r: i8)
    ensures
        r == sign(v as int),
{
    if v > 0 {
        1
    } else if v < 0 {
        -1
    } else {
        0
    }
}

/// Decodes one triple back into its chunk: from the last position down to the
/// first, the signs of the current point name the symbol, whose corner scaled
/// by `2^i` is then taken off the point.
pub fn tri_integers_to_dna(tri_integers: TriIntegers) -> (r: Vec<u8>)
    requires
        tri_integers.wf(),
    ensures
        r@ == tri_integers.decoded(),
        r@.len() == tri_integers.n,
{
    let n = tri_integers.n;
    let mut out: Vec<u8> = vec![UNKNOWN_SYMBOL; n];
    let mut a: i128 = tri_integers.x;
    let mut b: i128 = tri_integers.y;
    proof {
        lemma_two_pow_126();
    }
    let mut power: i128 = 1;
    let mut k: usize = 1;
    while k < n
        invariant
            1 <= k <= n <= MAX_DECODED_LEN,
            power == two_pow((k - 1) as nat),
            two_pow(126) == 85070591730234615865843651857942052864,
        decreases n - k,
    {
        proof {
            lemma_two_pow_monotone(k as nat, 126);
            lemma_two_pow_positive(k as nat);
            assert(two_pow(k as nat) == 2 * two_pow((k - 1) as nat));
        }
        power = power * 2;
        k = k + 1;
    }
    let mut rem: usize = n;
    proof {
        assert(out@.subrange(n as int, n as int) =~= Seq::<u8>::empty());
        assert(decoded(a as int, b as int, n as nat) + Seq::<u8>::empty() =~= decoded(
            a as int,
            b as int,
            n as nat,
        ));
    }
    while rem > 0
        invariant
            n == tri_integers.n,
            1 <= n <= MAX_DECODED_LEN,
            0 <= rem <= n,
            out@.len() == n,
            rem > 0 ==> power == two_pow((rem - 1) as nat),
            two_pow(126) == 85070591730234615865843651857942052864,
            tri_integers.decoded() =~= decoded(a as int, b as int, rem as nat) + out@.subrange(
                rem as int,
                n as int,
            ),
        decreases rem,
    {
        let pos = rem - 1;
        let sx = sign_of(a);
        let sy = sign_of(b);
        let c = nucleotide_of(sx, sy);
        let ghost before = out@;
        let ghost a0 = a as int;
        let ghost b0 = b as int;
        out.set(pos, c);
        proof {
            let p = two_pow(pos as nat);
            lemma_vertex_bijection(c, sx as int, sy as int);
            assert(out@.subrange(pos as int, n as int) =~= seq![c] + before.subrange(
                rem as int,
                n as int,
            ));
            lemma_scale(p, vertex(c).0);
            lemma_scale(p, vertex(c).1);
            assert(decoded(a0, b0, rem as nat) == decoded(
                a0 - p * vertex(c).0,
                b0 - p * vertex(c).1,
                pos as nat,
            ).push(c));
        }
        if pos > 0 {
            let (f, g) = vertex_of(c);
            proof {
                lemma_two_pow_monotone(pos as nat, 126);
                lemma_two_pow_positive((pos - 1) as nat);
            }
            a = if f == 1 {
                a - power
            } else if f == -1 {
                a + power
            } else {
                a
            };
            b = if g == 1 {
                b - power
            } else if g == -1 {
                b + power
            } else {
                b
            };
            power = power / 2;
        }
        proof {
            let p = two_pow(pos as nat);
            if pos > 0 {
                assert(two_pow(pos as nat) == 2 * two_pow((pos - 1) as nat));
                assert(a as int == a0 - p * vertex(c).0);
                assert(b as int == b0 - p * vertex(c).1);
            } else {
                assert(decoded(a as int, b as int, 0) =~= decoded(
                    a0 - p * vertex(c).0,
                    b0 - p * vertex(c).1,
                    0,
                ));
            }
            assert(decoded(a as int, b as int, pos as nat) + out@.subrange(pos as int, n as int)
                =~= decoded(a as int, b as int, pos as nat) + seq![c] + before.subrange(
                rem as int,
                n as int,
            ));
        }
        rem = pos;
    }
    proof {
        assert(out@.subrange(0, n as int) =~= out@);
    }
    out
}


/// The position of the first symbol of `s` other than `A`, `T`, `C`, `G`, if any.
fn find_unknown(s: &[u8]) -> (r: Option<usize>)
    ensures
        r is None <==> all_nucleotides(s@),
        r matches Some(i) ==> first_unknown_at(s@, i as int),
{
    let mut i: usize = 0;
    while i < s.len()
        invariant
            0 <= i <= s@.len(),
            forall|j: int| 0 <= j < i ==> is_nucleotide(#[trigger] s@[j]),
        decreases s@.len() - i,
    {
        if !is_nucleotide_byte(s[i]) {
            return Some(i);
        }
        i = i + 1;
    }
    None
}

impl TriIntegers {
    /// Encodes a whole sequence: one chunk when it fits a block of
    /// `block_length` symbols, otherwise overlapping windows of that width
    /// taken every `block_length - overlap` positions, each encoded on its own.
    pub fn from_sequence(sequence: &[u8], block_length: usize, overlap: u8, strict: bool) -> (r:
        Result<TriIntegersList, IcgrError>)
        requires
            0 < overlap < block_length <= MAX_BLOCK_WIDTH,
        ensures
            encodes_as(r, sequence@, block_length as nat, overlap as nat, strict),
    {
        let ghost s = sequence@;
        let ghost w = block_length as nat;
        let ghost o = overlap as nat;
        if strict {
            match find_unknown(sequence) {
                Some(i) => {
                    return Err(IcgrError::UnknownNucleotide(sequence[i] as char));
                },
                None => {},
            }
        }
        let mut icgrs: Vec<TriIntegers> = Vec::new();
        let chunks = str_chunks_overlap(sequence, block_length, overlap as usize);
        let mut i: usize = 0;
        while i < chunks.len()
            invariant
                s == sequence@,
                w == block_length,
                o == overlap,
                0 < o < w <= MAX_BLOCK_WIDTH,
                strict ==> all_nucleotides(s),
                views(chunks@) == window_chunks(s, w, o),
                0 <= i <= chunks@.len(),
                icgrs@.len() == i,
                forall|j: int|
                    0 <= j < i ==> encodes_chunk(#[trigger] icgrs@[j], window_chunks(s, w, o)[j]),
            decreases chunks@.len() - i,
        {
            let chunk = &chunks[i];
            proof {
                assert(views(chunks@).len() == chunks@.len());
                assert(window_chunks(s, w, o).len() == window_count(s.len(), w, o));
                assert(views(chunks@)[i as int] == chunk@);
                lemma_chunk_in_range(s, w, o, i as int);
            }
            match Self::icgr_from_chunk(chunk.as_slice(), strict) {
                Ok(t) => {
                    icgrs.push(t);
                },
                Err(e) => {
                    return Err(e);
                },
            }
            i = i + 1;
        }
        proof {
            assert(views(chunks@).len() == chunks@.len());
            lemma_encoding_lengths(s, w, o, icgrs@);
        }
        Ok(TriIntegersList(icgrs))
    }
}

/// A named sequence together with its encoding.
#[derive(Debug, Clone)]
pub struct Icgr {
    /// Sequence identifier: what precedes the first whitespace of the header.
    pub id: String,
    /// Sequence description: what follows the first whitespace, if anything.
    pub desc: Option<String>,
    /// The encoded blocks of the sequence.
    pub tri_integers: TriIntegersList,
}

impl Icgr {
    /// An encoded sequence from its parts.
    pub fn new(id: String, desc: Option<String>, tri_integers: TriIntegersList) -> (r: Icgr)
        ensures
            r.id == id,
            r.desc == desc,
            r.tri_integers == tri_integers,
    {
        Icgr { id, desc, tri_integers }
    }
}

/// Encoding of a sequence of symbols into triples.
pub trait ChaosEncoder {
    /// The symbols being encoded.
    spec fn symbols(&self) -> Seq<u8>;

    /// Encodes the symbols in blocks of `block_length` that overlap by `overlap`.
    fn encode(&self, block_length: usize, overlap: u8, strict: bool) -> (r: Result<
        TriIntegersList,
        IcgrError,
    >)
        requires
            0 < overlap < block_length <= MAX_BLOCK_WIDTH,
        ensures
            encodes_as(r, self.symbols(), block_length as nat, overlap as nat, strict),
    ;
}

/// Decoding of triples back into a sequence.
pub trait ChaosDecoder {
    /// The triples being decoded.
    spec fn triples(&self) -> Seq<TriIntegers>;

    /// Decodes the triples, whose blocks overlap by `overlap`.
    fn decode(&self, overlap: u8) -> (r: Result<String, IcgrError>)
        ensures
            decodes_as(r, self.triples(), overlap as nat),
    ;
}

impl ChaosEncoder for [u8] {
    open spec fn symbols(&self) -> Seq<u8> {
        self@
    }

    fn encode(&self, block_length: usize, overlap: u8, strict: bool) -> (r: Result<
        TriIntegersList,
        IcgrError,
    >) {
        TriIntegers::from_sequence(self, block_length, overlap, strict)
    }
}

impl ChaosDecoder for TriIntegersList {
    open spec fn triples(&self) -> Seq<TriIntegers> {
        self@
    }

    fn decode(&self, overlap: u8) -> (r: Result<String, IcgrError>) {
        self.to_dna(overlap)
    }
}

/// The chunk lengths of triples that encode `cs` add up to the lengths of `cs`.
proof fn lemma_total_n(ts: Seq<TriIntegers>, cs: Seq<Seq<u8>>)
    requires
        ts.len() == cs.len(),
        forall|i: int| 0 <= i < ts.len() ==> encodes_chunk(#[trigger] ts[i], cs[i]),
    ensures
        total_n(ts) == total_len(cs),
    decreases ts.len(),
{
    if ts.len() > 0 {
        let ts0 = ts.drop_last();
        let cs0 = cs.drop_last();
        assert forall|i: int| 0 <= i < ts0.len() implies encodes_chunk(#[trigger] ts0[i], cs0[i]) by {
            assert(ts0[i] == ts[i] && cs0[i] == cs[i]);
            assert(encodes_chunk(ts[i], cs[i]));
        }
        lemma_total_n(ts0, cs0);
        assert(encodes_chunk(ts[ts.len() - 1], cs[cs.len() - 1]));
    }
}

/// Triples that encode the chunks of `s` have lengths from 1 to `w`, which add
/// up to the length of `s` plus one overlap for each adjacent pair.
proof fn lemma_encoding_lengths(s: Seq<u8>, w: nat, o: nat, ts: Seq<TriIntegers>)
    requires
        0 < o < w,
        ts.len() == window_chunks(s, w, o).len(),
        forall|j: int| 0 <= j < ts.len() ==> encodes_chunk(#[trigger] ts[j], window_chunks(s, w, o)[j]),
    ensures
        forall|j: int| 0 <= j < ts.len() ==> 1 <= (#[trigger] ts[j]).n <= w,
        s.len() > 0 ==> total_n(ts) - o * (ts.len() - 1) == s.len(),
{
    let chunks = window_chunks(s, w, o);
    assert forall|j: int| 0 <= j < ts.len() implies 1 <= (#[trigger] ts[j]).n <= w by {
        assert(encodes_chunk(ts[j], chunks[j]));
        lemma_chunk_in_range(s, w, o, j);
    }
    if s.len() > 0 {
        lemma_windows_join(s, w, o);
        lemma_joined_length(chunks, o);
        lemma_total_n(ts, chunks);
    }
}

/// Every chunk of a sequence holds between 1 and `w` symbols of it.
proof fn lemma_chunk_in_range(s: Seq<u8>, w: nat, o: nat, i: int)
    requires
        0 < o < w,
        0 <= i < window_chunks(s, w, o).len(),
    ensures
        1 <= window_chunks(s, w, o)[i].len() <= w,
        all_nucleotides(s) ==> all_nucleotides(window_chunks(s, w, o)[i]),
{
    let c = window_chunks(s, w, o)[i];
    lemma_window_in_range(s, w, o, i);
    assert(c == window_at(s, w, o, i));
    if all_nucleotides(s) {
        assert forall|j: int| 0 <= j < c.len() implies is_nucleotide(#[trigger] c[j]) by {
            assert(c[j] == s[i * (w - o) + j]);
        }
    }
}

/// Decoding what a sequence of canonical nucleotides was encoded to gives the
/// sequence back, for every block width and overlap.
pub proof fn lemma_round_trip(
    s: Seq<u8>,
    w: nat,
    o: nat,
    strict: bool,
    encoded: Result<TriIntegersList, IcgrError>,
    text: Result<String, IcgrError>,
)
    requires
        all_nucleotides(s),
        0 < o < w <= MAX_BLOCK_WIDTH,
        encodes_as(encoded, s, w, o, strict),
        decodes_as(text, encoded->Ok_0@, o),
    ensures
        encoded is Ok,
        text matches Ok(t) && t@ == as_text(s),
{
    let l = encoded->Ok_0@;
    let chunks = window_chunks(s, w, o);
    assert forall|i: int| 0 <= i < l.len() implies (#[trigger] l[i]).wf() && l[i].decoded()
        == chunks[i] by {
        lemma_chunk_in_range(s, w, o, i);
        assert(encodes_chunk(l[i], chunks[i]));
        lemma_decoded_chunk(chunks[i]);
    }
    assert(all_wf(l));
    assert(decoded_chunks(l) =~= chunks);
    lemma_windows_join(s, w, o);
}

/// A sequence that fits one block is encoded as exactly one triple, whose
/// length is the length of the sequence.
pub proof fn lemma_single_chunk(
    s: Seq<u8>,
    w: nat,
    o: nat,
    strict: bool,
    encoded: Result<TriIntegersList, IcgrError>,
)
    requires
        1 <= s.len() <= w,
        0 < o < w,
        encoded is Ok,
        encodes_as(encoded, s, w, o, strict),
    ensures
        encoded->Ok_0@.len() == 1,
        encoded->Ok_0@[0].n == s.len(),
{
    assert(encodes_chunk(encoded->Ok_0@[0], window_chunks(s, w, o)[0]));
}

} // verus!
