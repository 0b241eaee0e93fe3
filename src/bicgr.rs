//! The block-based record format: one tab-separated line per encoded
//! sequence, `seq_id <TAB> description <TAB> overlap <TAB> tri_integers`,
//! where the triples are written `x,y,n` and joined by `;`.

use vstd::prelude::*;
use vstd::utf8::encode_utf8;

use crate::icgr::{TriIntegers, TriIntegersList};
use crate::text::{
    all_digits, char_views, chars_of, decimal, is_digit, lemma_decimal_reads_back,
    lemma_split_join, lemma_split_without_sep, lemma_trim_unchanged, parse_i128,
    parse_unsigned_at_most, push_decimal, push_signed_decimal, signed_decimal, signed_i128,
    split_chars, split_on, string_from_chars, trim, trim_chars, unsigned_at_most, unsigned_value,
};

verus! {

/// One encoded sequence.
#[derive(Debug, Clone)]
pub struct Record {
    /// Sequence identifier.
    pub seq_id: String,
    /// Free-text description, if any.
    pub desc: Option<String>,
    /// The overlap between adjacent blocks used when encoding.
    pub overlap: u8,
    /// The encoded blocks, in order.
    pub tri_integers: TriIntegersList,
}

/// Why a line is not a record.
#[derive(Debug, Clone, Copy, PartialEq, Eq)]
pub enum ParseError {
    /// The line does not have exactly four tab-separated fields.
    MalformedRecord,
    /// The identifier is empty or only whitespace.
    MissingId,
    /// The overlap is not a number from 1 to 255.
    InvalidOverlap,
    /// A triple is not `x,y,n` with integers `x`, `y` and a positive length `n`.
    MalformedTriple,
}

impl ParseError {
    /// A short description of the error.
    pub fn message(&self) -> (r: String)
        ensures
            r@ == self.spec_message(),
    {
        match self {
            ParseError::MalformedRecord => String::from_str("Error parsing record"),
            ParseError::MissingId => String::from_str("Missing sequence ID"),
            ParseError::InvalidOverlap => String::from_str("Invalid overlap"),
            ParseError::MalformedTriple => String::from_str("Invalid triplet"),
        }
    }

    /// The text of `message`.
    pub open spec fn spec_message(&self) -> Seq<char> {
        match self {
            ParseError::MalformedRecord => "Error parsing record"@,
            ParseError::MissingId => "Missing sequence ID"@,
            ParseError::InvalidOverlap => "Invalid overlap"@,
            ParseError::MalformedTriple => "Invalid triplet"@,
        }
    }
}

/// The triple `x,y,n` written in `entry`, each part trimmed: `x` and `y`
/// integers that fit 128 bits, `n` a positive length.
pub open spec fn triple_of(entry: Seq<char>) -> Option<TriIntegers> {
    let parts = split_on(entry, ',');
    if parts.len() != 3 {
        None
    } else {
        match (
            signed_i128(trim(parts[0])),
            signed_i128(trim(parts[1])),
            unsigned_at_most(trim(parts[2]), usize::MAX as nat),
        ) {
            (Some(x), Some(y), Some(n)) => if n >= 1 {
                Some(TriIntegers { x: x as i128, y: y as i128, n: n as usize })
            } else {
                None
            },
            _ => None,
        }
    }
}

/// The triples written in the `;`-separated `entries`; blank entries are skipped.
pub open spec fn triples_of(entries: Seq<Seq<char>>) -> Option<Seq<TriIntegers>>
    decreases entries.len(),
{
    if entries.len() == 0 {
        Some(Seq::empty())
    } else {
        match triples_of(entries.drop_last()) {
            Some(ts) => if trim(entries.last()).len() == 0 {
                Some(ts)
            } else {
                match triple_of(entries.last()) {
                    Some(t) => Some(ts.push(t)),
                    None => None,
                }
            },
            None => None,
        }
    }
}

/// A line without its line terminator (`\n` or `\r\n`).
pub open spec fn line_body(line: Seq<char>) -> Seq<char> {
    let a = if line.len() > 0 && line.last() == '\n' {
        line.drop_last()
    } else {
        line
    };
    if a.len() > 0 && a.last() == '\r' {
        a.drop_last()
    } else {
        a
    }
}

/// What a line holds: identifier, description (empty for none), overlap and
/// triples; or the first thing wrong with it, checked in that order.
pub open spec fn parse_record(line: Seq<char>) -> Result<
    (Seq<char>, Seq<char>, u8, Seq<TriIntegers>),
    ParseError,
> {
    let f = split_on(line_body(line), '\t');
    if f.len() != 4 {
        Err(ParseError::MalformedRecord)
    } else if trim(f[0]).len() == 0 {
        Err(ParseError::MissingId)
    } else {
        match unsigned_at_most(f[2], 255) {
            Some(v) => if v == 0 {
                Err(ParseError::InvalidOverlap)
            } else {
                match triples_of(split_on(f[3], ';')) {
                    Some(ts) => Ok((f[0], f[1], v as u8, ts)),
                    None => Err(ParseError::MalformedTriple),
                }
            },
            None => Err(ParseError::InvalidOverlap),
        }
    }
}

/// True when `rec` holds the fields `f` that a line was read as.
pub open spec fn holds_fields(
    rec: Record,
    f: (Seq<char>, Seq<char>, u8, Seq<TriIntegers>),
) -> bool {
    &&& rec.seq_id@ == f.0
    &&& f.1.len() == 0 ==> rec.desc is None
    &&& f.1.len() > 0 ==> (rec.desc matches Some(d) && d@ == f.1)
    &&& rec.overlap == f.2
    &&& rec.tri_integers@ == f.3
}

/// True when `r` is what reading `line` gives.
pub open spec fn reads_as(r: Result<Record, ParseError>, line: Seq<char>) -> bool {
    match parse_record(line) {
        Ok(f) => r matches Ok(rec) && holds_fields(rec, f),
        Err(e) => r == Err::<Record, ParseError>(e),
    }
}

/// True of the lines a record file may hold besides records: empty lines
/// anywhere, and a leading header line, which begins with `#` and is not
/// itself a record.
pub open spec fn skipped_line(line: Seq<char>, first: bool) -> bool {
    ||| line_body(line).len() == 0
    ||| first && line.len() > 0 && line[0] == '#' && parse_record(line) is Err
}

/// The records in `lines`, or the position of the first line that is neither
/// a record nor skipped, with what is wrong with it.
pub open spec fn records_of(lines: Seq<Seq<char>>) -> Result<
    Seq<(Seq<char>, Seq<char>, u8, Seq<TriIntegers>)>,
    (int, ParseError),
>
    decreases lines.len(),
{
    if lines.len() == 0 {
        Ok(Seq::empty())
    } else {
        match records_of(lines.drop_last()) {
            Ok(rs) => if skipped_line(lines.last(), lines.len() == 1) {
                Ok(rs)
            } else {
                match parse_record(lines.last()) {
                    Ok(f) => Ok(rs.push(f)),
                    Err(e) => Err((lines.len() - 1, e)),
                }
            },
            Err(e) => Err(e),
        }
    }
}

/// Once a prefix of the lines holds a bad line, so does the whole text.
proof fn lemma_records_fail_persist(lines: Seq<Seq<char>>, k: int)
    requires
        0 <= k <= lines.len(),
        records_of(lines.take(k)) is Err,
    ensures
        records_of(lines) == records_of(lines.take(k)),
    decreases lines.len() - k,
{
    if k < lines.len() {
        assert(lines.take(k + 1).drop_last() =~= lines.take(k));
        lemma_records_fail_persist(lines, k + 1);
    } else {
        assert(lines.take(k) =~= lines);
    }
}

/// The length of a line without its line terminator.
fn body_len(line: &[char]) -> (r: usize)
    ensures
        r == line_body(line@).len(),
{
    let mut end = line.len();
    if end > 0 && line[end - 1] == '\n' {
        end = end - 1;
    }
    if end > 0 && line[end - 1] == '\r' {
        end = end - 1;
    }
    end
}

/// Reads the triple `x,y,n` in `entry`.
fn parse_triple(entry: &[char]) -> (r: Option<TriIntegers>)
    ensures
        r == triple_of(entry@),
{
    let parts = split_chars(entry, ',');
    if parts.len() != 3 {
        return None;
    }
    proof {
        assert(char_views(parts@)[0] == parts@[0]@);
        assert(char_views(parts@)[1] == parts@[1]@);
        assert(char_views(parts@)[2] == parts@[2]@);
    }
    let x = parse_i128(trim_chars(parts[0].as_slice()).as_slice());
    let y = parse_i128(trim_chars(parts[1].as_slice()).as_slice());
    let n = parse_unsigned_at_most(trim_chars(parts[2].as_slice()).as_slice(), usize::MAX as u128);
    match (x, y, n) {
        (Some(x), Some(y), Some(n)) => {
            if n >= 1 {
                Some(TriIntegers { x, y, n: n as usize })
            } else {
                None
            }
        },
        _ => None,
    }
}

/// Reads the `;`-separated triples in `field`, skipping blank entries.
fn parse_triples(field: &[char]) -> (r: Option<Vec<TriIntegers>>)
    ensures
        match triples_of(split_on(field@, ';')) {
            Some(ts) => r matches Some(v) && v@ == ts,
            None => r is None,
        },
{
    let entries = split_chars(field, ';');
    let ghost all = split_on(field@, ';');
    let mut out: Vec<TriIntegers> = Vec::new();
    let mut i: usize = 0;
    proof {
        assert(all.take(0) =~= Seq::<Seq<char>>::empty());
    }
    while i < entries.len()
        invariant
            all == char_views(entries@),
            all == split_on(field@, ';'),
            0 <= i <= entries@.len(),
            triples_of(all.take(i as int)) == Some(out@),
        decreases entries@.len() - i,
    {
        let entry = entries[i].as_slice();
        let ghost next = all.take(i as int + 1);
        proof {
            assert(next.drop_last() =~= all.take(i as int));
            assert(next.last() == entry@);
        }
        let trimmed = trim_chars(entry);
        if trimmed.len() != 0 {
            match parse_triple(entry) {
                Some(t) => out.push(t),
                None => {
                    proof {
                        assert(trim(next.last()).len() != 0);
                        assert(triples_of(next) is None);
                        lemma_triples_fail_persist(all, i as int + 1);
                    }
                    return None;
                },
            }
        }
        i = i + 1;
    }
    proof {
        assert(all.take(entries@.len() as int) =~= all);
    }
    Some(out)
}

/// Once the triples of a prefix fail to read, those of the whole list do too.
proof fn lemma_triples_fail_persist(entries: Seq<Seq<char>>, k: int)
    requires
        0 <= k <= entries.len(),
        triples_of(entries.take(k)) is None,
    ensures
        triples_of(entries) is None,
    decreases entries.len() - k,
{
    if k < entries.len() {
        assert(entries.take(k + 1).drop_last() =~= entries.take(k));
        lemma_triples_fail_persist(entries, k + 1);
    } else {
        assert(entries.take(k) =~= entries);
    }
}

/// A triple as text: `x,y,n`.
pub open spec fn triple_text(t: TriIntegers) -> Seq<char> {
    signed_decimal(t.x as int) + seq![','] + signed_decimal(t.y as int) + seq![','] + decimal(
        t.n as nat,
    )
}

/// Triples as text, joined by `;`.
pub open spec fn list_text(ts: Seq<TriIntegers>) -> Seq<char>
    decreases ts.len(),
{
    if ts.len() == 0 {
        Seq::empty()
    } else if ts.len() == 1 {
        triple_text(ts[0])
    } else {
        list_text(ts.drop_last()) + seq![';'] + triple_text(ts.last())
    }
}

/// The description as written: empty when there is none.
pub open spec fn desc_text(desc: Option<String>) -> Seq<char> {
    match desc {
        Some(d) => d@,
        None => Seq::empty(),
    }
}

/// The line a record is written as, newline included.
pub open spec fn record_text(r: Record) -> Seq<char> {
    r.seq_id@ + seq!['\t'] + desc_text(r.desc) + seq!['\t'] + decimal(r.overlap as nat) + seq![
        '\t',
    ] + list_text(r.tri_integers@) + seq!['\n']
}

/// Appends `x,y,n`.
fn push_triple(out: &mut Vec<char>, t: TriIntegers)
    ensures
        final(out)@ == old(out)@ + triple_text(t),
{
    push_signed_decimal(out, t.x);
    out.push(',');
    push_signed_decimal(out, t.y);
    out.push(',');
    push_decimal(out, t.n as u128);
    proof {
        assert(final(out)@ =~= old(out)@ + triple_text(t));
    }
}

/// Appends the triples as text, joined by `;`.
fn push_triples(out: &mut Vec<char>, ts: &Vec<TriIntegers>)
    ensures
        final(out)@ == old(out)@ + list_text(ts@),
{
    let ghost start = out@;
    let mut i: usize = 0;
    proof {
        assert(ts@.take(0) =~= Seq::<TriIntegers>::empty());
        assert(out@ =~= start + list_text(ts@.take(0)));
    }
    while i < ts.len()
        invariant
            0 <= i <= ts@.len(),
            out@ == start + list_text(ts@.take(i as int)),
        decreases ts@.len() - i,
    {
        let ghost before = out@;
        if i > 0 {
            out.push(';');
        }
        push_triple(out, ts[i]);
        proof {
            let next = ts@.take(i as int + 1);
            assert(next.drop_last() =~= ts@.take(i as int));
            assert(next.last() == ts@[i as int]);
            if i == 0 {
                assert(list_text(next) == triple_text(ts@[0]));
                assert(out@ =~= start + list_text(next));
            } else {
                assert(out@ =~= start + list_text(next));
            }
        }
        i = i + 1;
    }
    proof {
        assert(ts@.take(ts@.len() as int) =~= ts@);
    }
}

/// Appends the characters of `s`.
fn push_str(out: &mut Vec<char>, s: &str)
    ensures
        final(out)@ == old(out)@ + s@,
{
    let mut cs = chars_of(s);
    out.append(&mut cs);
}

impl TriIntegers {
    /// The triple as text in brackets: `[x,y,n]`.
    pub fn to_text(&self) -> (r: String)
        ensures
            r@ == seq!['['] + triple_text(*self) + seq![']'],
    {
        let mut out: Vec<char> = Vec::new();
        out.push('[');
        push_triple(&mut out, *self);
        out.push(']');
        proof {
            assert(out@ =~= seq!['['] + triple_text(*self) + seq![']']);
        }
        string_from_chars(out.as_slice())
    }
}

impl TriIntegersList {
    /// The triples as text: `x,y,n` for each, joined by `;`.
    pub fn to_text(&self) -> (r: String)
        ensures
            r@ == list_text(self@),
    {
        let mut out: Vec<char> = Vec::new();
        push_triples(&mut out, &self.0);
        proof {
            assert(out@ =~= list_text(self@));
        }
        string_from_chars(out.as_slice())
    }
}

impl Record {
    /// A record from its four fields.
    pub fn new(seq_id: String, desc: Option<String>, overlap: u8, tri_integers: TriIntegersList) -> (r:
        Record)
        ensures
            r.seq_id == seq_id,
            r.desc == desc,
            r.overlap == overlap,
            r.tri_integers == tri_integers,
    {
        Record { seq_id, desc, overlap, tri_integers }
    }

    /// Reads a record from one line of text; a trailing `\n` or `\r\n` is
    /// ignored.
    pub fn from_line(line: &str) -> (r: Result<Record, ParseError>)
        ensures
            reads_as(r, line@),
    {
        let all = chars_of(line);
        Self::from_chars(all.as_slice())
    }

    /// Reads every record of a record file, one per line; empty lines and a
    /// leading `#` header line that is not a record are skipped. A line that is neither is reported with its
    /// number, counted from 1.
    pub fn read_all(text: &str) -> (r: Result<Vec<Record>, (usize, ParseError)>)
        ensures
            match records_of(split_on(text@, '\n')) {
                Ok(rs) => r matches Ok(v) && v@.len() == rs.len() && forall|i: int|
                    0 <= i < rs.len() ==> holds_fields(#[trigger] v@[i], rs[i]),
                Err((i, e)) => r matches Err(p) && p.0 == i + 1 && p.1 == e,
            },
    {
        let all = chars_of(text);
        let lines = split_chars(all.as_slice(), '\n');
        let ghost ls = split_on(text@, '\n');
        let mut records: Vec<Record> = Vec::new();
        let mut i: usize = 0;
        proof {
            assert(ls.take(0) =~= Seq::<Seq<char>>::empty());
        }
        while i < lines.len()
            invariant
                ls == char_views(lines@),
                ls == split_on(text@, '\n'),
                0 <= i <= lines@.len(),
                records_of(ls.take(i as int)) matches Ok(rs) && records@.len() == rs.len()
                    && forall|j: int| 0 <= j < rs.len() ==> holds_fields(#[trigger] records@[j], rs[j]),
            decreases lines@.len() - i,
        {
            let line = lines[i].as_slice();
            let ghost next = ls.take(i as int + 1);
            let ghost rs = records_of(ls.take(i as int))->Ok_0;
            proof {
                assert(next.drop_last() =~= ls.take(i as int));
                assert(next.last() == line@);
            }
            if body_len(line) != 0 {
                match Self::from_chars(line) {
                    Ok(rec) => {
                        records.push(rec);
                        proof {
                            assert(records_of(next) == Ok::<_, (int, ParseError)>(rs.push(parse_record(line@)->Ok_0)));
                        }
                    },
                    Err(e) => {
                        if !(i == 0 && line.len() > 0 && line[0] == '#') {
                            proof {
                                assert(records_of(next) == Err::<Seq<(Seq<char>, Seq<char>, u8, Seq<TriIntegers>)>, (int, ParseError)>((i as int, e)));
                                lemma_records_fail_persist(ls, i as int + 1);
                            }
                            return Err((i + 1, e));
                        }
                    },
                }
            }
            i = i + 1;
        }
        proof {
            assert(ls.take(lines@.len() as int) =~= ls);
        }
        Ok(records)
    }

    /// Reads a record from the characters of one line.
    fn from_chars(all: &[char]) -> (r: Result<Record, ParseError>)
        ensures
            reads_as(r, all@),
    {
        let mut end = all.len();
        if end > 0 && all[end - 1] == '\n' {
            end = end - 1;
        }
        if end > 0 && all[end - 1] == '\r' {
            end = end - 1;
        }
        let body = &all[0..end];
        proof {
            assert(body@ =~= line_body(all@));
        }
        let fields = split_chars(body, '\t');
        if fields.len() != 4 {
            return Err(ParseError::MalformedRecord);
        }
        proof {
            assert(char_views(fields@)[0] == fields@[0]@);
            assert(char_views(fields@)[1] == fields@[1]@);
            assert(char_views(fields@)[2] == fields@[2]@);
            assert(char_views(fields@)[3] == fields@[3]@);
        }
        if trim_chars(fields[0].as_slice()).len() == 0 {
            return Err(ParseError::MissingId);
        }
        let overlap = match parse_unsigned_at_most(fields[2].as_slice(), 255) {
            Some(v) => {
                if v == 0 {
                    return Err(ParseError::InvalidOverlap);
                }
                v as u8
            },
            None => {
                return Err(ParseError::InvalidOverlap);
            },
        };
        let triples = match parse_triples(fields[3].as_slice()) {
            Some(v) => v,
            None => {
                return Err(ParseError::MalformedTriple);
            },
        };
        let seq_id = string_from_chars(fields[0].as_slice());
        let desc = if fields[1].len() == 0 {
            None
        } else {
            Some(string_from_chars(fields[1].as_slice()))
        };
        Ok(Record { seq_id, desc, overlap, tri_integers: TriIntegersList(triples) })
    }

    /// The record as one line of text, newline included.
    pub fn to_line(&self) -> (r: String)
        ensures
            r@ == record_text(*self),
    {
        let mut out: Vec<char> = Vec::new();
        push_str(&mut out, self.seq_id.as_str());
        out.push('\t');
        match &self.desc {
            Some(d) => push_str(&mut out, d.as_str()),
            None => {},
        }
        out.push('\t');
        push_decimal(&mut out, self.overlap as u128);
        out.push('\t');
        push_triples(&mut out, &self.tri_integers.0);
        out.push('\n');
        proof {
            assert(out@ =~= record_text(*self));
        }
        string_from_chars(out.as_slice())
    }

    /// Appends the record's line, encoded as UTF-8, to `writer`.
    pub fn write_all(&self, writer: &mut Vec<u8>)
        ensures
            final(writer)@ == old(writer)@ + encode_utf8(record_text(*self)),
    {
        let line = self.to_line();
        let bytes = line.as_str().as_bytes();
        let mut i: usize = 0;
        let ghost start = writer@;
        while i < bytes.len()
            invariant
                0 <= i <= bytes@.len(),
                writer@ == start + bytes@.take(i as int),
            decreases bytes@.len() - i,
        {
            writer.push(bytes[i]);
            proof {
                assert(bytes@.take(i as int + 1) =~= bytes@.take(i as int).push(bytes@[i as int]));
            }
            i = i + 1;
        }
        proof {
            assert(bytes@.take(bytes@.len() as int) =~= bytes@);
        }
    }
}

/// True of the characters numbers and triples are written with: digits,
/// `-`, `,` and `;`.
pub open spec fn number_char(c: char) -> bool {
    is_digit(c) || c == '-' || c == ',' || c == ';'
}

/// True when every character of `cs` is a `number_char`.
pub open spec fn number_text(cs: Seq<char>) -> bool {
    forall|i: int| 0 <= i < cs.len() ==> number_char(#[trigger] cs[i])
}

/// A 128-bit integer written in decimal reads back as itself.
proof fn lemma_signed_reads_back(x: i128)
    ensures
        signed_decimal(x as int).len() >= 1,
        signed_decimal(x as int).last() != '-',
        forall|i: int|
            0 <= i < signed_decimal(x as int).len() ==> #[trigger] signed_decimal(x as int)[i]
                == '-' || is_digit(signed_decimal(x as int)[i]),
        signed_i128(signed_decimal(x as int)) == Some(x as int),
{
    let sd = signed_decimal(x as int);
    if x < 0 {
        let d = decimal((-x) as nat);
        lemma_decimal_reads_back((-x) as nat);
        assert(sd.drop_first() =~= d);
        assert(sd.last() == d.last());
        assert(is_digit(d[d.len() - 1]));
        assert forall|i: int| 0 <= i < sd.len() implies #[trigger] sd[i] == '-' || is_digit(sd[i]) by {
            if i > 0 {
                assert(sd[i] == d[i - 1]);
            }
        }
    } else {
        lemma_decimal_reads_back(x as nat);
        assert(is_digit(sd[0]));
        assert(is_digit(sd[sd.len() - 1]));
        assert(sd[0] != '+' && sd[0] != '-');
        assert(unsigned_value(sd) == Some(x as nat));
    }
}

/// A triple written as `x,y,n` reads back as itself.
proof fn lemma_triple_reads_back(t: TriIntegers)
    requires
        t.n >= 1,
    ensures
        triple_of(triple_text(t)) == Some(t),
        triple_text(t).len() > 0,
        number_text(triple_text(t)),
        is_digit(triple_text(t).last()),
        forall|i: int| 0 <= i < triple_text(t).len() ==> #[trigger] triple_text(t)[i] != ';',
{
    let sx = signed_decimal(t.x as int);
    let sy = signed_decimal(t.y as int);
    let dn = decimal(t.n as nat);
    let text = triple_text(t);
    lemma_signed_reads_back(t.x);
    lemma_signed_reads_back(t.y);
    lemma_decimal_reads_back(t.n as nat);
    assert(forall|i: int| 0 <= i < sx.len() ==> #[trigger] sx[i] != ',' && sx[i] != ';');
    assert(forall|i: int| 0 <= i < sy.len() ==> #[trigger] sy[i] != ',' && sy[i] != ';');
    assert(forall|i: int| 0 <= i < dn.len() ==> #[trigger] dn[i] != ',' && dn[i] != ';' && is_digit(dn[i]));
    lemma_split_without_sep(sx, ',');
    lemma_split_without_sep(sy, ',');
    lemma_split_without_sep(dn, ',');
    lemma_split_join(sx, sy, ',');
    lemma_split_join(sx + seq![','] + sy, dn, ',');
    assert(split_on(text, ',') =~= seq![sx, sy, dn]);
    lemma_trim_unchanged(sx);
    lemma_trim_unchanged(sy);
    lemma_trim_unchanged(dn);
    assert(dn[0] != '+');
    assert(unsigned_value(dn) == Some(t.n as nat));
    assert(text.last() == dn.last());
    assert forall|i: int| 0 <= i < text.len() implies number_char(#[trigger] text[i]) && text[i]
        != ';' by {
        if i < sx.len() {
            assert(text[i] == sx[i]);
        } else if i == sx.len() {
        } else if i < sx.len() + 1 + sy.len() {
            assert(text[i] == sy[i - sx.len() - 1]);
        } else if i == sx.len() + 1 + sy.len() {
        } else {
            assert(text[i] == dn[i - sx.len() - 2 - sy.len()]);
        }
    }
}

/// The triples of a list, each as text.
pub open spec fn triple_texts(ts: Seq<TriIntegers>) -> Seq<Seq<char>> {
    ts.map_values(|t: TriIntegers| triple_text(t))
}

/// Triples written as text and joined by `;` read back as themselves.
proof fn lemma_list_reads_back(ts: Seq<TriIntegers>)
    requires
        forall|i: int| 0 <= i < ts.len() ==> (#[trigger] ts[i]).n >= 1,
    ensures
        triples_of(split_on(list_text(ts), ';')) == Some(ts),
        number_text(list_text(ts)),
        ts.len() > 0 ==> is_digit(list_text(ts).last()),
        ts.len() > 0 ==> split_on(list_text(ts), ';') == triple_texts(ts),
    decreases ts.len(),
{
    if ts.len() == 0 {
        let entries = split_on(list_text(ts), ';');
        assert(entries =~= seq![Seq::<char>::empty()]);
        assert(entries.drop_last() =~= Seq::<Seq<char>>::empty());
        lemma_trim_unchanged(Seq::<char>::empty());
        assert(entries.last() =~= Seq::<char>::empty());
        assert(trim(entries.last()).len() == 0);
        assert(triples_of(entries.drop_last()) == Some(Seq::<TriIntegers>::empty()));
        assert(ts =~= Seq::<TriIntegers>::empty());
        assert(triples_of(entries) == Some(ts));
    } else {
        let rest = ts.drop_last();
        let t = ts.last();
        assert(forall|i: int| 0 <= i < rest.len() ==> (#[trigger] rest[i]).n >= 1) by {
            assert forall|i: int| 0 <= i < rest.len() implies (#[trigger] rest[i]).n >= 1 by {
                assert(rest[i] == ts[i]);
            }
        }
        assert(ts[ts.len() - 1].n >= 1);
        lemma_triple_reads_back(t);
        lemma_list_reads_back(rest);
        let tt = triple_text(t);
        lemma_split_without_sep(tt, ';');
        lemma_trim_unchanged(tt);
        if rest.len() == 0 {
            assert(split_on(list_text(ts), ';') =~= triple_texts(ts));
        } else {
            lemma_split_join(list_text(rest), tt, ';');
            assert(split_on(list_text(ts), ';') =~= triple_texts(ts));
            let lt = list_text(ts);
            assert forall|i: int| 0 <= i < lt.len() implies number_char(#[trigger] lt[i]) by {
                let lr = list_text(rest);
                if i < lr.len() {
                    assert(lt[i] == lr[i]);
                } else if i > lr.len() {
                    assert(lt[i] == tt[i - lr.len() - 1]);
                }
            }
        }
        let entries = triple_texts(ts);
        assert(entries.drop_last() =~= triple_texts(rest));
        assert(entries.last() == tt);
        if rest.len() == 0 {
            assert(triple_texts(rest) =~= Seq::<Seq<char>>::empty());
        }
        assert(triples_of(entries.drop_last()) == Some(rest));
        assert(trim(entries.last()).len() > 0);
        assert(triple_of(entries.last()) == Some(t));
        assert(rest.push(t) =~= ts);
        assert(triples_of(entries) == Some(ts));
    }
}

/// True when `cs` holds neither a tab nor a line break, so it can stand as
/// one field of a record line.
pub open spec fn plain_field(cs: Seq<char>) -> bool {
    forall|i: int| 0 <= i < cs.len() ==> #[trigger] cs[i] != '\t' && cs[i] != '\n'
}

/// A record written as a line reads back with the same fields, provided its
/// identifier is not blank, its identifier and description hold no tab or
/// line break, its overlap is positive and every triple has a positive
/// length. A description that is present but empty reads back as absent.
pub proof fn lemma_record_reads_back(rec: Record)
    requires
        trim(rec.seq_id@).len() > 0,
        plain_field(rec.seq_id@),
        plain_field(desc_text(rec.desc)),
        rec.overlap >= 1,
        forall|i: int|
            0 <= i < rec.tri_integers@.len() ==> (#[trigger] rec.tri_integers@[i]).n >= 1,
    ensures
        parse_record(record_text(rec)) == Ok::<_, ParseError>(
            (rec.seq_id@, desc_text(rec.desc), rec.overlap, rec.tri_integers@),
        ),
{
    let id = rec.seq_id@;
    let d = desc_text(rec.desc);
    let ov = decimal(rec.overlap as nat);
    let ts = rec.tri_integers@;
    let lt = list_text(ts);
    lemma_list_reads_back(ts);
    lemma_decimal_reads_back(rec.overlap as nat);
    let body = id + seq!['\t'] + d + seq!['\t'] + ov + seq!['\t'] + lt;
    let text = record_text(rec);
    assert(text =~= body.push('\n'));
    assert(text.drop_last() =~= body);
    if lt.len() > 0 {
        assert(body.last() == lt.last());
    } else {
        assert(body.last() == '\t');
    }
    assert(line_body(text) == body);
    assert(forall|i: int| 0 <= i < ov.len() ==> #[trigger] ov[i] != '\t' && is_digit(ov[i]));
    assert(forall|i: int| 0 <= i < lt.len() ==> #[trigger] lt[i] != '\t') by {
        assert forall|i: int| 0 <= i < lt.len() implies #[trigger] lt[i] != '\t' by {
            assert(number_char(lt[i]));
        }
    }
    lemma_split_without_sep(id, '\t');
    lemma_split_without_sep(d, '\t');
    lemma_split_without_sep(ov, '\t');
    lemma_split_without_sep(lt, '\t');
    lemma_split_join(id, d, '\t');
    lemma_split_join(id + seq!['\t'] + d, ov, '\t');
    lemma_split_join(id + seq!['\t'] + d + seq!['\t'] + ov, lt, '\t');
    assert(split_on(body, '\t') =~= seq![id, d, ov, lt]);
    assert(ov[0] != '+');
    assert(unsigned_value(ov) == Some(rec.overlap as nat));
}

/// The line of a record, without its newline, holds no line break.
proof fn lemma_record_body_one_line(rec: Record)
    requires
        plain_field(rec.seq_id@),
        plain_field(desc_text(rec.desc)),
        forall|i: int|
            0 <= i < rec.tri_integers@.len() ==> (#[trigger] rec.tri_integers@[i]).n >= 1,
    ensures
        record_text(rec) == record_text(rec).drop_last().push('\n'),
        forall|i: int|
            0 <= i < record_text(rec).len() - 1 ==> #[trigger] record_text(rec)[i] != '\n',
        record_text(rec).len() > 1,
{
    let id = rec.seq_id@;
    let d = desc_text(rec.desc);
    let ov = decimal(rec.overlap as nat);
    let lt = list_text(rec.tri_integers@);
    lemma_list_reads_back(rec.tri_integers@);
    lemma_decimal_reads_back(rec.overlap as nat);
    let body = id + seq!['\t'] + d + seq!['\t'] + ov + seq!['\t'] + lt;
    let text = record_text(rec);
    assert(text =~= body.push('\n'));
    assert forall|i: int| 0 <= i < body.len() implies #[trigger] body[i] != '\n' by {
        let a = id.len();
        let b = a + 1 + d.len();
        let c = b + 1 + ov.len();
        if i < a {
            assert(body[i] == id[i]);
        } else if i == a {
        } else if i < b {
            assert(body[i] == d[i - a - 1]);
        } else if i == b {
        } else if i < c {
            assert(body[i] == ov[i - b - 1]);
            assert(is_digit(ov[i - b - 1]));
        } else if i == c {
        } else {
            assert(body[i] == lt[i - c - 1]);
            assert(number_char(lt[i - c - 1]));
        }
    }
    assert(text.drop_last() =~= body);
    assert forall|i: int| 0 <= i < text.len() - 1 implies #[trigger] text[i] != '\n' by {
        assert(text[i] == body[i]);
    }
}

/// A record line read as a record file gives exactly that one record, under
/// the conditions of `lemma_record_reads_back`; an identifier that begins
/// with `#` is no exception.
pub proof fn lemma_record_file_reads_back(rec: Record)
    requires
        trim(rec.seq_id@).len() > 0,
        plain_field(rec.seq_id@),
        plain_field(desc_text(rec.desc)),
        rec.overlap >= 1,
        forall|i: int|
            0 <= i < rec.tri_integers@.len() ==> (#[trigger] rec.tri_integers@[i]).n >= 1,
    ensures
        records_of(split_on(record_text(rec), '\n')) == Ok::<_, (int, ParseError)>(
            seq![(rec.seq_id@, desc_text(rec.desc), rec.overlap, rec.tri_integers@)],
        ),
{
    let f = (rec.seq_id@, desc_text(rec.desc), rec.overlap, rec.tri_integers@);
    let text = record_text(rec);
    lemma_record_reads_back(rec);
    lemma_record_body_one_line(rec);
    let body = text.drop_last();
    assert forall|i: int| 0 <= i < body.len() implies #[trigger] body[i] != '\n' by {
        assert(body[i] == text[i]);
    }
    lemma_split_without_sep(body, '\n');
    lemma_split_join(body, Seq::<char>::empty(), '\n');
    assert(body + seq!['\n'] + Seq::<char>::empty() =~= text);
    let lines = split_on(text, '\n');
    assert(split_on(Seq::<char>::empty(), '\n') =~= seq![Seq::<char>::empty()]);
    assert(lines =~= seq![body, Seq::<char>::empty()]);
    assert(body[body.len() - 1] != '\n');
    assert(line_body(text) == body);
    assert(line_body(body) == body) by {
        if body.last() == '\r' {
            assert(line_body(text) == body.drop_last());
        }
    }
    assert(parse_record(body) == Ok::<_, ParseError>(f));
    let first = lines.drop_last();
    assert(first =~= seq![body]);
    assert(first.drop_last() =~= Seq::<Seq<char>>::empty());
    assert(!skipped_line(body, true));
    assert(first.last() == body);
    assert(records_of(first.drop_last()) == Ok::<_, (int, ParseError)>(
        Seq::<(Seq<char>, Seq<char>, u8, Seq<TriIntegers>)>::empty(),
    ));
    assert(Seq::<(Seq<char>, Seq<char>, u8, Seq<TriIntegers>)>::empty().push(f) =~= seq![f]);
    assert(records_of(first) == Ok::<_, (int, ParseError)>(seq![f]));
    assert(line_body(Seq::<char>::empty()).len() == 0);
    assert(lines.last() == Seq::<char>::empty());
    assert(records_of(lines) == Ok::<_, (int, ParseError)>(seq![f]));
}

} // verus!
