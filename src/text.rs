//! Characters and numbers in text: decimal digits, whitespace, trimming and
//! splitting on a separator.

use vstd::prelude::*;

verus! {

/// Relies on `String`'s `FromIterator<char>`: the string holds the given
/// characters in order.
#[verifier::external_body]
pub(crate) fn string_from_chars(cs: &[char]) -> (r: String)
    ensures
        r@ == cs@,
{
    cs.iter().collect()
}

/// Relies on `str::chars`: the characters of the string, in order.
#[verifier::external_body]
pub(crate) fn chars_of(s: &str) -> (r: Vec<char>)
    ensures
        r@ == s@,
{
    s.chars().collect()
}

/// The decimal digit character for `d` (0 to 9).
pub open spec fn digit_char(d: int) -> char {
    ((48 + d) as u8) as char
}

/// True of the characters `0` to `9`.
pub open spec fn is_digit(c: char) -> bool {
    48 <= c as u32 <= 57
}

/// The value of a digit character.
pub open spec fn digit_value(c: char) -> nat {
    (c as u32 - 48) as nat
}

/// The decimal digits of `v`, most significant first, without leading zeros.
pub open spec fn decimal(v: nat) -> Seq<char>
    decreases v,
{
    if v < 10 {
        seq![digit_char(v as int)]
    } else {
        decimal(v / 10).push(digit_char((v % 10) as int))
    }
}

/// `v` in decimal, with a leading `-` when it is negative.
pub open spec fn signed_decimal(v: int) -> Seq<char> {
    if v < 0 {
        seq!['-'] + decimal((-v) as nat)
    } else {
        decimal(v as nat)
    }
}

/// True when every character of `cs` is a decimal digit.
pub open spec fn all_digits(cs: Seq<char>) -> bool {
    forall|i: int| 0 <= i < cs.len() ==> is_digit(#[trigger] cs[i])
}

/// The number the digits `cs` spell.
pub open spec fn digits_value(cs: Seq<char>) -> nat
    decreases cs.len(),
{
    if cs.len() == 0 {
        0
    } else {
        digits_value(cs.drop_last()) * 10 + digit_value(cs.last())
    }
}

/// The digits of an unsigned number: `cs` without a leading `+`.
pub open spec fn unsigned_digits(cs: Seq<char>) -> Seq<char> {
    if cs.len() > 0 && cs[0] == '+' {
        cs.drop_first()
    } else {
        cs
    }
}

/// The unsigned number `cs` spells: an optional `+` and at least one digit.
pub open spec fn unsigned_value(cs: Seq<char>) -> Option<nat> {
    let body = unsigned_digits(cs);
    if body.len() > 0 && all_digits(body) {
        Some(digits_value(body))
    } else {
        None
    }
}

/// The signed number `cs` spells: an optional `+` or `-` and at least one digit.
pub open spec fn signed_value(cs: Seq<char>) -> Option<int> {
    if cs.len() > 0 && cs[0] == '-' {
        let body = cs.drop_first();
        if body.len() > 0 && all_digits(body) {
            Some(-digits_value(body))
        } else {
            None
        }
    } else {
        match unsigned_value(cs) {
            Some(v) => Some(v as int),
            None => None,
        }
    }
}

/// The unsigned number `cs` spells, when it is at most `max`.
pub open spec fn unsigned_at_most(cs: Seq<char>, max: nat) -> Option<nat> {
    match unsigned_value(cs) {
        Some(v) => if v <= max {
            Some(v)
        } else {
            None
        },
        None => None,
    }
}

/// The signed number `cs` spells, when it fits 128 bits.
pub open spec fn signed_i128(cs: Seq<char>) -> Option<int> {
    match signed_value(cs) {
        Some(v) => if i128::MIN <= v <= i128::MAX {
            Some(v)
        } else {
            None
        },
        None => None,
    }
}

/// Appends the decimal digits of `v`.
pub fn push_decimal(out: &mut Vec<char>, v: u128)
    ensures
        final(out)@ == old(out)@ + decimal(v as nat),
    decreases v,
{
    if v >= 10 {
        push_decimal(out, v / 10);
    }
    let d = (v % 10) as u8;
    out.push((48u8 + d) as char);
    proof {
        if v >= 10 {
            assert(old(out)@ + decimal((v / 10) as nat) + seq![digit_char((v % 10) as int)]
                =~= old(out)@ + decimal(v as nat));
        } else {
            assert(old(out)@ + seq![digit_char(v as int)] =~= old(out)@ + decimal(v as nat));
        }
    }
}

/// Appends `v` in decimal, with a leading `-` when it is negative.
pub fn push_signed_decimal(out: &mut Vec<char>, v: i128)
    ensures
        final(out)@ == old(out)@ + signed_decimal(v as int),
{
    if v < 0 {
        out.push('-');
        let magnitude: u128 = (-(v + 1)) as u128 + 1;
        push_decimal(out, magnitude);
        proof {
            assert(old(out)@.push('-') + decimal(magnitude as nat) =~= old(out)@ + (seq!['-']
                + decimal(magnitude as nat)));
        }
    } else {
        push_decimal(out, v as u128);
    }
}

/// Digits never lose value as more follow them.
proof fn lemma_digits_value_grows(cs: Seq<char>, i: int)
    requires
        0 <= i <= cs.len(),
    ensures
        digits_value(cs.take(i)) <= digits_value(cs),
    decreases cs.len() - i,
{
    if i < cs.len() {
        lemma_digits_value_grows(cs, i + 1);
        assert(cs.take(i + 1).drop_last() =~= cs.take(i));
    } else {
        assert(cs.take(i) =~= cs);
    }
}

/// Reads the digits `cs[start..]` as a number, when they are all digits, there
/// is at least one, and the number is at most `max`.
fn digits_at_most(cs: &[char], start: usize, max: u128) -> (r: Option<u128>)
    requires
        start <= cs@.len(),
    ensures
        r == (if cs@.len() > start && all_digits(cs@.skip(start as int)) && digits_value(
            cs@.skip(start as int),
        ) <= max {
            Some(digits_value(cs@.skip(start as int)) as u128)
        } else {
            None::<u128>
        }),
{
    let ghost body = cs@.skip(start as int);
    if cs.len() == start {
        return None;
    }
    let mut acc: u128 = 0;
    let mut i: usize = start;
    proof {
        assert(body.take(0) =~= Seq::<char>::empty());
    }
    while i < cs.len()
        invariant
            body == cs@.skip(start as int),
            start <= i <= cs@.len(),
            all_digits(body.take(i - start)),
            acc == digits_value(body.take(i - start)),
            acc <= max,
        decreases cs@.len() - i,
    {
        let c = cs[i];
        let code = c as u32;
        if code < 48 || code > 57 {
            proof {
                assert(body[i - start] == c);
            }
            return None;
        }
        let d = (code - 48) as u128;
        let ghost next = body.take(i - start + 1);
        proof {
            assert(next.drop_last() =~= body.take(i - start));
            assert(next.last() == c);
            assert(digits_value(next) == acc * 10 + d);
        }
        if d > max || acc > (max - d) / 10 {
            proof {
                assert(all_digits(body) ==> digits_value(next) > max) by (nonlinear_arith)
                    requires
                        digits_value(next) == acc * 10 + d,
                        d > max || acc > (max - d) / 10,
                        d <= max ==> max - d >= 0,
                ;
                lemma_digits_value_grows(body, i - start + 1);
            }
            return None;
        }
        proof {
            assert(acc * 10 + d <= max) by (nonlinear_arith)
                requires
                    d <= max,
                    acc <= (max - d) / 10,
            ;
            assert(all_digits(next)) by {
                assert forall|j: int| 0 <= j < next.len() implies is_digit(#[trigger] next[j]) by {
                    if j < next.len() - 1 {
                        assert(next[j] == body.take(i - start)[j]);
                    }
                }
            }
        }
        acc = acc * 10 + d;
        i = i + 1;
    }
    proof {
        assert(body.take(i - start) =~= body);
    }
    Some(acc)
}

/// Reads an unsigned number (an optional `+`, then digits) that is at most `max`.
pub fn parse_unsigned_at_most(cs: &[char], max: u128) -> (r: Option<u128>)
    ensures
        match unsigned_at_most(cs@, max as nat) {
            Some(v) => r == Some(v as u128),
            None => r is None,
        },
{
    let start: usize = if cs.len() > 0 && cs[0] == '+' {
        1
    } else {
        0
    };
    proof {
        assert(unsigned_digits(cs@) =~= cs@.skip(start as int));
    }
    digits_at_most(cs, start, max)
}

/// Reads a signed number (an optional `+` or `-`, then digits) that fits 128 bits.
pub fn parse_i128(cs: &[char]) -> (r: Option<i128>)
    ensures
        match signed_i128(cs@) {
            Some(v) => r == Some(v as i128),
            None => r is None,
        },
{
    if cs.len() > 0 && cs[0] == '-' {
        proof {
            assert(cs@.drop_first() =~= cs@.skip(1));
        }
        match digits_at_most(cs, 1, 0x8000_0000_0000_0000_0000_0000_0000_0000u128) {
            Some(m) => {
                if m == 0x8000_0000_0000_0000_0000_0000_0000_0000u128 {
                    Some(i128::MIN)
                } else {
                    Some(-(m as i128))
                }
            },
            None => None,
        }
    } else {
        match parse_unsigned_at_most(cs, i128::MAX as u128) {
            Some(m) => Some(m as i128),
            None => None,
        }
    }
}

/// True of the characters with the Unicode `White_Space` property.
pub open spec fn is_white_space(c: char) -> bool {
    let u = c as u32;
    ||| 9 <= u <= 13
    ||| u == 32
    ||| u == 0x85
    ||| u == 0xA0
    ||| u == 0x1680
    ||| 0x2000 <= u <= 0x200A
    ||| u == 0x2028
    ||| u == 0x2029
    ||| u == 0x202F
    ||| u == 0x205F
    ||| u == 0x3000
}

/// How many whitespace characters `cs` begins with.
pub open spec fn leading_white(cs: Seq<char>) -> nat
    decreases cs.len(),
{
    if cs.len() > 0 && is_white_space(cs[0]) {
        1 + leading_white(cs.drop_first())
    } else {
        0
    }
}

/// How many whitespace characters `cs` ends with.
pub open spec fn trailing_white(cs: Seq<char>) -> nat
    decreases cs.len(),
{
    if cs.len() > 0 && is_white_space(cs.last()) {
        1 + trailing_white(cs.drop_last())
    } else {
        0
    }
}

/// `cs` without its leading and trailing whitespace.
pub open spec fn trim(cs: Seq<char>) -> Seq<char> {
    let t = cs.skip(leading_white(cs) as int);
    t.take(t.len() - trailing_white(t))
}

/// The pieces of `cs` between occurrences of `sep`; there is always at least one.
pub open spec fn split_on(cs: Seq<char>, sep: char) -> Seq<Seq<char>>
    decreases cs.len(),
{
    if cs.len() == 0 {
        seq![Seq::empty()]
    } else {
        let prev = split_on(cs.drop_last(), sep);
        if cs.last() == sep {
            prev.push(Seq::empty())
        } else {
            prev.update(prev.len() - 1, prev.last().push(cs.last()))
        }
    }
}

/// The contents of a list of character vectors.
pub open spec fn char_views(v: Seq<Vec<char>>) -> Seq<Seq<char>> {
    v.map_values(|c: Vec<char>| c@)
}

/// The decimal digits of `v` are digits, at least one, and spell `v`.
pub proof fn lemma_decimal_reads_back(v: nat)
    ensures
        decimal(v).len() >= 1,
        all_digits(decimal(v)),
        digits_value(decimal(v)) == v,
    decreases v,
{
    if v < 10 {
        let d = decimal(v);
        assert(d.drop_last() =~= Seq::<char>::empty());
        assert(digit_char(v as int) as u32 == 48 + v);
        assert(d.last() == digit_char(v as int));
        assert(digit_value(d.last()) == v);
        assert(digits_value(d) == digits_value(d.drop_last()) * 10 + digit_value(d.last()));
    } else {
        lemma_decimal_reads_back(v / 10);
        let d = decimal(v);
        let c = digit_char((v % 10) as int);
        assert(c as u32 == 48 + v % 10);
        assert(d.drop_last() =~= decimal(v / 10));
        assert(d.last() == c);
        assert(digit_value(c) == v % 10);
        assert(digits_value(d) == digits_value(d.drop_last()) * 10 + digit_value(d.last()));
        assert(v == (v / 10) * 10 + v % 10);
        assert forall|i: int| 0 <= i < d.len() implies is_digit(#[trigger] d[i]) by {
            if i < d.len() - 1 {
                assert(d[i] == decimal(v / 10)[i]);
            }
        }
    }
}

/// The pieces of a text are never fewer than one.
pub proof fn lemma_split_nonempty(cs: Seq<char>, sep: char)
    ensures
        split_on(cs, sep).len() >= 1,
    decreases cs.len(),
{
    if cs.len() > 0 {
        lemma_split_nonempty(cs.drop_last(), sep);
    }
}

/// A text without the separator is a single piece.
pub proof fn lemma_split_without_sep(cs: Seq<char>, sep: char)
    requires
        forall|i: int| 0 <= i < cs.len() ==> cs[i] != sep,
    ensures
        split_on(cs, sep) == seq![cs],
    decreases cs.len(),
{
    if cs.len() > 0 {
        let rest = cs.drop_last();
        assert forall|i: int| 0 <= i < rest.len() implies rest[i] != sep by {
            assert(rest[i] == cs[i]);
        }
        lemma_split_without_sep(rest, sep);
        assert(cs.last() != sep);
        assert(rest.push(cs.last()) =~= cs);
        assert(split_on(cs, sep) =~= seq![cs]);
    } else {
        assert(cs =~= Seq::<char>::empty());
        assert(split_on(cs, sep) =~= seq![cs]);
    }
}

/// Splitting `a`, a separator, then `b` gives the pieces of `a` followed by
/// the pieces of `b`.
pub proof fn lemma_split_join(a: Seq<char>, b: Seq<char>, sep: char)
    ensures
        split_on(a + seq![sep] + b, sep) == split_on(a, sep) + split_on(b, sep),
    decreases b.len(),
{
    let whole = a + seq![sep] + b;
    if b.len() == 0 {
        assert(whole.drop_last() =~= a);
        assert(split_on(b, sep) =~= seq![Seq::<char>::empty()]);
        assert(split_on(whole, sep) =~= split_on(a, sep) + split_on(b, sep));
    } else {
        let b0 = b.drop_last();
        lemma_split_join(a, b0, sep);
        lemma_split_nonempty(b0, sep);
        lemma_split_nonempty(a, sep);
        assert(whole.drop_last() =~= a + seq![sep] + b0);
        assert(whole.last() == b.last());
        assert(split_on(whole, sep) =~= split_on(a, sep) + split_on(b, sep));
    }
}

/// Trimming leaves alone a text that neither begins nor ends with whitespace.
pub proof fn lemma_trim_unchanged(cs: Seq<char>)
    requires
        cs.len() > 0 ==> !is_white_space(cs[0]) && !is_white_space(cs.last()),
    ensures
        trim(cs) == cs,
{
    assert(leading_white(cs) == 0);
    assert(cs.skip(0) =~= cs);
    assert(trailing_white(cs) == 0);
    assert(cs.take(cs.len() as int) =~= cs);
}

/// Whether `c` has the Unicode `White_Space` property.
pub fn white_space(c: char) -> (r: bool)
    ensures
        r == is_white_space(c),
{
    let u = c as u32;
    (9 <= u && u <= 13) || u == 32 || u == 0x85 || u == 0xA0 || u == 0x1680 || (0x2000 <= u && u
        <= 0x200A) || u == 0x2028 || u == 0x2029 || u == 0x202F || u == 0x205F || u == 0x3000
}

proof fn lemma_leading_white_step(cs: Seq<char>, i: int)
    requires
        0 <= i < cs.len(),
        forall|j: int| 0 <= j < i ==> is_white_space(#[trigger] cs[j]),
    ensures
        leading_white(cs) == i + leading_white(cs.skip(i)),
    decreases i,
{
    if i > 0 {
        assert(is_white_space(cs[0]));
        let rest = cs.drop_first();
        assert forall|j: int| 0 <= j < i - 1 implies is_white_space(#[trigger] rest[j]) by {
            assert(rest[j] == cs[j + 1]);
        }
        lemma_leading_white_step(rest, i - 1);
        assert(rest.skip(i - 1) =~= cs.skip(i));
    } else {
        assert(cs.skip(0) =~= cs);
    }
}

proof fn lemma_trailing_white_step(cs: Seq<char>, k: int)
    requires
        0 <= k <= cs.len(),
        forall|j: int| k <= j < cs.len() ==> is_white_space(#[trigger] cs[j]),
    ensures
        trailing_white(cs) == (cs.len() - k) + trailing_white(cs.take(k)),
    decreases cs.len() - k,
{
    if k < cs.len() {
        assert(is_white_space(cs.last()));
        let rest = cs.drop_last();
        assert forall|j: int| k <= j < rest.len() implies is_white_space(#[trigger] rest[j]) by {
            assert(rest[j] == cs[j]);
        }
        lemma_trailing_white_step(rest, k);
        assert(rest.take(k) =~= cs.take(k));
    } else {
        assert(cs.take(k) =~= cs);
    }
}

/// `cs` without its leading and trailing whitespace.
pub fn trim_chars(cs: &[char]) -> (r: Vec<char>)
    ensures
        r@ == trim(cs@),
{
    let n = cs.len();
    let mut lo: usize = 0;
    while lo < n && white_space(cs[lo])
        invariant
            n == cs@.len(),
            0 <= lo <= n,
            forall|j: int| 0 <= j < lo ==> is_white_space(#[trigger] cs@[j]),
        decreases n - lo,
    {
        lo = lo + 1;
    }
    let ghost t = cs@.skip(lo as int);
    proof {
        if lo < n {
            lemma_leading_white_step(cs@, lo as int);
            assert(!is_white_space(cs@.skip(lo as int)[0]));
        } else {
            assert(leading_white(cs@) == n) by {
                if n > 0 {
                    lemma_leading_white_step(cs@, n - 1);
                    let last = cs@.skip(n - 1);
                    assert(last[0] == cs@[n - 1]);
                    assert(is_white_space(last[0]));
                    assert(last.drop_first().len() == 0);
                    assert(leading_white(last.drop_first()) == 0);
                    assert(leading_white(last) == 1);
                }
            }
        }
        assert(leading_white(cs@) == lo);
    }
    let mut hi: usize = n;
    while hi > lo && white_space(cs[hi - 1])
        invariant
            n == cs@.len(),
            0 <= lo <= hi <= n,
            t == cs@.skip(lo as int),
            forall|j: int| hi <= j < n ==> is_white_space(#[trigger] cs@[j]),
        decreases hi,
    {
        hi = hi - 1;
    }
    proof {
        assert forall|j: int| hi - lo <= j < t.len() implies is_white_space(#[trigger] t[j]) by {
            assert(t[j] == cs@[j + lo]);
        }
        lemma_trailing_white_step(t, hi - lo);
        if hi > lo {
            assert(t.take(hi - lo).last() == cs@[hi - 1]);
        }
        assert(trailing_white(t) == n - hi);
    }
    let mut out: Vec<char> = Vec::new();
    let mut i: usize = lo;
    while i < hi
        invariant
            lo <= i <= hi <= n,
            n == cs@.len(),
            out@ =~= cs@.subrange(lo as int, i as int),
        decreases hi - i,
    {
        out.push(cs[i]);
        i = i + 1;
    }
    proof {
        assert(out@ =~= t.take(t.len() - trailing_white(t)));
    }
    out
}

/// Splits `cs` at every occurrence of `sep`.
pub fn split_chars(cs: &[char], sep: char) -> (r: Vec<Vec<char>>)
    ensures
        char_views(r@) == split_on(cs@, sep),
{
    let mut fields: Vec<Vec<char>> = Vec::new();
    let mut current: Vec<char> = Vec::new();
    let mut i: usize = 0;
    proof {
        assert(cs@.take(0) =~= Seq::<char>::empty());
        assert(char_views(fields@).push(current@) =~= seq![Seq::<char>::empty()]);
    }
    while i < cs.len()
        invariant
            0 <= i <= cs@.len(),
            split_on(cs@.take(i as int), sep) =~= char_views(fields@).push(current@),
        decreases cs@.len() - i,
    {
        let c = cs[i];
        let ghost prev = char_views(fields@).push(current@);
        proof {
            assert(cs@.take(i as int + 1).drop_last() =~= cs@.take(i as int));
            assert(cs@.take(i as int + 1).last() == c);
        }
        if c == sep {
            let done = current;
            fields.push(done);
            current = Vec::new();
            proof {
                assert(char_views(fields@).push(current@) =~= prev.push(Seq::empty()));
            }
        } else {
            current.push(c);
            proof {
                assert(char_views(fields@).push(current@) =~= prev.update(
                    prev.len() - 1,
                    prev.last().push(c),
                ));
            }
        }
        i = i + 1;
    }
    fields.push(current);
    proof {
        assert(cs@.take(cs@.len() as int) =~= cs@);
        assert(char_views(fields@) =~= split_on(cs@, sep));
    }
    fields
}

} // verus!
