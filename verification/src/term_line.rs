//! The line format of the sequence file: `<index> <term>`, two decimal
//! numbers separated by white space, one term per line.

use vstd::prelude::*;

verus! {

/// The Unicode `White_Space` property, which `char::is_whitespace`, and so
/// `str::trim_end` and `str::split_whitespace`, go by.
pub open spec fn is_white_space(c: char) -> bool {
    let u = c as u32;
    ||| 9 <= u <= 13
    ||| u == 32
    ||| u == 0x85
    ||| u == 0xa0
    ||| u == 0x1680
    ||| 0x2000 <= u <= 0x200a
    ||| u == 0x2028
    ||| u == 0x2029
    ||| u == 0x202f
    ||| u == 0x205f
    ||| u == 0x3000
}

/// An ASCII decimal digit.
pub open spec fn is_digit(c: char) -> bool {
    48 <= (c as u32) <= 57
}

/// The value of an ASCII decimal digit.
pub open spec fn digit_value(c: char) -> int {
    (c as u32) - 48
}

/// The longest prefix of `s` without white space.
pub open spec fn leading_token(s: Seq<char>) -> Seq<char>
    decreases s.len(),
{
    if s.len() == 0 || is_white_space(s[0]) {
        Seq::empty()
    } else {
        seq![s[0]] + leading_token(s.drop_first())
    }
}

/// A leading token is no longer than its text, and not empty when the text
/// starts with a character that is not white space.
pub proof fn lemma_leading_token_len(s: Seq<char>)
    ensures
        leading_token(s).len() <= s.len(),
        s.len() > 0 && !is_white_space(s[0]) ==> leading_token(s).len() >= 1,
    decreases s.len(),
{
    if s.len() > 0 && !is_white_space(s[0]) {
        lemma_leading_token_len(s.drop_first());
    }
}

/// The maximal runs of non-white-space characters of `s`, in order: what
/// `str::split_whitespace` yields.
pub open spec fn split_white_space(s: Seq<char>) -> Seq<Seq<char>>
    decreases s.len(),
{
    if s.len() == 0 {
        Seq::empty()
    } else if is_white_space(s[0]) {
        split_white_space(s.drop_first())
    } else {
        let t = leading_token(s);
        proof {
            lemma_leading_token_len(s);
        }
        seq![t] + split_white_space(s.skip(t.len() as int))
    }
}

/// Every character of `d` is an ASCII decimal digit.
pub open spec fn all_digits(d: Seq<char>) -> bool {
    forall|i: int| 0 <= i < d.len() ==> #[trigger] is_digit(d[i])
}

/// The value of the decimal digits `d`, most significant first.
pub open spec fn digits_value(d: Seq<char>) -> int
    decreases d.len(),
{
    if d.len() == 0 {
        0
    } else {
        digits_value(d.drop_last()) * 10 + digit_value(d.last())
    }
}

/// The digits of a number token: one leading `+` is allowed before at least
/// one more character.
pub open spec fn unsigned_digits(t: Seq<char>) -> Seq<char> {
    if t.len() >= 2 && t[0] == '+' {
        t.drop_first()
    } else {
        t
    }
}

/// What `str::parse::<usize>` gives for the token `t`: its value when it is
/// an optional `+` followed by at least one ASCII digit and the value fits in
/// a `usize`; nothing otherwise.
pub open spec fn parse_usize(t: Seq<char>) -> Option<int> {
    let d = unsigned_digits(t);
    if d.len() > 0 && all_digits(d) && digits_value(d) <= usize::MAX {
        Some(digits_value(d))
    } else {
        None
    }
}

/// The `(index, term)` pair that a line of the sequence file holds: exactly
/// two white-space separated tokens, each a `usize`. Leading and trailing
/// white space, the line's end among it, is ignored.
pub open spec fn parse_term_line_spec(line: Seq<char>) -> Option<(int, int)> {
    let tokens = split_white_space(line);
    if tokens.len() == 2 && parse_usize(tokens[0]) is Some && parse_usize(tokens[1]) is Some {
        Some((parse_usize(tokens[0]).unwrap(), parse_usize(tokens[1]).unwrap()))
    } else {
        None
    }
}

proof fn lemma_token_at(s: Seq<char>, i: int, j: int)
    requires
        0 <= i <= j <= s.len(),
        forall|k: int| i <= k < j ==> !#[trigger] is_white_space(s[k]),
        j == s.len() || is_white_space(s[j]),
    ensures
        leading_token(s.skip(i)) == s.subrange(i, j),
    decreases j - i,
{
    if i < j {
        lemma_token_at(s, i + 1, j);
        assert(s.skip(i).drop_first() =~= s.skip(i + 1));
        assert(s.subrange(i, j) =~= seq![s[i]] + s.subrange(i + 1, j));
    } else {
        assert(s.subrange(i, j) =~= Seq::<char>::empty());
    }
}

proof fn lemma_split_skip_white_space(s: Seq<char>, i: int, j: int)
    requires
        0 <= i <= j <= s.len(),
        forall|k: int| i <= k < j ==> #[trigger] is_white_space(s[k]),
    ensures
        split_white_space(s.skip(i)) == split_white_space(s.skip(j)),
    decreases j - i,
{
    if i < j {
        lemma_split_skip_white_space(s, i + 1, j);
        assert(s.skip(i).drop_first() =~= s.skip(i + 1));
    }
}

proof fn lemma_split_token(s: Seq<char>, i: int, j: int)
    requires
        0 <= i < j <= s.len(),
        forall|k: int| i <= k < j ==> !#[trigger] is_white_space(s[k]),
        j == s.len() || is_white_space(s[j]),
    ensures
        split_white_space(s.skip(i)) == seq![s.subrange(i, j)] + split_white_space(s.skip(j)),
{
    lemma_token_at(s, i, j);
    assert(s.skip(i).skip(j - i) =~= s.skip(j));
}

proof fn lemma_split_end(s: Seq<char>)
    ensures
        split_white_space(s.skip(s.len() as int)) == Seq::<Seq<char>>::empty(),
{
    assert(s.skip(s.len() as int) =~= Seq::<char>::empty());
}

proof fn lemma_split_nonempty(s: Seq<char>, i: int)
    requires
        0 <= i < s.len(),
        !is_white_space(s[i]),
    ensures
        split_white_space(s.skip(i)).len() >= 1,
{
}

/// Whether `c` is white space in Unicode's sense.
pub fn is_white_space_char(c: char) -> (r: bool)
    ensures
        r == is_white_space(c),
{
    let u = c as u32;
    (9 <= u && u <= 13) || u == 32 || u == 0x85 || u == 0xa0 || u == 0x1680 || (0x2000 <= u && u
        <= 0x200a) || u == 0x2028 || u == 0x2029 || u == 0x202f || u == 0x205f || u == 0x3000
}

/// The first position at or after `start` that is not white space.
fn skip_white_space(line: &[char], start: usize) -> (end: usize)
    requires
        start <= line.len(),
    ensures
        start <= end <= line.len(),
        forall|k: int| start <= k < end ==> #[trigger] is_white_space(line@[k]),
        end == line.len() || !is_white_space(line@[end as int]),
{
    let mut i = start;
    while i < line.len() && is_white_space_char(line[i])
        invariant
            start <= i <= line.len(),
            forall|k: int| start <= k < i ==> #[trigger] is_white_space(line@[k]),
        decreases line.len() - i,
    {
        i = i + 1;
    }
    i
}

/// The first position at or after `start` that is white space, or the end.
fn token_end(line: &[char], start: usize) -> (end: usize)
    requires
        start <= line.len(),
    ensures
        start <= end <= line.len(),
        forall|k: int| start <= k < end ==> !#[trigger] is_white_space(line@[k]),
        end == line.len() || is_white_space(line@[end as int]),
{
    let mut i = start;
    while i < line.len() && !is_white_space_char(line[i])
        invariant
            start <= i <= line.len(),
            forall|k: int| start <= k < i ==> !#[trigger] is_white_space(line@[k]),
        decreases line.len() - i,
    {
        i = i + 1;
    }
    i
}

proof fn lemma_digits_value_nonneg(d: Seq<char>)
    requires
        all_digits(d),
    ensures
        digits_value(d) >= 0,
    decreases d.len(),
{
    if d.len() > 0 {
        assert(all_digits(d.drop_last())) by {
            assert forall|i: int| 0 <= i < d.drop_last().len() implies #[trigger] is_digit(
                d.drop_last()[i],
            ) by {
                assert(is_digit(d[i]));
            }
        }
        lemma_digits_value_nonneg(d.drop_last());
        assert(is_digit(d[d.len() - 1]));
    }
}

proof fn lemma_digits_value_prefix(d: Seq<char>, k: int)
    requires
        all_digits(d),
        0 <= k <= d.len(),
    ensures
        digits_value(d.take(k)) <= digits_value(d),
    decreases d.len() - k,
{
    if k < d.len() {
        lemma_digits_value_prefix(d, k + 1);
        let p = d.take(k + 1);
        assert(p.drop_last() =~= d.take(k));
        assert(all_digits(d.take(k))) by {
            assert forall|i: int| 0 <= i < d.take(k).len() implies #[trigger] is_digit(
                d.take(k)[i],
            ) by {
                assert(is_digit(d[i]));
            }
        }
        lemma_digits_value_nonneg(d.take(k));
        assert(is_digit(d[k]));
    } else {
        assert(d.take(k) =~= d);
    }
}

/// Parses the token `line[start..end]` as `str::parse::<usize>` does.
fn parse_decimal(line: &[char], start: usize, end: usize) -> (r: Option<usize>)
    requires
        start <= end <= line.len(),
    ensures
        match r {
            Some(v) => parse_usize(line@.subrange(start as int, end as int)) == Some(v as int),
            None => parse_usize(line@.subrange(start as int, end as int)) is None,
        },
{
    let ghost t = line@.subrange(start as int, end as int);
    let mut i = start;
    if end - start >= 2 && line[start] == '+' {
        i = start + 1;
    }
    let ghost d = unsigned_digits(t);
    proof {
        assert(d =~= line@.subrange(i as int, end as int));
    }
    if i == end {
        return None;
    }
    let ghost first = i;
    let mut v: usize = 0;
    proof {
        assert(d.take(0) =~= Seq::<char>::empty());
    }
    while i < end
        invariant
            first <= i <= end <= line.len(),
            d == line@.subrange(first as int, end as int),
            t == line@.subrange(start as int, end as int),
            d == unsigned_digits(t),
            d.len() > 0,
            forall|k: int| 0 <= k < i - first ==> #[trigger] is_digit(d[k]),
            v == digits_value(d.take(i - first)),
        decreases end - i,
    {
        let c = line[i];
        let u = c as u32;
        assert(d[i - first] == c);
        if u < 48 || u > 57 {
            assert(!is_digit(d[i - first]));
            return None;
        }
        let digit = (u - 48) as usize;
        proof {
            assert(d.take(i - first + 1).drop_last() =~= d.take(i - first));
        }
        match v.checked_mul(10) {
            None => {
                proof {
                    if all_digits(d) {
                        lemma_digits_value_nonneg(d.take(i - first));
                        lemma_digits_value_prefix(d, i - first + 1);
                    }
                }
                return None;
            },
            Some(w) => match w.checked_add(digit) {
                None => {
                    proof {
                        if all_digits(d) {
                            lemma_digits_value_prefix(d, i - first + 1);
                        }
                    }
                    return None;
                },
                Some(z) => {
                    v = z;
                },
            },
        }
        i = i + 1;
    }
    proof {
        assert(d.take(d.len() as int) =~= d);
    }
    Some(v)
}

/// The `(index, term)` pair on one line of the sequence file, or nothing
/// when the line does not hold exactly two white-space separated tokens that
/// both parse as a `usize`.
pub fn parse_term_line(line: &[char]) -> (r: Option<(usize, usize)>)
    ensures
        match r {
            Some((n, x)) => parse_term_line_spec(line@) == Some((n as int, x as int)),
            None => parse_term_line_spec(line@) is None,
        },
{
    let ghost s = line@;
    proof {
        assert(s.skip(0) =~= s);
    }
    let s1 = skip_white_space(line, 0);
    let e1 = token_end(line, s1);
    proof {
        lemma_split_skip_white_space(s, 0, s1 as int);
    }
    if s1 == e1 {
        proof {
            lemma_split_end(s);
        }
        return None;
    }
    let s2 = skip_white_space(line, e1);
    let e2 = token_end(line, s2);
    proof {
        lemma_split_token(s, s1 as int, e1 as int);
        lemma_split_skip_white_space(s, e1 as int, s2 as int);
    }
    if s2 == e2 {
        proof {
            lemma_split_end(s);
        }
        return None;
    }
    let s3 = skip_white_space(line, e2);
    proof {
        lemma_split_token(s, s2 as int, e2 as int);
        lemma_split_skip_white_space(s, e2 as int, s3 as int);
    }
    if s3 != line.len() {
        proof {
            lemma_split_nonempty(s, s3 as int);
        }
        return None;
    }
    proof {
        lemma_split_end(s);
        let tokens = split_white_space(s);
        assert(tokens =~= seq![s.subrange(s1 as int, e1 as int), s.subrange(s2 as int, e2 as int)]);
    }
    let n = match parse_decimal(line, s1, e1) {
        Some(n) => n,
        None => {
            return None;
        },
    };
    let x = match parse_decimal(line, s2, e2) {
        Some(x) => x,
        None => {
            return None;
        },
    };
    Some((n, x))
}

/// The ASCII digit of `v`, for `0 <= v < 10`.
pub open spec fn digit_char(v: int) -> char {
    (v + 48) as char
}

/// The decimal representation of `v`, without leading zeros: what `Display`
/// writes for an unsigned integer.
pub open spec fn decimal(v: nat) -> Seq<char>
    decreases v,
{
    if v < 10 {
        seq![digit_char(v as int)]
    } else {
        decimal(v / 10).push(digit_char((v % 10) as int))
    }
}

/// The line that records the term `x` of index `n`: `"{n} {x}\n"`.
pub open spec fn term_line_text(n: nat, x: nat) -> Seq<char> {
    decimal(n) + seq![' '] + decimal(x) + seq!['\n']
}

proof fn lemma_decimal_digits(v: nat)
    ensures
        decimal(v).len() >= 1,
        all_digits(decimal(v)),
        digits_value(decimal(v)) == v,
    decreases v,
{
    if v < 10 {
        assert(decimal(v).drop_last() =~= Seq::<char>::empty());
        assert((digit_char(v as int) as u32) == v + 48);
        assert(digit_value(digit_char(v as int)) == v);
        assert(digits_value(Seq::<char>::empty()) == 0);
        assert(decimal(v).last() == digit_char(v as int));
    } else {
        assert((digit_char((v % 10) as int) as u32) == v % 10 + 48);
        lemma_decimal_digits(v / 10);
        let d = decimal(v);
        assert(d.drop_last() =~= decimal(v / 10));
        assert(d.last() == digit_char((v % 10) as int));
        assert(digits_value(d) == digits_value(decimal(v / 10)) * 10 + (v % 10));
        assert forall|i: int| 0 <= i < d.len() implies #[trigger] is_digit(d[i]) by {
            if i < d.len() - 1 {
                assert(d[i] == decimal(v / 10)[i]);
            }
        }
    }
}

/// Parsing a line written for the term `x` of index `n` gives back `(n, x)`:
/// what the generator appends to the sequence file is loaded again.
pub proof fn lemma_term_line_roundtrip(n: nat, x: nat)
    requires
        n <= usize::MAX,
        x <= usize::MAX,
    ensures
        parse_term_line_spec(term_line_text(n, x)) == Some((n as int, x as int)),
{
    let line = term_line_text(n, x);
    let dn = decimal(n);
    let dx = decimal(x);
    let a = dn.len() as int;
    let b = dx.len() as int;
    lemma_decimal_digits(n);
    lemma_decimal_digits(x);
    assert(line.len() == a + b + 2);
    assert forall|k: int| 0 <= k < a implies !#[trigger] is_white_space(line[k]) by {
        assert(line[k] == dn[k]);
        assert(is_digit(dn[k]));
    }
    assert forall|k: int| a + 1 <= k < a + 1 + b implies !#[trigger] is_white_space(line[k]) by {
        assert(line[k] == dx[k - a - 1]);
        assert(is_digit(dx[k - a - 1]));
    }
    assert(line[a] == ' ');
    assert(line[a + 1 + b] == '\n');
    assert(line.skip(0) =~= line);
    lemma_split_token(line, 0, a);
    lemma_split_skip_white_space(line, a, a + 1);
    lemma_split_token(line, a + 1, a + 1 + b);
    lemma_split_skip_white_space(line, a + 1 + b, a + 2 + b);
    lemma_split_end(line);
    assert(line.subrange(0, a) =~= dn);
    assert(line.subrange(a + 1, a + 1 + b) =~= dx);
    let tokens = split_white_space(line);
    assert(tokens =~= seq![dn, dx]);
    assert(is_digit(dn[0]));
    assert(is_digit(dx[0]));
    assert(unsigned_digits(dn) == dn);
    assert(unsigned_digits(dx) == dx);
}

/// Appends the decimal representation of `v`.
fn push_decimal(out: &mut Vec<char>, v: usize)
    ensures
        final(out)@ == old(out)@ + decimal(v as nat),
    decreases v,
{
    if v >= 10 {
        push_decimal(out, v / 10);
    }
    let d = (v % 10) as u8;
    out.push((d + 48) as char);
    proof {
        assert(out@ =~= old(out)@ + decimal(v as nat));
    }
}

/// The line that records the term `x` of index `n` in the sequence file.
pub fn format_term_line(n: usize, x: usize) -> (line: Vec<char>)
    ensures
        line@ == term_line_text(n as nat, x as nat),
{
    let mut line: Vec<char> = Vec::new();
    push_decimal(&mut line, n);
    line.push(' ');
    push_decimal(&mut line, x);
    line.push('\n');
    proof {
        assert(line@ =~= term_line_text(n as nat, x as nat));
    }
    line
}

} // verus!
