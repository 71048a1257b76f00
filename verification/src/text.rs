use vstd::prelude::*;
use vstd::string::StrSliceExecFns;
use vstd::string::StringExecFns;

use crate::error::ParseGraphError;

verus! {

/// The whitespace that separates tokens on a TGF line.
pub open spec fn is_ws(c: char) -> bool {
    c == ' ' || c == '\t'
}

/// Whether `c` is a decimal digit.
pub open spec fn is_digit(c: char) -> bool {
    '0' <= c && c <= '9'
}

/// The numeric value of a decimal digit.
pub open spec fn digit_val(c: char) -> nat {
    (c as nat - '0' as nat) as nat
}

/// The decimal digit character of a value below ten.
pub open spec fn digit_char(d: nat) -> char {
    if d == 0 {
        '0'
    } else if d == 1 {
        '1'
    } else if d == 2 {
        '2'
    } else if d == 3 {
        '3'
    } else if d == 4 {
        '4'
    } else if d == 5 {
        '5'
    } else if d == 6 {
        '6'
    } else if d == 7 {
        '7'
    } else if d == 8 {
        '8'
    } else {
        '9'
    }
}

/// The decimal rendering of a number, most significant digit first.
pub open spec fn dec_digits(n: nat) -> Seq<char>
    decreases n,
{
    if n < 10 {
        seq![digit_char(n)]
    } else {
        dec_digits(n / 10).push(digit_char(n % 10))
    }
}

/// One or more decimal digits.
pub open spec fn is_digit_seq(d: Seq<char>) -> bool {
    d.len() > 0 && (forall|i: int| 0 <= i < d.len() ==> is_digit(#[trigger] d[i]))
}

/// Whether a token is a non-negative decimal integer: an optional leading
/// plus sign, then one or more digits.
pub open spec fn is_uint_token(t: Seq<char>) -> bool {
    if t.len() > 0 && t[0] == '+' {
        is_digit_seq(t.drop_first())
    } else {
        is_digit_seq(t)
    }
}

/// The value of a digit string, most significant digit first.
pub open spec fn digits_val(d: Seq<char>) -> nat
    decreases d.len(),
{
    if d.len() == 0 {
        0
    } else {
        digits_val(d.drop_last()) * 10 + digit_val(d.last())
    }
}

/// The value of a non-negative decimal integer token.
pub open spec fn uint_val(t: Seq<char>) -> nat {
    if t.len() > 0 && t[0] == '+' {
        digits_val(t.drop_first())
    } else {
        digits_val(t)
    }
}

/// Renders one decimal digit.
fn digit_str(d: u64) -> (r: &'static str)
    requires
        d < 10,
    ensures
        r@ == seq![digit_char(d as nat)],
{
    proof {
        reveal_strlit("0");
        reveal_strlit("1");
        reveal_strlit("2");
        reveal_strlit("3");
        reveal_strlit("4");
        reveal_strlit("5");
        reveal_strlit("6");
        reveal_strlit("7");
        reveal_strlit("8");
        reveal_strlit("9");
    }
    if d == 0 {
        "0"
    } else if d == 1 {
        "1"
    } else if d == 2 {
        "2"
    } else if d == 3 {
        "3"
    } else if d == 4 {
        "4"
    } else if d == 5 {
        "5"
    } else if d == 6 {
        "6"
    } else if d == 7 {
        "7"
    } else if d == 8 {
        "8"
    } else {
        "9"
    }
}

/// Renders a number in decimal.
pub fn dec_string(n: usize) -> (r: String)
    ensures
        r@ == dec_digits(n as nat),
    decreases n,
{
    if n < 10 {
        String::from_str(digit_str(n as u64))
    } else {
        let mut s = dec_string(n / 10);
        s.append(digit_str((n % 10) as u64));
        s
    }
}

/// Parses a whole string as a non-negative integer index. Fails with
/// [`ParseGraphError::ParseInt`] carrying the given line number when the
/// string is not a decimal integer or does not fit in `usize`.
pub fn parse_index(s: &str, line: usize) -> (r: Result<usize, ParseGraphError>)
    ensures
        match r {
            Ok(v) => is_uint_token(s@) && uint_val(s@) == v,
            Err(e) => e == ParseGraphError::ParseInt(line) && (is_uint_token(s@) ==> uint_val(s@)
                > usize::MAX),
        },
{
    let n = s.unicode_len();
    if n == 0 {
        return Err(ParseGraphError::ParseInt(line));
    }
    let first = s.get_char(0);
    let start: usize = if first == '+' {
        1
    } else {
        0
    };
    if n == start {
        return Err(ParseGraphError::ParseInt(line));
    }
    let ghost d = if s@[0] == '+' {
        s@.drop_first()
    } else {
        s@
    };
    let mut acc: usize = 0;
    let mut i: usize = start;
    while i < n
        invariant
            start <= i <= n,
            n == s@.len(),
            start == 1 ==> s@[0] == '+',
            start == 0 ==> (n > 0 && s@[0] != '+'),
            d == (if s@[0] == '+' {
                s@.drop_first()
            } else {
                s@
            }),
            d.len() == n - start,
            forall|j: int| 0 <= j < i - start ==> is_digit(#[trigger] d[j]),
            acc == digits_val(d.subrange(0, i - start)),
        decreases n - i,
    {
        let c = s.get_char(i);
        proof {
            assert(d[i - start] == s@[i as int]);
        }
        if !('0' <= c && c <= '9') {
            proof {
                if is_uint_token(s@) {
                    assert(is_digit_seq(d));
                    assert(is_digit(d[i - start]));
                }
            }
            return Err(ParseGraphError::ParseInt(line));
        }
        let dv: usize = (c as usize) - ('0' as usize);
        proof {
            assert(dv == digit_val(c));
            assert(dv < 10);
        }
        if acc > (usize::MAX - dv) / 10 {
            proof {
                assert(acc * 10 + dv > usize::MAX) by (nonlinear_arith)
                    requires
                        acc > (usize::MAX - dv) / 10,
                        dv < 10,
                ;
                lemma_digits_val_prefix_monotonic(d, i - start + 1);
                assert(d.subrange(0, i - start + 1).drop_last() =~= d.subrange(0, i - start));
                assert(d.subrange(0, i - start + 1).last() == d[i - start]);
                if is_uint_token(s@) {
                    assert(uint_val(s@) == digits_val(d));
                }
            }
            return Err(ParseGraphError::ParseInt(line));
        }
        proof {
            assert(acc * 10 + dv <= usize::MAX) by (nonlinear_arith)
                requires
                    acc <= (usize::MAX - dv) / 10,
                    dv < 10,
            ;
        }
        acc = acc * 10 + dv;
        i = i + 1;
        proof {
            assert(d.subrange(0, i - start).drop_last() =~= d.subrange(0, i - start - 1));
            assert(d.subrange(0, i - start).last() == d[i - start - 1]);
        }
    }
    proof {
        assert(d.subrange(0, n - start) =~= d);
        assert(is_digit_seq(d));
    }
    Ok(acc)
}

/// The value of a digit string grows with every digit appended.
pub proof fn lemma_digits_val_prefix_monotonic(d: Seq<char>, k: int)
    requires
        0 < k <= d.len(),
    ensures
        digits_val(d.subrange(0, k)) <= digits_val(d),
    decreases d.len() - k,
{
    if k == d.len() {
        assert(d.subrange(0, k) =~= d);
    } else {
        lemma_digits_val_prefix_monotonic(d, k + 1);
        assert(d.subrange(0, k + 1).drop_last() =~= d.subrange(0, k));
    }
}

/// Decimal rendering is faithful: the digits of `n` are digits and read
/// back as `n`.
pub proof fn lemma_dec_digits_value(n: nat)
    ensures
        is_digit_seq(dec_digits(n)),
        digits_val(dec_digits(n)) == n,
        dec_digits(n).len() > 0,
    decreases n,
{
    if n < 10 {
        assert(digit_val(digit_char(n)) == n);
        assert(dec_digits(n).drop_last() =~= Seq::<char>::empty());
        assert(digits_val(Seq::<char>::empty()) == 0);
        assert(dec_digits(n).last() == digit_char(n));
    } else {
        lemma_dec_digits_value(n / 10);
        let d = dec_digits(n / 10);
        let full = dec_digits(n);
        assert(full == d.push(digit_char(n % 10)));
        assert(full.drop_last() =~= d);
        assert(digit_val(digit_char(n % 10)) == n % 10);
        assert(digits_val(full) == digits_val(d) * 10 + n % 10);
        assert((n / 10) * 10 + n % 10 == n) by (nonlinear_arith);
        assert forall|i: int| 0 <= i < full.len() implies is_digit(#[trigger] full[i]) by {
            if i < d.len() {
                assert(full[i] == d[i]);
            }
        }
    }
}

/// If every position from `from` up to `m` is whitespace and `m` is the
/// end or not whitespace, `m` is where the whitespace run ends.
pub proof fn lemma_skip_ws_found(line: Seq<char>, from: int, m: int)
    requires
        0 <= from <= m <= line.len(),
        forall|j: int| from <= j < m ==> is_ws(#[trigger] line[j]),
        m < line.len() ==> !is_ws(line[m]),
    ensures
        skip_ws(line, from) == m,
{
    lemma_skip_ws(line, from);
    let r = skip_ws(line, from);
    if r < m {
        assert(is_ws(line[r]));
    }
    if m < r {
        assert(is_ws(line[m]));
    }
}

/// If no position from `from` up to `m` is whitespace and `m` is the end
/// or whitespace, `m` is where the token ends.
pub proof fn lemma_token_end_found(line: Seq<char>, from: int, m: int)
    requires
        0 <= from <= m <= line.len(),
        forall|j: int| from <= j < m ==> !is_ws(#[trigger] line[j]),
        m < line.len() ==> is_ws(line[m]),
    ensures
        token_end(line, from) == m,
{
    lemma_token_end(line, from);
    let r = token_end(line, from);
    if r < m {
        assert(!is_ws(line[r]));
    }
    if m < r {
        assert(!is_ws(line[m]));
    }
}

/// Parses a whole string as a label. For textual labels this always
/// succeeds with the string itself; [`ParseGraphError::ParseLabel`] is
/// this library's diagnostic for label types that can fail, and is never
/// produced here.
pub fn parse_label(s: &str, line: usize) -> (r: Result<String, ParseGraphError>)
    ensures
        r matches Ok(v) && v@ == s@,
{
    let _ = line;
    Ok(s.to_owned())
}

/// The position of the first newline at or after the start; the length
/// when there is none.
pub open spec fn first_nl(s: Seq<char>) -> int
    decreases s.len(),
{
    if s.len() == 0 {
        0
    } else if s[0] == '\n' {
        0
    } else {
        1 + first_nl(s.drop_first())
    }
}

pub proof fn lemma_first_nl(s: Seq<char>)
    ensures
        0 <= first_nl(s) <= s.len(),
        first_nl(s) < s.len() ==> s[first_nl(s)] == '\n',
        forall|j: int| 0 <= j < first_nl(s) ==> s[j] != '\n',
    decreases s.len(),
{
    if s.len() == 0 {
    } else if s[0] == '\n' {
    } else {
        lemma_first_nl(s.drop_first());
        let sub = s.drop_first();
        assert forall|j: int| 0 <= j < first_nl(s) implies s[j] != '\n' by {
            if j > 0 {
                assert(sub[j - 1] == s[j]);
            }
        }
    }
}

/// If position `m` holds a newline and no earlier position does, `m` is
/// the first newline.
pub proof fn lemma_first_nl_found(s: Seq<char>, m: int)
    requires
        0 <= m <= s.len(),
        m < s.len() ==> s[m] == '\n',
        m == s.len() ==> (forall|j: int| 0 <= j < s.len() ==> s[j] != '\n'),
        forall|j: int| 0 <= j < m ==> s[j] != '\n',
    ensures
        first_nl(s) == m,
{
    lemma_first_nl(s);
    let r = first_nl(s);
    if r < m {
        assert(s[r] != '\n');
    }
    if m < r {
        assert(s[m] != '\n');
    }
}

/// One line with its terminator dropped: a carriage return just before
/// the newline is dropped with it.
pub open spec fn strip_cr(line: Seq<char>) -> Seq<char> {
    if line.len() > 0 && line.last() == '\r' {
        line.drop_last()
    } else {
        line
    }
}

/// The lines of a text: split at every newline, a carriage return before
/// a newline dropped, and no empty final line after a trailing newline.
pub open spec fn spec_lines(s: Seq<char>) -> Seq<Seq<char>>
    decreases s.len(),
{
    if s.len() == 0 {
        Seq::empty()
    } else {
        let i = first_nl(s);
        proof {
            lemma_first_nl(s);
        }
        if i == s.len() {
            seq![s]
        } else {
            seq![strip_cr(s.subrange(0, i))] + spec_lines(s.subrange(i + 1, s.len() as int))
        }
    }
}

/// Finds the first newline at or after `from`; the length when none.
fn find_nl(s: &str, from: usize) -> (r: usize)
    requires
        from <= s@.len(),
    ensures
        from <= r <= s@.len(),
        r < s@.len() ==> s@[r as int] == '\n',
        forall|j: int| from <= j < r ==> s@[j] != '\n',
{
    let n = s.unicode_len();
    let mut i: usize = from;
    while i < n
        invariant
            from <= i <= n,
            n == s@.len(),
            forall|j: int| from <= j < i ==> s@[j] != '\n',
        decreases n - i,
    {
        if s.get_char(i) == '\n' {
            return i;
        }
        i = i + 1;
    }
    i
}

/// Splits a text into its lines.
pub fn split_lines(s: &str) -> (r: Vec<String>)
    ensures
        r.deep_view() == spec_lines(s@),
{
    let n = s.unicode_len();
    let mut r: Vec<String> = Vec::new();
    let mut pos: usize = 0;
    proof {
        assert(s@.subrange(0, n as int) =~= s@);
        assert(spec_lines(s@) =~~= r.deep_view() + spec_lines(s@.subrange(0, n as int)));
    }
    while pos < n
        invariant
            pos <= n,
            n == s@.len(),
            spec_lines(s@) =~~= r.deep_view() + spec_lines(s@.subrange(pos as int, n as int)),
        decreases n - pos,
    {
        let ghost rem = s@.subrange(pos as int, n as int);
        let e = find_nl(s, pos);
        proof {
            assert forall|j: int| 0 <= j < e - pos implies rem[j] != '\n' by {
                assert(rem[j] == s@[pos + j]);
            }
            if e < n {
                assert(rem[e - pos] == s@[e as int]);
            }
            lemma_first_nl_found(rem, e - pos);
        }
        let mut line_end: usize = e;
        if line_end > pos && line_end < n {
            if s.get_char(line_end - 1) == '\r' {
                line_end = line_end - 1;
            }
        }
        let line = s.substring_char(pos, line_end).to_owned();
        let ghost prev = r.deep_view();
        r.push(line);
        proof {
            assert(r.deep_view() =~= prev.push(line@));
            if e == n {
                assert(line@ =~= rem);
                assert(spec_lines(rem) == seq![rem]);
                assert(s@.subrange(n as int, n as int) =~= Seq::<char>::empty());
                assert(spec_lines(s@) =~~= r.deep_view() + spec_lines(
                    s@.subrange(n as int, n as int),
                ));
            } else {
                let raw = rem.subrange(0, e - pos);
                assert(raw =~= s@.subrange(pos as int, e as int));
                if e > pos && s@[e - 1] == '\r' {
                    assert(raw.last() == '\r');
                    assert(line@ =~= raw.drop_last());
                    assert(line@ =~= strip_cr(raw));
                } else {
                    assert(line@ =~= raw);
                    assert(line@ =~= strip_cr(raw));
                }
                assert(spec_lines(rem) == seq![strip_cr(raw)] + spec_lines(
                    rem.subrange(e - pos + 1, rem.len() as int),
                ));
                assert(rem.subrange(e - pos + 1, rem.len() as int) =~= s@.subrange(
                    e + 1,
                    n as int,
                ));
                assert(spec_lines(s@) =~~= r.deep_view() + spec_lines(
                    s@.subrange(e + 1, n as int),
                ));
            }
        }
        if e == n {
            pos = n;
        } else {
            pos = e + 1;
        }
    }
    proof {
        assert(s@.subrange(pos as int, n as int).len() == 0);
        assert(spec_lines(s@.subrange(pos as int, n as int)) =~~= Seq::<Seq<char>>::empty());
        assert(spec_lines(s@) =~~= r.deep_view());
    }
    r
}

/// The position of the first non-whitespace character at or after
/// `from`; the length when there is none.
pub open spec fn skip_ws(line: Seq<char>, from: int) -> int
    decreases line.len() - from,
{
    if from < 0 || from >= line.len() {
        line.len() as int
    } else if is_ws(line[from]) {
        skip_ws(line, from + 1)
    } else {
        from
    }
}

pub proof fn lemma_skip_ws(line: Seq<char>, from: int)
    requires
        0 <= from <= line.len(),
    ensures
        from <= skip_ws(line, from) <= line.len(),
        skip_ws(line, from) < line.len() ==> !is_ws(line[skip_ws(line, from)]),
        forall|j: int| from <= j < skip_ws(line, from) ==> is_ws(#[trigger] line[j]),
    decreases line.len() - from,
{
    if from < line.len() && is_ws(line[from]) {
        lemma_skip_ws(line, from + 1);
    }
}

/// The position of the first whitespace character at or after `from`;
/// the length when there is none.
pub open spec fn token_end(line: Seq<char>, from: int) -> int
    decreases line.len() - from,
{
    if from < 0 || from >= line.len() {
        line.len() as int
    } else if is_ws(line[from]) {
        from
    } else {
        token_end(line, from + 1)
    }
}

pub proof fn lemma_token_end(line: Seq<char>, from: int)
    requires
        0 <= from <= line.len(),
    ensures
        from <= token_end(line, from) <= line.len(),
        token_end(line, from) < line.len() ==> is_ws(line[token_end(line, from)]),
        forall|j: int| from <= j < token_end(line, from) ==> !is_ws(#[trigger] line[j]),
    decreases line.len() - from,
{
    if from < line.len() && !is_ws(line[from]) {
        lemma_token_end(line, from + 1);
    }
}

/// Finds the first non-whitespace position at or after `from`.
pub fn skip_ws_exec(line: &str, from: usize) -> (r: usize)
    requires
        from <= line@.len(),
    ensures
        r == skip_ws(line@, from as int),
        from <= r <= line@.len(),
{
    let n = line.unicode_len();
    let mut i: usize = from;
    while i < n
        invariant
            from <= i <= n,
            n == line@.len(),
            skip_ws(line@, from as int) == skip_ws(line@, i as int),
        decreases n - i,
    {
        let c = line.get_char(i);
        if !(c == ' ' || c == '\t') {
            return i;
        }
        i = i + 1;
    }
    i
}

/// Finds the first whitespace position at or after `from`.
pub fn token_end_exec(line: &str, from: usize) -> (r: usize)
    requires
        from <= line@.len(),
    ensures
        r == token_end(line@, from as int),
        from <= r <= line@.len(),
{
    let n = line.unicode_len();
    let mut i: usize = from;
    while i < n
        invariant
            from <= i <= n,
            n == line@.len(),
            token_end(line@, from as int) == token_end(line@, i as int),
        decreases n - i,
    {
        let c = line.get_char(i);
        if c == ' ' || c == '\t' {
            return i;
        }
        i = i + 1;
    }
    i
}

} // verus!
