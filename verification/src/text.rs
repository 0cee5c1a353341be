//! Character-level helpers shared by the codec and the text-format parsers.

use vstd::prelude::*;

verus! {

/// The characters of `s`, in order, as a vector.
pub fn str_to_chars(s: &str) -> (r: Vec<char>)
    ensures
        r@ == s@,
{
    let n = s.unicode_len();
    let mut r: Vec<char> = Vec::new();
    let mut i: usize = 0;
    while i < n
        invariant
            i <= n,
            n == s@.len(),
            r@ == s@.subrange(0, i as int),
        decreases n - i,
    {
        r.push(s.get_char(i));
        i = i + 1;
        proof {
            assert(r@ =~= s@.subrange(0, i as int));
        }
    }
    proof {
        assert(r@ =~= s@);
    }
    r
}

/// Relies on `String::from_iter` over `Iterator::cloned`: collecting
/// characters yields the string of exactly those characters, in order.
#[verifier::external_body]
pub(crate) fn chars_to_string(v: &Vec<char>) -> (r: String)
    ensures
        r@ == v@,
{
    v.iter().collect()
}

/// The characters with the Unicode `White_Space` property, the set that
/// `str::trim` and `str::split_whitespace` strip.
pub open spec fn is_space_char(c: char) -> bool {
    ||| ('\u{09}' <= c && c <= '\u{0d}')
    ||| c == ' '
    ||| c == '\u{85}'
    ||| c == '\u{a0}'
    ||| c == '\u{1680}'
    ||| ('\u{2000}' <= c && c <= '\u{200a}')
    ||| c == '\u{2028}'
    ||| c == '\u{2029}'
    ||| c == '\u{202f}'
    ||| c == '\u{205f}'
    ||| c == '\u{3000}'
}

/// True iff `c` is a white-space character.
pub fn is_space(c: char) -> (r: bool)
    ensures
        r == is_space_char(c),
{
    ('\u{09}' <= c && c <= '\u{0d}') || c == ' ' || c == '\u{85}' || c == '\u{a0}' || c
        == '\u{1680}' || ('\u{2000}' <= c && c <= '\u{200a}') || c == '\u{2028}' || c == '\u{2029}'
        || c == '\u{202f}' || c == '\u{205f}' || c == '\u{3000}'
}

/// The first position at or after `from` holding `c`, or -1.
pub open spec fn find_from(s: Seq<char>, from: int, c: char) -> int
    decreases s.len() - from,
{
    if from < 0 || from >= s.len() {
        -1
    } else if s[from] == c {
        from
    } else {
        find_from(s, from + 1, c)
    }
}

/// A line with one trailing carriage return removed.
pub open spec fn strip_cr(l: Seq<char>) -> Seq<char> {
    if l.len() > 0 && l[l.len() - 1] == '\r' {
        l.drop_last()
    } else {
        l
    }
}

/// The lines of `s`, as `str::lines` yields them: split at newlines, each
/// line with one trailing carriage return removed; a trailing newline ends
/// the last line without starting an empty one.
pub open spec fn spec_lines(s: Seq<char>) -> Seq<Seq<char>>
    decreases s.len(),
{
    if s.len() == 0 {
        Seq::empty()
    } else {
        let idx = find_from(s, 0, '\n');
        if idx < 0 || idx >= s.len() {
            seq![strip_cr(s)]
        } else {
            seq![strip_cr(s.subrange(0, idx))] + spec_lines(s.subrange(idx + 1, s.len() as int))
        }
    }
}

/// The lines of `cs`.
pub fn split_lines(cs: &Vec<char>) -> (r: Vec<Vec<char>>)
    ensures
        r@.len() == spec_lines(cs@).len(),
        forall|i: int| 0 <= i < r@.len() ==> (#[trigger] r@[i])@ == spec_lines(cs@)[i],
{
    let ghost s = cs@;
    let n = cs.len();
    let mut r: Vec<Vec<char>> = Vec::new();
    let mut start: usize = 0;
    proof {
        assert(s.subrange(0, n as int) =~= s);
    }
    while start < n
        invariant
            s == cs@,
            n == s.len(),
            start <= n,
            spec_lines(s).len() == r@.len() + spec_lines(s.subrange(start as int, n as int)).len(),
            forall|i: int| 0 <= i < r@.len() ==> (#[trigger] r@[i])@ == spec_lines(s)[i],
            forall|i: int|
                0 <= i < spec_lines(s.subrange(start as int, n as int)).len() ==> spec_lines(s)[
                    r@.len() + i
                ] == spec_lines(s.subrange(start as int, n as int))[i],
        decreases n - start,
    {
        let ghost rest = s.subrange(start as int, n as int);
        // find the next newline
        let mut e: usize = start;
        while e < n && cs[e] != '\n'
            invariant
                s == cs@,
                n == s.len(),
                start <= e <= n,
                forall|q: int| start <= q < e ==> s[q] != '\n',
            decreases n - e,
        {
            e = e + 1;
        }
        proof {
            lemma_find_from_range(rest, 0, '\n', e - start as int);
            if e < n {
                assert(rest[e - start] == '\n');
            }
        }
        // copy the line, dropping one trailing carriage return
        let stop = if e > start && cs[e - 1] == '\r' {
            e - 1
        } else {
            e
        };
        let mut line: Vec<char> = Vec::new();
        let mut q: usize = start;
        while q < stop
            invariant
                s == cs@,
                n == s.len(),
                start <= q <= stop <= n,
                line@ =~= s.subrange(start as int, q as int),
            decreases stop - q,
        {
            line.push(cs[q]);
            q = q + 1;
        }
        let next = if e < n {
            e + 1
        } else {
            n
        };
        proof {
            let ghost rest_next = s.subrange(next as int, n as int);
            if e < n {
                // one line peeled off the front of the rest
                let idx = e - start as int;
                assert(find_from(rest, 0, '\n') == idx);
                let piece = rest.subrange(0, idx);
                assert(piece =~= s.subrange(start as int, e as int));
                assert(line@ =~= strip_cr(piece));
                assert(rest.subrange(idx + 1, rest.len() as int) =~= rest_next);
                assert(spec_lines(rest) == seq![strip_cr(piece)] + spec_lines(rest_next));
                assert(spec_lines(rest)[0] == line@);
                assert forall|i: int| 0 <= i < spec_lines(rest_next).len() implies spec_lines(
                    rest,
                )[1 + i] == spec_lines(rest_next)[i] by {}
            } else {
                // the final line, with no newline after it
                assert(find_from(rest, 0, '\n') == -1);
                assert(rest =~= s.subrange(start as int, e as int));
                assert(line@ =~= strip_cr(rest));
                assert(spec_lines(rest) == seq![strip_cr(rest)]);
                assert(spec_lines(rest)[0] == line@);
                assert(rest_next =~= Seq::<char>::empty());
            }
        }
        r.push(line);
        start = next;
    }
    proof {
        assert(s.subrange(n as int, n as int) =~= Seq::<char>::empty());
    }
    r
}

/// `find_from` finds the first occurrence: if everything before `e` differs
/// from `c`, the search from 0 yields `e` (when `s[e] == c`) or fails (when
/// `e` is the length).
proof fn lemma_find_from_range(s: Seq<char>, from: int, c: char, e: int)
    requires
        0 <= from <= e <= s.len(),
        forall|q: int| from <= q < e ==> s[q] != c,
    ensures
        e < s.len() && s[e] == c ==> find_from(s, from, c) == e,
        e == s.len() ==> find_from(s, from, c) == -1,
    decreases e - from,
{
    if from < e {
        lemma_find_from_range(s, from + 1, c, e);
    } else if e == s.len() && from < s.len() {
        lemma_find_from_none(s, from, c);
    }
}

proof fn lemma_find_from_none(s: Seq<char>, from: int, c: char)
    requires
        0 <= from,
        forall|q: int| from <= q < s.len() ==> s[q] != c,
    ensures
        find_from(s, from, c) == -1,
    decreases s.len() - from,
{
    if from < s.len() {
        lemma_find_from_none(s, from + 1, c);
    }
}

/// Where the white space at the start of `s` ends.
pub open spec fn trim_start_idx(s: Seq<char>, from: int) -> int
    decreases s.len() - from,
{
    if from < 0 || from >= s.len() {
        s.len() as int
    } else if is_space_char(s[from]) {
        trim_start_idx(s, from + 1)
    } else {
        from
    }
}

/// Where the white space at the end of `s` begins (scanning down from `upto`).
pub open spec fn trim_end_idx(s: Seq<char>, upto: int) -> int
    decreases upto,
{
    if upto <= 0 {
        0
    } else if is_space_char(s[upto - 1]) {
        trim_end_idx(s, upto - 1)
    } else {
        upto
    }
}

/// `s` without leading and trailing white space.
pub open spec fn spec_trim(s: Seq<char>) -> Seq<char> {
    let a = trim_start_idx(s, 0);
    if a == s.len() {
        Seq::empty()
    } else {
        s.subrange(a, trim_end_idx(s, s.len() as int))
    }
}

/// `l` without leading and trailing white space.
pub fn trim_chars(l: &Vec<char>) -> (r: Vec<char>)
    ensures
        r@ == spec_trim(l@),
{
    let ghost s = l@;
    let n = l.len();
    let mut a: usize = 0;
    while a < n && is_space(l[a])
        invariant
            s == l@,
            n == s.len(),
            a <= n,
            trim_start_idx(s, 0) == trim_start_idx(s, a as int),
        decreases n - a,
    {
        a = a + 1;
    }
    if a == n {
        proof {
            assert(spec_trim(s) =~= Seq::<char>::empty());
        }
        return Vec::new();
    }
    let mut b: usize = n;
    while b > a && is_space(l[b - 1])
        invariant
            s == l@,
            n == s.len(),
            a < b <= n,
            a < n,
            !is_space_char(s[a as int]),
            trim_end_idx(s, n as int) == trim_end_idx(s, b as int),
        decreases b,
    {
        b = b - 1;
    }
    proof {
        assert(trim_end_idx(s, b as int) == b) by {
            assert(!is_space_char(s[b - 1]));
        }
        assert(trim_start_idx(s, a as int) == a);
    }
    let mut r: Vec<char> = Vec::new();
    let mut q: usize = a;
    while q < b
        invariant
            s == l@,
            a <= q <= b <= n,
            n == s.len(),
            r@ =~= s.subrange(a as int, q as int),
        decreases b - q,
    {
        r.push(l[q]);
        q = q + 1;
    }
    proof {
        assert(r@ =~= spec_trim(s));
    }
    r
}

proof fn lemma_trim_start_idx_bounds(s: Seq<char>, from: int)
    requires
        0 <= from <= s.len(),
    ensures
        from <= trim_start_idx(s, from) <= s.len(),
        trim_start_idx(s, from) < s.len() ==> !is_space_char(s[trim_start_idx(s, from)]),
    decreases s.len() - from,
{
    if from < s.len() && is_space_char(s[from]) {
        lemma_trim_start_idx_bounds(s, from + 1);
    }
}

proof fn lemma_trim_end_idx_above(s: Seq<char>, upto: int, a: int)
    requires
        0 <= a < upto <= s.len(),
        !is_space_char(s[a]),
    ensures
        a < trim_end_idx(s, upto) <= upto,
    decreases upto,
{
    if is_space_char(s[upto - 1]) {
        lemma_trim_end_idx_above(s, upto - 1, a);
    }
}

proof fn lemma_trim_end_idx_bounds(s: Seq<char>, upto: int)
    requires
        0 <= upto <= s.len(),
    ensures
        trim_end_idx(s, upto) <= upto,
    decreases upto,
{
    if upto > 0 && is_space_char(s[upto - 1]) {
        lemma_trim_end_idx_bounds(s, upto - 1);
    }
}

/// Trimming never lengthens a string.
pub proof fn lemma_trim_len(s: Seq<char>)
    ensures
        spec_trim(s).len() <= s.len(),
{
    lemma_trim_start_idx_bounds(s, 0);
    lemma_trim_end_idx_bounds(s, s.len() as int);
    let a = trim_start_idx(s, 0);
    if a < s.len() {
        lemma_trim_end_idx_above(s, s.len() as int, a);
    }
}

/// No line of a string is longer than the string.
pub proof fn lemma_lines_len(s: Seq<char>)
    ensures
        forall|i: int|
            0 <= i < spec_lines(s).len() ==> (#[trigger] spec_lines(s)[i]).len() <= s.len(),
    decreases s.len(),
{
    if s.len() > 0 {
        let idx = find_from(s, 0, '\n');
        if !(idx < 0 || idx >= s.len()) {
            let rest = s.subrange(idx + 1, s.len() as int);
            lemma_lines_len(rest);
            assert forall|i: int|
                0 <= i < spec_lines(s).len() implies (#[trigger] spec_lines(s)[i]).len()
                <= s.len() by {
                if i > 0 {
                    assert(spec_lines(s)[i] == spec_lines(rest)[i - 1]);
                }
            }
        }
    }
}

/// Where the token starting at `i` ends: the next white-space position, or
/// the end of `s`.
pub open spec fn token_end(s: Seq<char>, i: int) -> int
    decreases s.len() - i,
{
    if i < 0 || i >= s.len() {
        s.len() as int
    } else if is_space_char(s[i]) {
        i
    } else {
        token_end(s, i + 1)
    }
}

/// The maximal white-space-free runs of `s` from position `i` on. The run
/// starting at a non-space position always ends past it and within `s`, so
/// the guard on `token_end` never fails.
pub open spec fn tokens_from(s: Seq<char>, i: int) -> Seq<Seq<char>>
    decreases s.len() - i,
{
    if i < 0 || i >= s.len() {
        Seq::empty()
    } else if is_space_char(s[i]) {
        tokens_from(s, i + 1)
    } else {
        let j = token_end(s, i);
        if i < j <= s.len() {
            seq![s.subrange(i, j)] + tokens_from(s, j)
        } else {
            Seq::empty()
        }
    }
}

/// The white-space-separated tokens of `s`, as `str::split_whitespace` yields
/// them.
pub open spec fn spec_tokens(s: Seq<char>) -> Seq<Seq<char>> {
    tokens_from(s, 0)
}

/// The white-space-separated tokens of `l`.
pub fn split_ws(l: &Vec<char>) -> (r: Vec<Vec<char>>)
    ensures
        r@.len() == spec_tokens(l@).len(),
        forall|i: int| 0 <= i < r@.len() ==> (#[trigger] r@[i])@ == spec_tokens(l@)[i],
{
    let ghost s = l@;
    let n = l.len();
    let mut r: Vec<Vec<char>> = Vec::new();
    let mut i: usize = 0;
    while i < n
        invariant
            s == l@,
            n == s.len(),
            i <= n,
            spec_tokens(s).len() == r@.len() + tokens_from(s, i as int).len(),
            forall|q: int| 0 <= q < r@.len() ==> (#[trigger] r@[q])@ == spec_tokens(s)[q],
            forall|q: int|
                0 <= q < tokens_from(s, i as int).len() ==> spec_tokens(s)[r@.len() + q]
                    == tokens_from(s, i as int)[q],
        decreases n - i,
    {
        if is_space(l[i]) {
            i = i + 1;
        } else {
            let mut e: usize = i;
            while e < n && !is_space(l[e])
                invariant
                    s == l@,
                    n == s.len(),
                    i <= e <= n,
                    forall|q: int| i <= q < e ==> !is_space_char(s[q]),
                decreases n - e,
            {
                e = e + 1;
            }
            proof {
                lemma_token_end_range(s, i as int, e as int);
            }
            let mut tok: Vec<char> = Vec::new();
            let mut q: usize = i;
            while q < e
                invariant
                    s == l@,
                    i <= q <= e <= n,
                    n == s.len(),
                    tok@ =~= s.subrange(i as int, q as int),
                decreases e - q,
            {
                tok.push(l[q]);
                q = q + 1;
            }
            proof {
                assert(tokens_from(s, i as int) == seq![s.subrange(i as int, e as int)]
                    + tokens_from(s, e as int));
                assert(tokens_from(s, i as int)[0] == tok@);
                assert forall|q2: int| 0 <= q2 < tokens_from(s, e as int).len() implies tokens_from(
                    s,
                    i as int,
                )[1 + q2] == tokens_from(s, e as int)[q2] by {}
            }
            r.push(tok);
            i = e;
        }
    }
    r
}

/// `token_end` stops at the first white-space position.
proof fn lemma_token_end_range(s: Seq<char>, i: int, e: int)
    requires
        0 <= i <= e <= s.len(),
        forall|q: int| i <= q < e ==> !is_space_char(s[q]),
        e < s.len() ==> is_space_char(s[e]),
    ensures
        token_end(s, i) == e,
    decreases e - i,
{
    if i < e {
        lemma_token_end_range(s, i + 1, e);
    }
}

/// `t` is a prefix of `s`.
pub open spec fn spec_starts_with(s: Seq<char>, t: Seq<char>) -> bool {
    t.len() <= s.len() && s.subrange(0, t.len() as int) == t
}

/// True iff `t` is a prefix of `s`.
pub fn starts_with_chars(s: &Vec<char>, t: &Vec<char>) -> (r: bool)
    ensures
        r == spec_starts_with(s@, t@),
{
    let n = t.len();
    if n > s.len() {
        return false;
    }
    let mut i: usize = 0;
    while i < n
        invariant
            i <= n,
            n == t@.len(),
            n <= s@.len(),
            forall|q: int| 0 <= q < i ==> s@[q] == t@[q],
        decreases n - i,
    {
        if s[i] != t[i] {
            proof {
                assert(s@.subrange(0, n as int)[i as int] != t@[i as int]);
            }
            return false;
        }
        i = i + 1;
    }
    proof {
        assert(s@.subrange(0, n as int) =~= t@);
    }
    true
}

pub open spec fn is_digit_char(c: char) -> bool {
    '0' <= c && c <= '9'
}

pub open spec fn digit_val(c: char) -> int {
    c as int - '0' as int
}

/// The value of the first `n` characters of `s` read as decimal digits.
pub open spec fn digits_value(s: Seq<char>, n: int) -> int
    decreases n,
{
    if n <= 0 {
        0
    } else {
        digits_value(s, n - 1) * 10 + digit_val(s[n - 1])
    }
}

/// The part of a number token after an optional sign.
pub open spec fn parse_body(s: Seq<char>) -> Seq<char> {
    if s.len() > 0 && (s[0] == '-' || s[0] == '+') {
        s.subrange(1, s.len() as int)
    } else {
        s
    }
}

pub open spec fn all_digits(s: Seq<char>) -> bool {
    forall|q: int| 0 <= q < s.len() ==> is_digit_char(#[trigger] s[q])
}

/// What `str::parse::<i64>` yields on `s`: an optional sign followed by at
/// least one digit and nothing else, valued in range; anything else is `None`.
pub open spec fn spec_parse_i64(s: Seq<char>) -> Option<i64> {
    if parse_body(s).len() == 0 || !all_digits(parse_body(s)) {
        None
    } else {
        let v = digits_value(parse_body(s), parse_body(s).len() as int);
        if s.len() > 0 && s[0] == '-' {
            if -v >= i64::MIN {
                Some((-v) as i64)
            } else {
                None
            }
        } else {
            if v <= i64::MAX {
                Some(v as i64)
            } else {
                None
            }
        }
    }
}

/// With every character a digit, the value can only grow as digits are read.
proof fn lemma_digits_value_monotone(s: Seq<char>, m: int, n: int)
    requires
        0 <= m <= n <= s.len(),
        forall|q: int| 0 <= q < n ==> is_digit_char(#[trigger] s[q]),
    ensures
        0 <= digits_value(s, m) <= digits_value(s, n),
    decreases n,
{
    if n > 0 {
        if m == n {
            lemma_digits_value_monotone(s, n - 1, n - 1);
        } else {
            lemma_digits_value_monotone(s, m, n - 1);
        }
    }
}

/// Parses `s` as a decimal `i64`, exactly as `str::parse::<i64>` would.
pub fn parse_i64_chars(s: &Vec<char>) -> (r: Option<i64>)
    ensures
        r == spec_parse_i64(s@),
{
    let ghost sv = s@;
    let n = s.len();
    let neg = n > 0 && s[0] == '-';
    let signed = n > 0 && (s[0] == '-' || s[0] == '+');
    let start: usize = if signed {
        1
    } else {
        0
    };
    let ghost body = if signed {
        sv.subrange(1, n as int)
    } else {
        sv
    };
    if start == n {
        return None;
    }
    // acc holds the negated value of the digits read, so that i64::MIN parses
    let mut acc: i64 = 0;
    let mut i: usize = start;
    while i < n
        invariant
            sv == s@,
            n == sv.len(),
            start <= i <= n,
            start <= 1,
            (start == 1) == (sv.len() > 0 && (sv[0] == '-' || sv[0] == '+')),
            body == (if start == 1 {
                sv.subrange(1, n as int)
            } else {
                sv
            }),
            body.len() == n - start,
            forall|q: int| 0 <= q < body.len() ==> body[q] == sv[q + start],
            forall|q: int| 0 <= q < i - start ==> is_digit_char(#[trigger] body[q]),
            acc == -digits_value(body, i - start as int),
            acc <= 0,
        decreases n - i,
    {
        let c = s[i];
        if !('0' <= c && c <= '9') {
            proof {
                assert(parse_body(sv) =~= body);
                assert(!is_digit_char(parse_body(sv)[i - start]));
                assert(!all_digits(parse_body(sv)));
            }
            return None;
        }
        let d = (c as u32 - '0' as u32) as i64;
        let step = match acc.checked_mul(10) {
            Some(m) => m.checked_sub(d),
            None => None,
        };
        match step {
            Some(next) => {
                acc = next;
                proof {
                    assert(digits_value(body, i + 1 - start as int) == digits_value(
                        body,
                        i - start as int,
                    ) * 10 + digit_val(body[i - start]));
                }
                i = i + 1;
            },
            None => {
                // the value read so far already exceeds the i64 range, and
                // appending digits can only grow it
                proof {
                    let sbody = parse_body(sv);
                    assert(sbody =~= body);
                    let m = i - start as int + 1;
                    assert(digit_val(body[m - 1]) == d);
                    assert(digits_value(body, m) == digits_value(body, m - 1) * 10 + digit_val(
                        body[m - 1],
                    ));
                    assert(digits_value(body, m) > 0x8000_0000_0000_0000int);
                    if all_digits(sbody) {
                        lemma_digits_value_monotone(sbody, m, sbody.len() as int);
                        assert(digits_value(sbody, sbody.len() as int) >= digits_value(sbody, m));
                        assert(spec_parse_i64(sv) is None);
                    } else {
                        assert(spec_parse_i64(sv) is None);
                    }
                }
                return None;
            },
        }
    }
    proof {
        assert(parse_body(sv) =~= body);
        assert(all_digits(parse_body(sv)));
        assert(acc == -digits_value(parse_body(sv), parse_body(sv).len() as int));
    }
    if neg {
        Some(acc)
    } else {
        if acc == i64::MIN {
            return None;
        }
        Some(-acc)
    }
}

pub open spec fn digit_char(d: int) -> char {
    (('0' as u8) + (d as u8)) as char
}

/// The decimal digits of `m`, most significant first, without leading zeros
/// (`0` itself is the single digit `0`).
pub open spec fn dec_digits(m: int) -> Seq<char>
    decreases m,
{
    if m < 10 {
        seq![digit_char(if m >= 0 {
            m % 10
        } else {
            0
        })]
    } else {
        dec_digits(m / 10).push(digit_char(m % 10))
    }
}

/// The decimal form of `v`: a minus sign for negative values, then the
/// digits of the magnitude.
pub open spec fn spec_int_string(v: int) -> Seq<char> {
    if v < 0 {
        seq!['-'] + dec_digits(-v)
    } else {
        dec_digits(v)
    }
}

/// Appends the decimal digits of `m`.
pub fn push_u64_digits(out: &mut Vec<char>, m: u64)
    ensures
        final(out)@ == old(out)@ + dec_digits(m as int),
    decreases m,
{
    if m < 10 {
        out.push((('0' as u8) + (m as u8)) as char);
        proof {
            assert(final(out)@ =~= old(out)@ + dec_digits(m as int));
        }
    } else {
        push_u64_digits(out, m / 10);
        out.push((('0' as u8) + ((m % 10) as u8)) as char);
        proof {
            assert(final(out)@ =~= old(out)@ + dec_digits(m as int));
        }
    }
}

/// Appends the decimal form of `v`.
pub fn push_i64_chars(out: &mut Vec<char>, v: i64)
    ensures
        final(out)@ == old(out)@ + spec_int_string(v as int),
{
    if v < 0 {
        out.push('-');
        let mag: u64 = if v == i64::MIN {
            0x8000_0000_0000_0000u64
        } else {
            (-v) as u64
        };
        push_u64_digits(out, mag);
        proof {
            assert(final(out)@ =~= old(out)@ + spec_int_string(v as int));
        }
    } else {
        push_u64_digits(out, v as u64);
    }
}


} // verus!
