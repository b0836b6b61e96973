//! Turns line-oriented text into two equal-length columns of unsigned
//! integers. Each non-empty line holds two decimal tokens separated by the
//! fixed delimiter of three consecutive spaces; a token that is not a valid
//! decimal number counts as zero, and a line without the delimiter is
//! skipped.

use vstd::prelude::*;
use vstd::string::StrSliceExecFns;

verus! {

/// The character code of '0'.
pub open spec fn zero_code() -> u32 {
    48
}

/// Whether `c` is a decimal digit.
pub open spec fn is_digit(c: char) -> bool {
    zero_code() <= c as u32 <= zero_code() + 9
}

/// The numeric value of a digit character.
pub open spec fn digit_val(c: char) -> int {
    c as u32 - zero_code()
}

/// Whether every character of `t` is a decimal digit.
pub open spec fn all_digits(t: Seq<char>) -> bool {
    forall|i: int| 0 <= i < t.len() ==> is_digit(#[trigger] t[i])
}

/// The value of a sequence of digit characters read as a decimal numeral.
pub open spec fn dec_val(t: Seq<char>) -> int
    decreases t.len(),
{
    if t.len() == 0 {
        0
    } else {
        dec_val(t.drop_last()) * 10 + digit_val(t.last())
    }
}

/// The value a token contributes to its column: its decimal value when it is
/// a non-empty run of digits whose value fits in 64 bits, and zero otherwise.
pub open spec fn token_val(t: Seq<char>) -> u64 {
    if t.len() > 0 && all_digits(t) && dec_val(t) <= u64::MAX {
        dec_val(t) as u64
    } else {
        0
    }
}

/// A numeral is never negative.
proof fn lemma_dec_val_nonneg(t: Seq<char>)
    requires
        all_digits(t),
    ensures
        dec_val(t) >= 0,
    decreases t.len(),
{
    if t.len() != 0 {
        assert(all_digits(t.drop_last())) by {
            assert(forall|i: int| 0 <= i < t.len() - 1 ==> t.drop_last()[i] == t[i]);
        }
        lemma_dec_val_nonneg(t.drop_last());
        assert(is_digit(t.last()));
    }
}

/// A prefix of a numeral never exceeds the whole numeral in value.
proof fn lemma_dec_val_prefix_le(t: Seq<char>, m: int)
    requires
        all_digits(t),
        0 <= m <= t.len(),
    ensures
        dec_val(t.take(m)) <= dec_val(t),
    decreases t.len() - m,
{
    if m < t.len() {
        assert(t.take(m + 1).drop_last() =~= t.take(m));
        assert(t.take(m + 1).last() == t[m]);
        assert(all_digits(t.take(m))) by {
            assert(forall|i: int| 0 <= i < m ==> t.take(m)[i] == t[i]);
        }
        lemma_dec_val_nonneg(t.take(m));
        assert(is_digit(t[m]));
        lemma_dec_val_prefix_le(t, m + 1);
    } else {
        assert(t.take(m) =~= t);
    }
}

/// Whether the three-space column delimiter stands at position `i` of `s`.
pub open spec fn delim_at(s: Seq<char>, i: int) -> bool {
    &&& 0 <= i
    &&& i + 3 <= s.len()
    &&& s[i] == ' '
    &&& s[i + 1] == ' '
    &&& s[i + 2] == ' '
}

/// The position of the leftmost column delimiter in `s`, or -1 when there is
/// none.
pub open spec fn find_delim(s: Seq<char>) -> int
    decreases s.len(),
{
    if s.len() < 3 {
        -1
    } else if s[0] == ' ' && s[1] == ' ' && s[2] == ' ' {
        0
    } else if find_delim(s.skip(1)) < 0 {
        -1
    } else {
        1 + find_delim(s.skip(1))
    }
}

/// The position of the first line break in `s`, or -1 when there is none.
pub open spec fn find_nl(s: Seq<char>) -> int
    decreases s.len(),
{
    if s.len() == 0 {
        -1
    } else if s[0] == '\n' {
        0
    } else if find_nl(s.skip(1)) < 0 {
        -1
    } else {
        1 + find_nl(s.skip(1))
    }
}

/// `find_delim` points at a delimiter and at the leftmost one, and answers
/// -1 only when no delimiter occurs at all.
proof fn lemma_find_delim(s: Seq<char>)
    ensures
        find_delim(s) < 0 ==> forall|j: int| !delim_at(s, j),
        find_delim(s) >= 0 ==> delim_at(s, find_delim(s)) && forall|j: int|
            j < find_delim(s) ==> !delim_at(s, j),
    decreases s.len(),
{
    if s.len() < 3 {
    } else if s[0] == ' ' && s[1] == ' ' && s[2] == ' ' {
    } else {
        let rest = s.skip(1);
        lemma_find_delim(rest);
        assert(forall|j: int| 0 <= j < rest.len() ==> rest[j] == s[j + 1]);
        assert forall|j: int| delim_at(s, j) implies j >= 1 && delim_at(rest, j - 1) by {
            if j == 0 {
                assert(s[0] == ' ' && s[1] == ' ' && s[2] == ' ');
            } else {
                assert(rest[j - 1] == s[j] && rest[j] == s[j + 1] && rest[j + 1] == s[j + 2]);
            }
        }
        assert(forall|j: int| delim_at(rest, j) ==> delim_at(s, j + 1));
    }
}

/// `find_nl` points at a line break and at the first one, and answers -1
/// only when no line break occurs at all.
proof fn lemma_find_nl(s: Seq<char>)
    ensures
        find_nl(s) < 0 ==> forall|j: int| 0 <= j < s.len() ==> s[j] != '\n',
        find_nl(s) >= 0 ==> 0 <= find_nl(s) < s.len() && s[find_nl(s)] == '\n' && forall|j: int|
            0 <= j < find_nl(s) ==> s[j] != '\n',
    decreases s.len(),
{
    if s.len() == 0 {
    } else if s[0] == '\n' {
    } else {
        let rest = s.skip(1);
        lemma_find_nl(rest);
        let f = find_nl(rest);
        if f < 0 {
            assert forall|j: int| 0 <= j < s.len() implies s[j] != '\n' by {
                if j >= 1 {
                    assert(rest[j - 1] == s[j]);
                }
            }
        } else {
            assert(rest[f] == s[f + 1]);
            assert forall|j: int| 0 <= j < find_nl(s) implies s[j] != '\n' by {
                if j >= 1 {
                    assert(rest[j - 1] == s[j]);
                }
            }
        }
    }
}

/// A position that holds a line break, with none to its left, is exactly
/// where `find_nl` points.
proof fn lemma_find_nl_unique(s: Seq<char>, i: int)
    requires
        0 <= i < s.len(),
        s[i] == '\n',
        forall|j: int| 0 <= j < i ==> s[j] != '\n',
    ensures
        find_nl(s) == i,
{
    lemma_find_nl(s);
}

/// When no position holds a line break, `find_nl` answers -1.
proof fn lemma_find_nl_none(s: Seq<char>)
    requires
        forall|j: int| 0 <= j < s.len() ==> s[j] != '\n',
    ensures
        find_nl(s) == -1,
{
    lemma_find_nl(s);
}

/// A position that holds a delimiter, with none to its left, is exactly
/// where `find_delim` points.
proof fn lemma_find_delim_unique(s: Seq<char>, i: int)
    requires
        delim_at(s, i),
        forall|j: int| 0 <= j < i ==> !delim_at(s, j),
    ensures
        find_delim(s) == i,
{
    lemma_find_delim(s);
}

/// When no position holds a delimiter, `find_delim` answers -1.
proof fn lemma_find_delim_none(s: Seq<char>)
    requires
        forall|j: int| !delim_at(s, j),
    ensures
        find_delim(s) == -1,
{
    lemma_find_delim(s);
    if find_delim(s) >= 0 {
        assert(delim_at(s, find_delim(s)));
    }
}

/// Finds the leftmost three-space delimiter inside `v[start..end]`, as an
/// absolute position into `v`.
fn find_delim_in(v: &Vec<char>, start: usize, end: usize) -> (found: Option<usize>)
    requires
        start <= end <= v@.len(),
    ensures
        match found {
            Some(i) => start <= i && i + 3 <= end && v@[i as int] == ' ' && v@[i + 1] == ' '
                && v@[i + 2] == ' ' && forall|j: int|
                start <= j < i ==> !((#[trigger] v@[j]) == ' ' && v@[j + 1] == ' ' && v@[j + 2] == ' '),
            None => forall|j: int|
                start <= j && j + 3 <= end ==> !((#[trigger] v@[j]) == ' ' && v@[j + 1] == ' ' && v@[j + 2] == ' '),
        },
{
    let mut i: usize = start;
    while end - i > 2
        invariant
            start <= i <= end <= v@.len(),
            forall|j: int| start <= j < i ==> !((#[trigger] v@[j]) == ' ' && v@[j + 1] == ' ' && v@[j + 2] == ' '),
        decreases end - i,
    {
        if v[i] == ' ' && v[i + 1] == ' ' && v[i + 2] == ' ' {
            return Some(i);
        }
        i = i + 1;
    }
    None
}

/// Finds the first line break at or after `start`, or the length of `v` when
/// there is none.
fn find_newline(v: &Vec<char>, start: usize) -> (stop: usize)
    requires
        start <= v@.len(),
    ensures
        start <= stop <= v@.len(),
        stop < v@.len() ==> v@[stop as int] == '\n',
        forall|j: int| start <= j < stop ==> v@[j] != '\n',
{
    let n = v.len();
    let mut i: usize = start;
    while i < n
        invariant
            start <= i <= n,
            n == v@.len(),
            forall|j: int| start <= j < i ==> v@[j] != '\n',
        decreases n - i,
    {
        if v[i] == '\n' {
            return i;
        }
        i = i + 1;
    }
    n
}

/// Reads the token stored at `v[start..end]`: its decimal value when the
/// range is a non-empty run of digits whose value fits in 64 bits, and zero
/// otherwise.
fn parse_token(v: &Vec<char>, start: usize, end: usize) -> (value: u64)
    requires
        start <= end <= v@.len(),
    ensures
        value == token_val(v@.subrange(start as int, end as int)),
{
    let ghost t = v@.subrange(start as int, end as int);
    if start == end {
        return 0;
    }
    let mut acc: u64 = 0;
    let mut i: usize = start;
    while i < end
        invariant
            start < end <= v@.len(),
            start <= i <= end,
            t == v@.subrange(start as int, end as int),
            all_digits(t.take(i - start)),
            acc == dec_val(t.take(i - start)),
        decreases end - i,
    {
        let ghost k = i - start;
        let c = v[i];
        let code = c as u32;
        proof {
            assert(t[k] == v@[i as int]);
        }
        if code < 48 || code > 57 {
            proof {
                assert(!is_digit(t[k]));
                assert(!all_digits(t));
            }
            return 0;
        }
        let d = (code - 48) as u64;
        proof {
            assert(t.take(k + 1).drop_last() =~= t.take(k));
            assert(t.take(k + 1).last() == t[k]);
            assert(is_digit(t[k]));
            assert(d == digit_val(t[k]));
            assert(all_digits(t.take(k + 1))) by {
                assert(forall|j: int| 0 <= j < k + 1 ==> t.take(k + 1)[j] == t[j]);
                assert(forall|j: int| 0 <= j < k ==> t.take(k)[j] == t[j]);
            }
        }
        let stretched = match acc.checked_mul(10) {
            Some(s) => s,
            None => {
                proof {
                    lemma_overflow_means_big(t, k + 1);
                }
                return 0;
            },
        };
        let grown = match stretched.checked_add(d) {
            Some(g) => g,
            None => {
                proof {
                    lemma_overflow_means_big(t, k + 1);
                }
                return 0;
            },
        };
        acc = grown;
        i = i + 1;
    }
    proof {
        assert(t.take(end - start) =~= t);
    }
    acc
}

/// A line with a trailing carriage return, as left by a CRLF terminator,
/// loses it; any other line is kept as it is.
pub open spec fn strip_cr(line: Seq<char>) -> Seq<char> {
    if line.len() > 0 && line.last() == '\r' {
        line.drop_last()
    } else {
        line
    }
}

/// The lines of the text: the text is split at every line feed, a line
/// closed by CRLF loses its carriage return, and a final line break opens no
/// further line.
pub open spec fn lines_of(s: Seq<char>) -> Seq<Seq<char>>
    decreases s.len(),
    via lines_of_decreases
{
    if s.len() == 0 {
        Seq::empty()
    } else if find_nl(s) < 0 {
        seq![s]
    } else {
        seq![strip_cr(s.take(find_nl(s)))] + lines_of(s.skip(find_nl(s) + 1))
    }
}

#[via_fn]
proof fn lines_of_decreases(s: Seq<char>) {
    lemma_find_nl(s);
}

/// What one line contributes: the line's two token values when the
/// three-space delimiter splits it into at least two tokens, and nothing
/// when the delimiter is absent. The first token runs to the first
/// delimiter, the second from there to the next delimiter or to the end of
/// the line; any further tokens are ignored.
pub open spec fn line_pair(line: Seq<char>) -> Option<(u64, u64)> {
    let i = find_delim(line);
    if i < 0 {
        None
    } else {
        let rest = line.skip(i + 3);
        let j = find_delim(rest);
        let second = if j < 0 {
            rest
        } else {
            rest.take(j)
        };
        Some((token_val(line.take(i)), token_val(second)))
    }
}

/// The pairs contributed by a sequence of lines, in order, with the
/// delimiter-free lines skipped.
pub open spec fn pairs_of(ls: Seq<Seq<char>>) -> Seq<(u64, u64)>
    decreases ls.len(),
{
    if ls.len() == 0 {
        Seq::empty()
    } else {
        match line_pair(ls.first()) {
            Some(p) => seq![p] + pairs_of(ls.drop_first()),
            None => pairs_of(ls.drop_first()),
        }
    }
}

/// The value pairs the whole text parses to.
pub open spec fn parsed_pairs(text: Seq<char>) -> Seq<(u64, u64)> {
    pairs_of(lines_of(text))
}

/// The left column of the text: the first value of every parsed line.
pub open spec fn left_column(text: Seq<char>) -> Seq<u64> {
    parsed_pairs(text).map_values(|p: (u64, u64)| p.0)
}

/// The right column of the text: the second value of every parsed line.
pub open spec fn right_column(text: Seq<char>) -> Seq<u64> {
    parsed_pairs(text).map_values(|p: (u64, u64)| p.1)
}

/// When some prefix of a token already exceeds 64 bits, the token counts as
/// zero: either a later character is not a digit, or the whole numeral is at
/// least as large as the prefix and overflows too.
proof fn lemma_overflow_means_big(t: Seq<char>, m: int)
    requires
        0 <= m <= t.len(),
        all_digits(t.take(m)),
        dec_val(t.take(m)) > u64::MAX,
    ensures
        token_val(t) == 0,
{
    if all_digits(t) {
        lemma_dec_val_prefix_le(t, m);
    }
}

/// Lenient parsing: a token with any character that is not a decimal digit
/// counts as zero; the rest of the line is still consumed as usual.
pub proof fn lemma_lenient_token(t: Seq<char>)
    requires
        exists|i: int| 0 <= i < t.len() && !is_digit(#[trigger] t[i]),
    ensures
        token_val(t) == 0,
{
    let i = choose|i: int| 0 <= i < t.len() && !is_digit(#[trigger] t[i]);
    assert(!all_digits(t));
}

/// Parses the line stored at `v[start..end]`: the values of its first two
/// tokens when the three-space delimiter is present, and nothing otherwise.
fn parse_line(v: &Vec<char>, start: usize, end: usize) -> (pair: Option<(u64, u64)>)
    requires
        start <= end <= v@.len(),
    ensures
        pair == line_pair(v@.subrange(start as int, end as int)),
{
    let ghost line = v@.subrange(start as int, end as int);
    proof {
        assert(forall|j: int| 0 <= j < line.len() ==> line[j] == v@[start + j]);
    }
    match find_delim_in(v, start, end) {
        None => {
            proof {
                assert forall|j: int| !delim_at(line, j) by {
                    if 0 <= j && j + 3 <= line.len() {
                        assert(line[j] == v@[start + j]);
                        assert(line[j + 1] == v@[start + j + 1]);
                        assert(line[j + 2] == v@[start + j + 2]);
                    }
                }
                lemma_find_delim_none(line);
            }
            None
        },
        Some(i) => {
            let ghost irel = i - start;
            proof {
                assert(line[irel] == v@[i as int]);
                assert(line[irel + 1] == v@[i + 1]);
                assert(line[irel + 2] == v@[i + 2]);
                assert(delim_at(line, irel));
                assert forall|j: int| 0 <= j < irel implies !delim_at(line, j) by {
                    if delim_at(line, j) {
                        assert(v@[start + j] == line[j]);
                        assert(v@[start + j + 1] == line[j + 1]);
                        assert(v@[start + j + 2] == line[j + 2]);
                    }
                }
                lemma_find_delim_unique(line, irel);
            }
            let first_val = parse_token(v, start, i);
            proof {
                assert(line.take(irel) =~= v@.subrange(start as int, i as int));
            }
            let rest_start = i + 3;
            let ghost rest = line.skip(irel + 3);
            proof {
                assert(rest =~= v@.subrange(rest_start as int, end as int));
                assert(forall|j: int| 0 <= j < rest.len() ==> rest[j] == v@[rest_start + j]);
            }
            match find_delim_in(v, rest_start, end) {
                None => {
                    proof {
                        assert forall|j: int| !delim_at(rest, j) by {
                            if 0 <= j && j + 3 <= rest.len() {
                                assert(rest[j] == v@[rest_start + j]);
                                assert(rest[j + 1] == v@[rest_start + j + 1]);
                                assert(rest[j + 2] == v@[rest_start + j + 2]);
                            }
                        }
                        lemma_find_delim_none(rest);
                    }
                    let second_val = parse_token(v, rest_start, end);
                    Some((first_val, second_val))
                },
                Some(m) => {
                    let ghost mrel = m - rest_start;
                    proof {
                        assert(rest[mrel] == v@[m as int]);
                        assert(rest[mrel + 1] == v@[m + 1]);
                        assert(rest[mrel + 2] == v@[m + 2]);
                        assert(delim_at(rest, mrel));
                        assert forall|j: int| 0 <= j < mrel implies !delim_at(rest, j) by {
                            if delim_at(rest, j) {
                                assert(v@[rest_start + j] == rest[j]);
                                assert(v@[rest_start + j + 1] == rest[j + 1]);
                                assert(v@[rest_start + j + 2] == rest[j + 2]);
                            }
                        }
                        lemma_find_delim_unique(rest, mrel);
                        assert(rest.take(mrel) =~= v@.subrange(rest_start as int, m as int));
                    }
                    let second_val = parse_token(v, rest_start, m);
                    Some((first_val, second_val))
                },
            }
        },
    }
}

/// Collects the characters of the string into a vector.
fn chars_vec(s: &str) -> (chars: Vec<char>)
    ensures
        chars@ == s@,
{
    let n = s.unicode_len();
    let mut chars: Vec<char> = Vec::new();
    let mut i: usize = 0;
    while i < n
        invariant
            n == s@.len(),
            0 <= i <= n,
            chars@ == s@.take(i as int),
        decreases n - i,
    {
        let c = s.get_char(i);
        chars.push(c);
        proof {
            assert(s@.take(i + 1) =~= s@.take(i as int).push(s@[i as int]));
        }
        i = i + 1;
    }
    proof {
        assert(s@.take(n as int) =~= s@);
    }
    chars
}

/// Parses the whole text into its two columns: for every line that the
/// three-space delimiter splits into two tokens, the first token's value is
/// appended to the left column and the second token's value to the right
/// column, in input order. Lines without the delimiter are skipped, so the
/// two columns always come out with the same length.
pub fn parse_file(filecontent: &str) -> (columns: (Vec<u64>, Vec<u64>))
    ensures
        columns.0@ == left_column(filecontent@),
        columns.1@ == right_column(filecontent@),
        columns.0@.len() == columns.1@.len(),
{
    let ghost text = filecontent@;
    let v = chars_vec(filecontent);
    let n = v.len();
    let mut left: Vec<u64> = Vec::new();
    let mut right: Vec<u64> = Vec::new();
    let mut pos: usize = 0;
    let ghost mut done: Seq<(u64, u64)> = Seq::empty();
    proof {
        assert(text.skip(0) =~= text);
        assert(parsed_pairs(text) =~= done + parsed_pairs(text));
        assert(left@ =~= done.map_values(|p: (u64, u64)| p.0));
        assert(right@ =~= done.map_values(|p: (u64, u64)| p.1));
    }
    while pos < n
        invariant
            v@ == text,
            n == text.len(),
            0 <= pos <= n,
            parsed_pairs(text) == done + pairs_of(lines_of(text.skip(pos as int))),
            left@ == done.map_values(|p: (u64, u64)| p.0),
            right@ == done.map_values(|p: (u64, u64)| p.1),
        decreases n - pos,
    {
        let ghost s = text.skip(pos as int);
        let line_break = find_newline(&v, pos);
        proof {
            assert(forall|j: int| 0 <= j < s.len() ==> s[j] == text[pos + j]);
            if line_break < n {
                assert(s[line_break - pos] == '\n');
                assert forall|j: int| 0 <= j < line_break - pos implies s[j] != '\n' by {
                    assert(s[j] == text[pos + j]);
                }
                lemma_find_nl_unique(s, line_break - pos);
            } else {
                assert forall|j: int| 0 <= j < s.len() implies s[j] != '\n' by {
                    assert(s[j] == text[pos + j]);
                }
                lemma_find_nl_none(s);
            }
        }
        let line_end = if line_break < n && line_break > pos && v[line_break - 1] == '\r' {
            line_break - 1
        } else {
            line_break
        };
        let ghost line = if line_break < n {
            strip_cr(s.take(line_break - pos))
        } else {
            s
        };
        proof {
            if line_break < n {
                assert(s.take(line_break - pos) =~= text.subrange(pos as int, line_break as int));
                if line_break > pos && text[line_break - 1] == '\r' {
                    assert(s.take(line_break - pos).last() == text[line_break - 1]);
                    assert(line =~= text.subrange(pos as int, line_end as int));
                } else {
                    if line_break > pos {
                        assert(s.take(line_break - pos).last() == text[line_break - 1]);
                    }
                    assert(line =~= text.subrange(pos as int, line_end as int));
                }
            } else {
                assert(line =~= text.subrange(pos as int, line_end as int));
            }
        }
        let parsed = parse_line(&v, pos, line_end);
        let ghost rest_lines = if line_break < n {
            lines_of(text.skip(line_break + 1))
        } else {
            Seq::<Seq<char>>::empty()
        };
        proof {
            if line_break < n {
                assert(s.skip(line_break - pos + 1) =~= text.skip(line_break + 1));
                assert(lines_of(s) == seq![line] + rest_lines);
            } else {
                assert(text.skip(n as int) =~= Seq::<char>::empty());
                assert(lines_of(s) == seq![line]);
                assert(lines_of(s) =~= seq![line] + rest_lines);
            }
            assert((seq![line] + rest_lines).first() == line);
            assert((seq![line] + rest_lines).drop_first() =~= rest_lines);
            assert(parsed == line_pair(line));
        }
        match parsed {
            Some(p) => {
                left.push(p.0);
                right.push(p.1);
                proof {
                    let prev = done;
                    done = done + seq![p];
                    assert(pairs_of(lines_of(s)) == seq![p] + pairs_of(rest_lines));
                    assert(prev + (seq![p] + pairs_of(rest_lines)) =~= done + pairs_of(rest_lines));
                    assert(left@ =~= done.map_values(|q: (u64, u64)| q.0));
                    assert(right@ =~= done.map_values(|q: (u64, u64)| q.1));
                }
            },
            None => {
                proof {
                    assert(pairs_of(lines_of(s)) == pairs_of(rest_lines));
                }
            },
        }
        pos = if line_break < n {
            line_break + 1
        } else {
            n
        };
        proof {
            if pos == n {
                assert(text.skip(n as int) =~= Seq::<char>::empty());
                assert(lines_of(text.skip(pos as int)) =~= rest_lines);
            }
        }
    }
    proof {
        assert(text.skip(n as int) =~= Seq::<char>::empty());
        assert(done =~= parsed_pairs(text));
        assert(left@ =~= left_column(text));
        assert(right@ =~= right_column(text));
    }
    (left, right)
}

} // verus!
