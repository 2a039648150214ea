//! Shell patterns.
//!
//! In a pattern `*` stands for any run of characters, `?` for any single
//! character, and a class in square brackets for any single character that it
//! holds. A class lists characters and ranges such as `a-z`; behind `!` or `^`
//! it holds every character but those. A `]` that comes first in a class is
//! one of its characters, and a bracket that opens no class stands for itself,
//! as every other character does.

use vstd::prelude::*;

verus! {

/// The position of the first `c` in `s` at or behind `from`.
pub open spec fn index_from(s: Seq<char>, c: char, from: int) -> Option<int>
    decreases s.len() - from,
{
    if from < 0 || from >= s.len() {
        None
    } else if s[from] == c {
        Some(from)
    } else {
        index_from(s, c, from + 1)
    }
}

/// Where the characters begin of the class that the bracket at `open` opens.
pub open spec fn class_start(pattern: Seq<char>, open: int) -> int {
    if open + 1 < pattern.len() && (pattern[open + 1] == '!' || pattern[open + 1] == '^') {
        open + 2
    } else {
        open + 1
    }
}

/// Where the class closes that the bracket at `open` opens: at the first `]`
/// behind its first character. Where there is none the bracket opens no class.
pub open spec fn class_end(pattern: Seq<char>, open: int) -> Option<int> {
    index_from(pattern, ']', class_start(pattern, open) + 1)
}

/// Whether `c` is one of the characters that `pattern` lists from `at` up to `close`.
pub open spec fn in_class(pattern: Seq<char>, at: int, close: int, c: char) -> bool
    decreases close - at,
{
    if at < 0 || at >= close || close > pattern.len() {
        false
    } else if at + 2 < close && pattern[at + 1] == '-' {
        pattern[at] <= c <= pattern[at + 2] || in_class(pattern, at + 3, close, c)
    } else {
        pattern[at] == c || in_class(pattern, at + 1, close, c)
    }
}

/// Whether the class from the bracket at `open` to the bracket at `close` holds `c`.
pub open spec fn class_accepts(pattern: Seq<char>, open: int, close: int, c: char) -> bool {
    in_class(pattern, class_start(pattern, open), close, c) != (class_start(pattern, open) == open
        + 2)
}

/// Whether `pattern` from `at` on matches the whole of `text` from `from` on.
pub open spec fn matches_from(pattern: Seq<char>, at: int, text: Seq<char>, from: int) -> bool
    decreases pattern.len() - at, text.len() - from,
{
    if at < 0 || from < 0 || from > text.len() {
        false
    } else if at >= pattern.len() {
        from == text.len()
    } else if pattern[at] == '*' {
        matches_from(pattern, at + 1, text, from) || (from < text.len() && matches_from(
            pattern,
            at,
            text,
            from + 1,
        ))
    } else if pattern[at] == '[' && class_end(pattern, at) is Some && at < class_end(
        pattern,
        at,
    ).unwrap() < pattern.len() {
        from < text.len() && class_accepts(
            pattern,
            at,
            class_end(pattern, at).unwrap(),
            text[from],
        ) && matches_from(pattern, class_end(pattern, at).unwrap() + 1, text, from + 1)
    } else {
        from < text.len() && (pattern[at] == '?' || pattern[at] == text[from]) && matches_from(
            pattern,
            at + 1,
            text,
            from + 1,
        )
    }
}

/// Whether `pattern` matches the whole of `text`.
pub open spec fn glob_matches(pattern: Seq<char>, text: Seq<char>) -> bool {
    matches_from(pattern, 0, text, 0)
}

/// The position of the first `c` in `s` at or behind `from`.
fn find_from(s: &Vec<char>, c: char, from: usize) -> (r: Option<usize>)
    ensures
        match r {
            Some(i) => from <= i < s.len() && index_from(s@, c, from as int) == Some(i as int),
            None => index_from(s@, c, from as int) is None,
        },
{
    let mut i: usize = from;
    while i < s.len()
        invariant
            from <= i,
            index_from(s@, c, from as int) == index_from(s@, c, i as int),
        decreases s.len() - i,
    {
        if s[i] == c {
            return Some(i);
        }
        i = i + 1;
    }
    None
}

/// Whether `c` is one of the characters that `pattern` lists from `at` up to `close`.
fn lists_char(pattern: &Vec<char>, at: usize, close: usize, c: char) -> (r: bool)
    requires
        close <= pattern.len(),
    ensures
        r == in_class(pattern@, at as int, close as int, c),
{
    let mut i: usize = at;
    while i < close
        invariant
            at <= i,
            close <= pattern.len(),
            in_class(pattern@, at as int, close as int, c) == in_class(
                pattern@,
                i as int,
                close as int,
                c,
            ),
        decreases close - i,
    {
        if close - i > 2 && pattern[i + 1] == '-' {
            if pattern[i] <= c && c <= pattern[i + 2] {
                return true;
            }
            i = i + 3;
        } else {
            if pattern[i] == c {
                return true;
            }
            i = i + 1;
        }
    }
    false
}

/// Entry `j` of the row for the pattern from `at` on. The rows are kept
/// last first, and each keeps its entry for the end of the text apart.
spec fn cell(rows: Seq<Vec<bool>>, ends: Seq<bool>, len: int, at: int, j: int) -> bool {
    if j < rows[len - at].len() {
        rows[len - at][j]
    } else {
        ends[len - at]
    }
}

/// Whether every row from `at` on tells, entry by entry, where the text
/// matches the pattern from the row's place on.
spec fn filled(
    rows: Seq<Vec<bool>>,
    ends: Seq<bool>,
    pattern: Seq<char>,
    text: Seq<char>,
    at: int,
) -> bool {
    &&& 0 <= at <= pattern.len()
    &&& rows.len() == pattern.len() - at + 1
    &&& ends.len() == rows.len()
    &&& forall|r: int| 0 <= r < rows.len() ==> (#[trigger] rows[r]).len() == text.len()
    &&& forall|k: int, j: int|
        at <= k <= pattern.len() && 0 <= j <= text.len() ==> #[trigger] cell(
            rows,
            ends,
            pattern.len() as int,
            k,
            j,
        ) == matches_from(pattern, k, text, j)
}

fn read_cell(rows: &Vec<Vec<bool>>, ends: &Vec<bool>, len: usize, at: usize, j: usize) -> (r:
    bool)
    requires
        at <= len,
        len - at < rows.len(),
        rows.len() == ends.len(),
        j <= rows[len - at].len(),
    ensures
        r == cell(rows@, ends@, len as int, at as int, j as int),
{
    let row = &rows[len - at];
    if j < row.len() {
        row[j]
    } else {
        ends[len - at]
    }
}

/// A row of `len` entries, none of them set.
fn blank_row(len: usize) -> (row: Vec<bool>)
    ensures
        row.len() == len,
        forall|k: int| 0 <= k < len ==> !row[k],
{
    let mut row: Vec<bool> = Vec::new();
    while row.len() < len
        invariant
            row.len() <= len,
            forall|k: int| 0 <= k < row.len() ==> !row[k],
        decreases len - row.len(),
    {
        row.push(false);
    }
    row
}

/// How the pattern reads at one place.
enum Token {
    Star,
    /// A class that closes at this place.
    Class(usize),
    /// `?`, or a character that stands for itself.
    Single,
}

impl Token {
    spec fn reads(self, pattern: Seq<char>, at: int) -> bool {
        match self {
            Token::Star => pattern[at] == '*',
            Token::Class(close) => pattern[at] == '[' && class_end(pattern, at) == Some(
                close as int,
            ) && at < close < pattern.len(),
            Token::Single => pattern[at] != '*' && !(pattern[at] == '[' && class_end(pattern, at)
                is Some),
        }
    }
}

fn token_at(pattern: &Vec<char>, at: usize) -> (token: Token)
    requires
        at < pattern.len(),
    ensures
        token.reads(pattern@, at as int),
{
    if pattern[at] == '*' {
        Token::Star
    } else if pattern[at] == '[' {
        let negated = pattern.len() - at > 1 && (pattern[at + 1] == '!' || pattern[at + 1] == '^');
        let start = if negated {
            at + 2
        } else {
            at + 1
        };
        if start < pattern.len() {
            match find_from(pattern, ']', start + 1) {
                Some(close) => Token::Class(close),
                None => Token::Single,
            }
        } else {
            Token::Single
        }
    } else {
        Token::Single
    }
}

/// Whether `pattern` matches the whole of `text`.
pub fn glob_match(pattern: &Vec<char>, text: &Vec<char>) -> (r: bool)
    ensures
        r == glob_matches(pattern@, text@),
{
    let len = pattern.len();
    let n = text.len();
    let mut rows: Vec<Vec<bool>> = Vec::new();
    let mut ends: Vec<bool> = Vec::new();
    // Behind the pattern only the end of the text matches.
    rows.push(blank_row(n));
    ends.push(true);
    let mut at: usize = len;
    while at > 0
        invariant
            at <= len,
            len == pattern.len(),
            n == text.len(),
            filled(rows@, ends@, pattern@, text@, at as int),
        decreases at,
    {
        at = at - 1;
        let token = token_at(pattern, at);
        let mut fresh = blank_row(n);
        let fresh_end = match token {
            Token::Star => read_cell(&rows, &ends, len, at + 1, n),
            _ => false,
        };
        let ghost p = pattern@;
        let ghost t = text@;
        let mut j: usize = n;
        while j > 0
            invariant
                j <= n,
                at < len,
                len == pattern.len(),
                n == text.len(),
                p == pattern@,
                t == text@,
                token.reads(p, at as int),
                filled(rows@, ends@, p, t, at + 1),
                fresh.len() == n,
                fresh_end == matches_from(p, at as int, t, n as int),
                forall|k: int| j <= k < n ==> fresh[k] == matches_from(p, at as int, t, k),
            decreases j,
        {
            j = j - 1;
            let here = match token {
                Token::Star => {
                    let behind = if j + 1 < n {
                        fresh[j + 1]
                    } else {
                        fresh_end
                    };
                    read_cell(&rows, &ends, len, at + 1, j) || behind
                },
                Token::Class(close) => {
                    let start = if pattern[at + 1] == '!' || pattern[at + 1] == '^' {
                        at + 2
                    } else {
                        at + 1
                    };
                    let listed = lists_char(pattern, start, close, text[j]);
                    (listed != (start == at + 2)) && read_cell(&rows, &ends, len, close + 1, j + 1)
                },
                Token::Single => (pattern[at] == '?' || pattern[at] == text[j]) && read_cell(
                    &rows,
                    &ends,
                    len,
                    at + 1,
                    j + 1,
                ),
            };
            fresh.set(j, here);
        }
        let ghost before = rows@;
        let ghost before_ends = ends@;
        rows.push(fresh);
        ends.push(fresh_end);
        proof {
            assert forall|k: int, i: int| at <= k <= len && 0 <= i <= n implies #[trigger] cell(
                rows@,
                ends@,
                len as int,
                k,
                i,
            ) == matches_from(p, k, t, i) by {
                if k > at {
                    assert(cell(rows@, ends@, len as int, k, i) == cell(
                        before,
                        before_ends,
                        len as int,
                        k,
                        i,
                    ));
                }
            }
        }
    }
    read_cell(&rows, &ends, len, 0, 0)
}

} // verus!
