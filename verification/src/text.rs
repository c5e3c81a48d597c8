//! Characters, whitespace, and per-line scanning: blankness, the indentation
//! column (first non-whitespace character), and whitespace runs.

use vstd::prelude::*;

verus! {

/// Whitespace, for this library, is ASCII whitespace: space, tab, carriage
/// return, line feed, vertical tab, and form feed.
pub open spec fn is_ws(c: char) -> bool {
    c == ' ' || c == '\t' || c == '\r' || c == '\n' || c == '\u{000B}' || c == '\u{000C}'
}

/// Executable mirror of `is_ws`.
pub fn is_whitespace(c: char) -> (r: bool)
    ensures
        r == is_ws(c),
{
    c == ' ' || c == '\t' || c == '\r' || c == '\n' || c == '\u{000B}' || c == '\u{000C}'
}

/// A line is blank when it has no non-whitespace character.
pub open spec fn is_blank(l: Seq<char>) -> bool {
    forall|i: int| 0 <= i < l.len() ==> is_ws(l[i])
}

/// The indentation column: the index of the first non-whitespace character.
/// Meaningful only on non-blank lines (see `lemma_indent_of`).
pub open spec fn indent_of(l: Seq<char>) -> int
    decreases l.len(),
{
    if l.len() == 0 {
        0
    } else if !is_ws(l[0]) {
        0
    } else {
        1 + indent_of(l.drop_first())
    }
}

/// On a non-blank line, `indent_of` is the least column holding a
/// non-whitespace character.
pub proof fn lemma_indent_of(l: Seq<char>)
    requires
        !is_blank(l),
    ensures
        0 <= indent_of(l) < l.len(),
        !is_ws(l[indent_of(l)]),
        forall|j: int| 0 <= j < indent_of(l) ==> is_ws(l[j]),
    decreases l.len(),
{
    if l.len() == 0 {
        assert(is_blank(l));
    } else if !is_ws(l[0]) {
    } else {
        let rest = l.drop_first();
        assert(!is_blank(rest)) by {
            let w = choose|i: int| 0 <= i < l.len() && !is_ws(l[i]);
            assert(rest[w - 1] == l[w]);
        }
        lemma_indent_of(rest);
        assert(l[indent_of(l)] == rest[indent_of(rest)]);
        assert forall|j: int| 0 <= j < indent_of(l) implies is_ws(l[j]) by {
            if j > 0 {
                assert(l[j] == rest[j - 1]);
            }
        }
    }
}

/// A column that is non-whitespace and preceded only by whitespace is the
/// indentation column.
pub proof fn lemma_indent_unique(l: Seq<char>, i: int)
    requires
        0 <= i < l.len(),
        !is_ws(l[i]),
        forall|j: int| 0 <= j < i ==> is_ws(l[j]),
    ensures
        indent_of(l) == i,
    decreases l.len(),
{
    if i == 0 {
    } else {
        let rest = l.drop_first();
        assert(rest[i - 1] == l[i]);
        assert forall|j: int| 0 <= j < i - 1 implies is_ws(rest[j]) by {
            assert(rest[j] == l[j + 1]);
        }
        lemma_indent_unique(rest, i - 1);
    }
}

/// Column of the first non-whitespace character of a line, or `None` when the
/// line is blank.
pub fn find_first_non_whitespace_char(line: &Vec<char>) -> (r: Option<usize>)
    ensures
        match r {
            Option::Some(i) => !is_blank(line@) && i == indent_of(line@),
            Option::None => is_blank(line@),
        },
{
    let n = line.len();
    let mut k: usize = 0;
    while k < n
        invariant
            k <= n,
            n == line@.len(),
            forall|j: int| 0 <= j < k ==> is_ws(line@[j]),
        decreases n - k,
    {
        if !is_whitespace(line[k]) {
            proof {
                lemma_indent_unique(line@, k as int);
            }
            return Option::Some(k);
        }
        k = k + 1;
    }
    Option::None
}

/// Length of the run of consecutive whitespace characters starting at `start`.
pub open spec fn ws_run(l: Seq<char>, start: int) -> int
    decreases l.len() - start,
{
    if start < 0 || start >= l.len() || !is_ws(l[start]) {
        0
    } else {
        1 + ws_run(l, start + 1)
    }
}

pub proof fn lemma_ws_run_bound(l: Seq<char>, start: int)
    requires
        0 <= start <= l.len(),
    ensures
        0 <= ws_run(l, start) <= l.len() - start,
    decreases l.len() - start,
{
    if start < l.len() && is_ws(l[start]) {
        lemma_ws_run_bound(l, start + 1);
    }
}

/// What the whitespace scanner reports for the characters after column `pos`:
/// `None` when the character at `pos + 1` is absent or not whitespace, and
/// otherwise one less than the length of the whitespace run starting there.
pub open spec fn ws_after(l: Seq<char>, pos: int) -> Option<int> {
    if pos + 1 < l.len() && is_ws(l[pos + 1]) {
        Option::Some(ws_run(l, pos + 1) - 1)
    } else {
        Option::None
    }
}

/// Executable whitespace scanner; see `ws_after`.
pub fn count_whitespace_after(line: &Vec<char>, pos: usize) -> (r: Option<usize>)
    requires
        pos < line@.len(),
    ensures
        match r {
            Option::Some(k) => ws_after(line@, pos as int) == Option::Some(k as int),
            Option::None => ws_after(line@, pos as int) is None,
        },
{
    let n = line.len();
    if pos + 1 >= n || !is_whitespace(line[pos + 1]) {
        return Option::None;
    }
    let mut k: usize = pos + 1;
    while k < n && is_whitespace(line[k])
        invariant
            pos + 1 <= k <= n,
            n == line@.len(),
            ws_run(line@, pos + 1) == k - pos - 1 + ws_run(line@, k as int),
        decreases n - k,
    {
        assert(ws_run(line@, k as int) == 1 + ws_run(line@, k + 1));
        k = k + 1;
    }
    assert(ws_run(line@, k as int) == 0);
    Option::Some(k - pos - 2)
}

/// A sequence of `n` space characters.
pub open spec fn spaces(n: int) -> Seq<char> {
    Seq::new(n as nat, |i: int| ' ')
}

/// The character sequences of a list of character vectors.
pub open spec fn seq_view(s: Seq<Vec<char>>) -> Seq<Seq<char>> {
    Seq::new(s.len(), |i: int| s[i]@)
}

} // verus!
