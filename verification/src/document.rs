//! The document model: an immutable snapshot of text organized into lines.
//!
//! A document is a non-empty list of lines, none of which holds a newline;
//! its text is the lines joined by single newline characters. This matches a
//! text buffer's line discipline: a trailing newline in the text yields a
//! final empty line, and the empty text is one empty line.

use vstd::prelude::*;
use crate::text::seq_view;

verus! {

/// A line never holds a newline character.
pub open spec fn line_wf(l: Seq<char>) -> bool {
    forall|i: int| 0 <= i < l.len() ==> l[i] != '\n'
}

/// Well-formed line lists: at least one line, none holding a newline.
pub open spec fn lines_wf(lines: Seq<Seq<char>>) -> bool {
    lines.len() >= 1 && forall|i: int| 0 <= i < lines.len() ==> line_wf(lines[i])
}

/// The text of lines `i..`, with a newline between adjacent lines.
pub open spec fn join_from(lines: Seq<Seq<char>>, i: int) -> Seq<char>
    decreases lines.len() - i,
{
    if i < 0 || i >= lines.len() {
        Seq::empty()
    } else if i == lines.len() - 1 {
        lines[i]
    } else {
        lines[i] + seq!['\n'] + join_from(lines, i + 1)
    }
}

/// The whole text: the lines joined by newlines.
pub open spec fn join_lines(lines: Seq<Seq<char>>) -> Seq<char> {
    join_from(lines, 0)
}

/// The character offset at which line `i` starts.
pub open spec fn line_start(lines: Seq<Seq<char>>, i: int) -> int
    decreases i,
{
    if i <= 0 {
        0
    } else {
        line_start(lines, i - 1) + lines[i - 1].len() + 1
    }
}

/// Line start offsets grow with the line index.
pub proof fn lemma_line_start_mono(lines: Seq<Seq<char>>, a: int, b: int)
    requires
        0 <= a <= b,
    ensures
        line_start(lines, a) <= line_start(lines, b),
    decreases b,
{
    if a < b {
        lemma_line_start_mono(lines, a, b - 1);
    }
}

/// The text from line `i`'s start onward is exactly the join of lines `i..`.
pub proof fn lemma_suffix(lines: Seq<Seq<char>>, i: int)
    requires
        lines.len() >= 1,
        0 <= i < lines.len(),
    ensures
        0 <= line_start(lines, i) <= join_lines(lines).len(),
        join_from(lines, i).len() == join_lines(lines).len() - line_start(lines, i),
        join_lines(lines).subrange(line_start(lines, i), join_lines(lines).len() as int)
            == join_from(lines, i),
    decreases i,
{
    let text = join_lines(lines);
    if i == 0 {
        assert(text.subrange(0, text.len() as int) =~= text);
    } else {
        lemma_suffix(lines, i - 1);
        let prev = join_from(lines, i - 1);
        assert(prev == lines[i - 1] + seq!['\n'] + join_from(lines, i));
        assert(line_start(lines, i) == line_start(lines, i - 1) + lines[i - 1].len() + 1);
        assert(text.subrange(line_start(lines, i), text.len() as int)
            =~= prev.subrange(lines[i - 1].len() as int + 1, prev.len() as int));
        assert(prev.subrange(lines[i - 1].len() as int + 1, prev.len() as int)
            =~= join_from(lines, i));
    }
}

/// Where each line sits inside the joined text: its characters, its extent,
/// and the newline that terminates every line but the last.
pub proof fn lemma_line_at(lines: Seq<Seq<char>>, i: int)
    requires
        lines.len() >= 1,
        0 <= i < lines.len(),
    ensures
        0 <= line_start(lines, i),
        line_start(lines, i) + lines[i].len() <= join_lines(lines).len(),
        join_lines(lines).subrange(
            line_start(lines, i),
            line_start(lines, i) + lines[i].len(),
        ) == lines[i],
        forall|k: int| 0 <= k < lines[i].len()
            ==> join_lines(lines)[line_start(lines, i) + k] == lines[i][k],
        i < lines.len() - 1 ==> join_lines(lines)[line_start(lines, i) + lines[i].len()] == '\n',
        i < lines.len() - 1
            ==> line_start(lines, i + 1) <= join_lines(lines).len(),
        i == lines.len() - 1
            ==> line_start(lines, i) + lines[i].len() == join_lines(lines).len(),
{
    let text = join_lines(lines);
    let s = line_start(lines, i);
    lemma_suffix(lines, i);
    let tail = join_from(lines, i);
    assert(text.subrange(s, s + lines[i].len())
        =~= tail.subrange(0, lines[i].len() as int));
    assert(tail.subrange(0, lines[i].len() as int) =~= lines[i]);
    assert forall|k: int| 0 <= k < lines[i].len()
        implies text[s + k] == lines[i][k] by {
        assert(text.subrange(s, s + lines[i].len())[k] == text[s + k]);
    }
    if i < lines.len() - 1 {
        assert(tail == lines[i] + seq!['\n'] + join_from(lines, i + 1));
        assert(text[s + lines[i].len()] == tail[lines[i].len() as int]);
    }
}

/// Splitting text into lines at newline characters.
pub open spec fn split_lines(text: Seq<char>) -> Seq<Seq<char>>
    decreases text.len(),
{
    if text.len() == 0 {
        seq![Seq::<char>::empty()]
    } else if text[0] == '\n' {
        seq![Seq::<char>::empty()] + split_lines(text.drop_first())
    } else {
        let rest = split_lines(text.drop_first());
        seq![seq![text[0]] + rest[0]] + rest.drop_first()
    }
}

/// Splitting always yields a well-formed line list.
pub proof fn lemma_split_wf(text: Seq<char>)
    ensures
        lines_wf(split_lines(text)),
    decreases text.len(),
{
    if text.len() == 0 {
    } else {
        lemma_split_wf(text.drop_first());
        let rest = split_lines(text.drop_first());
        if text[0] == '\n' {
        } else {
            let first = seq![text[0]] + rest[0];
            assert(line_wf(first)) by {
                assert(line_wf(rest[0]));
                assert forall|k: int| 0 <= k < first.len() implies first[k] != '\n' by {
                    if k > 0 {
                        assert(first[k] == rest[0][k - 1]);
                    }
                }
            }
            assert forall|i: int| 0 <= i < split_lines(text).len()
                implies line_wf(split_lines(text)[i]) by {
                if i > 0 {
                    assert(split_lines(text)[i] == rest[i]);
                }
            }
        }
    }
}

/// Joining the lines after a cons leaves the tail join unchanged.
pub proof fn lemma_join_from_cons(x: Seq<char>, s: Seq<Seq<char>>, i: int)
    requires
        i >= 1,
    ensures
        join_from(seq![x] + s, i) == join_from(s, i - 1),
    decreases s.len() - i,
{
    let whole = seq![x] + s;
    if i >= whole.len() {
    } else if i == whole.len() - 1 {
        assert(whole[i] == s[i - 1]);
    } else {
        lemma_join_from_cons(x, s, i + 1);
        assert(whole[i] == s[i - 1]);
    }
}

/// `join` is a left inverse of `split`: joining the split of a text gives the
/// text back.
pub proof fn lemma_join_split(text: Seq<char>)
    ensures
        join_lines(split_lines(text)) == text,
    decreases text.len(),
{
    if text.len() == 0 {
        assert(join_lines(split_lines(text)) =~= text);
    } else if text[0] == '\n' {
        lemma_join_split(text.drop_first());
        let rest = split_lines(text.drop_first());
        lemma_split_wf(text.drop_first());
        let whole = seq![Seq::<char>::empty()] + rest;
        lemma_join_from_cons(Seq::<char>::empty(), rest, 1);
        assert(join_lines(whole) == whole[0] + seq!['\n'] + join_from(whole, 1));
        assert(join_lines(whole) =~= text);
    } else {
        lemma_join_split(text.drop_first());
        let rest = split_lines(text.drop_first());
        lemma_split_wf(text.drop_first());
        let first = seq![text[0]] + rest[0];
        let whole = seq![first] + rest.drop_first();
        if rest.len() == 1 {
            assert(whole.len() == 1);
            assert(join_lines(whole) == first);
            assert(join_lines(rest) == rest[0]);
            assert(rest[0] == text.drop_first());
            assert(first =~= text);
        } else {
            lemma_join_from_cons(first, rest.drop_first(), 1);
            assert(join_lines(whole) == first + seq!['\n'] + join_from(rest.drop_first(), 0));
            assert(join_lines(rest) == rest[0] + seq!['\n'] + join_from(rest, 1));
            lemma_join_from_cons(rest[0], rest.drop_first(), 1);
            assert(rest =~= seq![rest[0]] + rest.drop_first());
            assert(join_from(rest, 1) == join_from(rest.drop_first(), 0));
            let tail_join = join_from(rest.drop_first(), 0);
            assert(join_lines(whole) =~= seq![text[0]] + (rest[0] + seq!['\n'] + tail_join));
            assert(seq![text[0]] + text.drop_first() =~= text);
            assert(join_lines(whole) =~= text);
        }
    }
}

/// Splitting a newline-free text yields that text as the one line.
pub proof fn lemma_split_one(a: Seq<char>)
    requires
        line_wf(a),
    ensures
        split_lines(a) == seq![a],
    decreases a.len(),
{
    if a.len() == 0 {
        assert(split_lines(a) =~~= seq![a]);
    } else {
        assert(a[0] != '\n');
        let tail = a.drop_first();
        assert(line_wf(tail)) by {
            assert forall|k: int| 0 <= k < tail.len() implies tail[k] != '\n' by {
                assert(tail[k] == a[k + 1]);
            }
        }
        lemma_split_one(tail);
        let rest = split_lines(tail);
        assert(rest[0] == tail);
        assert(seq![a[0]] + rest[0] =~= a);
        assert(rest.drop_first() =~= Seq::<Seq<char>>::empty());
        assert(split_lines(a) =~~= seq![a]);
    }
}

/// Splitting a text that begins with a newline-free line and a newline peels
/// off that line.
pub proof fn lemma_split_cons(a: Seq<char>, s: Seq<char>)
    requires
        line_wf(a),
    ensures
        split_lines(a + seq!['\n'] + s) == seq![a] + split_lines(s),
    decreases a.len(),
{
    let t = a + seq!['\n'] + s;
    if a.len() == 0 {
        assert(t[0] == '\n');
        assert(t.drop_first() =~= s);
        assert(split_lines(t) =~~= seq![a] + split_lines(s));
    } else {
        assert(t[0] == a[0]);
        assert(a[0] != '\n');
        let tail = a.drop_first();
        assert(line_wf(tail)) by {
            assert forall|k: int| 0 <= k < tail.len() implies tail[k] != '\n' by {
                assert(tail[k] == a[k + 1]);
            }
        }
        lemma_split_cons(tail, s);
        assert(t.drop_first() =~= tail + seq!['\n'] + s);
        let rest = split_lines(t.drop_first());
        assert(rest == seq![tail] + split_lines(s));
        assert(rest[0] == tail);
        assert(seq![t[0]] + rest[0] =~= a);
        assert(rest.drop_first() =~= split_lines(s));
        assert(split_lines(t) =~~= seq![a] + split_lines(s));
    }
}

/// `split` is a left inverse of `join`: splitting the join of well-formed
/// lines gives the lines back.
pub proof fn lemma_split_join(lines: Seq<Seq<char>>)
    requires
        lines_wf(lines),
    ensures
        split_lines(join_lines(lines)) == lines,
    decreases lines.len(),
{
    if lines.len() == 1 {
        lemma_split_one(lines[0]);
        assert(join_lines(lines) == lines[0]);
        assert(split_lines(join_lines(lines)) =~= lines);
    } else {
        let tail = lines.drop_first();
        assert(lines_wf(tail)) by {
            assert forall|k: int| 0 <= k < tail.len() implies line_wf(tail[k]) by {
                assert(tail[k] == lines[k + 1]);
            }
        }
        lemma_split_join(tail);
        lemma_join_from_cons(lines[0], tail, 1);
        assert(lines =~= seq![lines[0]] + tail);
        assert(join_lines(lines) == lines[0] + seq!['\n'] + join_from(lines, 1));
        assert(join_from(lines, 1) == join_lines(tail));
        lemma_split_cons(lines[0], join_lines(tail));
        assert(split_lines(join_lines(lines)) =~= lines);
    }
}

/// The line holding character position `pos`, counted from line `i` with
/// `pos` relative to line `i`'s start. A line owns its characters and its
/// terminating newline; the last line also owns the end-of-text position.
pub open spec fn line_of_from(lines: Seq<Seq<char>>, i: int, pos: int) -> int
    decreases lines.len() - i,
{
    if i < 0 || i >= lines.len() - 1 {
        i
    } else if pos <= lines[i].len() {
        i
    } else {
        line_of_from(lines, i + 1, pos - lines[i].len() - 1)
    }
}

/// The line holding character position `pos` of the joined text.
pub open spec fn line_of(lines: Seq<Seq<char>>, pos: int) -> int {
    line_of_from(lines, 0, pos)
}

/// `line_of_from` grows with the position.
pub proof fn lemma_line_of_mono(lines: Seq<Seq<char>>, i: int, p: int, q: int)
    requires
        lines.len() >= 1,
        0 <= i < lines.len(),
        p <= q,
    ensures
        line_of_from(lines, i, p) <= line_of_from(lines, i, q),
    decreases lines.len() - i,
{
    if i < lines.len() - 1 && p > lines[i].len() {
        lemma_line_of_mono(lines, i + 1, p - lines[i].len() - 1, q - lines[i].len() - 1);
    } else if i < lines.len() - 1 && q > lines[i].len() {
        lemma_line_of_bounds(lines, i + 1, q - lines[i].len() - 1);
    }
}

pub proof fn lemma_line_of_bounds(lines: Seq<Seq<char>>, i: int, pos: int)
    requires
        lines.len() >= 1,
        0 <= i < lines.len(),
    ensures
        i <= line_of_from(lines, i, pos) < lines.len(),
    decreases lines.len() - i,
{
    if i < lines.len() - 1 && pos > lines[i].len() {
        lemma_line_of_bounds(lines, i + 1, pos - lines[i].len() - 1);
    }
}

/// An immutable snapshot of a document: its lines, none holding a newline.
pub struct Document {
    lines: Vec<Vec<char>>,
}

impl View for Document {
    type V = Seq<Seq<char>>;

    closed spec fn view(&self) -> Seq<Seq<char>> {
        seq_view(self.lines@)
    }
}

impl Document {
    /// A document is well formed when its line list is, and its text fits in
    /// memory (which holds of every document built from an actual text).
    pub open spec fn wf(self) -> bool {
        lines_wf(self@) && join_lines(self@).len() <= usize::MAX
    }

    /// Builds the document whose text is `text`, splitting at newlines.
    pub fn from_chars(text: &Vec<char>) -> (d: Document)
        ensures
            d@ == split_lines(text@),
            d.wf(),
            join_lines(d@) == text@,
    {
        let n = text.len();
        let mut lines: Vec<Vec<char>> = Vec::new();
        let mut cur: Vec<char> = Vec::new();
        proof {
            assert(cur@ + text@.subrange(0, n as int) =~= text@);
            assert(seq_view(lines@) + split_lines(cur@ + text@.subrange(0, n as int))
                =~~= split_lines(text@));
        }
        let mut k: usize = 0;
        while k < n
            invariant
                k <= n,
                n == text@.len(),
                line_wf(cur@),
                split_lines(text@) == seq_view(lines@)
                    + split_lines(cur@ + text@.subrange(k as int, n as int)),
            decreases n - k,
        {
            let c = text[k];
            if c == '\n' {
                proof {
                    lemma_split_cons(cur@, text@.subrange(k + 1, n as int));
                    assert(cur@ + text@.subrange(k as int, n as int)
                        =~= cur@ + seq!['\n'] + text@.subrange(k + 1, n as int));
                }
                let done = cur;
                cur = Vec::new();
                let ghost old_lines = lines@;
                lines.push(done);
                proof {
                    assert(seq_view(lines@) =~= seq_view(old_lines).push(done@));
                    assert(seq_view(old_lines) + (seq![done@] + split_lines(text@.subrange(k + 1, n as int)))
                        =~= seq_view(lines@) + split_lines(text@.subrange(k + 1, n as int)));
                    assert(cur@ + text@.subrange(k + 1, n as int)
                        =~= text@.subrange(k + 1, n as int));
                }
            } else {
                let ghost old_cur = cur@;
                cur.push(c);
                proof {
                    assert(cur@ + text@.subrange(k + 1, n as int)
                        =~= old_cur + text@.subrange(k as int, n as int));
                }
            }
            k = k + 1;
        }
        proof {
            assert(cur@ + text@.subrange(n as int, n as int) =~= cur@);
            lemma_split_one(cur@);
        }
        let ghost old_lines = lines@;
        lines.push(cur);
        let d = Document { lines };
        proof {
            assert(d@ =~= seq_view(old_lines).push(d.lines@[old_lines.len() as int]@));
            assert(d@ =~= split_lines(text@));
            lemma_split_wf(text@);
            lemma_join_split(text@);
        }
        d
    }

    /// The number of lines; at least one on a well-formed document.
    pub fn line_count(&self) -> (r: usize)
        ensures
            r == self@.len(),
    {
        self.lines.len()
    }

    /// Line `i`'s characters, without its terminating newline.
    pub fn line(&self, i: usize) -> (r: &Vec<char>)
        requires
            i < self@.len(),
        ensures
            r@ == self@[i as int],
    {
        &self.lines[i]
    }

    /// The document's text: its lines joined by newlines.
    pub fn to_chars(&self) -> (r: Vec<char>)
        requires
            self.wf(),
        ensures
            r@ == join_lines(self@),
    {
        let ghost text = join_lines(self@);
        let n = self.lines.len();
        let mut r: Vec<char> = Vec::new();
        let mut i: usize = 0;
        while i < n
            invariant
                i <= n,
                n == self@.len(),
                self.wf(),
                text == join_lines(self@),
                i < n ==> 0 <= line_start(self@, i as int) <= text.len(),
                r@ == text.subrange(
                    0,
                    if i == n { text.len() as int } else { line_start(self@, i as int) },
                ),
            decreases n - i,
        {
            proof {
                lemma_line_at(self@, i as int);
            }
            let m = self.lines[i].len();
            let mut j: usize = 0;
            while j < m
                invariant
                    j <= m,
                    i < n,
                    n == self@.len(),
                    m == self@[i as int].len(),
                    self.wf(),
                    text == join_lines(self@),
                    0 <= line_start(self@, i as int),
                    line_start(self@, i as int) + m <= text.len(),
                    forall|k: int| 0 <= k < m
                        ==> text[line_start(self@, i as int) + k] == self@[i as int][k],
                    i < n - 1 ==> text[line_start(self@, i as int) + m] == '\n',
                    r@ == text.subrange(0, line_start(self@, i as int) + j),
                decreases m - j,
            {
                let c = self.lines[i][j];
                proof {
                    assert(c == self@[i as int][j as int]);
                    assert(c == text[line_start(self@, i as int) + j]);
                }
                r.push(c);
                proof {
                    let s0 = line_start(self@, i as int);
                    assert(text.subrange(0, s0 + j).len() == s0 + j);
                    assert(r@ =~= text.subrange(0, s0 + j + 1));
                }
                j = j + 1;
            }
            if i + 1 < n {
                r.push('\n');
                proof {
                    assert(line_start(self@, i + 1) == line_start(self@, i as int) + m + 1);
                    lemma_suffix(self@, i + 1);
                    assert(r@ =~= text.subrange(0, line_start(self@, i + 1)));
                }
            } else {
                proof {
                    assert(line_start(self@, i as int) + m == text.len());
                    assert(r@ == text.subrange(0, text.len() as int));
                }
            }
            i = i + 1;
        }
        proof {
            assert(r@ =~= text);
        }
        r
    }

    /// The text's length in characters.
    pub fn len_chars(&self) -> (r: usize)
        requires
            self.wf(),
        ensures
            r == join_lines(self@).len(),
    {
        let n = self.lines.len();
        let mut acc: usize = 0;
        let mut i: usize = 0;
        while i < n - 1
            invariant
                i <= n - 1,
                n == self@.len(),
                self.wf(),
                acc == line_start(self@, i as int),
            decreases n - i,
        {
            proof {
                lemma_line_at(self@, i as int);
                lemma_suffix(self@, i + 1);
            }
            acc = acc + self.lines[i].len() + 1;
            i = i + 1;
        }
        proof {
            lemma_line_at(self@, n - 1);
        }
        acc + self.lines[n - 1].len()
    }

    /// The character offset at which line `line` starts.
    pub fn line_to_char(&self, line: usize) -> (r: usize)
        requires
            self.wf(),
            line < self@.len(),
        ensures
            r == line_start(self@, line as int),
    {
        let mut acc: usize = 0;
        let mut i: usize = 0;
        while i < line
            invariant
                i <= line,
                line < self@.len(),
                self.wf(),
                acc == line_start(self@, i as int),
            decreases line - i,
        {
            proof {
                lemma_line_at(self@, i as int);
                lemma_suffix(self@, i + 1);
            }
            acc = acc + self.lines[i].len() + 1;
            i = i + 1;
        }
        acc
    }

    /// The line holding character position `pos`.
    pub fn char_to_line(&self, pos: usize) -> (r: usize)
        requires
            self.wf(),
            pos <= join_lines(self@).len(),
        ensures
            r == line_of(self@, pos as int),
            r < self@.len(),
    {
        let n = self.lines.len();
        let mut i: usize = 0;
        let mut rem: usize = pos;
        while i < n - 1 && rem > self.lines[i].len()
            invariant
                i <= n - 1,
                n == self@.len(),
                self.wf(),
                line_of(self@, pos as int) == line_of_from(self@, i as int, rem as int),
            decreases n - i,
        {
            rem = rem - (self.lines[i].len() + 1);
            i = i + 1;
        }
        proof {
            lemma_line_of_bounds(self@, 0, pos as int);
        }
        i
    }
}

} // verus!
