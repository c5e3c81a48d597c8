//! Toggling line comments over a selection, matching a comment token on a
//! line, and continuing a comment onto a new line.

use vstd::prelude::*;
use crate::text::{
    is_blank, indent_of, ws_after, spaces, seq_view, find_first_non_whitespace_char,
    count_whitespace_after, lemma_indent_of, lemma_ws_run_bound,
};
use crate::document::{Document, join_lines, line_start, lemma_line_at};
use crate::selection::{Selection, line_range_of};
use crate::transaction::{Change, Transaction, ins_text};

verus! {

/// The fragment of `l` that starts at `pos` and is `tl` characters long,
/// clipped to the end of the line.
pub open spec fn token_frag(l: Seq<char>, pos: int, tl: int) -> Seq<char> {
    l.subrange(
        pos,
        if pos + tl <= l.len() {
            pos + tl
        } else {
            l.len() as int
        },
    )
}

/// A non-blank line carries the token when the fragment at its indentation
/// column equals the token.
pub open spec fn line_has_token(l: Seq<char>, token: Seq<char>) -> bool {
    !is_blank(l) && token_frag(l, indent_of(l), token.len() as int) == token
}

/// On a non-blank line: the character right after the token-sized fragment at
/// the indentation column exists and is a space.
pub open spec fn space_after_token(l: Seq<char>, tl: int) -> bool {
    indent_of(l) + tl < l.len() && l[indent_of(l) + tl] == ' '
}

/// A line that carries a non-empty token spans at least the token's length
/// past its indentation column.
pub proof fn lemma_has_token_extent(l: Seq<char>, token: Seq<char>)
    requires
        line_has_token(l, token),
    ensures
        0 <= indent_of(l),
        indent_of(l) + token.len() <= l.len(),
        forall|j: int| 0 <= j < token.len() ==> l[indent_of(l) + j] == token[j],
{
    lemma_indent_of(l);
    let frag = token_frag(l, indent_of(l), token.len() as int);
    assert(frag.len() == token.len());
    assert forall|j: int| 0 <= j < token.len() implies l[indent_of(l) + j] == token[j] by {
        assert(frag[j] == l[indent_of(l) + j]);
    }
}

/// Every chosen non-blank line carries the token.
pub open spec fn all_commented(doc: Seq<Seq<char>>, token: Seq<char>, ls: Seq<usize>) -> bool {
    forall|i: int| 0 <= i < ls.len() && !is_blank(doc[#[trigger] ls[i] as int])
        ==> line_has_token(doc[ls[i] as int], token)
}

/// Classifier margin: every chosen non-blank line has a space right after its
/// token-sized fragment. The margin is 1 exactly when this holds.
pub open spec fn all_spaced(doc: Seq<Seq<char>>, token: Seq<char>, ls: Seq<usize>) -> bool {
    forall|i: int| 0 <= i < ls.len() && !is_blank(doc[#[trigger] ls[i] as int])
        ==> space_after_token(doc[ls[i] as int], token.len() as int)
}

/// The chosen lines that are not blank, in their given order.
pub open spec fn nonblank_lines(doc: Seq<Seq<char>>, ls: Seq<usize>) -> Seq<usize>
    decreases ls.len(),
{
    if ls.len() == 0 {
        Seq::empty()
    } else {
        let rest = nonblank_lines(doc, ls.drop_last());
        if is_blank(doc[ls.last() as int]) {
            rest
        } else {
            rest.push(ls.last())
        }
    }
}

/// The least indentation column among the chosen non-blank lines, with
/// `usize::MAX` as the sentinel when there is none.
pub open spec fn min_indent(doc: Seq<Seq<char>>, ls: Seq<usize>) -> int
    decreases ls.len(),
{
    if ls.len() == 0 {
        usize::MAX as int
    } else {
        let rest = min_indent(doc, ls.drop_last());
        let l = doc[ls.last() as int];
        if is_blank(l) {
            rest
        } else if indent_of(l) < rest {
            indent_of(l)
        } else {
            rest
        }
    }
}

/// How one more chosen line extends each classifier quantity.
pub proof fn lemma_classify_push(doc: Seq<Seq<char>>, token: Seq<char>, pre: Seq<usize>, l: usize)
    ensures
        all_commented(doc, token, pre.push(l)) == (all_commented(doc, token, pre) && (is_blank(
            doc[l as int],
        ) || line_has_token(doc[l as int], token))),
        all_spaced(doc, token, pre.push(l)) == (all_spaced(doc, token, pre) && (is_blank(
            doc[l as int],
        ) || space_after_token(doc[l as int], token.len() as int))),
        nonblank_lines(doc, pre.push(l)) == if is_blank(doc[l as int]) {
            nonblank_lines(doc, pre)
        } else {
            nonblank_lines(doc, pre).push(l)
        },
        min_indent(doc, pre.push(l)) == if !is_blank(doc[l as int]) && indent_of(doc[l as int])
            < min_indent(doc, pre) {
            indent_of(doc[l as int])
        } else {
            min_indent(doc, pre)
        },
{
    let post = pre.push(l);
    assert(post.drop_last() =~= pre);
    assert(post.last() == l);
    if all_commented(doc, token, post) {
        assert forall|i: int| 0 <= i < pre.len() && !is_blank(doc[#[trigger] pre[i] as int])
            implies line_has_token(doc[pre[i] as int], token) by {
            assert(post[i] == pre[i]);
        }
        assert(post[pre.len() as int] == l);
    }
    if all_commented(doc, token, pre) && (is_blank(doc[l as int]) || line_has_token(
        doc[l as int],
        token,
    )) {
        assert forall|i: int| 0 <= i < post.len() && !is_blank(doc[#[trigger] post[i] as int])
            implies line_has_token(doc[post[i] as int], token) by {
            if i < pre.len() {
                assert(post[i] == pre[i]);
            } else {
                assert(post[i] == l);
            }
        }
    }
    if all_spaced(doc, token, post) {
        assert forall|i: int| 0 <= i < pre.len() && !is_blank(doc[#[trigger] pre[i] as int])
            implies space_after_token(doc[pre[i] as int], token.len() as int) by {
            assert(post[i] == pre[i]);
        }
        assert(post[pre.len() as int] == l);
    }
    if all_spaced(doc, token, pre) && (is_blank(doc[l as int]) || space_after_token(
        doc[l as int],
        token.len() as int,
    )) {
        assert forall|i: int| 0 <= i < post.len() && !is_blank(doc[#[trigger] post[i] as int])
            implies space_after_token(doc[post[i] as int], token.len() as int) by {
            if i < pre.len() {
                assert(post[i] == pre[i]);
            } else {
                assert(post[i] == l);
            }
        }
    }
}

/// Whether the clipped fragment of `line` at `pos` equals `token`.
fn frag_eq(line: &Vec<char>, pos: usize, token: &Vec<char>) -> (r: bool)
    requires
        pos <= line@.len(),
    ensures
        r == (token_frag(line@, pos as int, token@.len() as int) == token@),
{
    let tl = token.len();
    let ghost frag = token_frag(line@, pos as int, token@.len() as int);
    if tl > line.len() - pos {
        proof {
            assert(frag.len() < token@.len());
        }
        return false;
    }
    let mut j: usize = 0;
    while j < tl
        invariant
            j <= tl,
            tl == token@.len(),
            pos + tl <= line@.len(),
            line@.len() <= usize::MAX,
            forall|x: int| 0 <= x < j ==> line@[pos + x] == token@[x],
        decreases tl - j,
    {
        if line[pos + j] != token[j] {
            proof {
                assert(token_frag(line@, pos as int, token@.len() as int)[j as int]
                    == line@[pos + j]);
            }
            return false;
        }
        j = j + 1;
    }
    proof {
        assert(token_frag(line@, pos as int, token@.len() as int) =~= token@);
    }
    true
}

/// Classifies the chosen lines against one token. Returns, in order: whether
/// the lines are collectively commented (every non-blank line carries the
/// token), the lines to change (the non-blank ones, in order), the least
/// indentation column among them (`usize::MAX` when there are none), and the
/// margin: 1 when every non-blank line has a space right after its token
/// fragment, else 0. Blank lines are skipped entirely and every line is
/// always scanned.
pub fn find_line_comment(token: &Vec<char>, doc: &Document, lines: &Vec<usize>) -> (r: (
    bool,
    Vec<usize>,
    usize,
    usize,
))
    requires
        doc.wf(),
        forall|i: int| 0 <= i < lines@.len() ==> (#[trigger] lines@[i]) < doc@.len(),
    ensures
        r.0 == all_commented(doc@, token@, lines@),
        r.1@ == nonblank_lines(doc@, lines@),
        r.2 == min_indent(doc@, lines@),
        r.3 == if all_spaced(doc@, token@, lines@) {
            1int
        } else {
            0int
        },
{
    let token_len = token.len();
    let mut commented = true;
    let mut to_change: Vec<usize> = Vec::new();
    let mut min: usize = usize::MAX;
    let mut margin: usize = 1;
    let n = lines.len();
    let mut k: usize = 0;
    proof {
        assert(lines@.subrange(0, 0) =~= Seq::<usize>::empty());
    }
    while k < n
        invariant
            k <= n,
            n == lines@.len(),
            doc.wf(),
            token_len == token@.len(),
            forall|i: int| 0 <= i < lines@.len() ==> (#[trigger] lines@[i]) < doc@.len(),
            commented == all_commented(doc@, token@, lines@.subrange(0, k as int)),
            to_change@ == nonblank_lines(doc@, lines@.subrange(0, k as int)),
            min == min_indent(doc@, lines@.subrange(0, k as int)),
            (if all_spaced(doc@, token@, lines@.subrange(0, k as int)) {
                1int
            } else {
                0int
            }) == margin,
        decreases n - k,
    {
        let ghost pre = lines@.subrange(0, k as int);
        let line_idx = lines[k];
        proof {
            assert(lines@.subrange(0, k + 1) =~= pre.push(line_idx));
            lemma_classify_push(doc@, token@, pre, line_idx);
        }
        let line_slice = doc.line(line_idx);
        match find_first_non_whitespace_char(line_slice) {
            Option::None => {},
            Option::Some(pos) => {
                proof {
                    lemma_indent_of(line_slice@);
                }
                if pos < min {
                    min = pos;
                }
                if !frag_eq(line_slice, pos, token) {
                    commented = false;
                }
                let len = line_slice.len();
                let has_space = token_len < len - pos && line_slice[pos + token_len] == ' ';
                if !has_space {
                    margin = 0;
                }
                to_change.push(line_idx);
            },
        }
        k = k + 1;
    }
    proof {
        assert(lines@.subrange(0, n as int) =~= lines@);
    }
    (commented, to_change, min, margin)
}

/// The last token in the list, in its given order, that matches at the line's
/// indentation column.
pub open spec fn last_match(l: Seq<char>, tokens: Seq<Seq<char>>) -> Option<int>
    decreases tokens.len(),
{
    if tokens.len() == 0 {
        Option::None
    } else if line_has_token(l, tokens.last()) {
        Option::Some(tokens.len() - 1)
    } else {
        last_match(l, tokens.drop_last())
    }
}

/// What the token matcher returns: the index of the last matching token, and
/// the column of that token's final character.
pub open spec fn match_result(l: Seq<char>, tokens: Seq<Seq<char>>) -> Option<(int, int)> {
    match last_match(l, tokens) {
        Option::None => Option::None,
        Option::Some(i) => Option::Some((i, indent_of(l) + tokens[i].len() - 1)),
    }
}

/// A blank line matches no token.
pub proof fn lemma_blank_no_match(l: Seq<char>, tokens: Seq<Seq<char>>)
    requires
        is_blank(l),
    ensures
        last_match(l, tokens) is None,
    decreases tokens.len(),
{
    if tokens.len() > 0 {
        lemma_blank_no_match(l, tokens.drop_last());
    }
}

/// A successful match names a real token that the line carries.
pub proof fn lemma_last_match_valid(l: Seq<char>, tokens: Seq<Seq<char>>)
    ensures
        match last_match(l, tokens) {
            Option::Some(i) => 0 <= i < tokens.len() && line_has_token(l, tokens[i]),
            Option::None => true,
        },
    decreases tokens.len(),
{
    if tokens.len() > 0 && !line_has_token(l, tokens.last()) {
        lemma_last_match_valid(l, tokens.drop_last());
        if last_match(l, tokens.drop_last()) is Some {
            let i = last_match(l, tokens.drop_last())->Some_0;
            assert(tokens.drop_last()[i] == tokens[i]);
        }
    }
}

/// The comment token of the line, if the line is commented: the index into
/// `tokens` of the last matching token (callers order the list so that the
/// last match is the preferred one), and the column of the last character of
/// that token. `None` when the token list is empty, the line is blank, or no
/// token matches at the line's indentation column.
pub fn get_comment_token_and_position(doc: &Document, line: usize, tokens: &Vec<Vec<char>>) -> (r:
    Option<(usize, usize)>)
    requires
        doc.wf(),
        line < doc@.len(),
        forall|i: int| 0 <= i < tokens@.len() ==> (#[trigger] tokens@[i])@.len() >= 1,
    ensures
        match r {
            Option::Some((i, p)) => match_result(doc@[line as int], seq_view(tokens@))
                == Option::Some((i as int, p as int)),
            Option::None => match_result(doc@[line as int], seq_view(tokens@)) is None,
        },
        tokens@.len() == 0 || is_blank(doc@[line as int]) ==> r is None,
{
    let ghost l = doc@[line as int];
    let ghost toks = seq_view(tokens@);
    let n = tokens.len();
    if n == 0 {
        return Option::None;
    }
    let line_slice = doc.line(line);
    let mut result: Option<(usize, usize)> = Option::None;
    match find_first_non_whitespace_char(line_slice) {
        Option::None => {
            proof {
                lemma_blank_no_match(l, toks);
            }
        },
        Option::Some(pos) => {
            proof {
                lemma_indent_of(l);
                assert(toks.subrange(0, 0) =~= Seq::<Seq<char>>::empty());
            }
            let line_len = line_slice.len();
            let mut k: usize = 0;
            while k < n
                invariant
                    k <= n,
                    n == tokens@.len(),
                    line_len == l.len(),
                    doc.wf(),
                    line < doc@.len(),
                    l == doc@[line as int],
                    toks == seq_view(tokens@),
                    line_slice@ == l,
                    !is_blank(l),
                    pos == indent_of(l),
                    pos <= l.len(),
                    forall|i: int| 0 <= i < tokens@.len()
                        ==> (#[trigger] tokens@[i])@.len() >= 1,
                    match result {
                        Option::Some((i, p)) => i < k && last_match(l, toks.subrange(0, k as int))
                            == Option::Some(i as int) && p == pos + toks[i as int].len() - 1,
                        Option::None => last_match(l, toks.subrange(0, k as int)) is None,
                    },
                decreases n - k,
            {
                let ghost pre = toks.subrange(0, k as int);
                proof {
                    assert(toks.subrange(0, k + 1).drop_last() =~= pre);
                    assert(toks.subrange(0, k + 1).last() == toks[k as int]);
                    assert(toks[k as int] == tokens@[k as int]@);
                }
                let tok = &tokens[k];
                if frag_eq(line_slice, pos, tok) {
                    proof {
                        assert(token_frag(l, pos as int, tok@.len() as int).len()
                            == tok@.len());
                        assert(pos + tok@.len() <= line_len);
                    }
                    result = Option::Some((k, pos + tok.len() - 1));
                }
                k = k + 1;
            }
            proof {
                assert(toks.subrange(0, n as int) =~= toks);
            }
        },
    }
    result
}

/// The continuation prefix for a new line that splits the given line: the
/// matched token followed by its alignment whitespace, or empty when no token
/// matches. The whitespace is one space when nothing, or no whitespace,
/// follows the token on the source line; otherwise one more space than the
/// whitespace scanner counts, aligning the continuation with the source
/// comment's body.
pub open spec fn continuation_of(l: Seq<char>, tokens: Seq<Seq<char>>) -> Seq<char> {
    match match_result(l, tokens) {
        Option::None => Seq::empty(),
        Option::Some((i, p)) => tokens[i] + (match ws_after(l, p) {
            Option::None => spaces(1),
            Option::Some(c) => spaces(c + 1),
        }),
    }
}

/// The text to prepend to the new line that continues the line at `line_idx`;
/// empty when that line carries no comment token. See `continuation_of`.
pub fn handle_comment_continue(doc: &Document, line_idx: usize, tokens: &Vec<Vec<char>>) -> (r:
    Vec<char>)
    requires
        doc.wf(),
        line_idx < doc@.len(),
        forall|i: int| 0 <= i < tokens@.len() ==> (#[trigger] tokens@[i])@.len() >= 1,
    ensures
        r@ == continuation_of(doc@[line_idx as int], seq_view(tokens@)),
{
    let ghost l = doc@[line_idx as int];
    let ghost toks = seq_view(tokens@);
    let mut r: Vec<char> = Vec::new();
    match get_comment_token_and_position(doc, line_idx, tokens) {
        Option::None => {
            proof {
                assert(r@ =~= continuation_of(l, toks));
            }
        },
        Option::Some((i, p)) => {
            proof {
                lemma_last_match_valid(l, toks);
                lemma_has_token_extent(l, toks[i as int]);
                assert(toks[i as int] == tokens@[i as int]@);
            }
            let tok = &tokens[i];
            let tl = tok.len();
            let mut j: usize = 0;
            while j < tl
                invariant
                    j <= tl,
                    tl == tok@.len(),
                    r@ == tok@.subrange(0, j as int),
                decreases tl - j,
            {
                r.push(tok[j]);
                proof {
                    assert(r@ =~= tok@.subrange(0, j + 1));
                }
                j = j + 1;
            }
            proof {
                assert(r@ =~= tok@);
            }
            let line_slice = doc.line(line_idx);
            let line_len = line_slice.len();
            match count_whitespace_after(line_slice, p) {
                Option::None => {
                    r.push(' ');
                    proof {
                        assert(r@ =~= tok@ + spaces(1));
                    }
                },
                Option::Some(c) => {
                    proof {
                        lemma_ws_run_bound(l, p + 1);
                        assert(c + 1 <= line_len);
                    }
                    let total = c + 1;
                    let mut x: usize = 0;
                    while x < total
                        invariant
                            x <= total,
                            r@ == tok@ + spaces(x as int),
                        decreases total - x,
                    {
                        r.push(' ');
                        proof {
                            assert(r@ =~= tok@ + spaces(x + 1));
                        }
                        x = x + 1;
                    }
                },
            }
        },
    }
    r
}

/// Ascending line indices `a`, `a + 1`, ..., `b - 1`.
pub open spec fn line_seq(a: int, b: int) -> Seq<usize> {
    if b <= a {
        Seq::empty()
    } else {
        Seq::new((b - a) as nat, |k: int| (a + k) as usize)
    }
}

/// The merged line set of the selection's ranges from index `i` on, under a
/// watermark: each range's line span is clamped below by the watermark, which
/// then advances past the span, so no line is taken twice.
pub open spec fn merged_from(
    lines: Seq<Seq<char>>,
    rs: Seq<crate::selection::CharRange>,
    i: int,
    wm: int,
) -> Seq<usize>
    decreases rs.len() - i,
{
    if i < 0 || i >= rs.len() {
        Seq::empty()
    } else {
        let (s, e) = line_range_of(lines, rs[i]);
        let s2 = if s < wm {
            wm
        } else {
            s
        };
        let e2 = if e + 1 < lines.len() {
            e + 1
        } else {
            lines.len() as int
        };
        line_seq(s2, e2) + merged_from(lines, rs, i + 1, e2)
    }
}

/// The merged, deduplicated line set of a whole selection.
pub open spec fn merged_lines(lines: Seq<Seq<char>>, sel: Selection) -> Seq<usize> {
    merged_from(lines, sel.ranges@, 0, 0)
}

/// Merged lines of a sorted selection are strictly ascending, within the
/// document, and at or past the watermark.
pub proof fn lemma_merged_props(
    lines: Seq<Seq<char>>,
    rs: Seq<crate::selection::CharRange>,
    i: int,
    wm: int,
)
    requires
        lines.len() >= 1,
        lines.len() <= usize::MAX,
        0 <= wm <= lines.len(),
        forall|j1: int, j2: int|
            i <= j1 < j2 < rs.len()
                ==> (#[trigger] rs[j1]).from_pos() <= (#[trigger] rs[j2]).from_pos()
                    && rs[j1].to_pos() <= rs[j2].to_pos(),
        0 <= i < rs.len() ==> wm <= line_range_of(lines, rs[i]).1 + 1,
    ensures
        forall|j: int| 0 <= j < merged_from(lines, rs, i, wm).len()
            ==> wm <= #[trigger] merged_from(lines, rs, i, wm)[j] < lines.len(),
        forall|j1: int, j2: int|
            0 <= j1 < j2 < merged_from(lines, rs, i, wm).len()
                ==> merged_from(lines, rs, i, wm)[j1] < merged_from(lines, rs, i, wm)[j2],
    decreases rs.len() - i,
{
    if 0 <= i < rs.len() {
        let m = merged_from(lines, rs, i, wm);
        let (s, e) = line_range_of(lines, rs[i]);
        crate::document::lemma_line_of_bounds(lines, 0, rs[i].from_pos());
        let last = if rs[i].to_pos() > rs[i].from_pos() {
            rs[i].to_pos() - 1
        } else {
            rs[i].to_pos()
        };
        crate::document::lemma_line_of_bounds(lines, 0, last);
        let s2 = if s < wm {
            wm
        } else {
            s
        };
        let e2 = if e + 1 < lines.len() {
            e + 1
        } else {
            lines.len() as int
        };
        let head = line_seq(s2, e2);
        let tail = merged_from(lines, rs, i + 1, e2);
        if i + 1 < rs.len() {
            let next_last = if rs[i + 1].to_pos() > rs[i + 1].from_pos() {
                rs[i + 1].to_pos() - 1
            } else {
                rs[i + 1].to_pos()
            };
            assert(rs[i].from_pos() <= rs[i + 1].from_pos());
            assert(rs[i].to_pos() <= rs[i + 1].to_pos());
            assert(last <= next_last);
            crate::document::lemma_line_of_mono(lines, 0, last, next_last);
            crate::document::lemma_line_of_bounds(lines, 0, next_last);
        }
        lemma_merged_props(lines, rs, i + 1, e2);
        assert forall|j: int| 0 <= j < m.len() implies wm <= #[trigger] m[j] < lines.len() by {
            if j < head.len() {
                assert(m[j] == head[j]);
            } else {
                assert(m[j] == tail[j - head.len()]);
            }
        }
        assert forall|j1: int, j2: int| 0 <= j1 < j2 < m.len() implies m[j1] < m[j2] by {
            if j2 < head.len() {
                assert(m[j1] == head[j1]);
                assert(m[j2] == head[j2]);
            } else if j1 < head.len() {
                assert(m[j1] == head[j1]);
                assert(m[j2] == tail[j2 - head.len()]);
                assert(head[j1] < e2);
                assert(e2 <= tail[j2 - head.len()]);
            } else {
                assert(m[j1] == tail[j1 - head.len()]);
                assert(m[j2] == tail[j2 - head.len()]);
            }
        }
    }
}

/// What holds of every line the classifier keeps: it is one of the chosen
/// lines, not blank, at least as indented as the minimum, carrying the token
/// when the set is commented and a trailing space when the margin is 1; and
/// the kept lines inherit the chosen lines\u{2019} strict order.
pub proof fn lemma_to_change_facts(doc: Seq<Seq<char>>, token: Seq<char>, ls: Seq<usize>)
    requires
        forall|i1: int, i2: int| 0 <= i1 < i2 < ls.len() ==> ls[i1] < ls[i2],
    ensures
        0 <= min_indent(doc, ls),
        forall|j: int| 0 <= j < nonblank_lines(doc, ls).len() ==> {
            let l = #[trigger] nonblank_lines(doc, ls)[j];
            &&& !is_blank(doc[l as int])
            &&& min_indent(doc, ls) <= indent_of(doc[l as int])
            &&& exists|i: int| 0 <= i < ls.len() && ls[i] == l
            &&& (all_commented(doc, token, ls) ==> line_has_token(doc[l as int], token))
            &&& (all_spaced(doc, token, ls) ==> space_after_token(doc[l as int], token.len() as int))
        },
        forall|j1: int, j2: int|
            0 <= j1 < j2 < nonblank_lines(doc, ls).len()
                ==> nonblank_lines(doc, ls)[j1] < nonblank_lines(doc, ls)[j2],
    decreases ls.len(),
{
    if ls.len() > 0 {
        let pre = ls.drop_last();
        let last = ls.last();
        let tc = nonblank_lines(doc, ls);
        let tcp = nonblank_lines(doc, pre);
        assert forall|i1: int, i2: int| 0 <= i1 < i2 < pre.len() implies pre[i1] < pre[i2] by {
            assert(pre[i1] == ls[i1]);
            assert(pre[i2] == ls[i2]);
        }
        lemma_to_change_facts(doc, token, pre);
        if !is_blank(doc[last as int]) {
            lemma_indent_of(doc[last as int]);
        }
        if all_commented(doc, token, ls) {
            assert forall|i: int| 0 <= i < pre.len() && !is_blank(doc[#[trigger] pre[i] as int])
                implies line_has_token(doc[pre[i] as int], token) by {
                assert(pre[i] == ls[i]);
            }
        }
        if all_spaced(doc, token, ls) {
            assert forall|i: int| 0 <= i < pre.len() && !is_blank(doc[#[trigger] pre[i] as int])
                implies space_after_token(doc[pre[i] as int], token.len() as int) by {
                assert(pre[i] == ls[i]);
            }
        }
        assert(min_indent(doc, ls) <= min_indent(doc, pre));
        assert forall|j: int| 0 <= j < tc.len() implies {
            let l = #[trigger] tc[j];
            &&& !is_blank(doc[l as int])
            &&& min_indent(doc, ls) <= indent_of(doc[l as int])
            &&& exists|i: int| 0 <= i < ls.len() && ls[i] == l
            &&& (all_commented(doc, token, ls) ==> line_has_token(doc[l as int], token))
            &&& (all_spaced(doc, token, ls) ==> space_after_token(doc[l as int], token.len() as int))
        } by {
            if j < tcp.len() {
                assert(tc[j] == tcp[j]);
                let w = choose|i: int| 0 <= i < pre.len() && pre[i] == tcp[j];
                assert(ls[w] == tc[j]);
            } else {
                assert(!is_blank(doc[last as int]));
                assert(tc[j] == last);
                assert(ls[ls.len() - 1] == last);
                if all_commented(doc, token, ls) {
                    assert(line_has_token(doc[last as int], token));
                }
                if all_spaced(doc, token, ls) {
                    assert(space_after_token(doc[last as int], token.len() as int));
                }
            }
        }
        assert forall|j1: int, j2: int| 0 <= j1 < j2 < tc.len() implies tc[j1] < tc[j2] by {
            if j2 < tcp.len() {
                assert(tc[j1] == tcp[j1]);
                assert(tc[j2] == tcp[j2]);
            } else if !is_blank(doc[last as int]) && j2 == tcp.len() {
                assert(tc[j1] == tcp[j1]);
                assert(tc[j2] == last);
                let w = choose|i: int| 0 <= i < pre.len() && pre[i] == tcp[j1];
                assert(ls[w] == tcp[j1]);
                assert(ls[w] < ls[ls.len() - 1]);
            }
        }
    }
}

/// The token in force: the given one, or the canonical two-character default.
pub open spec fn spec_token(token: Option<&Vec<char>>) -> Seq<char> {
    match token {
        Option::Some(t) => t@,
        Option::None => seq!['/', '/'],
    }
}

/// The text inserted to comment a line: the token and one space.
pub open spec fn insertion_text(token: Seq<char>) -> Seq<char> {
    token + seq![' ']
}

/// What the toggle's transaction holds, given the merged line set `ls`: one
/// change per non-blank chosen line, in order. When the lines are not all
/// commented, each change inserts the token and a space at the least
/// indentation column; when they are, each change deletes the token's length
/// plus the margin starting there.
pub open spec fn toggle_changes_ok(
    doc: Seq<Seq<char>>,
    token: Seq<char>,
    ls: Seq<usize>,
    cs: Seq<Change>,
) -> bool {
    let tc = nonblank_lines(doc, ls);
    let minc = min_indent(doc, ls);
    let commented = all_commented(doc, token, ls);
    let margin: int = if all_spaced(doc, token, ls) {
        1
    } else {
        0
    };
    &&& cs.len() == tc.len()
    &&& forall|j: int| 0 <= j < tc.len() ==> {
        let pos = line_start(doc, tc[j] as int) + minc;
        let c = #[trigger] cs[j];
        if commented {
            c.from == pos && c.to == pos + token.len() + margin && c.insert is None
        } else {
            c.from == pos && c.to == pos && ins_text(c) == insertion_text(token)
        }
    }
}

/// A copy of a character vector.
fn copy_chars(v: &Vec<char>) -> (r: Vec<char>)
    ensures
        r@ == v@,
{
    let n = v.len();
    let mut r: Vec<char> = Vec::new();
    let mut k: usize = 0;
    while k < n
        invariant
            k <= n,
            n == v@.len(),
            r@ == v@.subrange(0, k as int),
        decreases n - k,
    {
        r.push(v[k]);
        proof {
            assert(r@ =~= v@.subrange(0, k + 1));
        }
        k = k + 1;
    }
    proof {
        assert(r@ =~= v@);
    }
    r
}

/// The transaction that toggles line comments over the selection: merges the
/// selected line ranges, classifies the merged lines against the token (the
/// canonical two-character default when none is given), and then either
/// comments every non-blank merged line or uncomments them all. A selection
/// covering only blank lines yields an empty transaction.
pub fn toggle_line_comments(doc: &Document, selection: &Selection, token: Option<&Vec<char>>) -> (t:
    Transaction)
    requires
        doc.wf(),
        selection.wf(join_lines(doc@).len() as int),
        selection.sorted(),
    ensures
        toggle_changes_ok(doc@, spec_token(token), merged_lines(doc@, *selection), t.changes@),
        t.wf(join_lines(doc@).len() as int),
    {
    let ghost text_len = join_lines(doc@).len() as int;
    let tok: Vec<char> = match token {
        Option::Some(t) => copy_chars(t),
        Option::None => {
            let mut d: Vec<char> = Vec::new();
            d.push('/');
            d.push('/');
            proof {
                assert(d@ =~= seq!['/', '/']);
            }
            d
        },
    };
    let mut comment_text = copy_chars(&tok);
    comment_text.push(' ');
    proof {
        assert(comment_text@ =~= insertion_text(spec_token(token)));
    }
    let n_lines = doc.line_count();
    let nr = selection.len();
    let mut lines: Vec<usize> = Vec::new();
    let mut wm: usize = 0;
    let mut i: usize = 0;
    while i < nr
        invariant
            i <= nr,
            nr == selection.ranges@.len(),
            doc.wf(),
            selection.wf(text_len),
            text_len == join_lines(doc@).len(),
            n_lines == doc@.len(),
            wm <= n_lines,
            forall|j: int| 0 <= j < lines@.len() ==> (#[trigger] lines@[j]) < n_lines,
            merged_lines(doc@, *selection) == lines@ + merged_from(
                doc@,
                selection.ranges@,
                i as int,
                wm as int,
            ),
        decreases nr - i,
    {
        let (s, e) = selection.line_range(i, doc);
        let s2 = if s < wm {
            wm
        } else {
            s
        };
        let e2 = if e + 1 < n_lines {
            e + 1
        } else {
            n_lines
        };
        let ghost before = lines@;
        proof {
            assert(before + line_seq(s2 as int, s2 as int) =~= before);
        }
        let mut x: usize = s2;
        while x < e2
            invariant
                s2 <= x,
                x <= e2 || x == s2,
                e2 <= n_lines,
                n_lines == doc@.len(),
                forall|j: int| 0 <= j < lines@.len() ==> (#[trigger] lines@[j]) < n_lines,
                lines@ == before + line_seq(s2 as int, x as int),
            decreases e2 - x,
        {
            lines.push(x);
            proof {
                assert(lines@ =~= before + line_seq(s2 as int, x + 1));
            }
            x = x + 1;
        }
        proof {
            assert(merged_from(doc@, selection.ranges@, i as int, wm as int) == line_seq(
                s2 as int,
                e2 as int,
            ) + merged_from(doc@, selection.ranges@, i + 1, e2 as int));
            assert(before + line_seq(s2 as int, e2 as int) + merged_from(
                doc@,
                selection.ranges@,
                i + 1,
                e2 as int,
            ) =~= before + (line_seq(s2 as int, e2 as int) + merged_from(
                doc@,
                selection.ranges@,
                i + 1,
                e2 as int,
            )));
        }
        wm = e2;
        i = i + 1;
    }
    proof {
        assert(merged_from(doc@, selection.ranges@, nr as int, wm as int)
            =~= Seq::<usize>::empty());
        assert(lines@ + Seq::<usize>::empty() =~= lines@);
        assert(lines@ == merged_lines(doc@, *selection));
    }
    let (commented, to_change, min, margin) = find_line_comment(&tok, doc, &lines);
    let ghost merged = lines@;
    let ghost tokv = spec_token(token);
    proof {
        assert(doc@.len() == n_lines);
        if selection.ranges@.len() > 0 {
            let r0 = selection.ranges@[0];
            let last0 = if r0.to_pos() > r0.from_pos() {
                r0.to_pos() - 1
            } else {
                r0.to_pos()
            };
            crate::document::lemma_line_of_bounds(doc@, 0, last0);
        }
        lemma_merged_props(doc@, selection.ranges@, 0, 0);
        lemma_to_change_facts(doc@, tokv, merged);
    }
    let ghost tc = nonblank_lines(doc@, merged);
    let tok_len = tok.len();
    let m = to_change.len();
    let mut changes: Vec<Change> = Vec::new();
    let mut k: usize = 0;
    while k < m
        invariant
            k <= m,
            m == tc.len(),
            to_change@ == tc,
            doc.wf(),
            text_len == join_lines(doc@).len(),
            tok@ == tokv,
            tok_len == tokv.len(),
            comment_text@ == insertion_text(tokv),
            commented == all_commented(doc@, tokv, merged),
            min == min_indent(doc@, merged),
            margin == if all_spaced(doc@, tokv, merged) {
                1int
            } else {
                0int
            },
            forall|j: int| 0 <= j < tc.len() ==> {
                let l = #[trigger] tc[j];
                &&& l < doc@.len()
                &&& !is_blank(doc@[l as int])
                &&& min_indent(doc@, merged) <= indent_of(doc@[l as int])
                &&& (all_commented(doc@, tokv, merged) ==> line_has_token(doc@[l as int], tokv))
                &&& (all_spaced(doc@, tokv, merged) ==> space_after_token(
                    doc@[l as int],
                    tokv.len() as int,
                ))
            },
            forall|j1: int, j2: int| 0 <= j1 < j2 < tc.len() ==> tc[j1] < tc[j2],
            changes@.len() == k,
            forall|j: int| 0 <= j < k ==> {
                let pos = line_start(doc@, tc[j] as int) + min_indent(doc@, merged);
                let c = #[trigger] changes@[j];
                if all_commented(doc@, tokv, merged) {
                    c.from == pos && c.to == pos + tokv.len() + (if all_spaced(
                        doc@,
                        tokv,
                        merged,
                    ) {
                        1int
                    } else {
                        0int
                    }) && c.insert is None
                } else {
                    c.from == pos && c.to == pos && ins_text(c) == insertion_text(tokv)
                }
            },
            forall|j: int| 0 <= j < k
                ==> (#[trigger] changes@[j]).from <= changes@[j].to
                    && changes@[j].to <= line_start(doc@, tc[j] as int)
                        + doc@[tc[j] as int].len(),
        decreases m - k,
    {
        let l = to_change[k];
        proof {
            lemma_line_at(doc@, l as int);
            lemma_indent_of(doc@[l as int]);
        }
        let pos = doc.line_to_char(l) + min;
        if !commented {
            changes.push(Change { from: pos, to: pos, insert: Option::Some(copy_chars(&comment_text)) });
        } else {
            proof {
                lemma_has_token_extent(doc@[l as int], tokv);
            }
            let del_to = pos + tok_len + margin;
            changes.push(Change { from: pos, to: del_to, insert: Option::None });
        }
        k = k + 1;
    }
    proof {
        assert forall|j: int| 0 <= j < changes@.len()
            implies (#[trigger] changes@[j]).from <= changes@[j].to <= text_len by {
            lemma_line_at(doc@, tc[j] as int);
        }
        assert forall|j: int| 0 <= j < changes@.len() - 1
            implies (#[trigger] changes@[j]).to <= changes@[j + 1].from by {
            let la: usize = tc[j];
            let lb: usize = tc[j + 1];
            lemma_line_at(doc@, la as int);
            crate::document::lemma_line_start_mono(doc@, la + 1, lb as int);
        }
    }
    Transaction::from_changes(changes)
}

} // verus!
