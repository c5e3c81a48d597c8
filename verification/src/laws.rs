//! The library's laws: properties of the classifier and the toggle, stated
//! over the same spec functions the public contracts use, and proved once and
//! for all inputs they name.

use vstd::prelude::*;
use crate::text::{is_blank, is_ws, indent_of, spaces, lemma_indent_of, lemma_indent_unique};
use crate::document::{
    lines_wf, line_wf, join_lines, join_from, line_start, split_lines, lemma_line_at,
    lemma_suffix, lemma_split_join, lemma_line_start_mono,
};
use crate::comment::{
    all_commented, all_spaced, nonblank_lines, min_indent, line_has_token, space_after_token,
    token_frag, insertion_text, toggle_changes_ok, lemma_to_change_facts, lemma_has_token_extent,
    merged_lines, lemma_merged_props,
};
use crate::selection::Selection;
use crate::transaction::{Change, ins_text, apply_changes, apply_changes_from};

verus! {

/// Blank lines are neutral: they never appear among the lines to change, and
/// removing them from the chosen lines changes neither the commented flag,
/// nor the margin, nor the least indentation column.
pub proof fn lemma_blank_line_neutrality(doc: Seq<Seq<char>>, token: Seq<char>, ls: Seq<usize>)
    ensures
        forall|j: int| 0 <= j < nonblank_lines(doc, ls).len()
            ==> !is_blank(doc[#[trigger] nonblank_lines(doc, ls)[j] as int]),
        all_commented(doc, token, ls) == all_commented(doc, token, nonblank_lines(doc, ls)),
        all_spaced(doc, token, ls) == all_spaced(doc, token, nonblank_lines(doc, ls)),
        min_indent(doc, ls) == min_indent(doc, nonblank_lines(doc, ls)),
        nonblank_lines(doc, nonblank_lines(doc, ls)) == nonblank_lines(doc, ls),
    decreases ls.len(),
{
    if ls.len() == 0 {
        assert(nonblank_lines(doc, ls) =~= Seq::<usize>::empty());
    } else {
        let pre = ls.drop_last();
        let last = ls.last();
        assert(pre.push(last) =~= ls);
        lemma_blank_line_neutrality(doc, token, pre);
        crate::comment::lemma_classify_push(doc, token, pre, last);
        let tcp = nonblank_lines(doc, pre);
        if is_blank(doc[last as int]) {
            assert(nonblank_lines(doc, ls) == tcp);
        } else {
            assert(nonblank_lines(doc, ls) == tcp.push(last));
            crate::comment::lemma_classify_push(doc, token, tcp, last);
        }
    }
}

/// Round-trip deletion: when the classifier finds the chosen lines commented,
/// then on every line to change whose token sits exactly at the least
/// indentation column, the span of `token length + margin` characters there is
/// exactly the token followed by `margin` spaces — so deleting it leaves the
/// line's own indentation and comment body, and splicing it back restores the
/// line. A commented line indented deeper than the least column is left out:
/// there the deletion would remove whitespace, not the token.
pub proof fn lemma_round_trip_deletion(
    doc: Seq<Seq<char>>,
    token: Seq<char>,
    ls: Seq<usize>,
    j: int,
)
    requires
        forall|i1: int, i2: int| 0 <= i1 < i2 < ls.len() ==> ls[i1] < ls[i2],
        all_commented(doc, token, ls),
        0 <= j < nonblank_lines(doc, ls).len(),
        indent_of(doc[nonblank_lines(doc, ls)[j] as int]) == min_indent(doc, ls),
    ensures
        ({
            let l = doc[nonblank_lines(doc, ls)[j] as int];
            let minc = min_indent(doc, ls);
            let margin: int = if all_spaced(doc, token, ls) {
                1
            } else {
                0
            };
            &&& minc + token.len() + margin <= l.len()
            &&& l.subrange(minc, minc + token.len() as int + margin) == token + spaces(margin)
            &&& l == l.subrange(0, minc) + token + spaces(margin) + l.subrange(
                minc + token.len() as int + margin,
                l.len() as int,
            )
        }),
{
    lemma_to_change_facts(doc, token, ls);
    let l = doc[nonblank_lines(doc, ls)[j] as int];
    let minc = min_indent(doc, ls);
    let margin: int = if all_spaced(doc, token, ls) {
        1
    } else {
        0
    };
    assert(line_has_token(l, token));
    lemma_has_token_extent(l, token);
    if margin == 1 {
        assert(space_after_token(l, token.len() as int));
    }
    assert(l.subrange(minc, minc + token.len() as int + margin) =~= token + spaces(margin));
    assert(l =~= l.subrange(0, minc) + token + spaces(margin) + l.subrange(
        minc + token.len() as int + margin,
        l.len() as int,
    ));
}

/// Suffix joins agree when the lines agree from `i` on.
proof fn lemma_join_from_pointwise(a: Seq<Seq<char>>, b: Seq<Seq<char>>, i: int)
    requires
        a.len() == b.len(),
        forall|x: int| i <= x < a.len() ==> a[x] == b[x],
    ensures
        join_from(a, i) == join_from(b, i),
    decreases a.len() - i,
{
    if 0 <= i < a.len() - 1 {
        lemma_join_from_pointwise(a, b, i + 1);
    }
}

/// The text from offset `k` of line `i` up to a position past line `i`'s end
/// is the rest of line `i`, the newline, and the text from line `i + 1` on.
proof fn lemma_text_step(doc: Seq<Seq<char>>, i: int, k: int, f: int)
    requires
        lines_wf(doc),
        0 <= i < doc.len() - 1,
        0 <= k <= doc[i].len(),
        line_start(doc, i + 1) <= f <= join_lines(doc).len(),
    ensures
        join_lines(doc).subrange(line_start(doc, i) + k, f) == doc[i].subrange(
            k,
            doc[i].len() as int,
        ) + seq!['\n'] + join_lines(doc).subrange(line_start(doc, i + 1), f),
{
    let text = join_lines(doc);
    let s = line_start(doc, i);
    let m = doc[i].len() as int;
    lemma_line_at(doc, i);
    assert(line_start(doc, i + 1) == s + m + 1);
    assert(text.subrange(s + k, f) =~= doc[i].subrange(k, m) + seq!['\n'] + text.subrange(
        s + m + 1,
        f,
    )) by {
        assert forall|q: int| 0 <= q < f - s - k implies #[trigger] text.subrange(s + k, f)[q] == (
        doc[i].subrange(k, m) + seq!['\n'] + text.subrange(s + m + 1, f))[q] by {
            if q < m - k {
                assert(text[s + (k + q)] == doc[i][k + q]);
            } else if q == m - k {
                assert(text[s + m] == '\n');
            }
        }
    }
}

/// Every non-blank chosen line is among the lines to change.
proof fn lemma_nonblank_complete(doc: Seq<Seq<char>>, ls: Seq<usize>, i: int)
    requires
        0 <= i < ls.len(),
        !is_blank(doc[ls[i] as int]),
    ensures
        nonblank_lines(doc, ls).contains(ls[i]),
    decreases ls.len(),
{
    let tc = nonblank_lines(doc, ls);
    if i == ls.len() - 1 {
        assert(tc[tc.len() - 1] == ls[i]);
    } else {
        let pre = ls.drop_last();
        assert(pre[i] == ls[i]);
        lemma_nonblank_complete(doc, pre, i);
        let w = choose|w: int|
            0 <= w < nonblank_lines(doc, pre).len() && nonblank_lines(doc, pre)[w] == ls[i];
        assert(tc[w] == ls[i]);
    }
}

/// Two documents that agree on which chosen lines are blank keep the same
/// lines to change.
proof fn lemma_nonblank_same(a: Seq<Seq<char>>, b: Seq<Seq<char>>, ls: Seq<usize>)
    requires
        forall|i: int| 0 <= i < ls.len()
            ==> is_blank(a[#[trigger] ls[i] as int]) == is_blank(b[ls[i] as int]),
    ensures
        nonblank_lines(a, ls) == nonblank_lines(b, ls),
    decreases ls.len(),
{
    if ls.len() > 0 {
        let pre = ls.drop_last();
        assert forall|i: int| 0 <= i < pre.len() implies is_blank(a[#[trigger] pre[i] as int])
            == is_blank(b[pre[i] as int]) by {
            assert(pre[i] == ls[i]);
        }
        lemma_nonblank_same(a, b, pre);
    }
}

/// When every chosen non-blank line has indentation column `v`, the least
/// indentation column is `v` (or the sentinel when there is no such line).
proof fn lemma_min_uniform(doc: Seq<Seq<char>>, ls: Seq<usize>, v: int)
    requires
        0 <= v < usize::MAX,
        forall|i: int| 0 <= i < ls.len() && !is_blank(doc[#[trigger] ls[i] as int])
            ==> indent_of(doc[ls[i] as int]) == v,
    ensures
        nonblank_lines(doc, ls).len() > 0 ==> min_indent(doc, ls) == v,
        nonblank_lines(doc, ls).len() == 0 ==> min_indent(doc, ls) == usize::MAX,
    decreases ls.len(),
{
    if ls.len() > 0 {
        let pre = ls.drop_last();
        assert forall|i: int| 0 <= i < pre.len() && !is_blank(doc[#[trigger] pre[i] as int])
            implies indent_of(doc[pre[i] as int]) == v by {
            assert(pre[i] == ls[i]);
        }
        lemma_min_uniform(doc, pre, v);
    }
}

/// A line after the toggle's edit at column `minc`: the deletion of the token
/// and the margin, or the insertion of the token and one space.
pub open spec fn edited_line(
    l: Seq<char>,
    token: Seq<char>,
    minc: int,
    commented: bool,
    margin: int,
) -> Seq<char> {
    if commented {
        l.subrange(0, minc) + l.subrange(minc + token.len() + margin, l.len() as int)
    } else {
        l.subrange(0, minc) + insertion_text(token) + l.subrange(minc, l.len() as int)
    }
}

/// The document after the toggle: every line to change edited at the least
/// indentation column, every other line kept.
pub open spec fn edited_doc(doc: Seq<Seq<char>>, token: Seq<char>, ls: Seq<usize>) -> Seq<
    Seq<char>,
> {
    let tc = nonblank_lines(doc, ls);
    let minc = min_indent(doc, ls);
    let commented = all_commented(doc, token, ls);
    let margin: int = if all_spaced(doc, token, ls) {
        1
    } else {
        0
    };
    Seq::new(
        doc.len(),
        |x: int|
            if tc.contains(x as usize) {
                edited_line(doc[x], token, minc, commented, margin)
            } else {
                doc[x]
            },
    )
}

/// The hypotheses the toggle theorems share: well-formed lines, and a chosen
/// line list that is strictly ascending and within the document — what the
/// toggle's own merge produces.
pub open spec fn toggle_ctx(doc: Seq<Seq<char>>, ls: Seq<usize>) -> bool {
    &&& lines_wf(doc)
    &&& doc.len() <= usize::MAX
    &&& forall|i: int| 0 <= i < ls.len() ==> (#[trigger] ls[i]) < doc.len()
    &&& forall|i1: int, i2: int| 0 <= i1 < i2 < ls.len() ==> ls[i1] < ls[i2]
}

/// What remains of the toggled text from offset `k` of line `i` on, when the
/// changes before index `j` in the change order are already consumed.
spec fn tail_claim(doc: Seq<Seq<char>>, token: Seq<char>, ls: Seq<usize>, i: int, k: int, j: int)
    -> Seq<char> {
    let tc = nonblank_lines(doc, ls);
    let minc = min_indent(doc, ls);
    let commented = all_commented(doc, token, ls);
    let margin: int = if all_spaced(doc, token, ls) {
        1
    } else {
        0
    };
    let l = doc[i];
    let line_rest = if j < tc.len() && tc[j] == i {
        if commented {
            l.subrange(k, minc) + l.subrange(minc + token.len() + margin, l.len() as int)
        } else {
            l.subrange(k, minc) + insertion_text(token) + l.subrange(minc, l.len() as int)
        }
    } else {
        l.subrange(k, l.len() as int)
    };
    if i < doc.len() - 1 {
        line_rest + seq!['\n'] + join_from(edited_doc(doc, token, ls), i + 1)
    } else {
        line_rest
    }
}

/// Applying the toggle's remaining changes from offset `k` of line `i` yields
/// the toggled text of the remaining lines.
#[verifier::rlimit(100)]
#[verifier::spinoff_prover]
proof fn lemma_apply_tail(
    doc: Seq<Seq<char>>,
    token: Seq<char>,
    ls: Seq<usize>,
    cs: Seq<Change>,
    i: int,
    k: int,
    j: int,
)
    requires
        toggle_ctx(doc, ls),
        toggle_changes_ok(doc, token, ls, cs),
        0 <= i < doc.len(),
        0 <= k <= doc[i].len(),
        0 <= j <= nonblank_lines(doc, ls).len(),
        forall|x: int| j <= x < nonblank_lines(doc, ls).len()
            ==> i <= #[trigger] nonblank_lines(doc, ls)[x],
        forall|x: int| 0 <= x < j ==> #[trigger] nonblank_lines(doc, ls)[x] <= i,
        j < nonblank_lines(doc, ls).len() && nonblank_lines(doc, ls)[j] == i ==> k <= min_indent(
            doc,
            ls,
        ),
    ensures
        apply_changes_from(
            join_lines(doc),
            cs.subrange(j, cs.len() as int),
            line_start(doc, i) + k,
        ) == tail_claim(doc, token, ls, i, k, j),
    decreases nonblank_lines(doc, ls).len() - j, doc.len() - i,
{
    lemma_to_change_facts(doc, token, ls);
    let text = join_lines(doc);
    let tc = nonblank_lines(doc, ls);
    let m = tc.len();
    let minc = min_indent(doc, ls);
    let commented = all_commented(doc, token, ls);
    let margin: int = if all_spaced(doc, token, ls) {
        1
    } else {
        0
    };
    let edited = edited_doc(doc, token, ls);
    let suf = cs.subrange(j, m as int);
    lemma_line_at(doc, i);
    if j == m {
        // No change left: the rest of the text is untouched, and no line at or
        // past `i + 1` is edited.
        assert forall|x: int| i + 1 <= x < doc.len() implies edited[x] == doc[x] by {
            if tc.contains(x as usize) {
                let w = choose|w: int| 0 <= w < tc.len() && tc[w] == x as usize;
                assert(tc[w] <= i);
            }
        }
        lemma_join_from_pointwise(edited, doc, i + 1);
        lemma_suffix(doc, i);
        let tail = join_from(doc, i);
        if i < doc.len() - 1 {
            assert(tail == doc[i] + seq!['\n'] + join_from(doc, i + 1));
            assert(text.subrange(line_start(doc, i) + k, text.len() as int) =~= tail.subrange(
                k,
                tail.len() as int,
            ));
            assert(tail.subrange(k, tail.len() as int) =~= doc[i].subrange(k, doc[i].len() as int)
                + seq!['\n'] + join_from(doc, i + 1));
        } else {
            assert(tail == doc[i]);
            assert(text.subrange(line_start(doc, i) + k, text.len() as int) =~= doc[i].subrange(
                k,
                doc[i].len() as int,
            ));
        }
    } else {
        let lj = tc[j];
        let c = cs[j as int];
        assert(c.from == line_start(doc, lj as int) + minc);
        assert(suf[0] == c);
        assert(suf.drop_first() =~= cs.subrange(j + 1, m as int));
        lemma_line_at(doc, lj as int);
        lemma_indent_of(doc[lj as int]);
        if commented {
            lemma_has_token_extent(doc[lj as int], token);
            assert(line_start(doc, lj as int) + minc + token.len() + margin <= line_start(
                doc,
                lj as int,
            ) + doc[lj as int].len());
        }
        if lj == i {
            // The next change edits this very line at column `minc`.
            let kp: int = if commented {
                minc + token.len() + margin
            } else {
                minc
            };
            assert(c.to == line_start(doc, i) + kp);
            assert forall|x: int| j + 1 <= x < m implies i <= #[trigger] tc[x] by {
                assert(tc[j] < tc[x]);
            }
            assert forall|x: int| 0 <= x < j + 1 implies #[trigger] tc[x] <= i by {
                if x == j {
                    assert(tc[x] == i);
                }
            }
            if j + 1 < m && tc[j + 1] == i {
                assert(tc[j] < tc[j + 1]);
                assert(false);
            }
            lemma_apply_tail(doc, token, ls, cs, i, kp, j + 1);
            assert(text.subrange(line_start(doc, i) + k, c.from as int) =~= doc[i].subrange(
                k,
                minc,
            ));
            assert(apply_changes_from(text, suf, line_start(doc, i) + k) == text.subrange(
                line_start(doc, i) + k,
                c.from as int,
            ) + ins_text(c) + tail_claim(doc, token, ls, i, kp, j + 1));
            if commented {
                assert(ins_text(c) =~= Seq::<char>::empty());
                assert(apply_changes_from(text, suf, line_start(doc, i) + k) =~= tail_claim(
                    doc,
                    token,
                    ls,
                    i,
                    k,
                    j,
                ));
            } else {
                assert(ins_text(c) == insertion_text(token));
                assert(apply_changes_from(text, suf, line_start(doc, i) + k) =~= tail_claim(
                    doc,
                    token,
                    ls,
                    i,
                    k,
                    j,
                ));
            }
        } else {
            // The next change sits on a later line: peel line `i` off whole.
            assert(i < lj);
            assert(i < doc.len() - 1);
            lemma_line_start_mono(doc, i + 1, lj as int);
            assert(line_start(doc, lj as int) + doc[lj as int].len() <= text.len());
            assert(c.from <= c.to <= text.len()) by {
                if !commented {
                    assert(c.to == c.from);
                }
            }
            lemma_text_step(doc, i, k, c.from as int);
            lemma_apply_tail(doc, token, ls, cs, i + 1, 0, j);
            // Both cursors face the same first change; the nearer one sees the
            // rest of line `i` and the newline first.
            assert(apply_changes_from(text, suf, line_start(doc, i) + k) =~= doc[i].subrange(
                k,
                doc[i].len() as int,
            ) + seq!['\n'] + apply_changes_from(text, suf, line_start(doc, i + 1)));
            // The claim one line down begins with line `i + 1` edited or kept.
            let lp = doc[i + 1];
            if j < m && tc[j] == i + 1 {
                assert(tc.contains((i + 1) as usize)) by {
                    assert(tc[j] == (i + 1) as usize);
                }
                assert(edited[i + 1] == edited_line(lp, token, minc, commented, margin));
                assert(lp.subrange(0, lp.len() as int) =~= lp);
                assert(tail_claim(doc, token, ls, i + 1, 0, j) =~= join_from(edited, i + 1));
            } else {
                assert(!tc.contains((i + 1) as usize)) by {
                    if tc.contains((i + 1) as usize) {
                        let w = choose|w: int| 0 <= w < tc.len() && tc[w] == (i + 1) as usize;
                        if w < j {
                            assert(tc[w] <= i);
                        } else {
                            assert(tc[j] <= tc[w]);
                        }
                    }
                }
                assert(edited[i + 1] == lp);
                assert(lp.subrange(0, lp.len() as int) =~= lp);
                assert(tail_claim(doc, token, ls, i + 1, 0, j) =~= join_from(edited, i + 1));
            }
            assert(tail_claim(doc, token, ls, i, k, j) =~= doc[i].subrange(
                k,
                doc[i].len() as int,
            ) + seq!['\n'] + tail_claim(doc, token, ls, i + 1, 0, j));
        }
    }
}

/// The toggle's transaction, applied to the document's text, yields exactly
/// the text of the document with each line to change edited at the least
/// indentation column.
pub proof fn lemma_toggle_applies_by_lines(
    doc: Seq<Seq<char>>,
    token: Seq<char>,
    ls: Seq<usize>,
    cs: Seq<Change>,
)
    requires
        toggle_ctx(doc, ls),
        toggle_changes_ok(doc, token, ls, cs),
    ensures
        apply_changes(join_lines(doc), cs) == join_lines(edited_doc(doc, token, ls)),
{
    lemma_to_change_facts(doc, token, ls);
    let text = join_lines(doc);
    let tc = nonblank_lines(doc, ls);
    let edited = edited_doc(doc, token, ls);
    let minc = min_indent(doc, ls);
    let commented = all_commented(doc, token, ls);
    let margin: int = if all_spaced(doc, token, ls) {
        1
    } else {
        0
    };
    if tc.len() == 0 {
        assert(cs.len() == 0);
        assert(apply_changes(text, cs) == text.subrange(0, text.len() as int));
        assert(text.subrange(0, text.len() as int) =~= text);
        assert forall|x: int| 0 <= x < doc.len() implies edited[x] == doc[x] by {
            if tc.contains(x as usize) {
                let w = choose|w: int| 0 <= w < tc.len() && tc[w] == x as usize;
            }
        }
        lemma_join_from_pointwise(edited, doc, 0);
    } else {
        lemma_apply_tail(doc, token, ls, cs, 0, 0, 0);
        assert(cs.subrange(0, cs.len() as int) =~= cs);
        assert(line_start(doc, 0) == 0);
        let l0 = doc[0];
        if tc[0] == 0 {
            assert(tc.contains(0usize)) by {
                assert(tc[0] == 0usize);
            }
            assert(edited[0] == edited_line(l0, token, minc, commented, margin));
            assert(l0.subrange(0, l0.len() as int) =~= l0);
            assert(tail_claim(doc, token, ls, 0, 0, 0) =~= join_from(edited, 0));
        } else {
            assert(!tc.contains(0usize)) by {
                if tc.contains(0usize) {
                    let w = choose|w: int| 0 <= w < tc.len() && tc[w] == 0usize;
                    if w > 0 {
                        assert(tc[0] < tc[w]);
                    }
                    assert(tc[0] <= tc[w]);
                }
            }
            assert(edited[0] == l0);
            assert(l0.subrange(0, l0.len() as int) =~= l0);
            assert(tail_claim(doc, token, ls, 0, 0, 0) =~= join_from(edited, 0));
        }
    }
}

/// What inserting the token and one space at column `minc` does to a
/// non-blank line at least that indented: the new line keeps its prefix and
/// body, starts its token at column `minc`, is commented with margin 1, and
/// deleting the token and one space there restores the line exactly.
proof fn lemma_inserted_line_props(l: Seq<char>, token: Seq<char>, minc: int, margin: int)
    requires
        line_wf(l),
        !is_blank(l),
        0 <= minc <= indent_of(l),
        token.len() >= 1,
        !is_ws(token[0]),
        forall|q: int| 0 <= q < token.len() ==> token[q] != '\n',
    ensures
        ({
            let e = edited_line(l, token, minc, false, margin);
            &&& e.len() == l.len() + token.len() + 1
            &&& line_wf(e)
            &&& !is_blank(e)
            &&& indent_of(e) == minc
            &&& line_has_token(e, token)
            &&& space_after_token(e, token.len() as int)
            &&& edited_line(e, token, minc, true, 1) == l
        }),
{
    let e = edited_line(l, token, minc, false, margin);
    let tl = token.len() as int;
    lemma_indent_of(l);
    assert(e == l.subrange(0, minc) + (token + seq![' ']) + l.subrange(minc, l.len() as int));
    assert(e.len() == l.len() + tl + 1);
    assert forall|q: int| 0 <= q < minc implies e[q] == l[q] by {
        assert(e[q] == l.subrange(0, minc)[q]);
    }
    assert forall|q: int| 0 <= q < tl implies e[minc + q] == token[q] by {
        assert(e[minc + q] == (token + seq![' '])[q]);
    }
    assert(e[minc + tl] == (token + seq![' '])[tl]);
    assert(e[minc + tl] == ' ');
    assert forall|q: int| 0 <= q < l.len() - minc implies e[minc + tl + 1 + q] == #[trigger] l[minc
        + q] by {
        assert(e[minc + tl + 1 + q] == l.subrange(minc, l.len() as int)[q]);
    }
    assert(line_wf(e)) by {
        assert forall|q: int| 0 <= q < e.len() implies e[q] != '\n' by {
            if q < minc {
            } else if q < minc + tl {
                assert(e[q] == token[q - minc]);
            } else if q == minc + tl {
            } else {
                assert(e[q] == l[minc + (q - minc - tl - 1)]);
            }
        }
    }
    assert(!is_blank(e)) by {
        assert(e[minc] == token[0]);
        assert(!is_ws(e[minc]));
    }
    lemma_indent_unique(e, minc);
    assert(line_has_token(e, token)) by {
        assert(minc + tl <= e.len());
        assert(token_frag(e, minc, tl) =~= token);
    }
    assert(space_after_token(e, tl));
    let back = edited_line(e, token, minc, true, 1);
    assert(back == e.subrange(0, minc) + e.subrange(minc + tl + 1, e.len() as int));
    assert(back =~= l);
}

/// Involution: toggling an uncommented line set twice, with the same token
/// and the same merged line set, restores the document text exactly. The
/// first toggle inserts the token and one space on every line to change; the
/// second finds those very lines commented at a uniform column with margin 1
/// and removes exactly what was inserted. A document whose lines are already
/// commented is left out: one toggle strips one level of comment there, and
/// toggling again inserts at possibly different columns (`"  //x"`, margin 0,
/// becomes `"  x"` and then `"  // x"`).
#[verifier::rlimit(100)]
#[verifier::spinoff_prover]
pub proof fn lemma_toggle_involution(
    doc: Seq<Seq<char>>,
    token: Seq<char>,
    ls: Seq<usize>,
    cs1: Seq<Change>,
    cs2: Seq<Change>,
)
    requires
        toggle_ctx(doc, ls),
        join_lines(doc).len() <= usize::MAX,
        token.len() >= 1,
        !is_ws(token[0]),
        forall|q: int| 0 <= q < token.len() ==> token[q] != '\n',
        !all_commented(doc, token, ls) || nonblank_lines(doc, ls).len() == 0,
        toggle_changes_ok(doc, token, ls, cs1),
        toggle_changes_ok(split_lines(apply_changes(join_lines(doc), cs1)), token, ls, cs2),
    ensures
        apply_changes(join_lines(split_lines(apply_changes(join_lines(doc), cs1))), cs2)
            == join_lines(doc),
{
    let text = join_lines(doc);
    let tc = nonblank_lines(doc, ls);
    let minc = min_indent(doc, ls);
    let margin: int = if all_spaced(doc, token, ls) {
        1
    } else {
        0
    };
    lemma_to_change_facts(doc, token, ls);
    lemma_toggle_applies_by_lines(doc, token, ls, cs1);
    let e1 = edited_doc(doc, token, ls);
    let d2txt = apply_changes(text, cs1);
    assert(d2txt == join_lines(e1));
    if tc.len() == 0 {
        assert(cs1.len() == 0);
        assert forall|x: int| 0 <= x < doc.len() implies e1[x] == doc[x] by {
            if tc.contains(x as usize) {
                let w = choose|w: int| 0 <= w < tc.len() && tc[w] == x as usize;
            }
        }
        assert(e1 =~= doc);
        crate::document::lemma_split_join(doc);
        assert(split_lines(d2txt) == doc);
        assert(nonblank_lines(doc, ls).len() == 0);
        assert(cs2.len() == 0);
        assert(apply_changes(join_lines(doc), cs2) =~= join_lines(doc));
    } else {
        assert(!all_commented(doc, token, ls));
        // Each changed line gains the token and one space at column `minc`.
        assert(0 <= minc < usize::MAX) by {
            lemma_line_at(doc, tc[0] as int);
            lemma_indent_of(doc[tc[0] as int]);
        }
        assert forall|j: int| 0 <= j < tc.len() implies {
            let x = #[trigger] tc[j];
            let e = e1[x as int];
            &&& e == edited_line(doc[x as int], token, minc, false, margin)
            &&& line_wf(e)
            &&& !is_blank(e)
            &&& indent_of(e) == minc
            &&& line_has_token(e, token)
            &&& space_after_token(e, token.len() as int)
            &&& edited_line(e, token, minc, true, 1) == doc[x as int]
        } by {
            let x = tc[j];
            assert(tc.contains(x)) by {
                assert(tc[j] == x);
            }
            assert(e1[x as int] == edited_line(doc[x as int], token, minc, false, margin));
            lemma_inserted_line_props(doc[x as int], token, minc, margin);
        }
        // Lines outside the changed set are untouched; chosen ones are blank.
        assert forall|x: int| 0 <= x < doc.len() && !tc.contains(x as usize)
            implies e1[x] == doc[x] by {}
        assert forall|i: int| 0 <= i < ls.len() && !tc.contains(#[trigger] ls[i])
            implies is_blank(doc[ls[i] as int]) by {
            if !is_blank(doc[ls[i] as int]) {
                lemma_nonblank_complete(doc, ls, i);
            }
        }
        // The toggled document is well formed, so splitting its text gives its
        // lines back.
        assert(lines_wf(e1)) by {
            assert forall|x: int| 0 <= x < e1.len() implies line_wf(e1[x]) by {
                if tc.contains(x as usize) {
                    let w = choose|w: int| 0 <= w < tc.len() && tc[w] == x as usize;
                    assert(e1[x] == e1[tc[w] as int]);
                }
            }
        }
        crate::document::lemma_split_join(e1);
        let d2 = split_lines(d2txt);
        assert(d2 == e1);
        // The second toggle classifies the same lines: commented, margin 1,
        // at the same least column.
        assert forall|i: int| 0 <= i < ls.len() implies is_blank(
            e1[#[trigger] ls[i] as int],
        ) == is_blank(doc[ls[i] as int]) by {
            if tc.contains(ls[i]) {
                let w = choose|w: int| 0 <= w < tc.len() && tc[w] == ls[i];
                assert(!is_blank(e1[tc[w] as int]));
                assert(!is_blank(doc[tc[w] as int]));
            }
        }
        lemma_nonblank_same(doc, e1, ls);
        assert(nonblank_lines(e1, ls) == tc);
        assert forall|i: int| 0 <= i < ls.len() && !is_blank(e1[#[trigger] ls[i] as int])
            implies indent_of(e1[ls[i] as int]) == minc && line_has_token(e1[ls[i] as int], token)
                && space_after_token(e1[ls[i] as int], token.len() as int) by {
            assert(!is_blank(doc[ls[i] as int]));
            lemma_nonblank_complete(doc, ls, i);
            let w = choose|w: int| 0 <= w < tc.len() && tc[w] == ls[i];
        }
        assert(all_commented(e1, token, ls));
        assert(all_spaced(e1, token, ls));
        lemma_min_uniform(e1, ls, minc);
        assert(min_indent(e1, ls) == minc);
        // The second toggle undoes the first, line by line.
        assert(toggle_ctx(e1, ls));
        lemma_toggle_applies_by_lines(e1, token, ls, cs2);
        let e2 = edited_doc(e1, token, ls);
        assert(apply_changes(join_lines(e1), cs2) == join_lines(e2));
        assert forall|x: int| 0 <= x < doc.len() implies e2[x] == doc[x] by {
            if tc.contains(x as usize) {
                let w = choose|w: int| 0 <= w < tc.len() && tc[w] == x as usize;
                assert(e2[x] == edited_line(e1[x], token, minc, true, 1));
                assert(e1[tc[w] as int] == e1[x]);
                assert(edited_line(e1[tc[w] as int], token, minc, true, 1) == doc[tc[w] as int]);
            } else {
                assert(e2[x] == e1[x]);
            }
        }
        lemma_join_from_pointwise(e2, doc, 0);
        assert(join_lines(e2) == join_lines(doc));
    }
}

/// The merged line set of a sorted selection satisfies the toggle theorems'
/// hypotheses: it is strictly ascending and lies within the document.
pub proof fn lemma_merged_ctx(doc: Seq<Seq<char>>, sel: Selection)
    requires
        lines_wf(doc),
        doc.len() <= usize::MAX,
        sel.sorted(),
    ensures
        toggle_ctx(doc, merged_lines(doc, sel)),
{
    if sel.ranges@.len() > 0 {
        let r0 = sel.ranges@[0];
        let last0 = if r0.to_pos() > r0.from_pos() {
            r0.to_pos() - 1
        } else {
            r0.to_pos()
        };
        crate::document::lemma_line_of_bounds(doc, 0, last0);
    }
    lemma_merged_props(doc, sel.ranges@, 0, 0);
}

} // verus!
