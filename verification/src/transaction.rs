//! Edit transactions: an ordered, non-overlapping list of changes applied
//! atomically to a document's text, plus the mapping of character positions
//! through the edit.

use vstd::prelude::*;
use crate::document::{Document, join_lines, split_lines};

verus! {

/// One edit: replaces the characters in `[from, to)` with the text of
/// `insert`. `from == to` is a pure insertion; `insert` of `None` is a pure
/// deletion.
pub struct Change {
    pub from: usize,
    pub to: usize,
    pub insert: Option<Vec<char>>,
}

/// The text a change puts in place of the span it removes.
pub open spec fn ins_text(c: Change) -> Seq<char> {
    match c.insert {
        Option::Some(v) => v@,
        Option::None => Seq::empty(),
    }
}

/// Changes in ascending position, never overlapping, within a text of length
/// `text_len`.
pub open spec fn changes_wf(cs: Seq<Change>, text_len: int) -> bool {
    &&& forall|i: int| 0 <= i < cs.len() ==> (#[trigger] cs[i]).from <= cs[i].to <= text_len
    &&& forall|i: int| 0 <= i < cs.len() - 1 ==> (#[trigger] cs[i]).to <= cs[i + 1].from
}

/// As `changes_wf`, for the changes still to apply once the text before
/// `cursor` has been consumed.
pub open spec fn changes_wf_from(cs: Seq<Change>, cursor: int, text_len: int) -> bool {
    &&& 0 <= cursor <= text_len
    &&& changes_wf(cs, text_len)
    &&& cs.len() > 0 ==> cursor <= cs[0].from
}

/// The text that results from applying the changes `cs` to `text`, keeping
/// only what lies at or after `cursor` (the caller owns the prefix).
pub open spec fn apply_changes_from(text: Seq<char>, cs: Seq<Change>, cursor: int) -> Seq<char>
    decreases cs.len(),
{
    if cs.len() == 0 {
        text.subrange(cursor, text.len() as int)
    } else {
        text.subrange(cursor, cs[0].from as int) + ins_text(cs[0]) + apply_changes_from(
            text,
            cs.drop_first(),
            cs[0].to as int,
        )
    }
}

/// The whole text after a change list.
pub open spec fn apply_changes(text: Seq<char>, cs: Seq<Change>) -> Seq<char> {
    apply_changes_from(text, cs, 0)
}

/// Where a character position lands after the changes: positions before a
/// change keep their place, positions inside a replaced span land at the end
/// of the replacement, and positions after a change shift by the change's
/// growth. An insertion exactly at the position counts as before it.
pub open spec fn map_pos(cs: Seq<Change>, p: int) -> int
    decreases cs.len(),
{
    if cs.len() == 0 {
        p
    } else if p < cs[0].from {
        p
    } else if p < cs[0].to {
        cs[0].from + ins_text(cs[0]).len()
    } else {
        ins_text(cs[0]).len() + cs[0].from - cs[0].to + map_pos(cs.drop_first(), p)
    }
}

/// Total length of the text the changes insert.
pub open spec fn total_insert_len(cs: Seq<Change>) -> int
    decreases cs.len(),
{
    if cs.len() == 0 {
        0
    } else {
        ins_text(cs[0]).len() + total_insert_len(cs.drop_first())
    }
}

pub proof fn lemma_total_insert_len_nonneg(cs: Seq<Change>)
    ensures
        total_insert_len(cs) >= 0,
    decreases cs.len(),
{
    if cs.len() > 0 {
        lemma_total_insert_len_nonneg(cs.drop_first());
    }
}

/// Appends `text[a..b]` to `out`.
fn push_subrange(out: &mut Vec<char>, text: &Vec<char>, a: usize, b: usize)
    requires
        a <= b <= text@.len(),
    ensures
        final(out)@ == old(out)@ + text@.subrange(a as int, b as int),
{
    proof {
        assert(out@ + text@.subrange(a as int, a as int) =~= out@);
    }
    let mut k: usize = a;
    while k < b
        invariant
            a <= k <= b <= text@.len(),
            out@ == old(out)@ + text@.subrange(a as int, k as int),
        decreases b - k,
    {
        out.push(text[k]);
        proof {
            assert(out@ =~= old(out)@ + text@.subrange(a as int, k + 1));
        }
        k = k + 1;
    }
}

/// Applies the changes from index `k` on, to the text from `cursor` on.
fn apply_suffix(text: &Vec<char>, cs: &Vec<Change>, k: usize, cursor: usize) -> (res: Vec<char>)
    requires
        k <= cs@.len(),
        changes_wf_from(cs@.subrange(k as int, cs@.len() as int), cursor as int, text@.len() as int),
    ensures
        res@ == apply_changes_from(text@, cs@.subrange(k as int, cs@.len() as int), cursor as int),
    decreases cs@.len() - k,
{
    let n = cs.len();
    let ghost suf = cs@.subrange(k as int, n as int);
    let mut res: Vec<char> = Vec::new();
    if k == n {
        push_subrange(&mut res, text, cursor, text.len());
        proof {
            assert(res@ =~= apply_changes_from(text@, suf, cursor as int));
        }
        res
    } else {
        proof {
            assert(suf[0] == cs@[k as int]);
            assert(suf.drop_first() =~= cs@.subrange(k + 1, n as int));
            assert forall|i: int| 0 <= i < n - k - 1 - 1 implies #[trigger] cs@.subrange(
                k + 1,
                n as int,
            )[i].to <= cs@.subrange(k + 1, n as int)[i + 1].from by {
                assert(cs@.subrange(k + 1, n as int)[i] == suf[i + 1]);
                assert(cs@.subrange(k + 1, n as int)[i + 1] == suf[i + 2]);
            }
            if k + 1 < n {
                assert(cs@.subrange(k + 1, n as int)[0] == suf[1]);
                assert(suf[0].to <= suf[1].from);
            }
        }
        let from = cs[k].from;
        let to = cs[k].to;
        push_subrange(&mut res, text, cursor, from);
        match &cs[k].insert {
            Option::Some(t) => {
                push_subrange(&mut res, t, 0, t.len());
                proof {
                    assert(t@.subrange(0, t@.len() as int) =~= t@);
                }
            },
            Option::None => {},
        }
        let rest = apply_suffix(text, cs, k + 1, to);
        push_subrange(&mut res, &rest, 0, rest.len());
        proof {
            assert(rest@.subrange(0, rest@.len() as int) =~= rest@);
            assert(res@ =~= apply_changes_from(text@, suf, cursor as int));
        }
        res
    }
}

/// The length of a change's replacement text.
fn insert_len(c: &Change) -> (r: usize)
    ensures
        r == ins_text(*c).len(),
{
    match &c.insert {
        Option::Some(t) => t.len(),
        Option::None => 0,
    }
}

/// An atomic, ordered set of edits applied to a document in one step.
pub struct Transaction {
    pub changes: Vec<Change>,
}

impl Transaction {
    /// Well-formed against a text of length `text_len`: changes are ordered
    /// by ascending position and never overlap.
    pub open spec fn wf(self, text_len: int) -> bool {
        changes_wf(self.changes@, text_len)
    }

    /// Builds a transaction from an ordered change list.
    pub fn from_changes(changes: Vec<Change>) -> (t: Transaction)
        ensures
            t.changes@ == changes@,
    {
        Transaction { changes }
    }

    /// The text after this transaction.
    pub fn apply(&self, text: &Vec<char>) -> (res: Vec<char>)
        requires
            self.wf(text@.len() as int),
        ensures
            res@ == apply_changes(text@, self.changes@),
    {
        proof {
            assert(self.changes@.subrange(0, self.changes@.len() as int) =~= self.changes@);
        }
        apply_suffix(text, &self.changes, 0, 0)
    }

    /// The document after this transaction.
    pub fn apply_to(&self, doc: &Document) -> (d2: Document)
        requires
            doc.wf(),
            self.wf(join_lines(doc@).len() as int),
        ensures
            d2@ == split_lines(apply_changes(join_lines(doc@), self.changes@)),
            join_lines(d2@) == apply_changes(join_lines(doc@), self.changes@),
            d2.wf(),
    {
        let text = doc.to_chars();
        let res = self.apply(&text);
        Document::from_chars(&res)
    }

    /// Where the character position `p` of the old text lands in the new one;
    /// see `map_pos`.
    #[verifier::rlimit(50)]
    pub fn map_position(&self, p: usize, text_len: usize) -> (r: usize)
        requires
            self.wf(text_len as int),
            p <= text_len,
            text_len + total_insert_len(self.changes@) <= usize::MAX,
        ensures
            r == map_pos(self.changes@, p as int),
    {
        let n = self.changes.len();
        let ghost all = self.changes@;
        proof {
            assert(all.subrange(0, n as int) =~= all);
            lemma_total_insert_len_nonneg(all);
        }
        let mut k: usize = 0;
        let mut outlen: usize = 0;
        let mut cursor: usize = 0;
        while k < n
            invariant
                k <= n,
                n == all.len(),
                all == self.changes@,
                changes_wf(all, text_len as int),
                p <= text_len,
                text_len + total_insert_len(all) <= usize::MAX,
                cursor <= p,
                k < n ==> cursor <= all[k as int].from,
                outlen + total_insert_len(all.subrange(k as int, n as int)) <= cursor
                    + total_insert_len(all),
                map_pos(all, p as int) == outlen - cursor + map_pos(
                    all.subrange(k as int, n as int),
                    p as int,
                ),
            decreases n - k,
        {
            let ghost suf = all.subrange(k as int, n as int);
            proof {
                assert(suf[0] == all[k as int]);
                assert(suf.drop_first() =~= all.subrange(k + 1, n as int));
                lemma_total_insert_len_nonneg(suf.drop_first());
                lemma_total_insert_len_nonneg(suf);
            }
            let from = self.changes[k].from;
            let to = self.changes[k].to;
            let ins = insert_len(&self.changes[k]);
            if p < from {
                return outlen + (p - cursor);
            }
            if p < to {
                return outlen + (from - cursor) + ins;
            }
            outlen = outlen + (from - cursor) + ins;
            cursor = to;
            proof {
                if k + 1 < n {
                    assert(all.subrange(k + 1, n as int)[0] == suf[1]);
                    assert(suf[0].to <= suf[1].from);
                }
            }
            k = k + 1;
        }
        proof {
            assert(map_pos(all.subrange(n as int, n as int), p as int) == p);
        }
        outlen + (p - cursor)
    }
}

} // verus!
