//! Selections: an ordered list of character ranges, each convertible to an
//! inclusive pair of line indices.

use vstd::prelude::*;
use crate::document::{Document, join_lines, line_of};
use crate::transaction::{Transaction, map_pos, total_insert_len};

verus! {

/// One selected range of character positions; `anchor` and `head` may come in
/// either order.
#[derive(Clone, Copy)]
pub struct CharRange {
    pub anchor: usize,
    pub head: usize,
}

impl CharRange {
    /// The smaller end of the range.
    pub open spec fn from_pos(self) -> int {
        if self.anchor <= self.head {
            self.anchor as int
        } else {
            self.head as int
        }
    }

    /// The larger end of the range.
    pub open spec fn to_pos(self) -> int {
        if self.anchor <= self.head {
            self.head as int
        } else {
            self.anchor as int
        }
    }
}

/// The inclusive line pair a range covers: the line of its first position,
/// and the line of its last character (one position before `to` when the
/// range is not empty).
pub open spec fn line_range_of(lines: Seq<Seq<char>>, r: CharRange) -> (int, int) {
    let last = if r.to_pos() > r.from_pos() {
        r.to_pos() - 1
    } else {
        r.to_pos()
    };
    (line_of(lines, r.from_pos()), line_of(lines, last))
}

/// An ordered list of selected ranges.
pub struct Selection {
    pub ranges: Vec<CharRange>,
}

impl Selection {
    /// Ranges come sorted ascending; they may overlap. The watermark merge of
    /// the toggle relies on this order.
    pub open spec fn sorted(self) -> bool {
        forall|i: int, j: int|
            0 <= i < j < self.ranges@.len()
                ==> (#[trigger] self.ranges@[i]).from_pos() <= (#[trigger] self.ranges@[j]).from_pos()
                    && self.ranges@[i].to_pos() <= self.ranges@[j].to_pos()
    }

    /// Every endpoint lies within a text of length `text_len`.
    pub open spec fn wf(self, text_len: int) -> bool {
        forall|i: int| 0 <= i < self.ranges@.len()
            ==> (#[trigger] self.ranges@[i]).anchor <= text_len
                && self.ranges@[i].head <= text_len
    }

    /// A selection of one range.
    pub fn single(anchor: usize, head: usize) -> (s: Selection)
        ensures
            s.ranges@.len() == 1,
            s.ranges@[0].anchor == anchor,
            s.ranges@[0].head == head,
    {
        let mut ranges: Vec<CharRange> = Vec::new();
        ranges.push(CharRange { anchor, head });
        Selection { ranges }
    }

    /// The number of ranges.
    pub fn len(&self) -> (r: usize)
        ensures
            r == self.ranges@.len(),
    {
        self.ranges.len()
    }

    /// The inclusive line pair of range `i`.
    pub fn line_range(&self, i: usize, doc: &Document) -> (r: (usize, usize))
        requires
            doc.wf(),
            i < self.ranges@.len(),
            self.wf(join_lines(doc@).len() as int),
        ensures
            (r.0 as int, r.1 as int) == line_range_of(doc@, self.ranges@[i as int]),
            r.0 < doc@.len(),
            r.1 < doc@.len(),
    {
        let rg = self.ranges[i];
        let from = if rg.anchor <= rg.head { rg.anchor } else { rg.head };
        let to = if rg.anchor <= rg.head { rg.head } else { rg.anchor };
        let last = if to > from { to - 1 } else { to };
        (doc.char_to_line(from), doc.char_to_line(last))
    }

    /// The selection after an edit: each endpoint mapped through the
    /// transaction's changes.
    pub fn map_through(&self, t: &Transaction, text_len: usize) -> (s2: Selection)
        requires
            t.wf(text_len as int),
            self.wf(text_len as int),
            text_len + total_insert_len(t.changes@) <= usize::MAX,
        ensures
            s2.ranges@.len() == self.ranges@.len(),
            forall|i: int| 0 <= i < self.ranges@.len()
                ==> (#[trigger] s2.ranges@[i]).anchor
                        == map_pos(t.changes@, self.ranges@[i].anchor as int)
                    && s2.ranges@[i].head == map_pos(t.changes@, self.ranges@[i].head as int),
    {
        let n = self.ranges.len();
        let mut ranges: Vec<CharRange> = Vec::new();
        let mut i: usize = 0;
        while i < n
            invariant
                i <= n,
                n == self.ranges@.len(),
                t.wf(text_len as int),
                self.wf(text_len as int),
                text_len + total_insert_len(t.changes@) <= usize::MAX,
                ranges@.len() == i,
                forall|j: int| 0 <= j < i
                    ==> (#[trigger] ranges@[j]).anchor
                            == map_pos(t.changes@, self.ranges@[j].anchor as int)
                        && ranges@[j].head == map_pos(t.changes@, self.ranges@[j].head as int),
            decreases n - i,
        {
            let rg = self.ranges[i];
            let anchor = t.map_position(rg.anchor, text_len);
            let head = t.map_position(rg.head, text_len);
            ranges.push(CharRange { anchor, head });
            i = i + 1;
        }
        Selection { ranges }
    }
}

} // verus!
