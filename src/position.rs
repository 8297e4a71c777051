use vstd::prelude::*;

verus! {

/// A position in a buffer: a line index and a byte offset into that line.
#[derive(Clone, Copy, Debug, PartialEq, Eq, Structural)]
pub struct BufferPosition {
    pub line_index: usize,
    pub column_byte_index: usize,
}

/// `a` comes strictly before `b` in buffer order.
pub open spec fn pos_lt(a: BufferPosition, b: BufferPosition) -> bool {
    a.line_index < b.line_index || (a.line_index == b.line_index && a.column_byte_index
        < b.column_byte_index)
}

impl BufferPosition {
    pub fn line_col(line_index: usize, column_byte_index: usize) -> (r: BufferPosition)
        ensures
            r.line_index == line_index,
            r.column_byte_index == column_byte_index,
    {
        BufferPosition { line_index, column_byte_index }
    }

    /// Whether `self` comes strictly before `other`.
    pub fn is_before(&self, other: &BufferPosition) -> (r: bool)
        ensures
            r == pos_lt(*self, *other),
    {
        self.line_index < other.line_index || (self.line_index == other.line_index
            && self.column_byte_index < other.column_byte_index)
    }
}

/// A range between two positions, `from` never after `to` when built by `between`.
#[derive(Clone, Copy, Debug, PartialEq, Eq, Structural)]
pub struct BufferRange {
    pub from: BufferPosition,
    pub to: BufferPosition,
}

impl BufferRange {
    /// The range spanned by two positions, given in either order.
    pub fn between(a: BufferPosition, b: BufferPosition) -> (r: BufferRange)
        ensures
            pos_lt(b, a) ==> r.from == b && r.to == a,
            !pos_lt(b, a) ==> r.from == a && r.to == b,
    {
        if b.is_before(&a) {
            BufferRange { from: b, to: a }
        } else {
            BufferRange { from: a, to: b }
        }
    }
}

/// Where position `p` moves when the text of `range` is inserted before or at it.
pub open spec fn pos_after_insert(p: BufferPosition, range: BufferRange) -> BufferPosition {
    if pos_lt(p, range.from) {
        p
    } else if p.line_index == range.from.line_index {
        BufferPosition {
            line_index: range.to.line_index,
            column_byte_index: (p.column_byte_index - range.from.column_byte_index + range.to.column_byte_index) as usize,
        }
    } else {
        BufferPosition {
            line_index: (p.line_index + range.to.line_index - range.from.line_index) as usize,
            column_byte_index: p.column_byte_index,
        }
    }
}

/// Where position `p` moves when the text of `range` is deleted; positions
/// inside the range go to its start.
pub open spec fn pos_after_delete(p: BufferPosition, range: BufferRange) -> BufferPosition {
    if pos_lt(p, range.from) {
        p
    } else if pos_lt(p, range.to) {
        range.from
    } else if p.line_index == range.to.line_index {
        BufferPosition {
            line_index: range.from.line_index,
            column_byte_index: (p.column_byte_index - range.to.column_byte_index + range.from.column_byte_index) as usize,
        }
    } else {
        BufferPosition {
            line_index: (p.line_index - range.to.line_index + range.from.line_index) as usize,
            column_byte_index: p.column_byte_index,
        }
    }
}

/// `range.from` does not come after `range.to`.
pub open spec fn ordered(range: BufferRange) -> bool {
    !pos_lt(range.to, range.from)
}

impl BufferPosition {
    /// This position moved for the insertion of the text of `range`.
    pub fn insert(self, range: BufferRange) -> (r: BufferPosition)
        requires
            self.line_index + range.to.line_index <= usize::MAX,
            self.column_byte_index + range.to.column_byte_index <= usize::MAX,
        ensures
            r == pos_after_insert(self, range),
    {
        if self.is_before(&range.from) {
            self
        } else if self.line_index == range.from.line_index {
            BufferPosition {
                line_index: range.to.line_index,
                column_byte_index: self.column_byte_index - range.from.column_byte_index + range.to.column_byte_index,
            }
        } else {
            BufferPosition {
                line_index: self.line_index + range.to.line_index - range.from.line_index,
                column_byte_index: self.column_byte_index,
            }
        }
    }

    /// This position moved for the deletion of the text of `range`.
    pub fn delete(self, range: BufferRange) -> (r: BufferPosition)
        requires
            ordered(range),
            self.column_byte_index + range.from.column_byte_index <= usize::MAX,
        ensures
            r == pos_after_delete(self, range),
    {
        if self.is_before(&range.from) {
            self
        } else if self.is_before(&range.to) {
            range.from
        } else if self.line_index == range.to.line_index {
            BufferPosition {
                line_index: range.from.line_index,
                column_byte_index: self.column_byte_index - range.to.column_byte_index + range.from.column_byte_index,
            }
        } else {
            BufferPosition {
                line_index: self.line_index - range.to.line_index + range.from.line_index,
                column_byte_index: self.column_byte_index,
            }
        }
    }
}

/// `range` with both ends moved for each earlier edit of `edits`, in order:
/// first for its deleted range, then for its inserted range.
pub open spec fn adjusted_range(range: BufferRange, edits: Seq<(BufferRange, BufferRange)>) -> BufferRange
    decreases edits.len(),
{
    if edits.len() == 0 {
        range
    } else {
        let r = adjusted_range(range, edits.drop_last());
        let (d, i) = edits.last();
        let from = pos_after_insert(pos_after_delete(r.from, d), i);
        let to = pos_after_insert(pos_after_delete(r.to, d), i);
        BufferRange { from, to }
    }
}

/// Moving `r` for deleted range `d` and then inserted range `i` keeps every
/// line index and column within `usize`.
pub open spec fn step_fits(r: BufferRange, d: BufferRange, i: BufferRange) -> bool {
    let f = pos_after_delete(r.from, d);
    let t = pos_after_delete(r.to, d);
    &&& r.from.column_byte_index + d.from.column_byte_index <= usize::MAX
    &&& r.to.column_byte_index + d.from.column_byte_index <= usize::MAX
    &&& f.line_index + i.to.line_index <= usize::MAX
    &&& f.column_byte_index + i.to.column_byte_index <= usize::MAX
    &&& t.line_index + i.to.line_index <= usize::MAX
    &&& t.column_byte_index + i.to.column_byte_index <= usize::MAX
}

/// Every step of `adjusted_range(range, edits)` stays within `usize`.
pub open spec fn adjust_fits(range: BufferRange, edits: Seq<(BufferRange, BufferRange)>) -> bool
    decreases edits.len(),
{
    edits.len() == 0 || (adjust_fits(range, edits.drop_last()) && step_fits(
        adjusted_range(range, edits.drop_last()),
        edits.last().0,
        edits.last().1,
    ))
}

proof fn lemma_adjust_fits_prefix(range: BufferRange, edits: Seq<(BufferRange, BufferRange)>, k: int)
    requires
        0 <= k <= edits.len(),
        adjust_fits(range, edits),
    ensures
        adjust_fits(range, edits.subrange(0, k)),
    decreases edits.len(),
{
    if k == edits.len() {
        assert(edits.subrange(0, k) =~= edits);
    } else {
        lemma_adjust_fits_prefix(range, edits.drop_last(), k);
        assert(edits.drop_last().subrange(0, k) =~= edits.subrange(0, k));
    }
}

/// Moves `range` for each of the earlier edits `edits`, each a deleted
/// range and the range of the text inserted in its place; none where a
/// moved position would not fit in `usize`.
pub fn adjust_range(range: BufferRange, edits: &Vec<(BufferRange, BufferRange)>) -> (r: Option<BufferRange>)
    requires
        forall|k: int| 0 <= k < edits@.len() ==> ordered((#[trigger] edits@[k]).0),
    ensures
        r.is_some() <==> adjust_fits(range, edits@),
        r matches Some(x) ==> x == adjusted_range(range, edits@),
{
    let mut r = range;
    let mut k: usize = 0;
    while k < edits.len()
        invariant
            k <= edits@.len(),
            forall|j: int| 0 <= j < edits@.len() ==> ordered((#[trigger] edits@[j]).0),
            adjust_fits(range, edits@.subrange(0, k as int)),
            r == adjusted_range(range, edits@.subrange(0, k as int)),
        decreases edits@.len() - k,
    {
        let (d, i) = edits[k];
        assert(edits@[k as int] == (d, i));
        let ghost next = edits@.subrange(0, k + 1);
        assert(next.drop_last() =~= edits@.subrange(0, k as int));
        if r.from.column_byte_index > usize::MAX - d.from.column_byte_index
            || r.to.column_byte_index > usize::MAX - d.from.column_byte_index {
            proof {
                if adjust_fits(range, edits@) {
                    lemma_adjust_fits_prefix(range, edits@, k + 1);
                }
            }
            return None;
        }
        let from = r.from.delete(d);
        let to = r.to.delete(d);
        if from.line_index > usize::MAX - i.to.line_index || from.column_byte_index > usize::MAX - i.to.column_byte_index
            || to.line_index > usize::MAX - i.to.line_index || to.column_byte_index > usize::MAX - i.to.column_byte_index {
            proof {
                if adjust_fits(range, edits@) {
                    lemma_adjust_fits_prefix(range, edits@, k + 1);
                }
            }
            return None;
        }
        r = BufferRange { from: from.insert(i), to: to.insert(i) };
        k = k + 1;
    }
    assert(edits@.subrange(0, edits@.len() as int) =~= edits@);
    Some(r)
}

} // verus!
