use vstd::prelude::*;

use crate::buffer::{
    deleted_lines, exists_in, insert_fits, inserted_end, inserted_lines, lemma_delete_then_insert,
    lemma_insert_then_delete, push_bytes, range_text, valid_lines, BufferContent, BufferLinePool,
};
use crate::position::{pos_lt, BufferPosition, BufferRange};
use crate::text::{lemma_split_lines_len, split_lines, NEWLINE};

verus! {

#[derive(Clone, Copy, Debug, PartialEq, Eq, Structural)]
pub enum EditKind {
    Insert,
    Delete,
}

/// One change to a buffer: the text inserted at, or deleted from, `range`.
#[derive(Debug)]
pub struct Edit {
    pub kind: EditKind,
    pub range: BufferRange,
    pub text: Vec<u8>,
}

/// What an edit is, as a value: its kind, range and text bytes.
pub struct EditView {
    pub kind: EditKind,
    pub range: BufferRange,
    pub text: Seq<u8>,
}

impl View for Edit {
    type V = EditView;

    open spec fn view(&self) -> EditView {
        EditView { kind: self.kind, range: self.range, text: self.text@ }
    }
}

/// The views of a sequence of edits.
pub open spec fn edit_views(es: Seq<Edit>) -> Seq<EditView> {
    es.map_values(|e: Edit| e@)
}

/// Edit `e` with its kind inverted: undoing an insertion deletes its text.
pub open spec fn invert(e: EditView) -> EditView {
    EditView {
        kind: if e.kind == EditKind::Insert {
            EditKind::Delete
        } else {
            EditKind::Insert
        },
        ..e
    }
}

/// The edits that undo `g`: its edits last first, each inverted.
pub open spec fn inverted_reverse(g: Seq<EditView>) -> Seq<EditView> {
    Seq::new(g.len(), |k: int| invert(g[g.len() - 1 - k]))
}

/// The lines after `e` is applied to `ls`.
pub open spec fn apply_edit(ls: Seq<Seq<u8>>, e: EditView) -> Seq<Seq<u8>> {
    match e.kind {
        EditKind::Insert => inserted_lines(ls, e.range.from, e.text),
        EditKind::Delete => deleted_lines(ls, e.range.from, e.range.to),
    }
}

/// The lines after the inverse of `e` is applied to `ls`.
pub open spec fn revert_edit(ls: Seq<Seq<u8>>, e: EditView) -> Seq<Seq<u8>> {
    match e.kind {
        EditKind::Insert => deleted_lines(ls, e.range.from, e.range.to),
        EditKind::Delete => inserted_lines(ls, e.range.from, e.text),
    }
}

/// `e` is what a buffer records when the change is made to lines `ls`:
/// an insertion with the range the text came to cover, or a deletion with
/// the text that was removed.
pub open spec fn recorded(ls: Seq<Seq<u8>>, e: EditView) -> bool {
    &&& valid_lines(ls)
    &&& exists_in(ls, e.range.from)
    &&& match e.kind {
        EditKind::Insert => insert_fits(ls, e.range.from, e.text) && e.range.to == inserted_end(
            ls,
            e.range.from,
            e.text,
        ),
        EditKind::Delete => exists_in(ls, e.range.to) && !pos_lt(e.range.to, e.range.from)
            && e.text == range_text(ls, e.range.from, e.range.to),
    }
}

/// `e` can be applied to `ls` as it stands: its positions exist there.
pub open spec fn applicable(ls: Seq<Seq<u8>>, e: EditView) -> bool {
    &&& valid_lines(ls)
    &&& exists_in(ls, e.range.from)
    &&& (e.kind == EditKind::Delete ==> exists_in(ls, e.range.to) && !pos_lt(e.range.to, e.range.from))
}

/// The inverse of `e` can be applied to `ls` as it stands.
pub open spec fn revertible(ls: Seq<Seq<u8>>, e: EditView) -> bool {
    &&& valid_lines(ls)
    &&& exists_in(ls, e.range.from)
    &&& (e.kind == EditKind::Insert ==> exists_in(ls, e.range.to) && !pos_lt(e.range.to, e.range.from))
}

/// The lines after the edits `es` are applied in order.
pub open spec fn apply_all(ls: Seq<Seq<u8>>, es: Seq<EditView>) -> Seq<Seq<u8>>
    decreases es.len(),
{
    if es.len() == 0 {
        ls
    } else {
        apply_edit(apply_all(ls, es.drop_last()), es.last())
    }
}

/// The lines after the inverses of the edits `es` are applied, last edit first.
pub open spec fn revert_all(ls: Seq<Seq<u8>>, es: Seq<EditView>) -> Seq<Seq<u8>>
    decreases es.len(),
{
    if es.len() == 0 {
        ls
    } else {
        revert_all(revert_edit(ls, es.last()), es.drop_last())
    }
}

/// Each edit of `es` was recorded on the lines that the edits before it left, from `ls` on.
pub open spec fn chain(ls: Seq<Seq<u8>>, es: Seq<EditView>) -> bool
    decreases es.len(),
{
    es.len() == 0 || (chain(ls, es.drop_last()) && recorded(apply_all(ls, es.drop_last()), es.last()))
}

/// Undoing one recorded edit gives back the lines it was recorded on.
pub proof fn lemma_edit_round_trip(ls: Seq<Seq<u8>>, e: EditView)
    requires
        recorded(ls, e),
    ensures
        applicable(ls, e),
        revertible(apply_edit(ls, e), e),
        revert_edit(apply_edit(ls, e), e) == ls,
        applicable(revert_edit(apply_edit(ls, e), e), e),
{
    match e.kind {
        EditKind::Insert => {
            lemma_insert_then_delete(ls, e.range.from, e.text);
        },
        EditKind::Delete => {
            lemma_delete_then_insert(ls, e.range.from, e.range.to);
        },
    }
}

pub proof fn lemma_chain_prefix(ls: Seq<Seq<u8>>, es: Seq<EditView>, i: int)
    requires
        chain(ls, es),
        0 <= i <= es.len(),
    ensures
        chain(ls, es.subrange(0, i)),
        i > 0 ==> recorded(apply_all(ls, es.subrange(0, i - 1)), es[i - 1]),
    decreases es.len(),
{
    if i == es.len() {
        assert(es.subrange(0, i) =~= es);
        if i > 0 {
            assert(es.subrange(0, i - 1) =~= es.drop_last());
        }
    } else {
        lemma_chain_prefix(ls, es.drop_last(), i);
        assert(es.drop_last().subrange(0, i) =~= es.subrange(0, i));
        if i > 0 {
            assert(es.drop_last().subrange(0, i - 1) =~= es.subrange(0, i - 1));
        }
    }
}

/// Undoing every edit of a recorded sequence, last first, gives back the
/// lines that the sequence started from.
pub proof fn lemma_undo_all_restores(ls: Seq<Seq<u8>>, es: Seq<EditView>)
    requires
        chain(ls, es),
    ensures
        revert_all(apply_all(ls, es), es) == ls,
    decreases es.len(),
{
    if es.len() > 0 {
        let before = apply_all(ls, es.drop_last());
        lemma_edit_round_trip(before, es.last());
        lemma_undo_all_restores(ls, es.drop_last());
    }
}

/// Applying `a` and then `b` is applying `a + b`.
pub proof fn lemma_apply_all_concat(ls: Seq<Seq<u8>>, a: Seq<EditView>, b: Seq<EditView>)
    ensures
        apply_all(ls, a + b) == apply_all(apply_all(ls, a), b),
    decreases b.len(),
{
    if b.len() == 0 {
        assert(a + b =~= a);
    } else {
        lemma_apply_all_concat(ls, a, b.drop_last());
        assert((a + b).drop_last() =~= a + b.drop_last());
    }
}

/// Two recorded sequences, the second from where the first ends, form one.
pub proof fn lemma_chain_concat(ls: Seq<Seq<u8>>, a: Seq<EditView>, b: Seq<EditView>)
    requires
        chain(ls, a),
        chain(apply_all(ls, a), b),
    ensures
        chain(ls, a + b),
    decreases b.len(),
{
    if b.len() == 0 {
        assert(a + b =~= a);
    } else {
        lemma_chain_concat(ls, a, b.drop_last());
        assert((a + b).drop_last() =~= a + b.drop_last());
        lemma_apply_all_concat(ls, a, b.drop_last());
    }
}

/// The edits of groups `gs`, group after group.
pub open spec fn all_edits(gs: Seq<Seq<EditView>>) -> Seq<EditView>
    decreases gs.len(),
{
    if gs.len() == 0 {
        Seq::empty()
    } else {
        all_edits(gs.drop_last()) + gs.last()
    }
}

impl Edit {
    /// An edit of `text` at `position`, with the range the text covers there.
    pub fn new(kind: EditKind, position: BufferPosition, text: &[u8]) -> (r: Edit)
        requires
            position.line_index + text@.len() <= usize::MAX,
            position.column_byte_index + text@.len() <= usize::MAX,
        ensures
            r.kind == kind,
            r.text@ == text@,
            r.range.from == position,
            r.range.to == inserted_end(seq![], position, text@),
    {
        let mut copy: Vec<u8> = Vec::new();
        push_bytes(&mut copy, text);
        let to = text_end(position, text);
        Edit { kind, range: BufferRange { from: position, to }, text: copy }
    }

    /// A copy of this edit with its kind inverted.
    pub fn inverted(&self) -> (r: Edit)
        ensures
            r@ == invert(self@),
    {
        let mut text: Vec<u8> = Vec::new();
        push_bytes(&mut text, self.text.as_slice());
        let kind = match self.kind {
            EditKind::Insert => EditKind::Delete,
            EditKind::Delete => EditKind::Insert,
        };
        Edit { kind, range: self.range, text }
    }

    /// A copy of this edit.
    pub fn copy(&self) -> (r: Edit)
        ensures
            r@ == self@,
    {
        let mut text: Vec<u8> = Vec::new();
        push_bytes(&mut text, self.text.as_slice());
        Edit { kind: self.kind, range: self.range, text }
    }

    /// Makes this change to `content`.
    pub fn apply(&self, content: &mut BufferContent, pool: &mut BufferLinePool)
        requires
            old(content).wf(),
            applicable(old(content)@, self@),
        ensures
            final(content).wf(),
            final(content)@ == apply_edit(old(content)@, self@),
    {
        match self.kind {
            EditKind::Insert => {
                content.insert_bytes(pool, self.range.from, self.text.as_slice());
            },
            EditKind::Delete => {
                content.delete_range(pool, self.range);
            },
        }
    }

    /// Makes the inverse of this change to `content`.
    pub fn revert(&self, content: &mut BufferContent, pool: &mut BufferLinePool)
        requires
            old(content).wf(),
            revertible(old(content)@, self@),
        ensures
            final(content).wf(),
            final(content)@ == revert_edit(old(content)@, self@),
    {
        match self.kind {
            EditKind::Delete => {
                content.insert_bytes(pool, self.range.from, self.text.as_slice());
            },
            EditKind::Insert => {
                content.delete_range(pool, self.range);
            },
        }
    }
}

/// Where `text` ends when inserted at `position`.
fn text_end(position: BufferPosition, text: &[u8]) -> (r: BufferPosition)
    requires
        position.line_index + text@.len() <= usize::MAX,
        position.column_byte_index + text@.len() <= usize::MAX,
    ensures
        r == inserted_end(seq![], position, text@),
{
    let mut newlines: usize = 0;
    let mut last_len: usize = 0;
    let mut i: usize = 0;
    while i < text.len()
        invariant
            i <= text@.len(),
            newlines + 1 == split_lines(text@.subrange(0, i as int)).len(),
            last_len == split_lines(text@.subrange(0, i as int)).last().len(),
            newlines <= i,
            last_len <= i,
        decreases text@.len() - i,
    {
        proof {
            lemma_split_lines_len(text@.subrange(0, i as int));
            assert(text@.subrange(0, i + 1).drop_last() =~= text@.subrange(0, i as int));
        }
        if text[i] == NEWLINE {
            newlines = newlines + 1;
            last_len = 0;
        } else {
            last_len = last_len + 1;
        }
        i = i + 1;
    }
    assert(text@.subrange(0, text@.len() as int) =~= text@);
    if newlines == 0 {
        BufferPosition {
            line_index: position.line_index,
            column_byte_index: position.column_byte_index + text.len(),
        }
    } else {
        BufferPosition { line_index: position.line_index + newlines, column_byte_index: last_len }
    }
}

/// Edit history: committed groups of edits, the edits of the open group,
/// and how many groups are currently applied. Groups past that point can
/// be redone until a new edit is pushed.
pub struct Undo {
    groups: Vec<Vec<Edit>>,
    pending: Vec<Edit>,
    current: usize,
    /// The lines before each group, and after the last.
    states: Ghost<Seq<Seq<Seq<u8>>>>,
}

impl Undo {
    /// The history of a buffer whose lines are `ls`.
    pub closed spec fn inv(&self, ls: Seq<Seq<u8>>) -> bool {
        let states = self.states@;
        let groups = self.groups@;
        &&& states.len() == groups.len() + 1
        &&& self.current <= groups.len()
        &&& forall|j: int|
            0 <= j < groups.len() ==> {
                &&& chain(states[j], edit_views((#[trigger] groups[j])@))
                &&& states[j + 1] == apply_all(states[j], edit_views(groups[j]@))
                &&& groups[j]@.len() > 0
            }
        &&& chain(states[self.current as int], edit_views(self.pending@))
        &&& ls == apply_all(states[self.current as int], edit_views(self.pending@))
        &&& (self.pending@.len() > 0 ==> self.current == groups.len())
    }

    /// The lines before the open group: what the next undo leaves once it is committed.
    pub closed spec fn base(&self) -> Seq<Seq<u8>> {
        self.states@[self.current as int]
    }

    /// The lines the history starts from, before every group.
    pub closed spec fn origin(&self) -> Seq<Seq<u8>> {
        self.states@[0]
    }

    /// With no group applied and none open, the lines are those the history starts from.
    pub proof fn lemma_at_origin(&self, ls: Seq<Seq<u8>>)
        requires
            self.inv(ls),
            self.applied() == 0,
            self.open_edits().len() == 0,
        ensures
            ls == self.origin(),
    {
        assert(edit_views(self.pending@) =~= Seq::<EditView>::empty());
    }

    /// The views of the first `n` committed groups.
    pub closed spec fn first_groups(&self, n: int) -> Seq<Seq<EditView>> {
        Seq::new(n as nat, |k: int| self.group_views(k))
    }

    /// The edits of the applied groups, in order, then those of the open group.
    pub closed spec fn applied_edits(&self) -> Seq<EditView> {
        all_edits(self.first_groups(self.current as int)) + self.open_edits()
    }

    proof fn lemma_groups_chain(&self, ls: Seq<Seq<u8>>, n: int)
        requires
            self.inv(ls),
            0 <= n <= self.groups@.len(),
        ensures
            chain(self.origin(), all_edits(self.first_groups(n))),
            apply_all(self.origin(), all_edits(self.first_groups(n))) == self.states@[n],
        decreases n,
    {
        let o = self.origin();
        if n == 0 {
            assert(self.first_groups(0) =~= Seq::<Seq<EditView>>::empty());
        } else {
            self.lemma_groups_chain(ls, n - 1);
            let prev = all_edits(self.first_groups(n - 1));
            let g = self.group_views(n - 1);
            assert(self.first_groups(n).drop_last() =~= self.first_groups(n - 1));
            assert(self.first_groups(n).last() == g);
            assert(chain(self.states@[n - 1], edit_views(self.groups@[n - 1]@)));
            lemma_chain_concat(o, prev, g);
            lemma_apply_all_concat(o, prev, g);
        }
    }

    /// The applied edits were recorded one after another from the origin, and
    /// lead from it to the lines `ls`.
    pub proof fn lemma_history_chain(&self, ls: Seq<Seq<u8>>)
        requires
            self.inv(ls),
        ensures
            chain(self.origin(), self.applied_edits()),
            apply_all(self.origin(), self.applied_edits()) == ls,
    {
        self.lemma_groups_chain(ls, self.current as int);
        let prev = all_edits(self.first_groups(self.current as int));
        lemma_chain_concat(self.origin(), prev, self.open_edits());
        lemma_apply_all_concat(self.origin(), prev, self.open_edits());
    }

    /// The number of committed groups that are applied.
    pub closed spec fn applied(&self) -> nat {
        self.current as nat
    }

    /// The number of committed groups.
    pub closed spec fn group_count(&self) -> nat {
        self.groups@.len()
    }

    /// The edits of the open group.
    pub closed spec fn open_edits(&self) -> Seq<EditView> {
        edit_views(self.pending@)
    }

    /// An empty history.
    pub fn new() -> (r: Undo)
        ensures
            r.group_count() == 0,
            r.open_edits().len() == 0,
    {
        let states: Ghost<Seq<Seq<Seq<u8>>>> = Ghost(Seq::empty().push(Seq::empty()));
        Undo { groups: Vec::new(), pending: Vec::new(), current: 0, states }
    }

    /// An empty history for a buffer whose lines are `ls`.
    pub(crate) fn new_for(ls: Ghost<Seq<Seq<u8>>>) -> (r: Undo)
        ensures
            r.inv(ls@),
            r.group_count() == 0,
            r.applied() == 0,
            r.open_edits().len() == 0,
            r.origin() == ls@,
    {
        let states: Ghost<Seq<Seq<Seq<u8>>>> = Ghost(Seq::empty().push(ls@));
        Undo { groups: Vec::new(), pending: Vec::new(), current: 0, states }
    }

    /// Records edit `e`, made to lines `ls`, in the open group; the groups
    /// that could be redone are dropped.
    pub fn push_edit(&mut self, e: Edit, ls: Ghost<Seq<Seq<u8>>>)
        requires
            old(self).inv(ls@),
            recorded(ls@, e@),
        ensures
            final(self).inv(apply_edit(ls@, e@)),
            final(self).applied() == old(self).applied(),
            final(self).group_count() == old(self).applied(),
            final(self).open_edits() == old(self).open_edits().push(e@),
            final(self).origin() == old(self).origin(),
    {
        let ghost old_pending = edit_views(self.pending@);
        self.groups.truncate(self.current);
        proof {
            self.states@ = self.states@.subrange(0, self.current + 1);
        }
        self.pending.push(e);
        assert(edit_views(self.pending@).drop_last() =~= old_pending);
        assert(edit_views(self.pending@) =~= old_pending.push(e@));
        assert forall|j: int| 0 <= j < self.groups@.len() implies {
            &&& chain(self.states@[j], edit_views((#[trigger] self.groups@[j])@))
            &&& self.states@[j + 1] == apply_all(self.states@[j], edit_views(self.groups@[j]@))
            &&& self.groups@[j]@.len() > 0
        } by {
            assert(self.groups@[j] == old(self).groups@[j]);
        }
    }

    /// Closes the open group, if it holds any edit.
    pub fn commit_edits(&mut self, ls: Ghost<Seq<Seq<u8>>>)
        requires
            old(self).inv(ls@),
        ensures
            final(self).inv(ls@),
            final(self).open_edits().len() == 0,
            final(self).base() == ls@,
            final(self).group_count() == if old(self).open_edits().len() > 0 {
                old(self).group_count() + 1
            } else {
                old(self).group_count()
            },
            final(self).applied() == if old(self).open_edits().len() > 0 {
                final(self).group_count()
            } else {
                old(self).applied()
            },
            old(self).open_edits().len() > 0 ==> old(self).applied() == old(self).group_count()
                && final(self).group_views(old(self).group_count() as int) == old(self).open_edits(),
            forall|j: int| 0 <= j < old(self).group_count() ==> #[trigger] final(self).group_views(j) == old(self).group_views(j),
            old(self).open_edits().len() == 0 ==> *final(self) == *old(self),
            final(self).origin() == old(self).origin(),
    {
        if self.pending.len() > 0 {
            let mut group: Vec<Edit> = Vec::new();
            std::mem::swap(&mut self.pending, &mut group);
            self.groups.push(group);
            proof {
                self.states@ = self.states@.push(ls@);
            }
            self.current = self.groups.len();
            assert(self.groups@[old(self).groups@.len() as int] == group);
            assert forall|j: int| 0 <= j < self.groups@.len() implies {
                &&& chain(self.states@[j], edit_views((#[trigger] self.groups@[j])@))
                &&& self.states@[j + 1] == apply_all(self.states@[j], edit_views(self.groups@[j]@))
                &&& self.groups@[j]@.len() > 0
            } by {
                if j < old(self).groups@.len() {
                    assert(self.groups@[j] == old(self).groups@[j]);
                }
            }
        }
    }

    /// The edits of committed group `i`.
    pub closed spec fn group_views(&self, i: int) -> Seq<EditView> {
        edit_views(self.groups@[i]@)
    }

    /// The edits of committed group `i`, in the order they were made.
    pub fn group(&self, i: usize) -> (r: &[Edit])
        requires
            i < self.group_count(),
        ensures
            edit_views(r@) == self.group_views(i as int),
    {
        self.groups[i].as_slice()
    }

    /// Closes the open group, then steps back over the last applied group
    /// and returns its index; none where no group is applied.
    pub fn undo(&mut self, ls: Ghost<Seq<Seq<u8>>>) -> (r: Option<usize>)
        requires
            old(self).inv(ls@),
        ensures
            final(self).inv(final(self).base()),
            final(self).open_edits().len() == 0,
            final(self).origin() == old(self).origin(),
            r.is_some() <==> (old(self).open_edits().len() > 0 || old(self).applied() > 0),
            r.is_none() ==> final(self).base() == ls@ && final(self).applied() == 0,
            r matches Some(i) ==> {
                &&& i == final(self).applied()
                &&& i < final(self).group_count()
                &&& final(self).group_views(i as int).len() > 0
                &&& chain(final(self).base(), final(self).group_views(i as int))
                &&& apply_all(final(self).base(), final(self).group_views(i as int)) == ls@
                &&& old(self).open_edits().len() > 0 ==> i == old(self).applied()
                    && final(self).group_views(i as int) == old(self).open_edits()
                    && final(self).group_count() == old(self).group_count() + 1
                &&& old(self).open_edits().len() == 0 ==> i + 1 == old(self).applied()
                    && final(self).group_views(i as int) == old(self).group_views(i as int)
                    && final(self).group_count() == old(self).group_count()
            },
    {
        self.commit_edits(ls);
        let ghost mid = self.groups@;
        if self.current > 0 {
            self.current = self.current - 1;
            proof {
                let j = self.current as int;
                assert(self.groups@[j]@.len() > 0);
                assert(edit_views(self.pending@) =~= Seq::<EditView>::empty());
                if old(self).open_edits().len() > 0 {
                    assert(j == old(self).group_count());
                } else {
                    assert(j < old(self).group_count());
                    assert(mid == old(self).groups@);
                }
            }
            Some(self.current)
        } else {
            None
        }
    }

    /// Closes the open group, then steps forward over the next undone group
    /// and returns its index; none where no group was undone.
    pub fn redo(&mut self, ls: Ghost<Seq<Seq<u8>>>) -> (r: Option<usize>)
        requires
            old(self).inv(ls@),
        ensures
            final(self).open_edits().len() == 0,
            final(self).origin() == old(self).origin(),
            r.is_some() <==> (old(self).open_edits().len() == 0 && old(self).applied() < old(self).group_count()),
            r.is_none() ==> final(self).inv(ls@),
            r matches Some(i) ==> {
                &&& i == old(self).applied()
                &&& final(self).applied() == i + 1
                &&& i < final(self).group_count()
                &&& final(self).group_count() == old(self).group_count()
                &&& final(self).group_views(i as int) == old(self).group_views(i as int)
                &&& final(self).group_views(i as int).len() > 0
                &&& chain(ls@, final(self).group_views(i as int))
                &&& final(self).inv(apply_all(ls@, final(self).group_views(i as int)))
            },
    {
        self.commit_edits(ls);
        let ghost mid = self.groups@;
        if self.current < self.groups.len() {
            let i = self.current;
            self.current = self.current + 1;
            proof {
                assert(self.groups@[i as int]@.len() > 0);
                assert(old(self).open_edits().len() == 0);
                assert(mid == old(self).groups@);
            }
            Some(i)
        } else {
            None
        }
    }
}

} // verus!
