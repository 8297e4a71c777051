use vstd::prelude::*;
use vstd::string::StringSliceAdditionalSpecFns;

use crate::buffer::{
    clamp, ordered_end, Buffer, BufferLinePool, inserted_end,
    deleted_lines, inserted_lines, lemma_delete_empty, lemma_delete_then_insert, lemma_insert_empty,
    push_bytes, BufferHandle,
};
use crate::command::{decimal, push_decimal, same_bytes};
use crate::position::{pos_lt, adjust_fits, adjust_range, adjusted_range, ordered, BufferPosition, BufferRange};
use crate::word_database::WordDatabase;
use crate::undo::{apply_all, chain, recorded, EditKind, EditView};

verus! {

/// A content change sent to a language server: a range and the text that replaces it.
pub open spec fn change_of(e: EditView) -> (BufferRange, Seq<u8>) {
    match e.kind {
        EditKind::Insert => (BufferRange { from: e.range.from, to: e.range.from }, e.text),
        EditKind::Delete => (e.range, Seq::empty()),
    }
}

/// The lines after change `c` replaces its range with its text.
pub open spec fn apply_change(ls: Seq<Seq<u8>>, c: (BufferRange, Seq<u8>)) -> Seq<Seq<u8>> {
    inserted_lines(deleted_lines(ls, c.0.from, c.0.to), c.0.from, c.1)
}

/// The lines after the changes `cs` are applied in order.
pub open spec fn apply_changes(ls: Seq<Seq<u8>>, cs: Seq<(BufferRange, Seq<u8>)>) -> Seq<Seq<u8>>
    decreases cs.len(),
{
    if cs.len() == 0 {
        ls
    } else {
        apply_change(apply_changes(ls, cs.drop_last()), cs.last())
    }
}

/// The content changes that stand for edits `es`, in order.
pub open spec fn changes_of(es: Seq<EditView>) -> Seq<(BufferRange, Seq<u8>)> {
    es.map_values(|e: EditView| change_of(e))
}

/// The content changes pending since the last flush, applied in order to
/// the text as it was at that flush, give the text as it is now.
pub proof fn lemma_changes_replay_edits(ls: Seq<Seq<u8>>, es: Seq<EditView>)
    requires
        chain(ls, es),
    ensures
        apply_changes(ls, changes_of(es)) == apply_all(ls, es),
    decreases es.len(),
{
    if es.len() > 0 {
        let init = es.drop_last();
        lemma_changes_replay_edits(ls, init);
        assert(changes_of(es).drop_last() =~= changes_of(init));
        let before = apply_all(ls, init);
        let e = es.last();
        assert(recorded(before, e));
        match e.kind {
            EditKind::Insert => {
                lemma_delete_empty(before, e.range.from);
            },
            EditKind::Delete => {
                lemma_delete_then_insert(before, e.range.from, e.range.to);
                lemma_insert_empty(deleted_lines(before, e.range.from, e.range.to), e.range.from);
            },
        }
    }
}

/// A pending change: a buffer range and where its text lies in the text arena.
#[derive(Clone, Copy, Debug)]
pub struct VersionedBufferEdit {
    pub buffer_range: BufferRange,
    pub text_range: (usize, usize),
}

/// What a language server has been told of a buffer: the version it last
/// saw, and the changes made since, with their texts kept in one arena.
pub struct VersionedBuffer {
    version: usize,
    texts: Vec<u8>,
    pending_edits: Vec<VersionedBufferEdit>,
}

impl VersionedBuffer {
    /// Every pending change's text lies in the arena.
    pub closed spec fn wf(&self) -> bool {
        forall|k: int|
            0 <= k < self.pending_edits@.len() ==> {
                let e = #[trigger] self.pending_edits@[k];
                e.text_range.0 <= e.text_range.1 <= self.texts@.len()
            }
    }

    pub closed spec fn version_view(&self) -> nat {
        self.version as nat
    }

    /// The number of bytes in the text arena of the pending changes.
    pub closed spec fn arena_len(&self) -> nat {
        self.texts@.len()
    }

    /// The pending changes, oldest first.
    pub closed spec fn pending(&self) -> Seq<(BufferRange, Seq<u8>)> {
        self.pending_edits@.map_values(
            |e: VersionedBufferEdit| (e.buffer_range, self.texts@.subrange(e.text_range.0 as int, e.text_range.1 as int)),
        )
    }

    pub fn new() -> (r: VersionedBuffer)
        ensures
            r.wf(),
            r.version_view() == 0,
            r.pending().len() == 0,
            r.arena_len() == 0,
    {
        VersionedBuffer { version: 0, texts: Vec::new(), pending_edits: Vec::new() }
    }

    pub fn version(&self) -> (r: usize)
        ensures
            r == self.version_view(),
    {
        self.version
    }

    pub fn pending_len(&self) -> (r: usize)
        ensures
            r == self.pending().len(),
    {
        self.pending_edits.len()
    }

    /// Pending change `i`: its range and its text.
    pub fn pending_edit(&self, i: usize) -> (r: (BufferRange, &[u8]))
        requires
            self.wf(),
            i < self.pending().len(),
        ensures
            r.0 == self.pending()[i as int].0,
            r.1@ == self.pending()[i as int].1,
    {
        let e = self.pending_edits[i];
        assert(self.pending_edits@[i as int] == e);
        let (head, _) = self.texts.as_slice().split_at(e.text_range.1);
        let (_, text) = head.split_at(e.text_range.0);
        assert(text@ =~= self.texts@.subrange(e.text_range.0 as int, e.text_range.1 as int));
        (e.buffer_range, text)
    }

    /// Records a change: `text` replaces `range`.
    pub fn add_edit(&mut self, range: BufferRange, text: &[u8])
        requires
            old(self).wf(),
        ensures
            final(self).wf(),
            final(self).version_view() == old(self).version_view(),
            final(self).pending() == old(self).pending().push((range, text@)),
    {
        let ghost old_pending = self.pending();
        let start = self.texts.len();
        push_bytes(&mut self.texts, text);
        let end = self.texts.len();
        self.pending_edits.push(VersionedBufferEdit { buffer_range: range, text_range: (start, end) });
        assert(self.texts@.subrange(start as int, end as int) =~= text@);
        assert forall|k: int| 0 <= k < old(self).pending_edits@.len() implies self.texts@.subrange(
            self.pending_edits@[k].text_range.0 as int,
            self.pending_edits@[k].text_range.1 as int,
        ) == old(self).texts@.subrange(
            old(self).pending_edits@[k].text_range.0 as int,
            old(self).pending_edits@[k].text_range.1 as int,
        ) by {
            let e = old(self).pending_edits@[k];
            assert(self.pending_edits@[k] == e);
            assert(self.texts@.subrange(e.text_range.0 as int, e.text_range.1 as int) =~= old(self).texts@.subrange(
                e.text_range.0 as int,
                e.text_range.1 as int,
            ));
        }
        assert(self.pending() =~= old_pending.push((range, text@)));
    }

    /// Forgets the pending changes once they were sent; the version goes up by one.
    pub fn flush(&mut self)
        requires
            old(self).version_view() < usize::MAX,
        ensures
            final(self).wf(),
            final(self).version_view() == old(self).version_view() + 1,
            final(self).pending().len() == 0,
            final(self).arena_len() == 0,
    {
        self.texts.clear();
        self.pending_edits.clear();
        self.version = self.version + 1;
    }

    /// Forgets everything of a closed buffer; a reopened one starts at version 1.
    pub fn dispose(&mut self)
        ensures
            final(self).wf(),
            final(self).version_view() == 1,
            final(self).pending().len() == 0,
            final(self).arena_len() == 0,
    {
        self.texts.clear();
        self.pending_edits.clear();
        self.version = 1;
    }
}

/// How a server wants to hear of document changes.
#[derive(Clone, Copy, Debug, PartialEq, Eq, Structural)]
pub enum TextDocumentSyncKind {
    Disabled,
    Full,
    Incremental,
}

/// A didChange notification to send: the new version, and either the whole
/// text or the content changes in the order they were made.
pub enum DidChange {
    Full(usize),
    Incremental(usize, Vec<(BufferRange, Vec<u8>)>),
}

/// The byte views of owned content changes.
pub open spec fn owned_changes(cs: Seq<(BufferRange, Vec<u8>)>) -> Seq<(BufferRange, Seq<u8>)> {
    cs.map_values(|c: (BufferRange, Vec<u8>)| (c.0, c.1@))
}

impl VersionedBuffer {
    /// Records buffer edit `e` as the content change that stands for it.
    pub fn record_edit(&mut self, e: &crate::undo::Edit)
        requires
            old(self).wf(),
        ensures
            final(self).wf(),
            final(self).version_view() == old(self).version_view(),
            final(self).pending() == old(self).pending().push(change_of(e@)),
    {
        match e.kind {
            EditKind::Insert => {
                self.add_edit(BufferRange { from: e.range.from, to: e.range.from }, e.text.as_slice());
            },
            EditKind::Delete => {
                let empty: [u8; 0] = [];
                assert(empty@ =~= Seq::<u8>::empty());
                self.add_edit(e.range, empty.as_slice());
            },
        }
    }

    /// The didChange to send for the pending changes, if any and if the
    /// server wants changes: incremental servers get the changes in order,
    /// others the whole text; the version goes up by one and the pending
    /// changes are forgotten.
    pub fn take_did_change(&mut self, kind: TextDocumentSyncKind) -> (r: Option<DidChange>)
        requires
            old(self).wf(),
            old(self).version_view() < usize::MAX,
        ensures
            final(self).wf(),
            kind == TextDocumentSyncKind::Disabled || old(self).pending().len() == 0 ==> r.is_none() && final(self).pending()
                == old(self).pending() && final(self).version_view() == old(self).version_view(),
            kind != TextDocumentSyncKind::Disabled && old(self).pending().len() > 0 ==> {
                &&& final(self).version_view() == old(self).version_view() + 1
                &&& final(self).pending().len() == 0
                &&& final(self).arena_len() == 0
                &&& kind == TextDocumentSyncKind::Full ==> (r matches Some(DidChange::Full(v)) && v == final(self).version_view())
                &&& kind == TextDocumentSyncKind::Incremental ==> (r matches Some(DidChange::Incremental(v, cs)) && v
                    == final(self).version_view() && owned_changes(cs@) == old(self).pending())
            },
    {
        if kind == TextDocumentSyncKind::Disabled || self.pending_edits.len() == 0 {
            return None;
        }
        let ghost p = self.pending();
        let mut changes: Vec<(BufferRange, Vec<u8>)> = Vec::new();
        if kind == TextDocumentSyncKind::Incremental {
            let mut i: usize = 0;
            while i < self.pending_edits.len()
                invariant
                    self.wf(),
                    p == self.pending(),
                    i <= p.len(),
                    owned_changes(changes@) == p.subrange(0, i as int),
                decreases p.len() - i,
            {
                let (range, text) = self.pending_edit(i);
                let mut owned: Vec<u8> = Vec::new();
                push_bytes(&mut owned, text);
                let ghost prev = changes@;
                changes.push((range, owned));
                assert(owned_changes(changes@) =~= owned_changes(prev).push((range, text@)));
                assert(p.subrange(0, i + 1) =~= p.subrange(0, i as int).push(p[i as int]));
                i = i + 1;
            }
            assert(p.subrange(0, p.len() as int) =~= p);
        }
        self.flush();
        if kind == TextDocumentSyncKind::Full {
            Some(DidChange::Full(self.version))
        } else {
            Some(DidChange::Incremental(self.version, changes))
        }
    }
}

/// The versioned buffers of a language server, indexed by buffer handle.
pub struct VersionedBufferCollection {
    buffers: Vec<VersionedBuffer>,
}

impl VersionedBufferCollection {
    pub closed spec fn wf(&self) -> bool {
        forall|i: int| 0 <= i < self.buffers@.len() ==> (#[trigger] self.buffers@[i]).wf()
    }

    /// The pending changes of buffer `i`; none for a buffer never edited.
    pub closed spec fn pending_of(&self, i: int) -> Seq<(BufferRange, Seq<u8>)> {
        if 0 <= i < self.buffers@.len() {
            self.buffers@[i].pending()
        } else {
            Seq::empty()
        }
    }

    pub closed spec fn len(&self) -> nat {
        self.buffers@.len()
    }

    /// The version of buffer `i`; 0 for a buffer never edited.
    pub closed spec fn version_of(&self, i: int) -> nat {
        if 0 <= i < self.buffers@.len() {
            self.buffers@[i].version_view()
        } else {
            0
        }
    }

    pub fn new() -> (r: VersionedBufferCollection)
        ensures
            r.wf(),
            r.len() == 0,
    {
        VersionedBufferCollection { buffers: Vec::new() }
    }

    /// Records a change to buffer `buffer_handle`: `text` replaces `range`.
    pub fn add_edit(&mut self, buffer_handle: BufferHandle, range: BufferRange, text: &[u8])
        requires
            old(self).wf(),
        ensures
            final(self).wf(),
            final(self).pending_of(buffer_handle.0 as int) == old(self).pending_of(buffer_handle.0 as int).push((range, text@)),
            forall|j: int| j != buffer_handle.0 ==> final(self).pending_of(j) == old(self).pending_of(j),
            forall|j: int| #[trigger] final(self).version_of(j) == old(self).version_of(j),
    {
        let index = buffer_handle.0;
        let ghost n = old(self).buffers@.len();
        while self.buffers.len() <= index
            invariant
                self.wf(),
                self.buffers@.len() >= n,
                forall|j: int| 0 <= j < n ==> #[trigger] self.buffers@[j] == old(self).buffers@[j],
                forall|j: int| n <= j < self.buffers@.len() ==> (#[trigger] self.buffers@[j]).pending().len() == 0,
                forall|j: int| n <= j < self.buffers@.len() ==> (#[trigger] self.buffers@[j]).version_view() == 0,
            decreases index + 1 - self.buffers@.len(),
        {
            let ghost prev = self.buffers@;
            let b = VersionedBuffer::new();
            self.buffers.push(b);
            assert(forall|j: int| 0 <= j < prev.len() ==> self.buffers@[j] == prev[j]);
        }
        let ghost mid = self.buffers@;
        assert(forall|j: int| #![trigger self.pending_of(j)] self.pending_of(j) == old(self).pending_of(j)) by {
            assert forall|j: int| #![trigger self.pending_of(j)] self.pending_of(j) == old(self).pending_of(j) by {
                if 0 <= j < n {
                    assert(self.buffers@[j] == old(self).buffers@[j]);
                } else if n <= j < self.buffers@.len() {
                    assert(self.buffers@[j].pending().len() == 0);
                    assert(self.pending_of(j) =~= old(self).pending_of(j));
                }
            }
        }
        assert(forall|j: int| #![trigger self.version_of(j)] self.version_of(j) == old(self).version_of(j)) by {
            assert forall|j: int| #![trigger self.version_of(j)] self.version_of(j) == old(self).version_of(j) by {
                if 0 <= j < n {
                    assert(self.buffers@[j] == old(self).buffers@[j]);
                } else if n <= j < self.buffers@.len() {
                    assert(self.buffers@[j].version_view() == 0);
                }
            }
        }
        let ghost before_versions = self.buffers@;
        let ghost before = self.pending_of(index as int);
        let mut buffer = VersionedBuffer::new();
        self.buffers.set_and_swap(index, &mut buffer);
        assert(buffer == mid[index as int]);
        buffer.add_edit(range, text);
        let ghost updated = buffer;
        self.buffers.set_and_swap(index, &mut buffer);
        assert(self.buffers@ == mid.update(index as int, updated));
        assert(self.pending_of(index as int) == before.push((range, text@)));
        assert forall|j: int| j != buffer_handle.0 implies #[trigger] self.pending_of(j) == old(self).pending_of(j) by {
            if 0 <= j < self.buffers@.len() {
                assert(self.buffers@[j] == mid[j]);
            }
        }
        assert forall|j: int| #[trigger] self.version_of(j) == old(self).version_of(j) by {
            if 0 <= j < self.buffers@.len() && j != index {
                assert(self.buffers@[j] == mid[j]);
            }
        }
    }

    /// Forgets everything of buffer `buffer_handle`, which was closed.
    pub fn dispose(&mut self, buffer_handle: BufferHandle)
        requires
            old(self).wf(),
        ensures
            final(self).wf(),
            final(self).pending_of(buffer_handle.0 as int).len() == 0,
            forall|j: int| j != buffer_handle.0 ==> final(self).pending_of(j) == old(self).pending_of(j),
    {
        let index = buffer_handle.0;
        if index < self.buffers.len() {
            let mut buffer = VersionedBuffer::new();
            self.buffers.set_and_swap(index, &mut buffer);
            buffer.dispose();
            self.buffers.set_and_swap(index, &mut buffer);
        }
    }

    /// The handles of the buffers with pending changes, in order.
    pub fn pending_handles(&self) -> (r: Vec<BufferHandle>)
        ensures
            forall|k: int| 0 <= k < r@.len() ==> self.pending_of((#[trigger] r@[k]).0 as int).len() > 0,
            forall|i: int| 0 <= i < self.len() && self.pending_of(i).len() > 0 ==> r@.contains(BufferHandle(i as usize)),
    {
        let mut out: Vec<BufferHandle> = Vec::new();
        let mut i: usize = 0;
        while i < self.buffers.len()
            invariant
                i <= self.buffers@.len(),
                forall|k: int| 0 <= k < out@.len() ==> self.pending_of((#[trigger] out@[k]).0 as int).len() > 0,
                forall|j: int| 0 <= j < i && self.pending_of(j).len() > 0 ==> out@.contains(BufferHandle(j as usize)),
            decreases self.buffers@.len() - i,
        {
            if self.buffers[i].pending_len() > 0 {
                let ghost prev = out@;
                out.push(BufferHandle(i));
                assert(out@[out@.len() - 1] == BufferHandle(i));
                assert forall|j: int| 0 <= j < i && self.pending_of(j).len() > 0 implies out@.contains(BufferHandle(j as usize)) by {
                    let k = choose|k: int| 0 <= k < prev.len() && prev[k] == BufferHandle(j as usize);
                    assert(out@[k] == prev[k]);
                }
            }
            i = i + 1;
        }
        out
    }
}

/// The id of a request sent to a language server; 0 marks a free slot.
#[derive(Clone, Copy, Debug, PartialEq, Eq, Structural)]
pub struct RequestId(pub usize);

/// A request waiting for its response, and the method it asked for.
#[derive(Clone, Copy, Debug)]
pub struct PendingRequest {
    pub id: RequestId,
    pub method: &'static str,
}

/// How many entries of `s` wait on request `id`.
pub open spec fn count_id(s: Seq<PendingRequest>, id: usize) -> nat
    decreases s.len(),
{
    if s.len() == 0 {
        0
    } else {
        count_id(s.drop_last(), id) + if s.last().id.0 == id {
            1nat
        } else {
            0nat
        }
    }
}

/// No two entries of `s` wait on the same request.
pub open spec fn distinct_ids(s: Seq<PendingRequest>) -> bool {
    forall|i: int, j: int| 0 <= i < j < s.len() && s[i].id.0 != 0 ==> s[i].id != s[j].id
}

proof fn lemma_count_none(s: Seq<PendingRequest>, id: usize)
    ensures
        count_id(s, id) == 0 <==> forall|k: int| 0 <= k < s.len() ==> s[k].id.0 != id,
    decreases s.len(),
{
    if s.len() > 0 {
        lemma_count_none(s.drop_last(), id);
        if count_id(s, id) == 0 {
            assert forall|k: int| 0 <= k < s.len() implies s[k].id.0 != id by {
                if k < s.len() - 1 {
                    assert(s[k] == s.drop_last()[k]);
                }
            }
        } else if forall|k: int| 0 <= k < s.len() ==> s[k].id.0 != id {
            assert forall|k: int| 0 <= k < s.drop_last().len() implies s.drop_last()[k].id.0 != id by {
                assert(s.drop_last()[k] == s[k]);
            }
        }
    }
}

proof fn lemma_count_update(s: Seq<PendingRequest>, i: int, x: PendingRequest, id: usize)
    requires
        0 <= i < s.len(),
    ensures
        count_id(s.update(i, x), id) + (if s[i].id.0 == id { 1nat } else { 0nat })
            == count_id(s, id) + (if x.id.0 == id { 1nat } else { 0nat }),
    decreases s.len(),
{
    let u = s.update(i, x);
    if i < s.len() - 1 {
        lemma_count_update(s.drop_last(), i, x, id);
        assert(u.drop_last() =~= s.drop_last().update(i, x));
    } else {
        assert(u.drop_last() =~= s.drop_last());
    }
}

proof fn lemma_count_at_most_one(s: Seq<PendingRequest>, id: usize)
    requires
        distinct_ids(s),
        id != 0,
    ensures
        count_id(s, id) <= 1,
    decreases s.len(),
{
    if s.len() > 0 {
        let init = s.drop_last();
        assert(distinct_ids(init)) by {
            assert forall|i: int, j: int| 0 <= i < j < init.len() && init[i].id.0 != 0 implies init[i].id != init[j].id by {
                assert(init[i] == s[i] && init[j] == s[j]);
            }
        }
        lemma_count_at_most_one(init, id);
        if s.last().id.0 == id {
            lemma_count_none(init, id);
            assert forall|k: int| 0 <= k < init.len() implies init[k].id.0 != id by {
                assert(init[k] == s[k]);
                assert(s[k].id != s[s.len() - 1].id);
            }
        }
    }
}

/// The requests sent to a language server that wait for their response.
pub struct PendingRequestColection {
    pending_requests: Vec<PendingRequest>,
}

impl PendingRequestColection {
    pub closed spec fn entries(&self) -> Seq<PendingRequest> {
        self.pending_requests@
    }

    /// No two entries wait on the same request.
    pub open spec fn wf(&self) -> bool {
        distinct_ids(self.entries())
    }

    pub fn new() -> (r: PendingRequestColection)
        ensures
            r.wf(),
            forall|id: usize| count_id(r.entries(), id) == 0,
    {
        PendingRequestColection { pending_requests: Vec::new() }
    }

    /// Records that request `id`, for `method`, waits for its response.
    pub fn add(&mut self, id: RequestId, method: &'static str)
        requires
            old(self).wf(),
            id.0 != 0,
            count_id(old(self).entries(), id.0) == 0,
        ensures
            final(self).wf(),
            count_id(final(self).entries(), id.0) == 1,
            exists|k: int| 0 <= k < final(self).entries().len() && final(self).entries()[k] == (PendingRequest { id, method }),
            forall|other: usize| other != 0 && other != id.0 ==> count_id(final(self).entries(), other) == count_id(old(self).entries(), other),
            final(self).entries() == old(self).entries().push(PendingRequest { id, method }) || exists|k: int|
                0 <= k < old(self).entries().len() && old(self).entries()[k].id.0 == 0 && final(self).entries()
                    == old(self).entries().update(k, PendingRequest { id, method }),
    {
        let ghost s = self.pending_requests@;
        let entry = PendingRequest { id, method };
        proof {
            lemma_count_none(s, id.0);
        }
        let mut i: usize = 0;
        while i < self.pending_requests.len()
            invariant
                i <= s.len(),
                self.pending_requests@ == s,
                s == old(self).pending_requests@,
                distinct_ids(s),
                count_id(s, id.0) == 0,
                forall|k: int| 0 <= k < s.len() ==> s[k].id.0 != id.0,
                entry == (PendingRequest { id, method }),
                id.0 != 0,
            decreases s.len() - i,
        {
            if self.pending_requests[i].id.0 == 0 {
                self.pending_requests.set(i, entry);
                proof {
                    lemma_count_update(s, i as int, entry, id.0);
                    assert(self.pending_requests@ == s.update(i as int, entry));
                    assert forall|other: usize| other != 0 implies count_id(self.pending_requests@, other)
                        + (if s[i as int].id.0 == other { 1nat } else { 0nat }) == count_id(s, other)
                        + (if entry.id.0 == other { 1nat } else { 0nat }) by {
                        lemma_count_update(s, i as int, entry, other);
                    }
                    let u = self.pending_requests@;
                    assert forall|a: int, b: int| 0 <= a < b < u.len() && u[a].id.0 != 0 implies u[a].id != u[b].id by {
                        if a != i && b != i {
                            assert(u[a] == s[a] && u[b] == s[b]);
                        } else if a == i {
                            assert(s[b].id.0 != id.0);
                        } else {
                            assert(s[a].id.0 != id.0);
                        }
                    }
                    assert(u[i as int] == entry);
                    assert forall|other: usize| other != 0 && other != id.0 implies count_id(u, other) == count_id(s, other) by {
                        lemma_count_update(s, i as int, entry, other);
                    }
                }
                return;
            }
            i = i + 1;
        }
        self.pending_requests.push(entry);
        proof {
            let u = self.pending_requests@;
            assert(u.drop_last() =~= s);
            assert(u.last() == entry);
            assert forall|a: int, b: int| 0 <= a < b < u.len() && u[a].id.0 != 0 implies u[a].id != u[b].id by {
                if b < s.len() {
                    assert(u[a] == s[a] && u[b] == s[b]);
                } else {
                    assert(u[a] == s[a]);
                }
            }
            assert(u[u.len() - 1] == entry);
            assert(self.entries()[self.entries().len() - 1] == (PendingRequest { id, method }));
            assert(self.entries() =~= s.push(entry));
        }
    }

    /// Takes the entry of request `id`, whose response arrived, and returns
    /// its method; none where no entry waits on `id`.
    pub fn take(&mut self, id: RequestId) -> (r: Option<&'static str>)
        requires
            old(self).wf(),
            id.0 != 0,
        ensures
            final(self).wf(),
            r.is_some() <==> count_id(old(self).entries(), id.0) == 1,
            r.is_none() <==> count_id(old(self).entries(), id.0) == 0,
            r matches Some(m) ==> exists|k: int|
                0 <= k < old(self).entries().len() && old(self).entries()[k] == (PendingRequest { id, method: m })
                    && final(self).entries() == old(self).entries().update(k, PendingRequest { id: RequestId(0), method: m }),
            r.is_none() ==> final(self).entries() == old(self).entries(),
            count_id(final(self).entries(), id.0) == 0,
            forall|other: usize| other != 0 && other != id.0 ==> count_id(final(self).entries(), other) == count_id(old(self).entries(), other),
    {
        let ghost s = self.pending_requests@;
        proof {
            lemma_count_at_most_one(s, id.0);
            lemma_count_none(s, id.0);
        }
        let mut i: usize = 0;
        while i < self.pending_requests.len()
            invariant
                i <= s.len(),
                self.pending_requests@ == s,
                s == old(self).pending_requests@,
                forall|k: int| 0 <= k < i ==> s[k].id.0 != id.0,
                distinct_ids(s),
                count_id(s, id.0) <= 1,
                count_id(s, id.0) == 0 <==> forall|k: int| 0 <= k < s.len() ==> s[k].id.0 != id.0,
                id.0 != 0,
            decreases s.len() - i,
        {
            let entry = self.pending_requests[i];
            if entry.id == id {
                let freed = PendingRequest { id: RequestId(0), method: entry.method };
                self.pending_requests.set(i, freed);
                proof {
                    assert(s[i as int] == entry);
                    assert(s[i as int].id.0 == id.0);
                    assert(s[i as int] == (PendingRequest { id, method: entry.method }));
                    assert(self.pending_requests@ == s.update(i as int, freed));
                    lemma_count_update(s, i as int, freed, id.0);
                    assert forall|other: usize| other != 0 && other != id.0 implies count_id(self.pending_requests@, other) == count_id(s, other) by {
                        lemma_count_update(s, i as int, freed, other);
                    }

                    assert forall|other: usize| other != 0 implies count_id(self.pending_requests@, other)
                        + (if s[i as int].id.0 == other { 1nat } else { 0nat }) == count_id(s, other)
                        + (if freed.id.0 == other { 1nat } else { 0nat }) by {
                        lemma_count_update(s, i as int, freed, other);
                    }

                    let u = self.pending_requests@;
                    assert forall|a: int, b: int| 0 <= a < b < u.len() && u[a].id.0 != 0 implies u[a].id != u[b].id by {
                        if a != i && b != i {
                            assert(u[a] == s[a] && u[b] == s[b]);
                        } else if b == i {
                            assert(u[a] == s[a]);
                        }
                    }
                }
                return Some(entry.method);
            }
            i = i + 1;
        }
        None
    }
}

/// The ids given to requests, counting up from 1, so that no two requests share one.
pub struct RequestIds {
    next_request_id: usize,
}

impl RequestIds {
    pub closed spec fn next_view(&self) -> nat {
        self.next_request_id as nat
    }

    pub fn new() -> (r: RequestIds)
        ensures
            r.next_view() == 1,
    {
        RequestIds { next_request_id: 1 }
    }

    /// A new request id: larger than every id given before.
    pub fn next(&mut self) -> (r: RequestId)
        requires
            old(self).next_view() < usize::MAX,
        ensures
            r.0 == old(self).next_view(),
            final(self).next_view() == old(self).next_view() + 1,
    {
        let id = self.next_request_id;
        self.next_request_id = id + 1;
        RequestId(id)
    }
}

/// A request id larger than every pending one is not pending: adding it
/// keeps each pending id unique, so its response later finds exactly one entry.
pub proof fn lemma_fresh_id_not_pending(s: Seq<PendingRequest>, next: usize)
    requires
        forall|k: int| 0 <= k < s.len() ==> s[k].id.0 < next,
    ensures
        count_id(s, next) == 0,
{
    lemma_count_none(s, next);
}

/// An error a language client answers a server request with.
#[derive(Clone, Copy, Debug)]
pub struct ResponseError {
    pub code: i64,
    pub message: &'static str,
}

impl ResponseError {
    /// The JSON-RPC error for a message that could not be parsed.
    pub fn parse_error() -> (r: ResponseError)
        ensures
            r.code == -32700,
    {
        ResponseError { code: -32700, message: "ParseError" }
    }

    /// The JSON-RPC error for a method the client does not know.
    pub fn method_not_found() -> (r: ResponseError)
        ensures
            r.code == -32601,
    {
        ResponseError { code: -32601, message: "MethodNotFound" }
    }
}

/// A diagnostic of a language server: its message and its range, in the
/// protocol's UTF-16 coordinates.
pub struct Diagnostic {
    pub message: String,
    pub utf16_range: BufferRange,
}

/// Whether path `a`, relative to `root` unless it starts with `/`, is path `b`.
pub open spec fn same_path_with_root(root: Seq<u8>, a: Seq<u8>, b: Seq<u8>) -> bool {
    if a.len() > 0 && a[0] == 0x2f {
        a == b
    } else {
        root + seq![0x2fu8] + a == b
    }
}

pub fn are_same_path_with_root(root: &[u8], a: &[u8], b: &[u8]) -> (r: bool)
    ensures
        r == same_path_with_root(root@, a@, b@),
{
    if a.len() > 0 && a[0] == 0x2f {
        same_bytes(a, b)
    } else {
        let mut joined: Vec<u8> = Vec::new();
        push_bytes(&mut joined, root);
        joined.push(0x2f);
        push_bytes(&mut joined, a);
        assert(joined@ =~= root@ + seq![0x2fu8] + a@);
        same_bytes(joined.as_slice(), b)
    }
}

/// The `file://` URI of `path`, taken relative to `root` unless it starts with `/`.
pub open spec fn path_uri(root: Seq<u8>, path: Seq<u8>) -> Seq<u8> {
    if path.len() > 0 && path[0] == 0x2f {
        "file://".spec_bytes() + path
    } else {
        "file://".spec_bytes() + root + seq![0x2fu8] + path
    }
}

pub fn get_path_uri(root: &[u8], path: &[u8]) -> (r: Vec<u8>)
    ensures
        r@ == path_uri(root@, path@),
{
    let mut uri: Vec<u8> = Vec::new();
    push_bytes(&mut uri, "file://".as_bytes());
    if !(path.len() > 0 && path[0] == 0x2f) {
        push_bytes(&mut uri, root);
        uri.push(0x2f);
    }
    push_bytes(&mut uri, path);
    assert(uri@ =~= path_uri(root@, path@));
    uri
}

/// The diagnostics a language server published for one path, and the
/// buffer of that path, if one is open. Only the first `len` are current.
pub struct BufferDiagnosticCollection {
    path: Vec<u8>,
    buffer_handle: Option<BufferHandle>,
    diagnostics: Vec<Diagnostic>,
    len: usize,
}

/// What a group of diagnostics is: its path, its buffer and its current
/// diagnostics, as message and range.
pub struct DiagnosticGroupView {
    pub path: Seq<u8>,
    pub buffer_handle: Option<BufferHandle>,
    pub diagnostics: Seq<(Seq<char>, BufferRange)>,
}

/// The messages and ranges of diagnostics `ds`.
pub open spec fn diagnostic_views(ds: Seq<Diagnostic>) -> Seq<(Seq<char>, BufferRange)> {
    ds.map_values(|d: Diagnostic| (d.message@, d.utf16_range))
}

/// Where `x` goes in `s`, sorted by range start: after every entry that
/// does not start after it.
pub open spec fn sorted_slot(s: Seq<(&str, BufferRange)>, x: (&str, BufferRange), j: int) -> int
    decreases s.len() - j,
{
    if j < 0 || j >= s.len() {
        s.len() as int
    } else if pos_lt(x.1.from, s[j].1.from) {
        j
    } else {
        sorted_slot(s, x, j + 1)
    }
}

/// `ds` sorted by the start of their ranges; equal starts keep their order.
pub open spec fn sort_by_start(ds: Seq<(&str, BufferRange)>) -> Seq<(&str, BufferRange)>
    decreases ds.len(),
{
    if ds.len() == 0 {
        ds
    } else {
        let s = sort_by_start(ds.drop_last());
        s.insert(sorted_slot(s, ds.last(), 0), ds.last())
    }
}

proof fn lemma_sorted_slot_bounds(s: Seq<(&str, BufferRange)>, x: (&str, BufferRange), j: int)
    requires
        0 <= j <= s.len(),
    ensures
        j <= sorted_slot(s, x, j) <= s.len(),
    decreases s.len() - j,
{
    if j < s.len() && !pos_lt(x.1.from, s[j].1.from) {
        lemma_sorted_slot_bounds(s, x, j + 1);
    }
}

/// Diagnostics `ds` sorted by the start of their ranges, equal starts kept in order.
pub fn sort_diagnostics<'a>(ds: &Vec<(&'a str, BufferRange)>) -> (r: Vec<(&'a str, BufferRange)>)
    ensures
        r@ == sort_by_start(ds@),
{
    let mut sorted: Vec<(&'a str, BufferRange)> = Vec::new();
    let mut i: usize = 0;
    assert(ds@.subrange(0, 0) =~= Seq::<(&str, BufferRange)>::empty());
    while i < ds.len()
        invariant
            i <= ds@.len(),
            sorted@ == sort_by_start(ds@.subrange(0, i as int)),
        decreases ds@.len() - i,
    {
        let x = ds[i];
        let mut j: usize = 0;
        while j < sorted.len() && !x.1.from.is_before(&sorted[j].1.from)
            invariant
                j <= sorted@.len(),
                sorted_slot(sorted@, x, 0) == sorted_slot(sorted@, x, j as int),
            decreases sorted@.len() - j,
        {
            j = j + 1;
        }
        proof {
            lemma_sorted_slot_bounds(sorted@, x, 0);
            assert(ds@.subrange(0, i + 1).drop_last() =~= ds@.subrange(0, i as int));
            assert(ds@.subrange(0, i + 1).last() == x);
        }
        sorted.insert(j, x);
        i = i + 1;
    }
    assert(ds@.subrange(0, ds@.len() as int) =~= ds@);
    sorted
}

/// The messages and ranges of a list of published diagnostics.
pub open spec fn published_views(ds: Seq<(&str, BufferRange)>) -> Seq<(Seq<char>, BufferRange)> {
    ds.map_values(|d: (&str, BufferRange)| (d.0@, d.1))
}

impl BufferDiagnosticCollection {
    pub closed spec fn view(&self) -> DiagnosticGroupView {
        DiagnosticGroupView {
            path: self.path@,
            buffer_handle: self.buffer_handle,
            diagnostics: diagnostic_views(self.diagnostics@.subrange(0, self.len as int)),
        }
    }

    pub closed spec fn wf(&self) -> bool {
        self.len <= self.diagnostics@.len()
    }

    /// Adds a diagnostic after the current ones, reusing a slot where one is left.
    pub fn add(&mut self, message: &str, range: BufferRange)
        requires
            old(self).wf(),
        ensures
            final(self).wf(),
            final(self).view() == (DiagnosticGroupView {
                diagnostics: old(self).view().diagnostics.push((message@, range)),
                ..old(self).view()
            }),
    {
        let d = Diagnostic { message: message.to_owned(), utf16_range: range };
        let ghost kept = self.diagnostics@.subrange(0, self.len as int);
        let ghost dv = (d.message@, d.utf16_range);
        if self.len < self.diagnostics.len() {
            self.diagnostics.set(self.len, d);
        } else {
            self.diagnostics.push(d);
            let _ = self.diagnostics.len();
        }
        assert(self.diagnostics@.subrange(0, self.len + 1) =~= kept.push(self.diagnostics@[self.len as int]));
        self.len = self.len + 1;
        assert(diagnostic_views(kept.push(self.diagnostics@[self.len - 1])) =~= diagnostic_views(kept).push(dv));
    }
}

/// The first group at or after `i` for path `p`, or -1.
pub open spec fn group_with_path(gs: Seq<DiagnosticGroupView>, p: Seq<u8>, i: int) -> int
    decreases gs.len() - i,
{
    if i < 0 || i >= gs.len() {
        -1
    } else if gs[i].path == p {
        i
    } else {
        group_with_path(gs, p, i + 1)
    }
}

proof fn lemma_group_with_path_bounds(gs: Seq<DiagnosticGroupView>, p: Seq<u8>, i: int)
    requires
        0 <= i,
    ensures
        group_with_path(gs, p, i) == -1 || i <= group_with_path(gs, p, i) < gs.len(),
    decreases gs.len() - i,
{
    if i < gs.len() && gs[i].path != p {
        lemma_group_with_path_bounds(gs, p, i + 1);
    }
}

/// The first group at or after `i` bound to buffer `h`, or -1.
pub open spec fn group_with_handle(gs: Seq<DiagnosticGroupView>, h: BufferHandle, i: int) -> int
    decreases gs.len() - i,
{
    if i < 0 || i >= gs.len() {
        -1
    } else if gs[i].buffer_handle == Some(h) {
        i
    } else {
        group_with_handle(gs, h, i + 1)
    }
}

/// The first group at or after `i` bound to no buffer whose path is the
/// buffer path `bp` relative to `root`, or -1.
pub open spec fn unbound_group_for(gs: Seq<DiagnosticGroupView>, root: Seq<u8>, bp: Seq<u8>, i: int) -> int
    decreases gs.len() - i,
{
    if i < 0 || i >= gs.len() {
        -1
    } else if gs[i].buffer_handle.is_none() && same_path_with_root(root, bp, gs[i].path) {
        i
    } else {
        unbound_group_for(gs, root, bp, i + 1)
    }
}

/// The diagnostics of all paths that a language server reported on.
pub struct DiagnosticCollection {
    buffer_diagnostics: Vec<BufferDiagnosticCollection>,
}

impl DiagnosticCollection {
    pub closed spec fn groups(&self) -> Seq<DiagnosticGroupView> {
        self.buffer_diagnostics@.map_values(|g: BufferDiagnosticCollection| g.view())
    }

    pub closed spec fn wf(&self) -> bool {
        forall|i: int| 0 <= i < self.buffer_diagnostics@.len() ==> (#[trigger] self.buffer_diagnostics@[i]).wf()
    }

    pub fn new() -> (r: DiagnosticCollection)
        ensures
            r.wf(),
            r.groups().len() == 0,
    {
        DiagnosticCollection { buffer_diagnostics: Vec::new() }
    }

    /// The group of `path`, emptied for a new set of diagnostics; a new
    /// group is made where none exists, bound to `buffer`, the handle of the
    /// open buffer of that path if any.
    pub fn path_diagnostics_mut(&mut self, path: &str, buffer: Option<BufferHandle>) -> (r: usize)
        requires
            old(self).wf(),
        ensures
            final(self).wf(),
            r < final(self).groups().len(),
            final(self).groups()[r as int].path == path.spec_bytes(),
            final(self).groups()[r as int].diagnostics.len() == 0,
            group_with_path(old(self).groups(), path.spec_bytes(), 0) >= 0 ==> {
                &&& r == group_with_path(old(self).groups(), path.spec_bytes(), 0)
                &&& final(self).groups() == old(self).groups().update(r as int, DiagnosticGroupView { diagnostics: Seq::empty(), ..old(self).groups()[r as int] })
            },
            group_with_path(old(self).groups(), path.spec_bytes(), 0) < 0 ==> final(self).groups() == old(self).groups().push(
                DiagnosticGroupView { path: path.spec_bytes(), buffer_handle: buffer, diagnostics: Seq::empty() },
            ) && r == old(self).groups().len(),
    {
        let ghost gs = self.groups();
        let p = path.as_bytes();
        let mut i: usize = 0;
        while i < self.buffer_diagnostics.len()
            invariant
                i <= gs.len(),
                gs == self.groups(),
                gs == old(self).groups(),
                self.wf(),
                self.buffer_diagnostics@ == old(self).buffer_diagnostics@,
                group_with_path(gs, p@, 0) == group_with_path(gs, p@, i as int),
                p@ == path.spec_bytes(),
            decreases gs.len() - i,
        {
            if same_bytes(self.buffer_diagnostics[i].path.as_slice(), p) {
                assert(gs[i as int].path == p@);
                let mut g = BufferDiagnosticCollection { path: Vec::new(), buffer_handle: None, diagnostics: Vec::new(), len: 0 };
                self.buffer_diagnostics.set_and_swap(i, &mut g);
                g.len = 0;
                let ghost ng = g;
                self.buffer_diagnostics.set_and_swap(i, &mut g);
                assert(ng.view().diagnostics =~= Seq::<(Seq<char>, BufferRange)>::empty());
                assert(ng.view() == DiagnosticGroupView { diagnostics: Seq::empty(), ..gs[i as int] });
                assert(self.groups() =~= gs.update(i as int, DiagnosticGroupView { diagnostics: Seq::empty(), ..gs[i as int] }));
                return i;
            }
            i = i + 1;
        }
        let mut owned: Vec<u8> = Vec::new();
        push_bytes(&mut owned, p);
        let index = self.buffer_diagnostics.len();
        let fresh = BufferDiagnosticCollection {
            path: owned,
            buffer_handle: buffer,
            diagnostics: Vec::new(),
            len: 0,
        };
        assert(fresh.view().diagnostics =~= Seq::<(Seq<char>, BufferRange)>::empty());
        assert(fresh.view() == DiagnosticGroupView { path: p@, buffer_handle: buffer, diagnostics: Seq::empty() });
        self.buffer_diagnostics.push(fresh);
        assert(self.groups() =~= gs.push(DiagnosticGroupView { path: p@, buffer_handle: buffer, diagnostics: Seq::empty() }));
        index
    }

    /// Adds a diagnostic to group `index`.
    pub fn add_diagnostic(&mut self, index: usize, message: &str, range: BufferRange)
        requires
            old(self).wf(),
            index < old(self).groups().len(),
        ensures
            final(self).wf(),
            final(self).groups() == old(self).groups().update(
                index as int,
                DiagnosticGroupView {
                    diagnostics: old(self).groups()[index as int].diagnostics.push((message@, range)),
                    ..old(self).groups()[index as int]
                },
            ),
    {
        let mut g = BufferDiagnosticCollection { path: Vec::new(), buffer_handle: None, diagnostics: Vec::new(), len: 0 };
        self.buffer_diagnostics.set_and_swap(index, &mut g);
        assert(g.wf());
        g.add(message, range);
        let ghost ng = g;
        self.buffer_diagnostics.set_and_swap(index, &mut g);
        assert(self.groups() =~= old(self).groups().update(index as int, ng.view()));
    }

    /// The current diagnostics of buffer `buffer_handle`; none where no group is bound to it.
    pub fn buffer_diagnostics(&self, buffer_handle: BufferHandle) -> (r: &[Diagnostic])
        requires
            self.wf(),
        ensures
            group_with_handle(self.groups(), buffer_handle, 0) < 0 ==> r@.len() == 0,
            group_with_handle(self.groups(), buffer_handle, 0) >= 0 ==> diagnostic_views(r@) == self.groups()[group_with_handle(
                self.groups(),
                buffer_handle,
                0,
            )].diagnostics,
    {
        let ghost gs = self.groups();
        let mut i: usize = 0;
        while i < self.buffer_diagnostics.len()
            invariant
                i <= gs.len(),
                gs == self.groups(),
                self.wf(),
                group_with_handle(gs, buffer_handle, 0) == group_with_handle(gs, buffer_handle, i as int),
            decreases gs.len() - i,
        {
            let g = &self.buffer_diagnostics[i];
            if g.buffer_handle == Some(buffer_handle) {
                assert(g.wf());
                let (head, _) = g.diagnostics.as_slice().split_at(g.len);
                assert(head@ =~= g.diagnostics@.subrange(0, g.len as int));
                return head;
            }
            i = i + 1;
        }
        let empty: &[Diagnostic] = &[];
        assert(empty@.len() == 0);
        empty
    }

    /// Binds the buffer of `buffer_path`, just loaded, to the first group of
    /// its path that no buffer is bound to.
    pub fn on_load_buffer(&mut self, root: &str, buffer_handle: BufferHandle, buffer_path: &str)
        requires
            old(self).wf(),
        ensures
            final(self).wf(),
            ({
                let k = unbound_group_for(old(self).groups(), root.spec_bytes(), buffer_path.spec_bytes(), 0);
                &&& k < 0 ==> final(self).groups() == old(self).groups()
                &&& k >= 0 ==> final(self).groups() == old(self).groups().update(
                    k,
                    DiagnosticGroupView { buffer_handle: Some(buffer_handle), ..old(self).groups()[k] },
                )
            }),
    {
        let ghost gs = self.groups();
        let r = root.as_bytes();
        let bp = buffer_path.as_bytes();
        let mut i: usize = 0;
        while i < self.buffer_diagnostics.len()
            invariant
                i <= gs.len(),
                gs == self.groups(),
                gs == old(self).groups(),
                self.wf(),
                self.buffer_diagnostics@ == old(self).buffer_diagnostics@,
                unbound_group_for(gs, r@, bp@, 0) == unbound_group_for(gs, r@, bp@, i as int),
                r@ == root.spec_bytes(),
                bp@ == buffer_path.spec_bytes(),
            decreases gs.len() - i,
        {
            if self.buffer_diagnostics[i].buffer_handle.is_none()
                && are_same_path_with_root(r, bp, self.buffer_diagnostics[i].path.as_slice()) {
                let mut g = BufferDiagnosticCollection { path: Vec::new(), buffer_handle: None, diagnostics: Vec::new(), len: 0 };
                self.buffer_diagnostics.set_and_swap(i, &mut g);
                g.buffer_handle = Some(buffer_handle);
                let ghost ng = g;
                self.buffer_diagnostics.set_and_swap(i, &mut g);
                assert(self.groups() =~= gs.update(i as int, DiagnosticGroupView { buffer_handle: Some(buffer_handle), ..gs[i as int] }));
                return;
            }
            i = i + 1;
        }
    }

    /// Unbinds buffer `buffer_handle`, just closed, from the first group bound to it.
    pub fn on_close_buffer(&mut self, buffer_handle: BufferHandle)
        requires
            old(self).wf(),
        ensures
            final(self).wf(),
            ({
                let k = group_with_handle(old(self).groups(), buffer_handle, 0);
                &&& k < 0 ==> final(self).groups() == old(self).groups()
                &&& k >= 0 ==> final(self).groups() == old(self).groups().update(
                    k,
                    DiagnosticGroupView { buffer_handle: None, ..old(self).groups()[k] },
                )
            }),
    {
        let ghost gs = self.groups();
        let mut i: usize = 0;
        while i < self.buffer_diagnostics.len()
            invariant
                i <= gs.len(),
                gs == self.groups(),
                gs == old(self).groups(),
                self.wf(),
                self.buffer_diagnostics@ == old(self).buffer_diagnostics@,
                group_with_handle(gs, buffer_handle, 0) == group_with_handle(gs, buffer_handle, i as int),
            decreases gs.len() - i,
        {
            if self.buffer_diagnostics[i].buffer_handle == Some(buffer_handle) {
                let mut g = BufferDiagnosticCollection { path: Vec::new(), buffer_handle: None, diagnostics: Vec::new(), len: 0 };
                self.buffer_diagnostics.set_and_swap(i, &mut g);
                g.buffer_handle = None;
                let ghost ng = g;
                self.buffer_diagnostics.set_and_swap(i, &mut g);
                assert(self.groups() =~= gs.update(i as int, DiagnosticGroupView { buffer_handle: None, ..gs[i as int] }));
                return;
            }
            i = i + 1;
        }
    }

    /// After buffer `h` was saved under path `bp`: from group `i` on, each
    /// group bound to it is unbound, until one whose path is `bp` relative to
    /// `root`, which stays bound.
    pub open spec fn saved_groups(gs: Seq<DiagnosticGroupView>, root: Seq<u8>, bp: Seq<u8>, h: BufferHandle, i: int) -> Seq<DiagnosticGroupView>
        decreases gs.len() - i,
    {
        if i < 0 || i >= gs.len() {
            gs
        } else if gs[i].buffer_handle == Some(h) {
            if same_path_with_root(root, bp, gs[i].path) {
                gs
            } else {
                Self::saved_groups(gs.update(i, DiagnosticGroupView { buffer_handle: None, ..gs[i] }), root, bp, h, i + 1)
            }
        } else {
            Self::saved_groups(gs, root, bp, h, i + 1)
        }
    }

    /// Rebinds buffer `buffer_handle`, just saved under `buffer_path`: the
    /// groups bound to it are unbound, but for the first whose path matches.
    pub fn on_save_buffer(&mut self, root: &str, buffer_handle: BufferHandle, buffer_path: &str)
        requires
            old(self).wf(),
        ensures
            final(self).wf(),
            final(self).groups() == Self::saved_groups(old(self).groups(), root.spec_bytes(), buffer_path.spec_bytes(), buffer_handle, 0),
    {
        let r = root.as_bytes();
        let bp = buffer_path.as_bytes();
        let mut i: usize = 0;
        while i < self.buffer_diagnostics.len()
            invariant
                i <= self.groups().len(),
                self.wf(),
                self.groups().len() == old(self).groups().len(),
                r@ == root.spec_bytes(),
                bp@ == buffer_path.spec_bytes(),
                Self::saved_groups(old(self).groups(), r@, bp@, buffer_handle, 0) == Self::saved_groups(self.groups(), r@, bp@, buffer_handle, i as int),
            decreases self.groups().len() - i,
        {
            if self.buffer_diagnostics[i].buffer_handle == Some(buffer_handle) {
                if are_same_path_with_root(r, bp, self.buffer_diagnostics[i].path.as_slice()) {
                    return;
                }
                let ghost gs = self.groups();
                let mut g = BufferDiagnosticCollection { path: Vec::new(), buffer_handle: None, diagnostics: Vec::new(), len: 0 };
                self.buffer_diagnostics.set_and_swap(i, &mut g);
                g.buffer_handle = None;
                self.buffer_diagnostics.set_and_swap(i, &mut g);
                assert(self.groups() =~= gs.update(i as int, DiagnosticGroupView { buffer_handle: None, ..gs[i as int] }));
            }
            i = i + 1;
        }
    }

    /// The groups of `gs` from index `i` on that hold diagnostics, in order.
    pub open spec fn nonempty_groups(gs: Seq<DiagnosticGroupView>, i: int) -> Seq<DiagnosticGroupView>
        decreases gs.len() - i,
    {
        if i < 0 || i >= gs.len() {
            Seq::empty()
        } else if gs[i].diagnostics.len() > 0 {
            seq![gs[i]] + Self::nonempty_groups(gs, i + 1)
        } else {
            Self::nonempty_groups(gs, i + 1)
        }
    }

    /// Drops the groups that hold no diagnostics.
    pub fn clear_empty(&mut self)
        requires
            old(self).wf(),
        ensures
            final(self).wf(),
            final(self).groups() == Self::nonempty_groups(old(self).groups(), 0),
    {
        let ghost gs = self.groups();
        let mut i: usize = self.buffer_diagnostics.len();
        assert(self.groups().subrange(0, i as int) + Self::nonempty_groups(gs, i as int) =~= gs.subrange(0, i as int));
        while i > 0
            invariant
                i <= gs.len(),
                self.wf(),
                self.groups() == gs.subrange(0, i as int) + Self::nonempty_groups(gs, i as int),
            decreases i,
        {
            let j = i - 1;
            assert(self.groups().len() == self.buffer_diagnostics@.len());
            assert(self.groups()[j as int] == gs[j as int]);
            assert(self.buffer_diagnostics@[j as int].view() == gs[j as int]);
            if self.buffer_diagnostics[j].len == 0 {
                let ghost before = self.buffer_diagnostics@;
                let ghost groups_before = self.groups();
                assert(gs[j as int].diagnostics.len() == 0);
                assert(Self::nonempty_groups(gs, j as int) == Self::nonempty_groups(gs, i as int));
                self.buffer_diagnostics.remove(j);
                assert(self.groups() =~= groups_before.remove(j as int));
                assert(self.buffer_diagnostics@ =~= before.remove(j as int));
                assert forall|k: int| 0 <= k < self.buffer_diagnostics@.len() implies (#[trigger] self.buffer_diagnostics@[k]).wf() by {
                    if k < j {
                        assert(self.buffer_diagnostics@[k] == before[k]);
                    } else {
                        assert(self.buffer_diagnostics@[k] == before[k + 1]);
                    }
                }
                assert(self.groups() =~= gs.subrange(0, j as int) + Self::nonempty_groups(gs, j as int));
            } else {
                assert(self.groups() =~= gs.subrange(0, j as int) + Self::nonempty_groups(gs, j as int));
            }
            i = j;
        }
    }

    /// The groups after `n` diagnostics are published for `path`: its group
    /// holds them, a new group is bound to `buffer`, and empty groups go.
    pub open spec fn published(
        gs: Seq<DiagnosticGroupView>,
        path: Seq<u8>,
        buffer: Option<BufferHandle>,
        list: Seq<(Seq<char>, BufferRange)>,
    ) -> Seq<DiagnosticGroupView> {
        let k = group_with_path(gs, path, 0);
        let g1 = if k >= 0 {
            gs.update(k, DiagnosticGroupView { diagnostics: list, ..gs[k] })
        } else {
            gs.push(DiagnosticGroupView { path, buffer_handle: buffer, diagnostics: list })
        };
        Self::nonempty_groups(g1, 0)
    }

    /// Replaces the diagnostics of `path` with `published`, sorted by range
    /// start, as a server publishes them; a new group is bound to `buffer`,
    /// the open buffer of that path if any, and groups left empty are dropped.
    pub fn publish(&mut self, path: &str, buffer: Option<BufferHandle>, published: &Vec<(&str, BufferRange)>)
        requires
            old(self).wf(),
        ensures
            final(self).wf(),
            final(self).groups() == Self::published(
                old(self).groups(),
                path.spec_bytes(),
                buffer,
                published_views(sort_by_start(published@)),
            ),
    {
        let diagnostics = sort_diagnostics(published);
        let ghost gs = old(self).groups();
        let ghost k = group_with_path(gs, path.spec_bytes(), 0);
        proof {
            lemma_group_with_path_bounds(gs, path.spec_bytes(), 0);
        }
        let index = self.path_diagnostics_mut(path, buffer);
        let ghost g0 = self.groups();
        assert(published_views(diagnostics@).subrange(0, 0) =~= g0[index as int].diagnostics);
        assert(self.groups() =~= g0.update(
            index as int,
            DiagnosticGroupView { diagnostics: published_views(diagnostics@).subrange(0, 0), ..g0[index as int] },
        ));
        let mut i: usize = 0;
        while i < diagnostics.len()
            invariant
                gs == old(self).groups(),
                k == group_with_path(gs, path.spec_bytes(), 0),
                k == -1 || 0 <= k < gs.len(),
                k >= 0 ==> index == k && g0 == gs.update(k, DiagnosticGroupView { diagnostics: Seq::empty(), ..gs[k] }),
                k < 0 ==> index == gs.len() && g0 == gs.push(
                    DiagnosticGroupView { path: path.spec_bytes(), buffer_handle: buffer, diagnostics: Seq::empty() },
                ),
                i <= diagnostics@.len(),
                self.wf(),
                index < g0.len(),
                g0[index as int].diagnostics.len() == 0,
                self.groups() == g0.update(
                    index as int,
                    DiagnosticGroupView { diagnostics: published_views(diagnostics@).subrange(0, i as int), ..g0[index as int] },
                ),
            decreases diagnostics@.len() - i,
        {
            let (message, range) = diagnostics[i];
            self.add_diagnostic(index, message, range);
            assert(diagnostics@[i as int] == (message, range));
            assert(published_views(diagnostics@).subrange(0, i + 1) =~= published_views(diagnostics@).subrange(0, i as int).push(
                (message@, range),
            ));
            assert(self.groups() =~= g0.update(
                index as int,
                DiagnosticGroupView { diagnostics: published_views(diagnostics@).subrange(0, i + 1), ..g0[index as int] },
            ));
            i = i + 1;
        }
        let ghost g1 = self.groups();
        assert(published_views(diagnostics@).subrange(0, diagnostics@.len() as int) =~= published_views(diagnostics@));
        proof {
            if k >= 0 {
                assert(g1 =~= gs.update(k, DiagnosticGroupView { diagnostics: published_views(diagnostics@), ..gs[k] }));
            } else {
                assert(g1 =~= gs.push(DiagnosticGroupView { path: path.spec_bytes(), buffer_handle: buffer, diagnostics: published_views(diagnostics@) }));
            }
        }
        assert(g1 == if k >= 0 {
            gs.update(k, DiagnosticGroupView { diagnostics: published_views(diagnostics@), ..gs[k] })
        } else {
            gs.push(DiagnosticGroupView { path: path.spec_bytes(), buffer_handle: buffer, diagnostics: published_views(diagnostics@) })
        });
        self.clear_empty();
    }

    pub fn group_count(&self) -> (r: usize)
        ensures
            r == self.groups().len(),
    {
        self.buffer_diagnostics.len()
    }

    /// The buffer that group `index` is bound to.
    pub fn group_buffer(&self, index: usize) -> (r: Option<BufferHandle>)
        requires
            index < self.groups().len(),
        ensures
            r == self.groups()[index as int].buffer_handle,
    {
        self.buffer_diagnostics[index].buffer_handle
    }

    /// The number of current diagnostics of group `index`.
    pub fn group_len(&self, index: usize) -> (r: usize)
        requires
            self.wf(),
            index < self.groups().len(),
        ensures
            r == self.groups()[index as int].diagnostics.len(),
    {
        self.buffer_diagnostics[index].len
    }
}

/// Whether `pattern` occurs in `s` at index `i`.
pub open spec fn pattern_at(s: Seq<u8>, i: int, pattern: Seq<u8>) -> bool {
    0 <= i && i + pattern.len() <= s.len() && s.subrange(i, i + pattern.len()) == pattern
}

/// The index just past the first occurrence of `pattern` in `s` at or after `i`, if any.
pub open spec fn pattern_end(s: Seq<u8>, pattern: Seq<u8>, i: int) -> Option<int>
    decreases s.len() + 1 - i,
{
    if i < 0 || i + pattern.len() > s.len() {
        None
    } else if pattern_at(s, i, pattern) {
        Some(i + pattern.len())
    } else {
        pattern_end(s, pattern, i + 1)
    }
}

/// The value of the decimal digits at the start of `s`, up to index `k`.
pub open spec fn digits_value(s: Seq<u8>, k: int) -> nat
    decreases k,
{
    if k <= 0 || k > s.len() || !(0x30 <= s[k - 1] <= 0x39) {
        0
    } else {
        digits_value(s, k - 1) * 10 + (s[k - 1] - 0x30) as nat
    }
}

/// The number of decimal digits at the start of `s`.
pub open spec fn digits_len(s: Seq<u8>, i: int) -> int
    decreases s.len() - i,
{
    if i < 0 || i >= s.len() || !(0x30 <= s[i] <= 0x39) {
        i
    } else {
        digits_len(s, i + 1)
    }
}

/// The header field name that gives a message's length.
pub open spec fn content_length_key() -> Seq<u8> {
    "Content-Length: ".spec_bytes()
}

/// The blank line that ends a message's header.
pub open spec fn header_end() -> Seq<u8> {
    "\r\n\r\n".spec_bytes()
}

/// The bounds of the body of the first complete message in `s`: after a
/// `Content-Length: N` header ending in a blank line come `N` bytes. A
/// length of `usize::MAX` or more never completes.
pub open spec fn frame(s: Seq<u8>) -> Option<(int, int)> {
    match pattern_end(s, content_length_key(), 0) {
        None => None,
        Some(cl) => {
            let rest = s.subrange(cl, s.len() as int);
            match pattern_end(rest, header_end(), 0) {
                None => None,
                Some(c) => {
                    let start = cl + c;
                    let n = digits_value(rest, digits_len(rest, 0));
                    if n < usize::MAX && start + n <= s.len() {
                        Some((start, start + n))
                    } else {
                        None
                    }
                },
            }
        },
    }
}

proof fn lemma_pattern_end(s: Seq<u8>, pattern: Seq<u8>, i: int)
    requires
        0 <= i,
    ensures
        pattern_end(s, pattern, i) matches Some(e) ==> i + pattern.len() <= e <= s.len(),
    decreases s.len() + 1 - i,
{
    if i + pattern.len() <= s.len() && !pattern_at(s, i, pattern) {
        lemma_pattern_end(s, pattern, i + 1);
    }
}

proof fn lemma_digits_len(s: Seq<u8>, i: int)
    requires
        0 <= i <= s.len(),
    ensures
        i <= digits_len(s, i) <= s.len(),
        forall|k: int| i <= k < digits_len(s, i) ==> 0x30 <= #[trigger] s[k] <= 0x39,
        digits_len(s, i) < s.len() ==> !(0x30 <= s[digits_len(s, i)] <= 0x39),
    decreases s.len() - i,
{
    if i < s.len() && 0x30 <= s[i] <= 0x39 {
        lemma_digits_len(s, i + 1);
    }
}

fn find_pattern_end(s: &[u8], pattern: &[u8]) -> (r: Option<usize>)
    ensures
        r matches Some(e) ==> pattern_end(s@, pattern@, 0) == Some(e as int),
        r.is_none() ==> pattern_end(s@, pattern@, 0).is_none(),
{
    let mut i: usize = 0;
    while pattern.len() <= s.len() - i
        invariant
            i <= s@.len(),
            pattern_end(s@, pattern@, 0) == pattern_end(s@, pattern@, i as int),
        decreases s@.len() - i,
    {
        let window = &s[i..i + pattern.len()];
        assert(window@ =~= s@.subrange(i as int, i + pattern@.len()));
        if same_bytes(window, pattern) {
            return Some(i + pattern.len());
        }
        assert(pattern@.len() > 0) by {
            if pattern@.len() == 0 {
                assert(window@ =~= pattern@);
            }
        }
        i = i + 1;
    }
    None
}

/// The value of the decimal digits at the start of `s`, or `usize::MAX` where it is larger.
fn parse_number(s: &[u8]) -> (r: usize)
    ensures
        ({
            let v = digits_value(s@, digits_len(s@, 0));
            &&& v <= usize::MAX ==> r == v
            &&& v > usize::MAX ==> r == usize::MAX
        }),
{
    proof {
        lemma_digits_len(s@, 0);
    }
    let ghost k = digits_len(s@, 0);
    let mut n: usize = 0;
    let mut i: usize = 0;
    while i < s.len() && 0x30 <= s[i] && s[i] <= 0x39
        invariant
            i <= k <= s@.len(),
            k == digits_len(s@, 0),
            forall|j: int| 0 <= j < k ==> 0x30 <= #[trigger] s@[j] <= 0x39,
            k < s@.len() ==> !(0x30 <= s@[k] <= 0x39),
            digits_value(s@, i as int) <= usize::MAX ==> n == digits_value(s@, i as int),
            digits_value(s@, i as int) > usize::MAX ==> n == usize::MAX,
        decreases s@.len() - i,
    {
        let d = (s[i] - 0x30) as usize;
        assert(digits_value(s@, i + 1) == digits_value(s@, i as int) * 10 + d);
        if n == usize::MAX || n > (usize::MAX - d) / 10 {
            n = usize::MAX;
        } else {
            n = n * 10 + d;
        }
        i = i + 1;
    }
    assert(i == k);
    n
}

/// The bytes that a language server has sent and that were not read yet.
pub struct ReadBuf {
    buf: Vec<u8>,
    read_index: usize,
}

impl ReadBuf {
    pub closed spec fn wf(&self) -> bool {
        self.read_index <= self.buf@.len()
    }

    /// The bytes received and not yet taken.
    pub closed spec fn pending(&self) -> Seq<u8> {
        self.buf@.subrange(self.read_index as int, self.buf@.len() as int)
    }

    pub fn new() -> (r: ReadBuf)
        ensures
            r.wf(),
            r.pending().len() == 0,
    {
        ReadBuf { buf: Vec::new(), read_index: 0 }
    }

    /// Appends bytes read from the server.
    pub fn receive(&mut self, bytes: &[u8])
        requires
            old(self).wf(),
        ensures
            final(self).wf(),
            final(self).pending() == old(self).pending() + bytes@,
    {
        push_bytes(&mut self.buf, bytes);
        assert(self.pending() =~= old(self).pending() + bytes@);
    }

    /// Takes the body of the first complete message, if one was received.
    pub fn take_content(&mut self) -> (r: Option<Vec<u8>>)
        requires
            old(self).wf(),
        ensures
            final(self).wf(),
            match frame(old(self).pending()) {
                None => r.is_none() && final(self).pending() == old(self).pending(),
                Some((start, end)) => r matches Some(content) && content@ == old(self).pending().subrange(start, end)
                    && final(self).pending() == old(self).pending().subrange(end, old(self).pending().len() as int),
            },
    {
        let ghost p = self.pending();
        let (_, bytes) = self.buf.as_slice().split_at(self.read_index);
        assert(bytes@ =~= p);
        let key = "Content-Length: ".as_bytes();
        let cl = match find_pattern_end(bytes, key) {
            Some(cl) => cl,
            None => {
                return None;
            },
        };
        proof {
            lemma_pattern_end(p, key@, 0);
        }
        let (_, rest) = bytes.split_at(cl);
        assert(rest@ =~= p.subrange(cl as int, p.len() as int));
        let hdr = "\r\n\r\n".as_bytes();
        let c = match find_pattern_end(rest, hdr) {
            Some(c) => c,
            None => {
                return None;
            },
        };
        proof {
            lemma_pattern_end(rest@, hdr@, 0);
        }
        assert(bytes@.len() == self.buf@.len() - self.read_index);
        let _ = self.buf.len();
        let n = parse_number(rest);
        let start = cl + c;
        if n == usize::MAX || n > bytes.len() - start {
            return None;
        }
        let end = start + n;
        let mut content: Vec<u8> = Vec::new();
        let (head, _) = bytes.split_at(end);
        let (_, body) = head.split_at(start);
        push_bytes(&mut content, body);
        assert(content@ =~= p.subrange(start as int, end as int));
        let new_read = self.read_index + end;
        if new_read == self.buf.len() {
            self.buf.clear();
            self.read_index = 0;
        } else {
            self.read_index = new_read;
        }
        assert(self.pending() =~= p.subrange(end as int, p.len() as int));
        Some(content)
    }
}

/// One formatting edit applied to lines `ls`, after the edits whose deleted
/// and inserted ranges are `pairs`: its range is moved for those, clamped and
/// deleted, and its text inserted where the range starts. Gives the new
/// lines and this edit's deleted and inserted ranges; none where a moved
/// position would not fit in `usize`.
pub open spec fn format_step(
    ls: Seq<Seq<u8>>,
    pairs: Seq<(BufferRange, BufferRange)>,
    range: BufferRange,
    text: Seq<u8>,
) -> Option<(Seq<Seq<u8>>, (BufferRange, BufferRange))> {
    if !adjust_fits(range, pairs) {
        None
    } else {
        let r = adjusted_range(range, pairs);
        let from = clamp(ls, r.from);
        let to = ordered_end(from, clamp(ls, r.to));
        let ls1 = if from == to {
            ls
        } else {
            deleted_lines(ls, from, to)
        };
        if text.len() == 0 {
            Some((ls1, (BufferRange { from, to }, BufferRange { from, to: from })))
        } else {
            let ins_from = clamp(ls1, from);
            Some(
                (
                    inserted_lines(ls1, ins_from, text),
                    (BufferRange { from, to }, BufferRange { from: ins_from, to: inserted_end(ls1, ins_from, text) }),
                ),
            )
        }
    }
}

/// The lines after formatting edits `edits[i..]` are applied in order to `ls`.
pub open spec fn formatted(
    ls: Seq<Seq<u8>>,
    edits: Seq<(BufferRange, Seq<u8>)>,
    pairs: Seq<(BufferRange, BufferRange)>,
    i: int,
) -> Option<Seq<Seq<u8>>>
    decreases edits.len() - i,
{
    if i < 0 || i >= edits.len() {
        Some(ls)
    } else {
        match format_step(ls, pairs, edits[i].0, edits[i].1) {
            None => None,
            Some((ls2, p)) => formatted(ls2, edits, pairs.push(p), i + 1),
        }
    }
}

/// The ranges and text bytes of formatting edits.
pub open spec fn edit_texts(edits: Seq<(BufferRange, &str)>) -> Seq<(BufferRange, Seq<u8>)> {
    edits.map_values(|e: (BufferRange, &str)| (e.0, e.1.spec_bytes()))
}

/// Applies the edits of a formatting response to `buffer` as one undo
/// group, each range moved for the edits before it; stops and returns false
/// where a moved position would not fit in `usize`.
pub fn apply_formatting(
    buffer: &mut Buffer,
    pool: &mut BufferLinePool,
    word_database: &mut WordDatabase,
    edits: &Vec<(BufferRange, &str)>,
) -> (r: bool)
    requires
        old(buffer).wf(),
        old(word_database).wf(),
    ensures
        final(buffer).wf(),
        final(word_database).wf(),
        final(buffer).open_edits().len() == 0,
        match formatted(old(buffer)@, edit_texts(edits@), Seq::empty(), 0) {
            Some(f) => r && final(buffer)@ == f,
            None => !r,
        },
{
    buffer.commit_edits();
    let ghost goal = formatted(buffer@, edit_texts(edits@), Seq::empty(), 0);
    let mut pairs: Vec<(BufferRange, BufferRange)> = Vec::new();
    let mut i: usize = 0;
    while i < edits.len()
        invariant
            i <= edits@.len(),
            buffer.wf(),
            word_database.wf(),
            goal == formatted(old(buffer)@, edit_texts(edits@), Seq::empty(), 0),
            goal == formatted(buffer@, edit_texts(edits@), pairs@, i as int),
            forall|k: int| 0 <= k < pairs@.len() ==> ordered((#[trigger] pairs@[k]).0),
        decreases edits@.len() - i,
    {
        let (range, text) = edits[i];
        assert(edit_texts(edits@)[i as int] == (range, text.spec_bytes()));
        let moved = match adjust_range(range, &pairs) {
            Some(m) => m,
            None => {
                buffer.commit_edits();
                return false;
            },
        };
        let ghost ls = buffer@;
        let from = buffer.content().saturate_position(moved.from);
        let clamped_to = buffer.content().saturate_position(moved.to);
        let to = if clamped_to.is_before(&from) { from } else { clamped_to };
        buffer.delete_range(pool, word_database, moved);
        let ghost ls1 = buffer@;
        let inserted = buffer.insert_text(pool, word_database, from, text);
        let deleted = BufferRange { from, to };
        let ghost old_pairs = pairs@;
        pairs.push((deleted, inserted));
        proof {
            let t = text.spec_bytes();
            assert(moved == adjusted_range(range, old_pairs));
            assert(from == clamp(ls, moved.from));
            assert(to == ordered_end(from, clamp(ls, moved.to)));
            if from == to {
                assert(ls1 == ls);
            } else {
                assert(ls1 == deleted_lines(ls, from, to));
            }
            let step = format_step(ls, old_pairs, range, t);
            if t.len() == 0 {
                assert(step == Some((buffer@, (deleted, inserted))));
            } else {
                assert(step == Some((buffer@, (deleted, inserted))));
            }
            assert(pairs@ == old_pairs.push((deleted, inserted)));
        }
        i = i + 1;
    }
    buffer.commit_edits();
    true
}

/// What the client does with a request a server sends.
#[derive(Clone, Copy, Debug, PartialEq, Eq, Structural)]
pub enum ServerRequestAction {
    ShowMessage,
    ShowDocument,
    RegisterCapability,
    MethodNotFound,
}

/// The action for server request `method`: a method the client does not
/// know is answered with the method-not-found error.
pub open spec fn request_action(method: Seq<u8>) -> ServerRequestAction {
    if method == "window/showMessage".spec_bytes() {
        ServerRequestAction::ShowMessage
    } else if method == "window/showDocument".spec_bytes() {
        ServerRequestAction::ShowDocument
    } else if method == "client/registerCapability".spec_bytes() {
        ServerRequestAction::RegisterCapability
    } else {
        ServerRequestAction::MethodNotFound
    }
}

pub fn classify_request(method: &[u8]) -> (r: ServerRequestAction)
    ensures
        r == request_action(method@),
{
    if same_bytes(method, "window/showMessage".as_bytes()) {
        ServerRequestAction::ShowMessage
    } else if same_bytes(method, "window/showDocument".as_bytes()) {
        ServerRequestAction::ShowDocument
    } else if same_bytes(method, "client/registerCapability".as_bytes()) {
        ServerRequestAction::RegisterCapability
    } else {
        ServerRequestAction::MethodNotFound
    }
}

/// What the client does with the response to one of its requests.
#[derive(Clone, Copy, Debug, PartialEq, Eq, Structural)]
pub enum ResponseAction {
    Initialize,
    Hover,
    SignatureHelp,
    Definition,
    References,
    Formatting,
    Ignore,
}

/// The action for the response to a request for `method`.
pub open spec fn response_action(method: Seq<u8>) -> ResponseAction {
    if method == "initialize".spec_bytes() {
        ResponseAction::Initialize
    } else if method == "textDocument/hover".spec_bytes() {
        ResponseAction::Hover
    } else if method == "textDocument/signatureHelp".spec_bytes() {
        ResponseAction::SignatureHelp
    } else if method == "textDocument/definition".spec_bytes() {
        ResponseAction::Definition
    } else if method == "textDocument/references".spec_bytes() {
        ResponseAction::References
    } else if method == "textDocument/formatting".spec_bytes() {
        ResponseAction::Formatting
    } else {
        ResponseAction::Ignore
    }
}

pub fn classify_response(method: &[u8]) -> (r: ResponseAction)
    ensures
        r == response_action(method@),
{
    if same_bytes(method, "initialize".as_bytes()) {
        ResponseAction::Initialize
    } else if same_bytes(method, "textDocument/hover".as_bytes()) {
        ResponseAction::Hover
    } else if same_bytes(method, "textDocument/signatureHelp".as_bytes()) {
        ResponseAction::SignatureHelp
    } else if same_bytes(method, "textDocument/definition".as_bytes()) {
        ResponseAction::Definition
    } else if same_bytes(method, "textDocument/references".as_bytes()) {
        ResponseAction::References
    } else if same_bytes(method, "textDocument/formatting".as_bytes()) {
        ResponseAction::Formatting
    } else {
        ResponseAction::Ignore
    }
}

/// Takes the pending request that response `id` answers and decides what to
/// do with it; none where no request waits on `id`, as for a response to a
/// request of a closed buffer or client.
pub fn dispatch_response(pending: &mut PendingRequestColection, id: RequestId) -> (r: Option<(&'static str, ResponseAction)>)
    requires
        old(pending).wf(),
        id.0 != 0,
    ensures
        final(pending).wf(),
        count_id(final(pending).entries(), id.0) == 0,
        r.is_none() <==> count_id(old(pending).entries(), id.0) == 0,
        r.is_none() ==> final(pending).entries() == old(pending).entries(),
        r matches Some((m, a)) ==> a == response_action(m.spec_bytes()) && exists|k: int|
            0 <= k < old(pending).entries().len() && old(pending).entries()[k] == (PendingRequest { id, method: m }),
{
    match pending.take(id) {
        None => None,
        Some(method) => Some((method, classify_response(method.as_bytes()))),
    }
}

/// The decimal form of `n`, with a minus sign where it is negative.
pub open spec fn signed_decimal(n: int) -> Seq<u8> {
    if n < 0 {
        seq![0x2du8] + decimal((-n) as nat)
    } else {
        decimal(n as nat)
    }
}

/// The status bar line for an error response to a request for `method`.
pub open spec fn lsp_error_line(code: i64, method: Seq<u8>, message: Seq<u8>) -> Seq<u8> {
    "[lsp error code ".spec_bytes() + signed_decimal(code as int) + "] ".spec_bytes() + method + ": '".spec_bytes() + message
        + "'".spec_bytes()
}

/// Renders an error response for the status bar: `[lsp error code C] method: 'message'`.
pub fn render_lsp_error(code: i32, method: &[u8], message: &[u8]) -> (r: Vec<u8>)
    ensures
        r@ == lsp_error_line(code as i64, method@, message@),
{
    let mut out: Vec<u8> = Vec::new();
    push_bytes(&mut out, "[lsp error code ".as_bytes());
    let ghost head = out@;
    if code < 0 {
        out.push(0x2d);
        let magnitude: i64 = -(code as i64);
        push_decimal(&mut out, magnitude as usize);
    } else {
        push_decimal(&mut out, code as usize);
    }
    assert(out@ =~= head + signed_decimal(code as int));
    push_bytes(&mut out, "] ".as_bytes());
    push_bytes(&mut out, method);
    push_bytes(&mut out, ": '".as_bytes());
    push_bytes(&mut out, message);
    push_bytes(&mut out, "'".as_bytes());
    assert(out@ =~= lsp_error_line(code as i64, method@, message@));
    out
}

} // verus!
