use vstd::prelude::*;

use vstd::string::StringSliceAdditionalSpecFns;

use crate::position::{pos_lt, BufferPosition, BufferRange};
use crate::word_database::{less, lines_words, plus, WordDatabase};
use crate::builtins::BufferProperties;
use crate::undo::{
    apply_all, chain, edit_views, lemma_chain_prefix, lemma_edit_round_trip, lemma_undo_all_restores,
    revert_all, inverted_reverse, invert, Edit, EditKind, EditView, Undo,
};
use crate::text::{
    all_no_newline, char_count_of, is_char_boundary, join_lines, lemma_char_count_concat, lemma_join_split,
    lemma_split_join, lemma_split_lines_len, lemma_split_lines_bounds, lemma_split_lines_no_newline,
    no_newline, split_lines, lemma_char_count_bound, NEWLINE,
};

verus! {

/// The byte views of a sequence of byte vectors.
pub open spec fn byte_views(vs: Seq<Vec<u8>>) -> Seq<Seq<u8>> {
    vs.map_values(|v: Vec<u8>| v@)
}

/// Appends all of `bytes` to `v`.
pub fn push_bytes(v: &mut Vec<u8>, bytes: &[u8])
    ensures
        final(v)@ == old(v)@ + bytes@,
{
    let mut i: usize = 0;
    while i < bytes.len()
        invariant
            i <= bytes@.len(),
            v@ == old(v)@ + bytes@.subrange(0, i as int),
        decreases bytes@.len() - i,
    {
        v.push(bytes[i]);
        i = i + 1;
        assert(v@ =~= old(v)@ + bytes@.subrange(0, i as int));
    }
    assert(bytes@.subrange(0, bytes@.len() as int) =~= bytes@);
}

/// The number of characters that start in `bytes`.
pub fn count_chars(bytes: &[u8]) -> (r: usize)
    ensures
        r == char_count_of(bytes@),
{
    let mut n: usize = 0;
    let mut i: usize = 0;
    while i < bytes.len()
        invariant
            i <= bytes@.len(),
            n == char_count_of(bytes@.subrange(0, i as int)),
            n <= i,
        decreases bytes@.len() - i,
    {
        proof {
            assert(bytes@.subrange(0, i + 1).drop_last() =~= bytes@.subrange(0, i as int));
        }
        if is_char_boundary(bytes[i]) {
            n = n + 1;
        }
        i = i + 1;
    }
    assert(bytes@.subrange(0, bytes@.len() as int) =~= bytes@);
    n
}

/// The pieces of `text` between newline bytes.
pub fn split_bytes(text: &[u8]) -> (pieces: Vec<Vec<u8>>)
    ensures
        byte_views(pieces@) == split_lines(text@),
{
    let mut pieces: Vec<Vec<u8>> = Vec::new();
    pieces.push(Vec::new());
    assert(byte_views(pieces@) =~= split_lines(text@.subrange(0, 0)));
    let mut i: usize = 0;
    while i < text.len()
        invariant
            i <= text@.len(),
            byte_views(pieces@) == split_lines(text@.subrange(0, i as int)),
        decreases text@.len() - i,
    {
        let ghost prev = byte_views(pieces@);
        proof {
            lemma_split_lines_len(text@.subrange(0, i as int));
            assert(text@.subrange(0, i + 1).drop_last() =~= text@.subrange(0, i as int));
        }
        let b = text[i];
        if b == NEWLINE {
            pieces.push(Vec::new());
            assert(byte_views(pieces@) =~= prev.push(Seq::empty()));
        } else {
            let mut last = pieces.pop().unwrap();
            last.push(b);
            pieces.push(last);
            assert(byte_views(pieces@) =~= prev.update(prev.len() - 1, prev.last().push(b)));
        }
        i = i + 1;
    }
    assert(text@.subrange(0, text@.len() as int) =~= text@);
    pieces
}

/// Text removed from or added to a buffer. Short text is held inline.
#[derive(Debug)]
pub struct Text(TextImpl);

#[derive(Debug)]
enum TextImpl {
    Inline(u8, [u8; 30]),
    Heap(Vec<u8>),
}

impl View for Text {
    type V = Seq<u8>;

    closed spec fn view(&self) -> Seq<u8> {
        match self.0 {
            TextImpl::Inline(len, buf) => buf@.subrange(0, len as int),
            TextImpl::Heap(v) => v@,
        }
    }
}

impl Text {
    /// The longest text held without an allocation.
    pub fn inline_string_max_len() -> (r: usize)
        ensures
            r == 30,
    {
        30
    }

    pub closed spec fn wf(&self) -> bool {
        match self.0 {
            TextImpl::Inline(len, _) => len <= 30,
            TextImpl::Heap(_) => true,
        }
    }

    pub fn new() -> (r: Text)
        ensures
            r.wf(),
            r@ == Seq::<u8>::empty(),
    {
        let r = Text(TextImpl::Inline(0, [0u8; 30]));
        assert(r@ =~= Seq::<u8>::empty());
        r
    }

    pub fn from_bytes(bytes: &[u8]) -> (r: Text)
        ensures
            r.wf(),
            r@ == bytes@,
    {
        let mut t = Text::new();
        t.push_bytes(bytes);
        assert(t@ =~= bytes@);
        t
    }

    pub fn as_bytes(&self) -> (r: &[u8])
        requires
            self.wf(),
        ensures
            r@ == self@,
    {
        match &self.0 {
            TextImpl::Inline(len, buf) => {
                let (head, _) = buf.as_slice().split_at(*len as usize);
                head
            },
            TextImpl::Heap(v) => v.as_slice(),
        }
    }

    pub fn clear(&mut self)
        ensures
            final(self).wf(),
            final(self)@ == Seq::<u8>::empty(),
    {
        match &mut self.0 {
            TextImpl::Inline(len, _) => {
                *len = 0;
            },
            TextImpl::Heap(v) => {
                v.clear();
            },
        }
        assert(self@ =~= Seq::<u8>::empty());
    }

    pub fn push_str(&mut self, text: &str)
        requires
            old(self).wf(),
        ensures
            final(self).wf(),
            final(self)@ == old(self)@ + text.spec_bytes(),
    {
        self.push_bytes(text.as_bytes());
    }

    pub fn push_bytes(&mut self, bytes: &[u8])
        requires
            old(self).wf(),
        ensures
            final(self).wf(),
            final(self)@ == old(self)@ + bytes@,
    {
        let ghost before = self@;
        let spill = match &self.0 {
            TextImpl::Inline(len, _) => bytes.len() > 30 - *len as usize,
            TextImpl::Heap(_) => false,
        };
        if spill {
            let mut v: Vec<u8> = Vec::new();
            push_bytes(&mut v, self.as_bytes());
            push_bytes(&mut v, bytes);
            *self = Text(TextImpl::Heap(v));
        } else {
            match &self.0 {
                TextImpl::Inline(len, buf0) => {
                    let start = *len as usize;
                    let mut buf: [u8; 30] = *buf0;
                    let mut i: usize = 0;
                    while i < bytes.len()
                        invariant
                            start + bytes@.len() <= 30,
                            i <= bytes@.len(),
                            buf@.len() == 30,
                            before.len() == start,
                            buf@.subrange(0, start + i) == before + bytes@.subrange(0, i as int),
                        decreases bytes@.len() - i,
                    {
                        let ghost prev = buf@;
                        buf[start + i] = bytes[i];
                        assert(buf@ =~= prev.update(start + i, bytes@[i as int]));
                        assert forall|j: int| 0 <= j < start + i implies buf@[j] == prev.subrange(0, start + i)[j] by {}
                        assert(buf@.subrange(0, start + i + 1) =~= before + bytes@.subrange(0, i + 1));
                        i = i + 1;
                    }
                    assert(bytes@.subrange(0, bytes@.len() as int) =~= bytes@);
                    *self = Text(TextImpl::Inline((start + bytes.len()) as u8, buf));
                },
                TextImpl::Heap(_) => {
                    if let TextImpl::Heap(v) = &mut self.0 {
                        push_bytes(v, bytes);
                    }
                },
            }
        }
    }
}

/// One line of a buffer: its bytes and the number of characters in them.
pub struct BufferLine {
    text: Vec<u8>,
    char_count: usize,
}

impl View for BufferLine {
    type V = Seq<u8>;

    closed spec fn view(&self) -> Seq<u8> {
        self.text@
    }
}

impl BufferLine {
    /// The cached character count matches the bytes.
    pub closed spec fn wf(&self) -> bool {
        self.char_count == char_count_of(self.text@)
    }

    fn empty() -> (r: BufferLine)
        ensures
            r.wf(),
            r@ == Seq::<u8>::empty(),
    {
        BufferLine { text: Vec::new(), char_count: 0 }
    }

    pub fn char_count(&self) -> (r: usize)
        requires
            self.wf(),
        ensures
            r == char_count_of(self@),
    {
        self.char_count
    }

    pub fn as_bytes(&self) -> (r: &[u8])
        ensures
            r@ == self@,
    {
        self.text.as_slice()
    }

    pub fn len(&self) -> (r: usize)
        ensures
            r == self@.len(),
    {
        self.text.len()
    }

    /// Moves the bytes from `index` on into a new line rented from `pool`.
    pub fn split_off(&mut self, pool: &mut BufferLinePool, index: usize) -> (r: BufferLine)
        requires
            old(self).wf(),
            index <= old(self)@.len(),
        ensures
            final(self).wf(),
            r.wf(),
            final(self)@ == old(self)@.subrange(0, index as int),
            r@ == old(self)@.subrange(index as int, old(self)@.len() as int),
    {
        let mut new_line = pool.rent();
        let tail = self.text.split_off(index);
        let _ = tail.len();
        new_line.push_bytes(tail.as_slice());
        proof {
            lemma_char_count_concat(self.text@, tail@);
            assert(old(self)@ =~= self.text@ + tail@);
            assert(new_line@ =~= tail@);
        }
        self.char_count = self.char_count - new_line.char_count;
        new_line
    }

    pub fn insert_text(&mut self, index: usize, text: &str)
        requires
            old(self).wf(),
            index <= old(self)@.len(),
        ensures
            final(self).wf(),
            final(self)@ == old(self)@.subrange(0, index as int) + text.spec_bytes()
                + old(self)@.subrange(index as int, old(self)@.len() as int),
    {
        self.insert_bytes(index, text.as_bytes());
    }

    pub fn insert_bytes(&mut self, index: usize, bytes: &[u8])
        requires
            old(self).wf(),
            index <= old(self)@.len(),
        ensures
            final(self).wf(),
            final(self)@ == old(self)@.subrange(0, index as int) + bytes@ + old(self)@.subrange(
                index as int,
                old(self)@.len() as int,
            ),
    {
        let ghost o = self@;
        let tail = self.text.split_off(index);
        push_bytes(&mut self.text, bytes);
        push_bytes(&mut self.text, tail.as_slice());
        let _ = self.text.len();
        proof {
            let head = o.subrange(0, index as int);
            assert(o =~= head + tail@);
            lemma_char_count_concat(head, tail@);
            lemma_char_count_concat(head, bytes@);
            lemma_char_count_concat(head + bytes@, tail@);
            assert(self.text@ =~= head + bytes@ + tail@);
            lemma_char_count_bound(self.text@);
        }
        self.char_count = self.char_count + count_chars(bytes);
    }

    pub fn push_text(&mut self, text: &str)
        requires
            old(self).wf(),
        ensures
            final(self).wf(),
            final(self)@ == old(self)@ + text.spec_bytes(),
    {
        self.push_bytes(text.as_bytes());
    }

    pub fn push_bytes(&mut self, bytes: &[u8])
        requires
            old(self).wf(),
        ensures
            final(self).wf(),
            final(self)@ == old(self)@ + bytes@,
    {
        push_bytes(&mut self.text, bytes);
        let _ = self.text.len();
        proof {
            lemma_char_count_concat(old(self)@, bytes@);
            lemma_char_count_bound(self.text@);
        }
        self.char_count = self.char_count + count_chars(bytes);
    }

    /// Removes the bytes from `from` up to `to` and returns them.
    pub fn delete_range(&mut self, from: usize, to: usize) -> (r: Vec<u8>)
        requires
            old(self).wf(),
            from <= to <= old(self)@.len(),
        ensures
            final(self).wf(),
            final(self)@ == old(self)@.subrange(0, from as int) + old(self)@.subrange(
                to as int,
                old(self)@.len() as int,
            ),
            r@ == old(self)@.subrange(from as int, to as int),
    {
        let ghost o = self@;
        let mut rest = self.text.split_off(from);
        let tail = rest.split_off(to - from);
        push_bytes(&mut self.text, tail.as_slice());
        proof {
            assert(o =~= o.subrange(0, from as int) + rest@ + tail@);
            lemma_char_count_concat(o.subrange(0, from as int), rest@);
            lemma_char_count_concat(o.subrange(0, from as int) + rest@, tail@);
            lemma_char_count_concat(o.subrange(0, from as int), tail@);
            assert(rest@ =~= o.subrange(from as int, to as int));
            assert(self.text@ =~= o.subrange(0, from as int) + o.subrange(to as int, o.len() as int));
        }
        self.char_count = self.char_count - count_chars(rest.as_slice());
        rest
    }
}

/// Lines kept for reuse, so that new lines need not allocate.
pub struct BufferLinePool {
    pool: Vec<BufferLine>,
}

impl BufferLinePool {
    pub fn new() -> (r: BufferLinePool)
        ensures
            r.len() == 0,
    {
        BufferLinePool { pool: Vec::new() }
    }

    /// The number of lines held for reuse.
    pub closed spec fn len(&self) -> nat {
        self.pool@.len()
    }

    /// An empty line, taken from the pool where it holds one.
    pub fn rent(&mut self) -> (r: BufferLine)
        ensures
            r.wf(),
            r@ == Seq::<u8>::empty(),
            final(self).len() == if old(self).len() == 0 {
                0
            } else {
                old(self).len() - 1
            },
    {
        match self.pool.pop() {
            Some(mut line) => {
                line.text.clear();
                line.char_count = 0;
                line
            },
            None => BufferLine::empty(),
        }
    }

    /// Gives `line` back for reuse.
    pub fn dispose(&mut self, line: BufferLine)
        ensures
            final(self).len() == old(self).len() + 1,
    {
        self.pool.push(line);
    }
}

/// `ls` is a valid buffer: at least one line, and no line holds a newline.
pub open spec fn valid_lines(ls: Seq<Seq<u8>>) -> bool {
    ls.len() >= 1 && all_no_newline(ls)
}

/// `p` moved to the nearest position that exists in `ls`.
pub open spec fn clamp(ls: Seq<Seq<u8>>, p: BufferPosition) -> BufferPosition {
    let l = if p.line_index < ls.len() {
        p.line_index as int
    } else {
        ls.len() - 1
    };
    let c = if p.column_byte_index <= ls[l].len() {
        p.column_byte_index as int
    } else {
        ls[l].len() as int
    };
    BufferPosition { line_index: l as usize, column_byte_index: c as usize }
}

/// The lines after inserting `t` at `p`, a position that exists in `ls`.
pub open spec fn inserted_lines(ls: Seq<Seq<u8>>, p: BufferPosition, t: Seq<u8>) -> Seq<Seq<u8>> {
    let l = p.line_index as int;
    let c = p.column_byte_index as int;
    let pieces = split_lines(t);
    let k = pieces.len() as int;
    let m = pieces.update(0, ls[l].subrange(0, c) + pieces[0]);
    let m = m.update(k - 1, m[k - 1] + ls[l].subrange(c, ls[l].len() as int));
    ls.subrange(0, l) + m + ls.subrange(l + 1, ls.len() as int)
}

/// Where the text inserted by `inserted_lines` ends.
pub open spec fn inserted_end(ls: Seq<Seq<u8>>, p: BufferPosition, t: Seq<u8>) -> BufferPosition {
    let pieces = split_lines(t);
    let k = pieces.len() as int;
    if k == 1 {
        BufferPosition {
            line_index: p.line_index,
            column_byte_index: (p.column_byte_index + t.len()) as usize,
        }
    } else {
        BufferPosition {
            line_index: (p.line_index + k - 1) as usize,
            column_byte_index: pieces[k - 1].len() as usize,
        }
    }
}

/// The end of a range to delete: `to`, or `from` where `to` comes before it.
pub open spec fn ordered_end(from: BufferPosition, to: BufferPosition) -> BufferPosition {
    if pos_lt(to, from) {
        from
    } else {
        to
    }
}

/// The lines after removing the text from `from` to `to`, existing positions in order.
pub open spec fn deleted_lines(ls: Seq<Seq<u8>>, from: BufferPosition, to: BufferPosition) -> Seq<
    Seq<u8>,
> {
    let fl = from.line_index as int;
    let tl = to.line_index as int;
    ls.subrange(0, fl) + seq![
        ls[fl].subrange(0, from.column_byte_index as int) + ls[tl].subrange(
            to.column_byte_index as int,
            ls[tl].len() as int,
        ),
    ] + ls.subrange(tl + 1, ls.len() as int)
}

/// The lines of the text between `from` and `to`, existing positions in order.
pub open spec fn deleted_pieces(ls: Seq<Seq<u8>>, from: BufferPosition, to: BufferPosition) -> Seq<
    Seq<u8>,
> {
    let fl = from.line_index as int;
    let tl = to.line_index as int;
    let fc = from.column_byte_index as int;
    let tc = to.column_byte_index as int;
    if fl == tl {
        seq![ls[fl].subrange(fc, tc)]
    } else {
        seq![ls[fl].subrange(fc, ls[fl].len() as int)] + ls.subrange(fl + 1, tl) + seq![
            ls[tl].subrange(0, tc),
        ]
    }
}

/// The text between `from` and `to`, existing positions in order.
pub open spec fn range_text(ls: Seq<Seq<u8>>, from: BufferPosition, to: BufferPosition) -> Seq<
    u8,
> {
    join_lines(deleted_pieces(ls, from, to))
}

/// The text of buffer lines `ls`: the lines joined by newlines.
pub open spec fn content_text(ls: Seq<Seq<u8>>) -> Seq<u8> {
    join_lines(ls)
}

/// The text of a buffer: a sequence of lines.
pub struct BufferContent {
    lines: Vec<BufferLine>,
}

impl View for BufferContent {
    type V = Seq<Seq<u8>>;

    closed spec fn view(&self) -> Seq<Seq<u8>> {
        self.lines@.map_values(|l: BufferLine| l@)
    }
}

impl BufferContent {
    pub closed spec fn wf(&self) -> bool {
        &&& valid_lines(self@)
        &&& forall|i: int| 0 <= i < self.lines@.len() ==> (#[trigger] self.lines@[i]).wf()
    }

    /// A well formed buffer has at least one line, and no line holds a newline.
    pub proof fn lemma_wf_valid(&self)
        requires
            self.wf(),
        ensures
            valid_lines(self@),
    {
    }

    /// A buffer of one empty line.
    pub fn empty() -> (r: BufferContent)
        ensures
            r.wf(),
            r@ == seq![Seq::<u8>::empty()],
    {
        let mut lines: Vec<BufferLine> = Vec::new();
        lines.push(BufferLine::empty());
        let r = BufferContent { lines };
        assert(r@ =~= seq![Seq::<u8>::empty()]);
        r
    }

    /// A buffer holding `text`, split into lines at each newline.
    pub fn from_str(pool: &mut BufferLinePool, text: &str) -> (r: BufferContent)
        ensures
            r.wf(),
            r@ == split_lines(text.spec_bytes()),
    {
        let mut this = BufferContent::empty();
        this.insert_bytes(pool, BufferPosition::line_col(0, 0), text.as_bytes());
        proof {
            let t = text.spec_bytes();
            let pieces = split_lines(t);
            lemma_split_lines_len(t);
            let e = seq![Seq::<u8>::empty()];
            let m = pieces.update(0, e[0].subrange(0, 0) + pieces[0]);
            assert(m =~= pieces);
            let m2 = m.update(pieces.len() - 1, m[pieces.len() - 1] + e[0].subrange(0, 0));
            assert(m2 =~= pieces);
            assert(inserted_lines(e, clamp(e, BufferPosition { line_index: 0, column_byte_index: 0 }), t) =~= pieces);
        }
        this
    }

    pub fn line_count(&self) -> (r: usize)
        ensures
            r == self@.len(),
    {
        self.lines.len()
    }

    pub fn line_at(&self, index: usize) -> (r: &BufferLine)
        requires
            self.wf(),
            index < self@.len(),
        ensures
            r.wf(),
            r@ == self@[index as int],
    {
        &self.lines[index]
    }

    /// Appends the text of the buffer to `out`: its lines joined by newlines.
    pub fn write(&self, out: &mut Vec<u8>)
        requires
            self.wf(),
        ensures
            final(out)@ == old(out)@ + content_text(self@),
    {
        push_bytes(out, self.lines[0].as_bytes());
        let mut i: usize = 1;
        assert(self@.subrange(0, 1) =~= seq![self@[0]]);
        while i < self.lines.len()
            invariant
                self.wf(),
                1 <= i <= self@.len(),
                out@ == old(out)@ + join_lines(self@.subrange(0, i as int)),
            decreases self@.len() - i,
        {
            out.push(NEWLINE);
            push_bytes(out, self.lines[i].as_bytes());
            assert(self@.subrange(0, i + 1).drop_last() =~= self@.subrange(0, i as int));
            assert(out@ =~= old(out)@ + join_lines(self@.subrange(0, i + 1)));
            i = i + 1;
        }
        assert(self@.subrange(0, self@.len() as int) =~= self@);
    }

    /// `position` moved to the nearest position that exists in the buffer.
    pub fn saturate_position(&self, position: BufferPosition) -> (r: BufferPosition)
        requires
            self.wf(),
        ensures
            r == clamp(self@, position),
    {
        let line_index = if position.line_index < self.lines.len() {
            position.line_index
        } else {
            self.lines.len() - 1
        };
        let len = self.lines[line_index].len();
        let column_byte_index = if position.column_byte_index <= len {
            position.column_byte_index
        } else {
            len
        };
        BufferPosition { line_index, column_byte_index }
    }

    /// Inserts `text` at `position`, clamped; returns the range the text now covers.
    pub fn insert_text(&mut self, pool: &mut BufferLinePool, position: BufferPosition, text: &str) -> (r: BufferRange)
        requires
            old(self).wf(),
        ensures
            final(self).wf(),
            r.from == clamp(old(self)@, position),
            final(self)@ == inserted_lines(old(self)@, r.from, text.spec_bytes()),
            r.to == inserted_end(old(self)@, r.from, text.spec_bytes()),
    {
        self.insert_bytes(pool, position, text.as_bytes())
    }

    /// Inserts `bytes` at `position`, clamped; returns the range they now cover.
    pub fn insert_bytes(&mut self, pool: &mut BufferLinePool, position: BufferPosition, bytes: &[u8]) -> (r: BufferRange)
        requires
            old(self).wf(),
        ensures
            final(self).wf(),
            r.from == clamp(old(self)@, position),
            final(self)@ == inserted_lines(old(self)@, r.from, bytes@),
            r.to == inserted_end(old(self)@, r.from, bytes@),
    {
        let ghost o = self@;
        let p = self.saturate_position(position);
        let l = p.line_index;
        let c = p.column_byte_index;
        let pieces = split_bytes(bytes);
        proof {
            lemma_split_lines_len(bytes@);
            lemma_split_lines_no_newline(bytes@);
        }
        let ghost pv = split_lines(bytes@);
        let k = pieces.len();
        if k == 1 {
            assert(pv == seq![pv[0]]);
            assert(pv[0] =~= bytes@) by {
                lemma_join_split(bytes@);
            }
            assert(no_newline(pv[0]));
            let end_column = self.insert_in_line(l, c, bytes);
            assert(self@ =~= inserted_lines(o, p, bytes@));
            BufferRange { from: p, to: BufferPosition { line_index: l, column_byte_index: end_column } }
        } else {
            let end = self.insert_lines(pool, l, c, &pieces);
            assert(self@ =~= inserted_lines(o, p, bytes@));
            BufferRange { from: p, to: end }
        }
    }

    /// Inserts newline-free `bytes` into line `l` at byte `c`; returns where they end.
    fn insert_in_line(&mut self, l: usize, c: usize, bytes: &[u8]) -> (end: usize)
        requires
            old(self).wf(),
            l < old(self)@.len(),
            c <= old(self)@[l as int].len(),
            no_newline(bytes@),
        ensures
            final(self).wf(),
            final(self)@ == old(self)@.update(
                l as int,
                old(self)@[l as int].subrange(0, c as int) + bytes@ + old(self)@[l as int].subrange(
                    c as int,
                    old(self)@[l as int].len() as int,
                ),
            ),
            end == c + bytes@.len(),
    {
        let ghost o = self@;
        let mut line = BufferLine::empty();
        self.lines.set_and_swap(l, &mut line);
        line.insert_bytes(c, bytes);
        let _ = line.len();
        assert(line@.len() == o[l as int].len() + bytes@.len());
        let end_column = c + bytes.len();
        let ghost new_line = line@;
        self.lines.set_and_swap(l, &mut line);
        proof {
            assert(self@ =~= o.update(l as int, new_line));
            assert forall|i: int| 0 <= i < self@.len() implies no_newline(#[trigger] self@[i]) by {
                if i == l {
                    assert(no_newline(o[i]));
                } else {
                    assert(self@[i] == o[i]);
                }
            }
        }
        end_column
    }

    /// Inserts text of two or more lines `pieces` at line `l`, byte `c`; returns where it ends.
    fn insert_lines(&mut self, pool: &mut BufferLinePool, l: usize, c: usize, pieces: &Vec<Vec<u8>>) -> (end: BufferPosition)
        requires
            old(self).wf(),
            l < old(self)@.len(),
            c <= old(self)@[l as int].len(),
            pieces@.len() >= 2,
            all_no_newline(byte_views(pieces@)),
        ensures
            final(self).wf(),
            ({
                let o = old(self)@;
                let pv = byte_views(pieces@);
                let k = pv.len() as int;
                let m = pv.update(0, o[l as int].subrange(0, c as int) + pv[0]);
                let m = m.update(k - 1, m[k - 1] + o[l as int].subrange(c as int, o[l as int].len() as int));
                final(self)@ == o.subrange(0, l as int) + m + o.subrange(l + 1, o.len() as int)
            }),
            end.line_index == l + pieces@.len() - 1,
            end.column_byte_index == pieces@[pieces@.len() - 1]@.len(),
    {
        let ghost o = self@;
        let ghost pv = byte_views(pieces@);
        let k = pieces.len();
        let ghost pre = o[l as int].subrange(0, c as int);
        let ghost suf = o[l as int].subrange(c as int, o[l as int].len() as int);
        let mut head = BufferLine::empty();
        self.lines.set_and_swap(l, &mut head);
        let tail = head.split_off(pool, c);
        head.push_bytes(pieces[0].as_slice());
        self.lines.set_and_swap(l, &mut head);
        assert(self@ =~= o.update(l as int, pre + pv[0]));
        assert(self@ =~= o.subrange(0, l as int) + seq![pre + pv[0]] + pv.subrange(1, 1)
            + o.subrange(l + 1, o.len() as int));
        let mut j: usize = 1;
        while j < k - 1
            invariant
                2 <= k == pv.len(),
                1 <= j <= k - 1,
                l < o.len(),
                pv == byte_views(pieces@),
                self@ == o.subrange(0, l as int) + seq![pre + pv[0]] + pv.subrange(1, j as int)
                    + o.subrange(l + 1, o.len() as int),
                forall|i: int| 0 <= i < self.lines@.len() ==> (#[trigger] self.lines@[i]).wf(),
            decreases k - j,
        {
            let mut line = pool.rent();
            line.push_bytes(pieces[j].as_slice());
            assert(line@ =~= pv[j as int]);
            assert(self.lines@.len() == self@.len());
            let _ = self.lines.len();
            let ghost prev = self@;
            self.lines.insert(l + j, line);
            assert(self@ =~= prev.insert(l + j, pv[j as int]));
            assert(pv.subrange(1, j + 1) =~= pv.subrange(1, j as int).push(pv[j as int]));
            assert(self@ =~= o.subrange(0, l as int) + seq![pre + pv[0]] + pv.subrange(1, j + 1)
                + o.subrange(l + 1, o.len() as int));
            j = j + 1;
        }
        let mut last = pool.rent();
        last.push_bytes(pieces[k - 1].as_slice());
        let end_column = last.len();
        last.push_bytes(tail.as_bytes());
        assert(self.lines@.len() == self@.len());
        assert(self@.len() == o.len() + k - 2);
        let n = self.lines.len();
        assert(l + k - 1 <= n);
        let ghost before_last = self@;
        self.lines.insert(l + (k - 1), last);
        assert(self@ =~= before_last.insert(l + k - 1, pv[k - 1] + suf));
        pool.dispose(tail);
        proof {
            let r = self@;
            let m = pv.update(0, pre + pv[0]);
            let m = m.update(k - 1, m[k - 1] + suf);
            assert(r =~= o.subrange(0, l as int) + m + o.subrange(l + 1, o.len() as int));
            assert forall|i: int| 0 <= i < r.len() implies no_newline(#[trigger] r[i]) by {
                if i < l {
                    assert(r[i] == o[i]);
                } else if i == l {
                    assert(no_newline(o[i]));
                    assert(no_newline(pv[0]));
                } else if i < l + k - 1 {
                    assert(no_newline(pv[i - l]));
                } else if i == l + k - 1 {
                    assert(no_newline(o[l as int]));
                    assert(no_newline(pv[k - 1]));
                } else {
                    assert(r[i] == o[i - k + 1]);
                }
            }
        }
        BufferPosition { line_index: l + (k - 1), column_byte_index: end_column }
    }

    /// The clamped, ordered ends of `range` in this buffer.
    fn clamp_range(&self, range: BufferRange) -> (r: (BufferPosition, BufferPosition))
        requires
            self.wf(),
        ensures
            r.0 == clamp(self@, range.from),
            r.1 == ordered_end(r.0, clamp(self@, range.to)),
    {
        let from = self.saturate_position(range.from);
        let to = self.saturate_position(range.to);
        if to.is_before(&from) {
            (from, from)
        } else {
            (from, to)
        }
    }

    /// Removes the text of `range`, clamped, and returns it.
    pub fn delete_range(&mut self, pool: &mut BufferLinePool, range: BufferRange) -> (r: Text)
        requires
            old(self).wf(),
        ensures
            final(self).wf(),
            r.wf(),
            ({
                let from = clamp(old(self)@, range.from);
                let to = ordered_end(from, clamp(old(self)@, range.to));
                &&& final(self)@ == deleted_lines(old(self)@, from, to)
                &&& r@ == range_text(old(self)@, from, to)
            }),
    {
        let ghost o = self@;
        let (from, to) = self.clamp_range(range);
        let l = from.line_index;
        if l == to.line_index {
            let mut line = BufferLine::empty();
            self.lines.set_and_swap(l, &mut line);
            let removed = line.delete_range(from.column_byte_index, to.column_byte_index);
            let ghost new_line = line@;
            self.lines.set_and_swap(l, &mut line);
            proof {
                assert(self@ =~= o.update(l as int, new_line));
                assert(self@ =~= deleted_lines(o, from, to));
                assert forall|i: int| 0 <= i < self@.len() implies no_newline(#[trigger] self@[i]) by {
                    if i == l {
                        assert(no_newline(o[i]));
                    } else {
                        assert(self@[i] == o[i]);
                    }
                }
            }
            Text::from_bytes(removed.as_slice())
        } else {
            self.delete_lines(pool, from, to)
        }
    }

    /// Removes the text from `from` to `to`, on different lines, and returns it.
    fn delete_lines(&mut self, pool: &mut BufferLinePool, from: BufferPosition, to: BufferPosition) -> (r: Text)
        requires
            old(self).wf(),
            from.line_index < to.line_index < old(self)@.len(),
            from.column_byte_index <= old(self)@[from.line_index as int].len(),
            to.column_byte_index <= old(self)@[to.line_index as int].len(),
        ensures
            final(self).wf(),
            r.wf(),
            final(self)@ == deleted_lines(old(self)@, from, to),
            r@ == range_text(old(self)@, from, to),
    {
        let ghost o = self@;
        let fl = from.line_index;
        let tl = to.line_index;
        let ghost first = o[fl as int].subrange(from.column_byte_index as int, o[fl as int].len() as int);
        let mut head = BufferLine::empty();
        self.lines.set_and_swap(fl, &mut head);
        let removed = head.split_off(pool, from.column_byte_index);
        let mut text = Text::from_bytes(removed.as_bytes());
        pool.dispose(removed);
        let newline: [u8; 1] = [NEWLINE];
        assert(newline@ =~= seq![NEWLINE]);
        assert(self@ =~= o.subrange(0, fl as int) + seq![Seq::<u8>::empty()] + o.subrange(fl + 1, o.len() as int));
        assert(seq![first] + o.subrange(fl + 1, fl + 1) =~= seq![first]);
        let mut i: usize = fl + 1;
        while i < tl
            invariant
                fl < i <= tl < o.len(),
                text.wf(),
                self@ == o.subrange(0, fl as int) + seq![Seq::<u8>::empty()] + o.subrange(i as int, o.len() as int),
                text@ == join_lines(seq![first] + o.subrange(fl + 1, i as int)),
                forall|j: int| 0 <= j < self.lines@.len() ==> (#[trigger] self.lines@[j]).wf(),
                newline@ == seq![NEWLINE],
            decreases tl - i,
        {
            let ghost prev = self@;
            assert(self.lines@.len() == self@.len());
            assert(prev[fl + 1] == self.lines@[fl + 1]@);
            assert(prev[fl + 1] == o[i as int]);
            let line = self.lines.remove(fl + 1);
            assert(line@ == o[i as int]);
            text.push_bytes(newline.as_slice());
            text.push_bytes(line.as_bytes());
            pool.dispose(line);
            proof {
                assert(self@ =~= prev.remove(fl + 1));
                assert(self@ =~= o.subrange(0, fl as int) + seq![Seq::<u8>::empty()] + o.subrange(i + 1, o.len() as int));
                let s = seq![first] + o.subrange(fl + 1, i + 1);
                assert(s.drop_last() =~= seq![first] + o.subrange(fl + 1, i as int));
            }
            i = i + 1;
        }
        assert(self.lines@.len() == self@.len());
        let ghost prev = self@;
        assert(prev[fl + 1] == self.lines@[fl + 1]@);
        assert(prev[fl + 1] == o[tl as int]);
        let last = self.lines.remove(fl + 1);
        assert(last@ == o[tl as int]);
        assert(self@ =~= prev.remove(fl + 1));
        assert(self@ =~= o.subrange(0, fl as int) + seq![Seq::<u8>::empty()] + o.subrange(tl + 1, o.len() as int));
        let ghost removed_view = self@;
        let (last_head, last_tail) = last.as_bytes().split_at(to.column_byte_index);
        text.push_bytes(newline.as_slice());
        text.push_bytes(last_head);
        head.push_bytes(last_tail);
        let ghost new_head = head@;
        self.lines.set_and_swap(fl, &mut head);
        pool.dispose(last);
        proof {
            assert(self@ =~= removed_view.update(fl as int, new_head));
            let pieces = seq![first] + o.subrange(fl + 1, tl as int) + seq![
                o[tl as int].subrange(0, to.column_byte_index as int),
            ];
            assert(pieces.drop_last() =~= seq![first] + o.subrange(fl + 1, tl as int));
            assert(text@ =~= join_lines(pieces));
            assert(pieces =~= deleted_pieces(o, from, to));
            assert(self@ =~= deleted_lines(o, from, to));
            assert forall|j: int| 0 <= j < self@.len() implies no_newline(#[trigger] self@[j]) by {
                if j < fl {
                    assert(self@[j] == o[j]);
                } else if j == fl {
                    assert(no_newline(o[fl as int]));
                    assert(no_newline(o[tl as int]));
                } else {
                    assert(self@[j] == o[j + tl - fl]);
                }
            }
        }
        text
    }

    /// Appends the text of `range`, clamped, to `text`.
    pub fn append_range_text_to_string(&self, range: BufferRange, text: &mut Vec<u8>)
        requires
            self.wf(),
        ensures
            ({
                let from = clamp(self@, range.from);
                let to = ordered_end(from, clamp(self@, range.to));
                final(text)@ == old(text)@ + range_text(self@, from, to)
            }),
    {
        let ghost o = self@;
        let (from, to) = self.clamp_range(range);
        let fl = from.line_index;
        let tl = to.line_index;
        let first_line = self.lines[fl].as_bytes();
        if fl == tl {
            let (before, _) = first_line.split_at(to.column_byte_index);
            let (_, middle) = before.split_at(from.column_byte_index);
            push_bytes(text, middle);
            assert(middle@ =~= o[fl as int].subrange(from.column_byte_index as int, to.column_byte_index as int));
        } else {
            let (_, first) = first_line.split_at(from.column_byte_index);
            push_bytes(text, first);
            let ghost start = old(text)@;
            assert(seq![first@] + o.subrange(fl + 1, fl + 1) =~= seq![first@]);
            let mut i: usize = fl + 1;
            while i < tl
                invariant
                    self.wf(),
                    o == self@,
                    fl < i <= tl < o.len(),
                    text@ == start + join_lines(seq![first@] + o.subrange(fl + 1, i as int)),
                decreases tl - i,
            {
                text.push(NEWLINE);
                push_bytes(text, self.lines[i].as_bytes());
                proof {
                    let s = seq![first@] + o.subrange(fl + 1, i + 1);
                    assert(s.drop_last() =~= seq![first@] + o.subrange(fl + 1, i as int));
                    assert(text@ =~= start + join_lines(s));
                }
                i = i + 1;
            }
            let (last, _) = self.lines[tl].as_bytes().split_at(to.column_byte_index);
            text.push(NEWLINE);
            push_bytes(text, last);
            proof {
                let pieces = seq![first@] + o.subrange(fl + 1, tl as int) + seq![last@];
                assert(pieces.drop_last() =~= seq![first@] + o.subrange(fl + 1, tl as int));
                assert(pieces =~= deleted_pieces(o, from, to));
                assert(text@ =~= start + join_lines(pieces));
            }
        }
    }
}

/// `p` is a position that exists in `ls`: clamping leaves it where it is.
pub open spec fn exists_in(ls: Seq<Seq<u8>>, p: BufferPosition) -> bool {
    p.line_index < ls.len() && p.column_byte_index <= ls[p.line_index as int].len()
}

pub proof fn lemma_clamp_exists(ls: Seq<Seq<u8>>, p: BufferPosition)
    requires
        valid_lines(ls),
    ensures
        exists_in(ls, clamp(ls, p)),
        exists_in(ls, p) ==> clamp(ls, p) == p,
{
}

/// After inserting `t` at `p`, the line count and the length of the line
/// where the text ends fit in `usize`.
pub open spec fn insert_fits(ls: Seq<Seq<u8>>, p: BufferPosition, t: Seq<u8>) -> bool {
    let after = inserted_lines(ls, p, t);
    let l = p.line_index + split_lines(t).len() - 1;
    &&& after.len() <= usize::MAX
    &&& (0 <= l < after.len() ==> after[l].len() <= usize::MAX)
}

/// Inserting text and then deleting the range it covers gives back the
/// lines as they were, and the deleted text is the inserted one.
pub proof fn lemma_insert_then_delete(ls: Seq<Seq<u8>>, p: BufferPosition, t: Seq<u8>)
    requires
        valid_lines(ls),
        exists_in(ls, p),
        insert_fits(ls, p, t),
    ensures
        ({
            let after = inserted_lines(ls, p, t);
            let end = inserted_end(ls, p, t);
            &&& valid_lines(after)
            &&& exists_in(after, p)
            &&& exists_in(after, end)
            &&& !pos_lt(end, p)
            &&& deleted_lines(after, p, end) == ls
            &&& range_text(after, p, end) == t
        }),
{
    let l = p.line_index as int;
    let c = p.column_byte_index as int;
    let pieces = split_lines(t);
    lemma_split_lines_len(t);
    lemma_split_lines_bounds(t);
    lemma_join_split(t);
    let k = pieces.len() as int;
    let pre = ls[l].subrange(0, c);
    let suf = ls[l].subrange(c, ls[l].len() as int);
    let after = inserted_lines(ls, p, t);
    let end = inserted_end(ls, p, t);
    assert(pre + suf =~= ls[l]);
    lemma_split_lines_no_newline(t);
    assert(no_newline(ls[l]));
    assert forall|i: int| 0 <= i < after.len() implies no_newline(#[trigger] after[i]) by {
        if i < l {
            assert(after[i] == ls[i]);
        } else if i >= l + k {
            assert(after[i] == ls[i - k + 1]);
        } else if k == 1 {
            assert(no_newline(pieces[0]));
        } else if i == l {
            assert(no_newline(pieces[0]));
        } else if i == l + k - 1 {
            assert(no_newline(pieces[k - 1]));
        } else {
            assert(after[i] == pieces[i - l]);
            assert(no_newline(pieces[i - l]));
        }
    }
    if k == 1 {
        assert(pieces =~= seq![pieces[0]]);
        assert(pieces[0] == t);
        assert(after[l] == pre + t + suf);
        assert(after[l].subrange(0, c) =~= pre);
        assert(after[l].subrange(c + t.len(), after[l].len() as int) =~= suf);
        assert(after[l].subrange(c, c + t.len()) =~= t);
        assert(after.len() == ls.len());
        assert(after.subrange(0, l) =~= ls.subrange(0, l));
        assert(after.subrange(l + 1, after.len() as int) =~= ls.subrange(l + 1, ls.len() as int));
        let d = deleted_lines(after, p, end);
        assert(d == ls.subrange(0, l) + seq![pre + suf] + ls.subrange(l + 1, ls.len() as int));
        assert(d =~= ls);
        assert(deleted_pieces(after, p, end) =~= seq![t]);
    } else {
        let last = pieces[k - 1];
        assert(after[l] == pre + pieces[0]);
        assert(after[l + k - 1] == last + suf);
        assert(after[l].subrange(0, c) =~= pre);
        assert(after[l].subrange(c, after[l].len() as int) =~= pieces[0]);
        assert(after[l + k - 1].subrange(0, last.len() as int) =~= last);
        assert(after[l + k - 1].subrange(last.len() as int, after[l + k - 1].len() as int) =~= suf);
        assert(after.len() == ls.len() + k - 1);
        assert(after.subrange(0, l) =~= ls.subrange(0, l));
        assert(after.subrange(l + k, after.len() as int) =~= ls.subrange(l + 1, ls.len() as int));
        let d = deleted_lines(after, p, end);
        assert(d == ls.subrange(0, l) + seq![pre + suf] + ls.subrange(l + 1, ls.len() as int));
        assert(d =~= ls);
        assert(after.subrange(l + 1, l + k - 1) =~= pieces.subrange(1, k - 1));
        assert(deleted_pieces(after, p, end) =~= pieces);
    }
}

/// For any position `p`: inserting `t` at `p` and then deleting the range
/// that the insertion returned gives back the lines as they were, each step
/// as `BufferContent::insert_text` and `BufferContent::delete_range` state it.
pub proof fn lemma_insert_then_delete_restores(ls: Seq<Seq<u8>>, p: BufferPosition, t: Seq<u8>)
    requires
        valid_lines(ls),
        insert_fits(ls, clamp(ls, p), t),
    ensures
        ({
            let from = clamp(ls, p);
            let after = inserted_lines(ls, from, t);
            let to = inserted_end(ls, from, t);
            let del_from = clamp(after, from);
            let del_to = ordered_end(del_from, clamp(after, to));
            &&& del_from == from
            &&& del_to == to
            &&& deleted_lines(after, del_from, del_to) == ls
            &&& range_text(after, del_from, del_to) == t
        }),
{
    let from = clamp(ls, p);
    lemma_clamp_exists(ls, p);
    lemma_insert_then_delete(ls, from, t);
    let after = inserted_lines(ls, from, t);
    lemma_clamp_exists(after, from);
    lemma_clamp_exists(after, inserted_end(ls, from, t));
}

/// Deleting a range and then inserting the deleted text where the range
/// started gives back the lines as they were, and the insertion ends where
/// the range did.
pub proof fn lemma_delete_then_insert(ls: Seq<Seq<u8>>, from: BufferPosition, to: BufferPosition)
    requires
        valid_lines(ls),
        exists_in(ls, from),
        exists_in(ls, to),
        !pos_lt(to, from),
    ensures
        ({
            let after = deleted_lines(ls, from, to);
            let text = range_text(ls, from, to);
            &&& valid_lines(after)
            &&& exists_in(after, from)
            &&& inserted_lines(after, from, text) == ls
            &&& inserted_end(after, from, text) == to
        }),
{
    let fl = from.line_index as int;
    let tl = to.line_index as int;
    let fc = from.column_byte_index as int;
    let tc = to.column_byte_index as int;
    let after = deleted_lines(ls, from, to);
    let dp = deleted_pieces(ls, from, to);
    let text = range_text(ls, from, to);
    assert(all_no_newline(dp)) by {
        assert forall|i: int| 0 <= i < dp.len() implies no_newline(#[trigger] dp[i]) by {
            if fl == tl {
                assert(no_newline(ls[fl]));
            } else if i == 0 {
                assert(no_newline(ls[fl]));
            } else if i < dp.len() - 1 {
                assert(dp[i] == ls[fl + i]);
                assert(no_newline(ls[fl + i]));
            } else {
                assert(no_newline(ls[tl]));
            }
        }
    }
    lemma_split_join(dp);
    assert(split_lines(text) == dp);
    let pre = ls[fl].subrange(0, fc);
    let suf = ls[tl].subrange(tc, ls[tl].len() as int);
    assert(after[fl] == pre + suf);
    assert(no_newline(ls[fl]) && no_newline(ls[tl]));
    assert forall|i: int| 0 <= i < after.len() implies no_newline(#[trigger] after[i]) by {
        if i < fl {
            assert(after[i] == ls[i]);
        } else if i > fl {
            assert(after[i] == ls[i + tl - fl]);
        }
    }
    assert(after[fl].subrange(0, fc) =~= pre);
    assert(after[fl].subrange(fc, after[fl].len() as int) =~= suf);
    if fl == tl {
        lemma_join_split(text);
        assert(text == dp[0]);
        assert(pre + dp[0] + suf =~= ls[fl]);
        assert(inserted_lines(after, from, text) =~= ls);
    } else {
        let k = dp.len() as int;
        assert(k == tl - fl + 1);
        assert(pre + dp[0] =~= ls[fl]);
        assert(dp[k - 1] + suf =~= ls[tl]);
        assert(inserted_lines(after, from, text) =~= ls);
    }
}

/// A text document: its path, its lines, its edit history and the ranges
/// that matched the last search.
pub struct Buffer {
    path: String,
    content: BufferContent,
    history: Undo,
    search_ranges: Vec<BufferRange>,
    needs_save: bool,
    properties: BufferProperties,
}

impl View for Buffer {
    type V = Seq<Seq<u8>>;

    closed spec fn view(&self) -> Seq<Seq<u8>> {
        self.content@
    }
}

impl Buffer {
    /// The content is well formed and the history leads up to it.
    pub closed spec fn wf(&self) -> bool {
        &&& self.content.wf()
        &&& self.history.inv(self.content@)
    }

    /// A well formed buffer has at least one line, and no line holds a newline.
    pub proof fn lemma_wf_valid(&self)
        requires
            self.wf(),
        ensures
            valid_lines(self@),
    {
    }

    /// The path, empty for a buffer that has none.
    pub closed spec fn path_view(&self) -> Seq<char> {
        self.path@
    }

    /// Whether the buffer changed since it was created or saved.
    pub closed spec fn modified(&self) -> bool {
        self.needs_save
    }

    /// The edits of the open history group.
    pub closed spec fn open_edits(&self) -> Seq<EditView> {
        self.history.open_edits()
    }

    /// The ranges that matched the last search.
    pub closed spec fn searches(&self) -> Seq<BufferRange> {
        self.search_ranges@
    }

    /// How the buffer behaves: history, saving, file, word database.
    pub closed spec fn properties(&self) -> BufferProperties {
        self.properties
    }

    pub fn get_properties(&self) -> (r: BufferProperties)
        ensures
            r == self.properties(),
    {
        self.properties
    }

    /// Sets how the buffer behaves; turning history off forgets the history,
    /// which then starts from the current lines.
    pub fn set_properties(&mut self, properties: BufferProperties)
        requires
            old(self).wf(),
        ensures
            final(self).wf(),
            final(self)@ == old(self)@,
            final(self).properties() == properties,
            final(self).modified() == old(self).modified(),
            properties.history_enabled ==> final(self).open_edits() == old(self).open_edits()
                && final(self).applied_groups() == old(self).applied_groups()
                && final(self).group_total() == old(self).group_total() && final(self).origin() == old(self).origin(),
            !properties.history_enabled ==> final(self).open_edits().len() == 0 && final(self).applied_groups() == 0
                && final(self).group_total() == 0 && final(self).origin() == final(self)@,
    {
        self.properties = properties;
        if !properties.history_enabled {
            self.history = Undo::new_for(Ghost(self.content@));
        }
    }

    /// The number of committed edit groups that are applied.
    pub closed spec fn applied_groups(&self) -> nat {
        self.history.applied()
    }

    /// The number of committed edit groups, applied or undone.
    pub closed spec fn group_total(&self) -> nat {
        self.history.group_count()
    }

    /// The edits of committed group `i`, in the order they were made.
    pub closed spec fn group_edits(&self, i: int) -> Seq<EditView> {
        self.history.group_views(i)
    }

    /// The edits that the next undo reverts: the open group, or else the
    /// last applied group, or none.
    pub open spec fn undo_group(&self) -> Seq<EditView> {
        if self.open_edits().len() > 0 {
            self.open_edits()
        } else if self.applied_groups() > 0 {
            self.group_edits(self.applied_groups() - 1)
        } else {
            Seq::empty()
        }
    }

    /// The lines the buffer had when it was made, before every edit group.
    pub closed spec fn origin(&self) -> Seq<Seq<u8>> {
        self.history.origin()
    }

    /// Every edit applied to the buffer since it was made, group after group
    /// and then the open group.
    pub closed spec fn applied_edits(&self) -> Seq<EditView> {
        self.history.applied_edits()
    }

    /// Undoing every edit applied to the buffer, last first, gives back the
    /// lines it was made with.
    pub proof fn lemma_undo_everything_restores(&self)
        requires
            self.wf(),
        ensures
            chain(self.origin(), self.applied_edits()),
            apply_all(self.origin(), self.applied_edits()) == self@,
            revert_all(self@, self.applied_edits()) == self.origin(),
    {
        self.history.lemma_history_chain(self.content@);
        lemma_undo_all_restores(self.origin(), self.applied_edits());
    }

    /// With no group applied and none open, the buffer holds the lines it was made with.
    pub proof fn lemma_at_origin(&self)
        requires
            self.wf(),
            self.applied_groups() == 0,
            self.open_edits().len() == 0,
        ensures
            self@ == self.origin(),
    {
        self.history.lemma_at_origin(self.content@);
    }

    /// A buffer of `content`, whose identifiers are counted in `word_database`.
    pub fn new(word_database: &mut WordDatabase, path: Option<&str>, content: BufferContent) -> (r: Buffer)
        requires
            content.wf(),
            old(word_database).wf(),
        ensures
            final(word_database).wf(),
            forall|w: Seq<u8>| #[trigger] final(word_database).count(w) == plus(
                old(word_database).count(w),
                lines_words(content@, 0, content@.len() as int, w),
            ),
            r.wf(),
            r@ == content@,
            !r.modified(),
            r.open_edits().len() == 0,
            r.applied_groups() == 0,
            r.group_total() == 0,
            r.origin() == content@,
            r.properties() == (BufferProperties { history_enabled: true, saving_enabled: true, is_file: true, word_database_enabled: true }),
            r.searches().len() == 0,
            path.is_none() ==> r.path_view().len() == 0,
            path matches Some(p) ==> r.path_view() == p@,
    {
        word_database.add_lines(&content, 0, content.line_count());
        let history = Undo::new_for(Ghost(content@));
        let path = match path {
            Some(p) => p.to_owned(),
            None => String::new(),
        };
        Buffer { path, content, history, search_ranges: Vec::new(), needs_save: false, properties: BufferProperties::text() }
    }

    /// The path of the buffer; none where it is empty.
    pub fn path(&self) -> (r: Option<&str>)
        ensures
            r.is_none() <==> self.path_view().len() == 0,
            r matches Some(p) ==> p@ == self.path_view(),
    {
        let p = self.path.as_str();
        if p.is_empty() {
            None
        } else {
            Some(p)
        }
    }

    pub fn set_path(&mut self, path: Option<&str>)
        ensures
            final(self)@ == old(self)@,
            final(self).wf() == old(self).wf(),
            final(self).modified() == old(self).modified(),
            final(self).open_edits() == old(self).open_edits(),
            path.is_none() ==> final(self).path_view().len() == 0,
            path matches Some(p) ==> final(self).path_view() == p@,
    {
        self.path = match path {
            Some(p) => p.to_owned(),
            None => String::new(),
        };
    }

    pub fn content(&self) -> (r: &BufferContent)
        requires
            self.wf(),
        ensures
            r.wf(),
            r@ == self@,
    {
        &self.content
    }

    pub fn needs_save(&self) -> (r: bool)
        ensures
            r == self.modified(),
    {
        self.needs_save
    }

    /// Inserts `text` at `position`, clamped, and records the edit in the
    /// open history group; empty text changes nothing and records nothing.
    pub fn insert_text(
        &mut self,
        pool: &mut BufferLinePool,
        word_database: &mut WordDatabase,
        position: BufferPosition,
        text: &str,
    ) -> (r: BufferRange)
        requires
            old(self).wf(),
            old(word_database).wf(),
        ensures
            final(self).wf(),
            final(word_database).wf(),
            text.spec_bytes().len() == 0 ==> *final(word_database) == *old(word_database),
            text.spec_bytes().len() > 0 ==> forall|w: Seq<u8>| #[trigger] final(word_database).count(w) == plus(
                less(
                    old(word_database).count(w),
                    lines_words(old(self)@, r.from.line_index as int, r.from.line_index + 1, w),
                ),
                lines_words(final(self)@, r.from.line_index as int, r.to.line_index + 1, w),
            ),
            final(self).searches().len() == 0,
            final(self).properties() == old(self).properties(),
            old(self).properties().history_enabled || text.spec_bytes().len() == 0 ==> final(self).origin() == old(self).origin()
                && final(self).applied_groups() == old(self).applied_groups(),
            !old(self).properties().history_enabled && text.spec_bytes().len() > 0 ==> final(self).open_edits().len() == 0
                && final(self).applied_groups() == 0 && final(self).group_total() == 0 && final(self).origin() == final(self)@,
            text.spec_bytes().len() == 0 ==> {
                &&& final(self)@ == old(self)@
                &&& r.from == position && r.to == position
                &&& final(self).open_edits() == old(self).open_edits()
                &&& final(self).modified() == old(self).modified()
                &&& final(self).group_total() == old(self).group_total()
            },
            text.spec_bytes().len() > 0 ==> {
                &&& r.from == clamp(old(self)@, position)
                &&& final(self)@ == inserted_lines(old(self)@, r.from, text.spec_bytes())
                &&& r.to == inserted_end(old(self)@, r.from, text.spec_bytes())
                &&& final(self).modified()
                &&& old(self).properties().history_enabled ==> final(self).group_total() == old(self).applied_groups()
                    && final(self).open_edits() == old(self).open_edits().push(
                    EditView { kind: EditKind::Insert, range: r, text: text.spec_bytes() },
                )
            },
    {
        self.search_ranges.clear();
        let bytes = text.as_bytes();
        if bytes.len() == 0 {
            return BufferRange::between(position, position);
        }
        self.needs_save = true;
        let ghost before = self.content@;
        let head = self.content.saturate_position(position);
        proof {
            lemma_clamp_exists(before, position);
        }
        let _ = self.content.line_count();
        word_database.remove_lines(&self.content, head.line_index, head.line_index + 1);
        let ghost removed = *word_database;
        let range = self.content.insert_bytes(pool, position, bytes);
        let count = self.content.line_count();
        proof {
            lemma_split_lines_len(bytes@);
            let k = split_lines(bytes@).len() as int;
            assert(self.content@.len() == before.len() + k - 1);
        }
        let end_len = self.content.line_at(range.to.line_index).len();
        proof {
            lemma_insert_then_delete(before, range.from, bytes@);
        }
        word_database.add_lines(&self.content, range.from.line_index, range.to.line_index + 1);
        assert(range.from == head);
        assert forall|w: Seq<u8>| #[trigger] word_database.count(w) == plus(
            less(old(word_database).count(w), lines_words(before, range.from.line_index as int, range.from.line_index + 1, w)),
            lines_words(self.content@, range.from.line_index as int, range.to.line_index + 1, w),
        ) by {
            assert(removed.count(w) == less(old(word_database).count(w), lines_words(before, head.line_index as int, head.line_index + 1, w)));
        }
        let mut copy: Vec<u8> = Vec::new();
        push_bytes(&mut copy, bytes);
        let edit = Edit { kind: EditKind::Insert, range, text: copy };
        if self.properties.history_enabled {
            self.history.push_edit(edit, Ghost(before));
        } else {
            self.history = Undo::new_for(Ghost(self.content@));
        }
        range
    }

    /// Deletes the text of `range`, clamped, and records the edit in the
    /// open history group; an empty range changes nothing and records nothing.
    pub fn delete_range(&mut self, pool: &mut BufferLinePool, word_database: &mut WordDatabase, range: BufferRange)
        requires
            old(self).wf(),
            old(word_database).wf(),
        ensures
            final(self).wf(),
            final(word_database).wf(),
            ({
                let from = clamp(old(self)@, range.from);
                let to = ordered_end(from, clamp(old(self)@, range.to));
                &&& from == to ==> *final(word_database) == *old(word_database)
                &&& from != to ==> forall|w: Seq<u8>| #[trigger] final(word_database).count(w) == plus(
                    less(
                        old(word_database).count(w),
                        lines_words(old(self)@, from.line_index as int, to.line_index + 1, w),
                    ),
                    lines_words(final(self)@, from.line_index as int, from.line_index + 1, w),
                )
            }),
            final(self).searches().len() == 0,
            final(self).properties() == old(self).properties(),
            ({
                let from = clamp(old(self)@, range.from);
                let to = ordered_end(from, clamp(old(self)@, range.to));
                &&& old(self).properties().history_enabled || from == to ==> final(self).origin() == old(self).origin()
                    && final(self).applied_groups() == old(self).applied_groups()
                &&& !old(self).properties().history_enabled && from != to ==> final(self).open_edits().len() == 0
                    && final(self).applied_groups() == 0 && final(self).group_total() == 0 && final(self).origin() == final(self)@
            }),
            ({
                let from = clamp(old(self)@, range.from);
                let to = ordered_end(from, clamp(old(self)@, range.to));
                &&& from == to ==> {
                    &&& final(self)@ == old(self)@
                    &&& final(self).group_total() == old(self).group_total()
                    &&& final(self).open_edits() == old(self).open_edits()
                    &&& final(self).modified() == old(self).modified()
                }
                &&& from != to ==> {
                    &&& final(self)@ == deleted_lines(old(self)@, from, to)
                    &&& final(self).modified()
                    &&& old(self).properties().history_enabled ==> final(self).group_total() == old(self).applied_groups()
                        && final(self).open_edits() == old(self).open_edits().push(
                        EditView {
                            kind: EditKind::Delete,
                            range: BufferRange { from, to },
                            text: range_text(old(self)@, from, to),
                        },
                    )
                }
            }),
    {
        self.search_ranges.clear();
        let (from, to) = self.content.clamp_range(range);
        if from == to {
            return;
        }
        self.needs_save = true;
        let ghost before = self.content@;
        proof {
            lemma_clamp_exists(before, range.from);
            lemma_clamp_exists(before, range.to);
            lemma_clamp_exists(before, from);
            lemma_clamp_exists(before, to);
        }
        let range = BufferRange { from, to };
        let _ = self.content.line_count();
        word_database.remove_lines(&self.content, from.line_index, to.line_index + 1);
        let text = self.content.delete_range(pool, range);
        proof {
            lemma_delete_then_insert(before, from, to);
        }
        word_database.add_lines(&self.content, from.line_index, from.line_index + 1);
        let mut bytes: Vec<u8> = Vec::new();
        push_bytes(&mut bytes, text.as_bytes());
        let edit = Edit { kind: EditKind::Delete, range, text: bytes };
        if self.properties.history_enabled {
            self.history.push_edit(edit, Ghost(before));
        } else {
            self.history = Undo::new_for(Ghost(self.content@));
        }
    }

    /// Closes the open history group.
    pub fn commit_edits(&mut self)
        requires
            old(self).wf(),
        ensures
            final(self).wf(),
            final(self)@ == old(self)@,
            final(self).open_edits().len() == 0,
            final(self).modified() == old(self).modified(),
            final(self).origin() == old(self).origin(),
            old(self).open_edits().len() > 0 ==> final(self).applied_groups() == old(self).applied_groups() + 1
                && final(self).group_total() == final(self).applied_groups()
                && final(self).group_edits(old(self).applied_groups() as int) == old(self).open_edits(),
            old(self).open_edits().len() == 0 ==> final(self).applied_groups() == old(self).applied_groups()
                && final(self).group_total() == old(self).group_total(),
    {
        self.history.commit_edits(Ghost(self.content@));
    }

    /// Undoes the last group of edits, after closing the open one, and
    /// returns its edits in the order they were made.
    pub fn undo(&mut self, pool: &mut BufferLinePool) -> (r: Vec<Edit>)
        requires
            old(self).wf(),
        ensures
            final(self).wf(),
            final(self).searches().len() == 0,
            final(self).open_edits().len() == 0,
            final(self).origin() == old(self).origin(),
            ({
                let g = old(self).undo_group();
                &&& edit_views(r@) == inverted_reverse(g)
                &&& chain(final(self)@, g)
                &&& apply_all(final(self)@, g) == old(self)@
                &&& final(self)@ == revert_all(old(self)@, g)
            }),
            r@.len() > 0 <==> (old(self).open_edits().len() > 0 || old(self).applied_groups() > 0),
            r@.len() == 0 ==> final(self)@ == old(self)@ && final(self).applied_groups() == 0,
            old(self).open_edits().len() > 0 ==> final(self).applied_groups() == old(self).applied_groups(),
            old(self).open_edits().len() == 0 && old(self).applied_groups() > 0 ==> final(self).applied_groups()
                == old(self).applied_groups() - 1,
            final(self).applied_groups() == 0 ==> final(self)@ == final(self).origin(),
    {
        self.search_ranges.clear();
        self.needs_save = true;
        let ghost before = self.content@;
        let mut undone: Vec<Edit> = Vec::new();
        match self.history.undo(Ghost(before)) {
            None => {
                assert(edit_views(undone@) =~= inverted_reverse(Seq::<EditView>::empty()));
                proof {
                    self.history.lemma_at_origin(self.content@);
                    assert(old(self).undo_group() =~= Seq::<EditView>::empty());
                }
            },
            Some(index) => {
                let edits = self.history.group(index);
                let ghost g = edit_views(edits@);
                let ghost base = self.history.base();
                let ghost h = self.history;
                assert(g == old(self).undo_group());
                let mut i: usize = edits.len();
                assert(g.subrange(0, i as int) =~= g);
                assert(edit_views(undone@) =~= Seq::new((g.len() - i) as nat, |k: int| invert(g[g.len() - 1 - k])));
                while i > 0
                    invariant
                        i <= g.len(),
                        g == edit_views(edits@),
                        self.content.wf(),
                        chain(base, g),
                        self.search_ranges@.len() == 0,
                        self.history == h,
                        self.history.inv(base),
                        self.history.open_edits().len() == 0,
                        self.content@ == apply_all(base, g.subrange(0, i as int)),
                        edit_views(undone@) == Seq::new((g.len() - i) as nat, |k: int| invert(g[g.len() - 1 - k])),
                    decreases i,
                {
                    i = i - 1;
                    proof {
                        lemma_chain_prefix(base, g, i + 1);
                        assert(g.subrange(0, i + 1).drop_last() =~= g.subrange(0, i as int));
                        lemma_edit_round_trip(apply_all(base, g.subrange(0, i as int)), g[i as int]);
                        assert(edits@[i as int]@ == g[i as int]);
                    }
                    edits[i].revert(&mut self.content, pool);
                    let e = edits[i].inverted();
                    let ghost prev = undone@;
                    undone.push(e);
                    assert(edit_views(undone@) =~= edit_views(prev).push(e@));
                    assert(edit_views(undone@) =~= Seq::new((g.len() - i) as nat, |k: int| invert(g[g.len() - 1 - k])));
                }
                proof {
                    assert(g.subrange(0, 0) =~= Seq::<EditView>::empty());
                    lemma_undo_all_restores(base, g);
                    assert(edit_views(undone@) =~= inverted_reverse(g));
                    if self.history.applied() == 0 {
                        self.history.lemma_at_origin(self.content@);
                    }
                }
            },
        }
        undone
    }

    /// Redoes the next undone group of edits, after closing the open one,
    /// and returns its edits in the order they were made.
    pub fn redo(&mut self, pool: &mut BufferLinePool) -> (r: Vec<Edit>)
        requires
            old(self).wf(),
        ensures
            final(self).wf(),
            final(self).searches().len() == 0,
            final(self).open_edits().len() == 0,
            chain(old(self)@, edit_views(r@)),
            final(self)@ == apply_all(old(self)@, edit_views(r@)),
            final(self).origin() == old(self).origin(),
            r@.len() > 0 <==> (old(self).open_edits().len() == 0 && old(self).applied_groups() < old(self).group_total()),
            r@.len() == 0 ==> final(self)@ == old(self)@,
            r@.len() > 0 ==> edit_views(r@) == old(self).group_edits(old(self).applied_groups() as int)
                && final(self).applied_groups() == old(self).applied_groups() + 1
                && final(self).group_total() == old(self).group_total(),
    {
        self.search_ranges.clear();
        self.needs_save = true;
        let ghost before = self.content@;
        let mut copies: Vec<Edit> = Vec::new();
        match self.history.redo(Ghost(before)) {
            None => {
                assert(edit_views(copies@) =~= Seq::<EditView>::empty());
            },
            Some(index) => {
                let edits = self.history.group(index);
                let ghost g = edit_views(edits@);
                let ghost h = self.history;
                assert(g.len() > 0) by {
                    assert(h.group_views(index as int) == g);
                }
                let mut i: usize = 0;
                assert(g.subrange(0, 0) =~= Seq::<EditView>::empty());
                while i < edits.len()
                    invariant
                        i <= g.len(),
                        g == edit_views(edits@),
                        self.content.wf(),
                        chain(before, g),
                        self.search_ranges@.len() == 0,
                        self.history == h,
                        self.history.inv(apply_all(before, g)),
                        self.history.open_edits().len() == 0,
                        self.content@ == apply_all(before, g.subrange(0, i as int)),
                        edit_views(copies@) == g.subrange(0, i as int),
                    decreases g.len() - i,
                {
                    proof {
                        lemma_chain_prefix(before, g, i + 1);
                        assert(g.subrange(0, i + 1).drop_last() =~= g.subrange(0, i as int));
                        lemma_edit_round_trip(apply_all(before, g.subrange(0, i as int)), g[i as int]);
                        assert(edits@[i as int]@ == g[i as int]);
                    }
                    edits[i].apply(&mut self.content, pool);
                    copies.push(edits[i].copy());
                    assert(edit_views(copies@) =~= g.subrange(0, i + 1));
                    i = i + 1;
                }
                assert(g.subrange(0, g.len() as int) =~= g);
            },
        }
        copies
    }
}

/// The number of bytes equal to `d` in `s` before index `i`.
pub open spec fn count_before(s: Seq<u8>, d: u8, i: int) -> nat
    decreases i,
{
    if i <= 0 {
        0
    } else {
        count_before(s, d, i - 1) + if s[i - 1] == d {
            1nat
        } else {
            0nat
        }
    }
}

/// The first index at or after `i` where `s` holds `d`, or `s.len()`.
pub open spec fn next_index_of(s: Seq<u8>, d: u8, i: int) -> int
    decreases s.len() - i,
{
    if i >= s.len() {
        s.len() as int
    } else if s[i] == d {
        i
    } else {
        next_index_of(s, d, i + 1)
    }
}

/// The last index before `i` where `s` holds `d`, or -1.
pub open spec fn last_index_of(s: Seq<u8>, d: u8, i: int) -> int
    decreases i,
{
    if i <= 0 {
        -1
    } else if s[i - 1] == d {
        i - 1
    } else {
        last_index_of(s, d, i - 1)
    }
}

/// The text between the two delimiters `d` around column `c` of line `s`,
/// as a pair of byte bounds. A delimiter at `c` that another follows opens
/// the pair; otherwise delimiters pair up from the start of the line, and an
/// odd number of them before `c` means `c` lies inside a pair.
pub open spec fn delimiter_pair(s: Seq<u8>, d: u8, c: int) -> Option<(int, int)> {
    if c < s.len() && s[c] == d && next_index_of(s, d, c + 1) < s.len() {
        Some((c + 1, next_index_of(s, d, c + 1)))
    } else if count_before(s, d, c) % 2 == 1 {
        let right = next_index_of(s, d, c);
        if right < s.len() {
            Some((last_index_of(s, d, c) + 1, right))
        } else {
            None
        }
    } else {
        None
    }
}

/// The range matching `delimiter_pair` on the line of `p`, a position that exists in `ls`.
pub open spec fn delimiter_range(ls: Seq<Seq<u8>>, p: BufferPosition, d: u8) -> Option<BufferRange> {
    match delimiter_pair(ls[p.line_index as int], d, p.column_byte_index as int) {
        Some((a, b)) => Some(
            BufferRange {
                from: BufferPosition { line_index: p.line_index, column_byte_index: a as usize },
                to: BufferPosition { line_index: p.line_index, column_byte_index: b as usize },
            },
        ),
        None => None,
    }
}

proof fn lemma_next_index_bounds(s: Seq<u8>, d: u8, i: int)
    requires
        0 <= i <= s.len(),
    ensures
        i <= next_index_of(s, d, i) <= s.len(),
        next_index_of(s, d, i) < s.len() ==> s[next_index_of(s, d, i)] == d,
    decreases s.len() - i,
{
    if i < s.len() && s[i] != d {
        lemma_next_index_bounds(s, d, i + 1);
    }
}

proof fn lemma_last_index_bounds(s: Seq<u8>, d: u8, i: int)
    requires
        0 <= i <= s.len(),
    ensures
        -1 <= last_index_of(s, d, i) < i,
    decreases i,
{
    if i > 0 && s[i - 1] != d {
        lemma_last_index_bounds(s, d, i - 1);
    }
}

/// The index of the first `d` in `s` at or after `start`, or `s.len()`.
fn find_next(s: &[u8], d: u8, start: usize) -> (r: usize)
    requires
        start <= s@.len(),
    ensures
        r == next_index_of(s@, d, start as int),
{
    let mut i = start;
    while i < s.len() && s[i] != d
        invariant
            start <= i <= s@.len(),
            next_index_of(s@, d, start as int) == next_index_of(s@, d, i as int),
        decreases s@.len() - i,
    {
        i = i + 1;
    }
    i
}

impl BufferContent {
    /// The text between the pair of `delimiter` bytes that enclose
    /// `position`, clamped, on its line.
    pub fn find_delimiter_pair_at(&self, position: BufferPosition, delimiter: u8) -> (r: Option<BufferRange>)
        requires
            self.wf(),
        ensures
            r == delimiter_range(self@, clamp(self@, position), delimiter),
    {
        let p = self.saturate_position(position);
        let line = self.lines[p.line_index].as_bytes();
        let c = p.column_byte_index;
        let ghost s = line@;
        let mut count: usize = 0;
        let mut last: usize = 0;
        let mut found_last = false;
        let mut i: usize = 0;
        while i < c
            invariant
                c <= s.len(),
                s == line@,
                i <= c,
                count == count_before(s, delimiter, i as int),
                count <= i,
                found_last ==> last < i && last_index_of(s, delimiter, i as int) == last,
                !found_last ==> last_index_of(s, delimiter, i as int) == -1,
            decreases c - i,
        {
            if line[i] == delimiter {
                count = count + 1;
                last = i;
                found_last = true;
            }
            i = i + 1;
        }
        proof {
            lemma_next_index_bounds(s, delimiter, c as int);
            if c < s.len() {
                lemma_next_index_bounds(s, delimiter, c + 1);
            }
        }
        if c < line.len() && line[c] == delimiter {
            let right = find_next(line, delimiter, c + 1);
            if right < line.len() {
                return Some(BufferRange {
                    from: BufferPosition { line_index: p.line_index, column_byte_index: c + 1 },
                    to: BufferPosition { line_index: p.line_index, column_byte_index: right },
                });
            }
        }
        if count % 2 == 1 {
            let right = find_next(line, delimiter, c);
            if right < line.len() {
                let from = if found_last { last + 1 } else { 0 };
                Some(BufferRange {
                    from: BufferPosition { line_index: p.line_index, column_byte_index: from },
                    to: BufferPosition { line_index: p.line_index, column_byte_index: right },
                })
            } else {
                None
            }
        } else {
            None
        }
    }
}

/// With the cursor on a delimiter that another follows on the line, the
/// pair found is the one whose left delimiter is at the cursor.
pub proof fn lemma_delimiter_on_cursor_opens(s: Seq<u8>, d: u8, c: int)
    requires
        0 <= c < s.len(),
        s[c] == d,
        next_index_of(s, d, c + 1) < s.len(),
    ensures
        delimiter_pair(s, d, c) == Some((c + 1, next_index_of(s, d, c + 1))),
{
}

/// Scanning `s` forward from index `i`, with `b` unmatched `other` bytes
/// seen: the index of the `target` byte that balances them, or else the
/// balance at the end of `s`.
pub open spec fn scan_forward(s: Seq<u8>, i: int, b: nat, target: u8, other: u8) -> (Option<int>, nat)
    decreases s.len() - i,
{
    if i >= s.len() {
        (None, b)
    } else if s[i] == target {
        if b == 0 {
            (Some(i), 0)
        } else {
            scan_forward(s, i + 1, (b - 1) as nat, target, other)
        }
    } else if s[i] == other {
        scan_forward(s, i + 1, b + 1, target, other)
    } else {
        scan_forward(s, i + 1, b, target, other)
    }
}

/// Scanning `s` backward over the indices before `i`, as `scan_forward` does forward.
pub open spec fn scan_backward(s: Seq<u8>, i: int, b: nat, target: u8, other: u8) -> (Option<int>, nat)
    decreases i,
{
    if i <= 0 {
        (None, b)
    } else if s[i - 1] == target {
        if b == 0 {
            (Some(i - 1), 0)
        } else {
            scan_backward(s, i - 1, (b - 1) as nat, target, other)
        }
    } else if s[i - 1] == other {
        scan_backward(s, i - 1, b + 1, target, other)
    } else {
        scan_backward(s, i - 1, b, target, other)
    }
}

/// `scan_forward` over whole lines from line `l` on, carrying the balance.
pub open spec fn scan_lines_forward(ls: Seq<Seq<u8>>, l: int, b: nat, target: u8, other: u8) -> Option<(int, int)>
    decreases ls.len() - l,
{
    if l < 0 || l >= ls.len() {
        None
    } else {
        match scan_forward(ls[l], 0, b, target, other) {
            (Some(i), _) => Some((l, i)),
            (None, b2) => scan_lines_forward(ls, l + 1, b2, target, other),
        }
    }
}

/// `scan_backward` over whole lines before line `l`, last line first.
pub open spec fn scan_lines_backward(ls: Seq<Seq<u8>>, l: int, b: nat, target: u8, other: u8) -> Option<(int, int)>
    decreases l,
{
    if l <= 0 || l > ls.len() {
        None
    } else {
        match scan_backward(ls[l - 1], ls[l - 1].len() as int, b, target, other) {
            (Some(i), _) => Some((l - 1, i)),
            (None, b2) => scan_lines_backward(ls, l - 1, b2, target, other),
        }
    }
}

/// Where the `right` byte that closes the pair around `p` stands: at `p`
/// itself where it holds `right` (and not `left`), else the first `right`
/// after `p` that balances the `left` bytes between.
pub open spec fn balanced_right(ls: Seq<Seq<u8>>, p: BufferPosition, left: u8, right: u8) -> Option<(int, int)> {
    let l = p.line_index as int;
    let c = p.column_byte_index as int;
    let s = ls[l];
    if c < s.len() && s[c] != left && s[c] == right {
        Some((l, c))
    } else {
        let start = if c < s.len() {
            c + 1
        } else {
            c
        };
        match scan_forward(s, start, 0, right, left) {
            (Some(i), _) => Some((l, i)),
            (None, b) => scan_lines_forward(ls, l + 1, b, right, left),
        }
    }
}

/// Where the text after the `left` byte that opens the pair around `p`
/// starts: after `p` where it holds `left`, else after the last `left`
/// before `p` that balances the `right` bytes between.
pub open spec fn balanced_left(ls: Seq<Seq<u8>>, p: BufferPosition, left: u8, right: u8) -> Option<(int, int)> {
    let l = p.line_index as int;
    let c = p.column_byte_index as int;
    let s = ls[l];
    if c < s.len() && s[c] == left {
        Some((l, c + 1))
    } else {
        match scan_backward(s, c, 0, left, right) {
            (Some(i), _) => Some((l, i + 1)),
            (None, b) => match scan_lines_backward(ls, l, b, left, right) {
                Some((l2, i)) => Some((l2, i + 1)),
                None => None,
            },
        }
    }
}

/// The text between the balanced `left` and `right` bytes around `p`.
pub open spec fn balanced_range(ls: Seq<Seq<u8>>, p: BufferPosition, left: u8, right: u8) -> Option<BufferRange> {
    match (balanced_left(ls, p, left, right), balanced_right(ls, p, left, right)) {
        (Some((l1, c1)), Some((l2, c2))) => Some(
            BufferRange {
                from: BufferPosition { line_index: l1 as usize, column_byte_index: c1 as usize },
                to: BufferPosition { line_index: l2 as usize, column_byte_index: c2 as usize },
            },
        ),
        _ => None,
    }
}

/// `scan_forward` on `s` from `start`, with balance `b`.
fn scan_forward_exec(s: &[u8], start: usize, b: u128, target: u8, other: u8) -> (r: (Option<usize>, u128))
    requires
        start <= s@.len(),
        b + s@.len() <= u128::MAX,
    ensures
        r.0 matches Some(i) ==> scan_forward(s@, start as int, b as nat, target, other) == (Some(i as int), 0nat),
        r.0.is_none() ==> scan_forward(s@, start as int, b as nat, target, other) == (None::<int>, r.1 as nat),
        r.1 <= b + s@.len(),
{
    let mut i = start;
    let mut bal = b;
    while i < s.len()
        invariant
            start <= i <= s@.len(),
            bal <= b + i,
            b + s@.len() <= u128::MAX,
            scan_forward(s@, start as int, b as nat, target, other) == scan_forward(s@, i as int, bal as nat, target, other),
        decreases s@.len() - i,
    {
        let c = s[i];
        if c == target {
            if bal == 0 {
                return (Some(i), 0);
            }
            bal = bal - 1;
        } else if c == other {
            bal = bal + 1;
        }
        i = i + 1;
    }
    (None, bal)
}

/// `scan_backward` on `s` before `end`, with balance `b`.
fn scan_backward_exec(s: &[u8], end: usize, b: u128, target: u8, other: u8) -> (r: (Option<usize>, u128))
    requires
        end <= s@.len(),
        b + s@.len() <= u128::MAX,
    ensures
        r.0 matches Some(i) ==> i < end && scan_backward(s@, end as int, b as nat, target, other) == (Some(i as int), 0nat),
        r.0.is_none() ==> scan_backward(s@, end as int, b as nat, target, other) == (None::<int>, r.1 as nat),
        r.1 <= b + s@.len(),
{
    let mut i = end;
    let mut bal = b;
    while i > 0
        invariant
            i <= end <= s@.len(),
            bal <= b + (end - i),
            b + s@.len() <= u128::MAX,
            scan_backward(s@, end as int, b as nat, target, other) == scan_backward(s@, i as int, bal as nat, target, other),
        decreases i,
    {
        let c = s[i - 1];
        if c == target {
            if bal == 0 {
                return (Some(i - 1), 0);
            }
            bal = bal - 1;
        } else if c == other {
            bal = bal + 1;
        }
        i = i - 1;
    }
    (None, bal)
}

impl BufferContent {
    /// The text between the `left` and `right` bytes that enclose
    /// `position`, clamped, balancing nested pairs across lines.
    pub fn find_balanced_chars_at(&self, position: BufferPosition, left: u8, right: u8) -> (r: Option<BufferRange>)
        requires
            self.wf(),
        ensures
            r == balanced_range(self@, clamp(self@, position), left, right),
    {
        let ghost ls = self@;
        let p = self.saturate_position(position);
        let l = p.line_index;
        let c = p.column_byte_index;
        let line = self.lines[l].as_bytes();
        let count = self.lines.len();
        let max: u128 = usize::MAX as u128;
        assert(usize::MAX <= 0xffff_ffff_ffff_ffffu128);
        let right_position: (usize, usize) = if c < line.len() && line[c] != left && line[c] == right {
            (l, c)
        } else {
            let start = if c < line.len() { c + 1 } else { c };
            match scan_forward_exec(line, start, 0, right, left) {
                (Some(i), _) => (l, i),
                (None, b0) => {
                    let mut bal = b0;
                    let mut k = l + 1;
                    let mut found: (usize, usize) = (0, 0);
                    let mut done = false;
                    while k < count && !done
                        invariant
                            ls == self@,
                            self.wf(),
                            count == ls.len(),
                            l < k <= count,
                            bal <= (k - l) as u128 * 0xffff_ffff_ffff_ffffu128,
                            max == usize::MAX as u128,
                            max <= 0xffff_ffff_ffff_ffffu128,
                            done ==> balanced_right(ls, p, left, right) == Some((found.0 as int, found.1 as int)),
                            !done ==> balanced_right(ls, p, left, right) == scan_lines_forward(ls, k as int, bal as nat, right, left),
                        decreases count - k, if done { 0int } else { 1int },
                    {
                        let s = self.lines[k].as_bytes();
                        let n = s.len();
                        assert(n as u128 <= 0xffff_ffff_ffff_ffffu128);
                        match scan_forward_exec(s, 0, bal, right, left) {
                            (Some(i), _) => {
                                found = (k, i);
                                done = true;
                            },
                            (None, b2) => {
                                assert(s@ == ls[k as int]);
                                bal = b2;
                                k = k + 1;
                            },
                        }
                    }
                    if done {
                        found
                    } else {
                        return None;
                    }
                },
            }
        };
        let left_position: (usize, usize) = if c < line.len() && line[c] == left {
            (l, c + 1)
        } else {
            match scan_backward_exec(line, c, 0, left, right) {
                (Some(i), _) => (l, i + 1),
                (None, b0) => {
                    let mut bal = b0;
                    let mut k = l;
                    let mut found: (usize, usize) = (0, 0);
                    let mut done = false;
                    while k > 0 && !done
                        invariant
                            ls == self@,
                            self.wf(),
                            count == ls.len(),
                            k <= l < count,
                            l == p.line_index,
                            c == p.column_byte_index,
                            bal <= (l - k + 1) as u128 * 0xffff_ffff_ffff_ffffu128,
                            max == usize::MAX as u128,
                            max <= 0xffff_ffff_ffff_ffffu128,
                            scan_backward(ls[l as int], c as int, 0, left, right).0.is_none(),
                            !(c < ls[l as int].len() && ls[l as int][c as int] == left),
                            done ==> balanced_left(ls, p, left, right) == Some((found.0 as int, found.1 as int)),
                            !done ==> scan_lines_backward(ls, l as int, scan_backward(ls[l as int], c as int, 0, left, right).1, left, right)
                                == scan_lines_backward(ls, k as int, bal as nat, left, right),
                        decreases k, if done { 0int } else { 1int },
                    {
                        let s = self.lines[k - 1].as_bytes();
                        let n = s.len();
                        assert(n as u128 <= 0xffff_ffff_ffff_ffffu128);
                        match scan_backward_exec(s, n, bal, left, right) {
                            (Some(i), _) => {
                                assert(s@ == ls[k - 1]);
                                assert(scan_lines_backward(ls, k as int, bal as nat, left, right) == Some(((k - 1) as int, i as int)));
                                let ghost sb = scan_backward(ls[l as int], c as int, 0, left, right);
                                assert(sb == (None::<int>, sb.1));
                                assert(scan_lines_backward(ls, l as int, sb.1, left, right) == Some(((k - 1) as int, i as int)));
                                assert(balanced_left(ls, p, left, right) == Some(((k - 1) as int, i + 1)));
                                found = (k - 1, i + 1);
                                done = true;
                            },
                            (None, b2) => {
                                assert(s@ == ls[k - 1]);
                                bal = b2;
                                k = k - 1;
                            },
                        }
                    }
                    if done {
                        found
                    } else {
                        return None;
                    }
                },
            }
        };
        Some(BufferRange {
            from: BufferPosition { line_index: left_position.0, column_byte_index: left_position.1 },
            to: BufferPosition { line_index: right_position.0, column_byte_index: right_position.1 },
        })
    }
}

/// The index of a buffer in a `BufferCollection`.
#[derive(Clone, Copy, Debug, PartialEq, Eq, Structural)]
pub struct BufferHandle(pub usize);

/// Deleting an empty range leaves the lines as they are.
pub proof fn lemma_delete_empty(ls: Seq<Seq<u8>>, p: BufferPosition)
    requires
        valid_lines(ls),
        exists_in(ls, p),
    ensures
        deleted_lines(ls, p, p) == ls,
{
    let l = p.line_index as int;
    let c = p.column_byte_index as int;
    assert(ls[l].subrange(0, c) + ls[l].subrange(c, ls[l].len() as int) =~= ls[l]);
    assert(deleted_lines(ls, p, p) =~= ls);
}

/// Inserting empty text leaves the lines as they are.
pub proof fn lemma_insert_empty(ls: Seq<Seq<u8>>, p: BufferPosition)
    requires
        valid_lines(ls),
        exists_in(ls, p),
    ensures
        inserted_lines(ls, p, Seq::empty()) == ls,
{
    let l = p.line_index as int;
    let c = p.column_byte_index as int;
    let e = Seq::<u8>::empty();
    assert(e.len() == 0);
    assert(split_lines(e) == seq![e]);
    assert(ls[l].subrange(0, c) + e + ls[l].subrange(c, ls[l].len() as int) =~= ls[l]);
    assert(inserted_lines(ls, p, e) =~= ls);
}

/// Whether `b` is an ASCII uppercase letter.
pub open spec fn is_upper(b: u8) -> bool {
    0x41 <= b <= 0x5a
}

/// `b` with an ASCII uppercase letter made lowercase.
pub open spec fn ascii_lower(b: u8) -> u8 {
    if is_upper(b) {
        (b + 0x20) as u8
    } else {
        b
    }
}

/// Whether a search for `t` ignores ASCII case: it does unless `t` holds an uppercase letter.
pub open spec fn ignores_case(t: Seq<u8>) -> bool {
    forall|i: int| 0 <= i < t.len() ==> !is_upper(#[trigger] t[i])
}

/// Whether `t` occurs in `s` at index `i`, ignoring ASCII case where `ci`.
pub open spec fn occurs_at(s: Seq<u8>, i: int, t: Seq<u8>, ci: bool) -> bool {
    &&& 0 <= i && i + t.len() <= s.len()
    &&& forall|k: int|
        0 <= k < t.len() ==> if ci {
            ascii_lower(#[trigger] s[i + k]) == ascii_lower(t[k])
        } else {
            s[i + k] == t[k]
        }
}

/// The indices where `t` occurs in `s` from index `i` on, leftmost first
/// and without overlap.
pub open spec fn occurrences(s: Seq<u8>, t: Seq<u8>, ci: bool, i: int) -> Seq<int>
    decreases s.len() - i,
{
    if t.len() == 0 || i < 0 || i + t.len() > s.len() {
        Seq::empty()
    } else if occurs_at(s, i, t, ci) {
        seq![i] + occurrences(s, t, ci, i + t.len())
    } else {
        occurrences(s, t, ci, i + 1)
    }
}

/// The ranges of the occurrences of `t` in line `l` of text `s`.
pub open spec fn line_search_ranges(l: int, s: Seq<u8>, t: Seq<u8>) -> Seq<BufferRange> {
    occurrences(s, t, ignores_case(t), 0).map_values(
        |j: int| BufferRange {
            from: BufferPosition { line_index: l as usize, column_byte_index: j as usize },
            to: BufferPosition { line_index: l as usize, column_byte_index: (j + t.len()) as usize },
        },
    )
}

/// The ranges of the occurrences of `t` in the first `n` lines of `ls`, in buffer order.
pub open spec fn search_ranges(ls: Seq<Seq<u8>>, t: Seq<u8>, n: int) -> Seq<BufferRange>
    decreases n,
{
    if n <= 0 {
        Seq::empty()
    } else {
        search_ranges(ls, t, n - 1) + line_search_ranges(n - 1, ls[n - 1], t)
    }
}

fn lower(b: u8) -> (r: u8)
    ensures
        r == ascii_lower(b),
{
    if 0x41 <= b && b <= 0x5a {
        b + 0x20
    } else {
        b
    }
}

/// Whether `t` occurs in `s` at index `i`.
fn matches_at(s: &[u8], i: usize, t: &[u8], ci: bool) -> (r: bool)
    requires
        i + t@.len() <= s@.len(),
    ensures
        r == occurs_at(s@, i as int, t@, ci),
{
    let _ = s.len();
    let mut k: usize = 0;
    while k < t.len()
        invariant
            i + t@.len() <= s@.len() <= usize::MAX,
            k <= t@.len(),
            forall|j: int| 0 <= j < k ==> if ci {
                ascii_lower(#[trigger] s@[i + j]) == ascii_lower(t@[j])
            } else {
                s@[i + j] == t@[j]
            },
        decreases t@.len() - k,
    {
        let equal = if ci { lower(s[i + k]) == lower(t[k]) } else { s[i + k] == t[k] };
        if !equal {
            return false;
        }
        k = k + 1;
    }
    true
}

impl BufferContent {
    /// Appends to `ranges` the ranges where `text` occurs in the buffer, in
    /// buffer order; the search ignores ASCII case unless `text` holds an
    /// uppercase letter. Empty text occurs nowhere.
    pub fn find_search_ranges(&self, text: &str, ranges: &mut Vec<BufferRange>)
        requires
            self.wf(),
        ensures
            final(ranges)@ == old(ranges)@ + search_ranges(self@, text.spec_bytes(), self@.len() as int),
    {
        let t = text.as_bytes();
        let mut ci = true;
        let mut k: usize = 0;
        while k < t.len()
            invariant
                k <= t@.len(),
                ci == forall|j: int| 0 <= j < k ==> !is_upper(#[trigger] t@[j]),
            decreases t@.len() - k,
        {
            if 0x41 <= t[k] && t[k] <= 0x5a {
                ci = false;
            }
            k = k + 1;
        }
        assert(ci == ignores_case(t@));
        let ghost start = ranges@;
        let mut l: usize = 0;
        assert(search_ranges(self@, t@, 0) =~= Seq::<BufferRange>::empty());
        while l < self.lines.len()
            invariant
                self.wf(),
                l <= self@.len(),
                ci == ignores_case(t@),
                t@ == text.spec_bytes(),
                ranges@ == start + search_ranges(self@, t@, l as int),
            decreases self@.len() - l,
        {
            let line = self.lines[l].as_bytes();
            let ghost found_start = ranges@;
            let mut i: usize = 0;
            let ghost occ = occurrences(line@, t@, ci, 0);
            assert(occ == Seq::<int>::empty() + occurrences(line@, t@, ci, 0));
            let ghost mut found: Seq<int> = Seq::empty();
            if t.len() > 0 {
                while t.len() <= line.len() - i
                    invariant
                        t@.len() > 0,
                        i <= line@.len(),
                        occ == found + occurrences(line@, t@, ci, i as int),
                        ranges@ == found_start + found.map_values(
                            |j: int| BufferRange {
                                from: BufferPosition { line_index: l, column_byte_index: j as usize },
                                to: BufferPosition { line_index: l, column_byte_index: (j + t@.len()) as usize },
                            },
                        ),
                        forall|k: int| 0 <= k < found.len() ==> 0 <= #[trigger] found[k] && found[k] + t@.len() <= line@.len(),
                    decreases line@.len() - i,
                {
                    if matches_at(line, i, t, ci) {
                        let ghost prev = ranges@;
                        ranges.push(BufferRange {
                            from: BufferPosition { line_index: l, column_byte_index: i },
                            to: BufferPosition { line_index: l, column_byte_index: i + t.len() },
                        });
                        proof {
                            let f2 = found.push(i as int);
                            assert(seq![i as int] + occurrences(line@, t@, ci, i + t@.len()) == occurrences(line@, t@, ci, i as int));
                            assert(found + occurrences(line@, t@, ci, i as int) =~= f2 + occurrences(line@, t@, ci, i + t@.len()));
                            found = f2;
                        }
                        i = i + t.len();
                    } else {
                        i = i + 1;
                    }
                }
            }
            assert(occurrences(line@, t@, ci, i as int) =~= Seq::<int>::empty());
            assert(found =~= occ);
            assert(line_search_ranges(l as int, self@[l as int], t@) =~= found.map_values(
                |j: int| BufferRange {
                    from: BufferPosition { line_index: l, column_byte_index: j as usize },
                    to: BufferPosition { line_index: l, column_byte_index: (j + t@.len()) as usize },
                },
            ));
            assert(ranges@ =~= start + search_ranges(self@, t@, l + 1));
            l = l + 1;
        }
    }
}

impl Buffer {
    /// Searches the buffer for `text` and keeps the ranges found.
    pub fn set_search(&mut self, text: &str)
        requires
            old(self).wf(),
        ensures
            final(self).wf(),
            final(self)@ == old(self)@,
            final(self).open_edits() == old(self).open_edits(),
            final(self).modified() == old(self).modified(),
            final(self).searches() == search_ranges(old(self)@, text.spec_bytes(), old(self)@.len() as int),
    {
        self.search_ranges.clear();
        self.content.find_search_ranges(text, &mut self.search_ranges);
        assert(self.search_ranges@ =~= search_ranges(self.content@, text.spec_bytes(), self.content@.len() as int));
    }

    /// The ranges that matched the last search.
    pub fn search_ranges(&self) -> (r: &[BufferRange])
        ensures
            r@ == self.searches(),
    {
        self.search_ranges.as_slice()
    }
}

/// The open buffers, each in the slot its handle names; closed buffers leave a free slot.
pub struct BufferCollection {
    buffers: Vec<Option<Buffer>>,
}

impl BufferCollection {
    /// Every open buffer is well formed.
    pub closed spec fn wf(&self) -> bool {
        forall|i: int| 0 <= i < self.buffers@.len() ==> ((#[trigger] self.buffers@[i]) matches Some(b) ==> b.wf())
    }

    /// Whether slot `i` holds a buffer.
    pub closed spec fn is_open(&self, i: int) -> bool {
        0 <= i < self.buffers@.len() && self.buffers@[i].is_some()
    }

    /// The number of slots, free or not.
    pub closed spec fn slots(&self) -> nat {
        self.buffers@.len()
    }

    /// The buffer in slot `i`, if any.
    pub closed spec fn slot(&self, i: int) -> Option<Buffer> {
        if 0 <= i < self.buffers@.len() {
            self.buffers@[i]
        } else {
            None
        }
    }

    /// The lines of the buffer in slot `i`.
    pub closed spec fn buffer_lines(&self, i: int) -> Seq<Seq<u8>> {
        self.buffers@[i].unwrap()@
    }

    /// The path of the buffer in slot `i`.
    pub closed spec fn buffer_path(&self, i: int) -> Seq<char> {
        self.buffers@[i].unwrap().path_view()
    }

    pub fn new() -> (r: BufferCollection)
        ensures
            r.wf(),
            r.slots() == 0,
    {
        BufferCollection { buffers: Vec::new() }
    }

    /// Adds `buffer` in the first free slot, or a new one, and returns its handle.
    pub fn add(&mut self, buffer: Buffer) -> (r: BufferHandle)
        requires
            old(self).wf(),
            buffer.wf(),
        ensures
            final(self).wf(),
            final(self).is_open(r.0 as int),
            final(self).buffer_lines(r.0 as int) == buffer@,
            !old(self).is_open(r.0 as int),
            forall|j: int| 0 <= j < r.0 ==> old(self).is_open(j),
            forall|j: int| j != r.0 ==> final(self).is_open(j) == old(self).is_open(j),
            forall|j: int| j != r.0 ==> #[trigger] final(self).slot(j) == old(self).slot(j),
            final(self).slot(r.0 as int) == Some(buffer),
            r.0 <= old(self).slots(),
    {
        let mut i: usize = 0;
        while i < self.buffers.len()
            invariant
                i <= self.buffers@.len(),
                self.buffers@ == old(self).buffers@,
                forall|j: int| 0 <= j < i ==> old(self).is_open(j),
                buffer.wf(),
                old(self).wf(),
            decreases self.buffers@.len() - i,
        {
            if self.buffers[i].is_none() {
                let ghost view = buffer@;
                self.buffers.set(i, Some(buffer));
                assert forall|j: int| 0 <= j < self.buffers@.len() implies ((#[trigger] self.buffers@[j]) matches Some(b) ==> b.wf()) by {
                    if j != i {
                        assert(self.buffers@[j] == old(self).buffers@[j]);
                    }
                }
                return BufferHandle(i);
            }
            i = i + 1;
        }
        let handle = BufferHandle(self.buffers.len());
        self.buffers.push(Some(buffer));
        assert forall|j: int| 0 <= j < self.buffers@.len() implies ((#[trigger] self.buffers@[j]) matches Some(b) ==> b.wf()) by {
            if j < old(self).buffers@.len() {
                assert(self.buffers@[j] == old(self).buffers@[j]);
            }
        }
        handle
    }

    /// The buffer of `handle`, if it is open.
    pub fn get(&self, handle: BufferHandle) -> (r: Option<&Buffer>)
        requires
            self.wf(),
        ensures
            r.is_some() == self.is_open(handle.0 as int),
            r matches Some(b) ==> b.wf() && b@ == self.buffer_lines(handle.0 as int) && b.path_view() == self.buffer_path(handle.0 as int)
                && self.slot(handle.0 as int) == Some(*b),
            r.is_none() ==> self.slot(handle.0 as int).is_none(),
    {
        if handle.0 < self.buffers.len() {
            match &self.buffers[handle.0] {
                Some(b) => Some(b),
                None => None,
            }
        } else {
            None
        }
    }

    /// Closes the buffer of `handle`, freeing its slot.
    pub fn remove(&mut self, handle: BufferHandle)
        requires
            old(self).wf(),
        ensures
            final(self).wf(),
            !final(self).is_open(handle.0 as int),
            forall|j: int| j != handle.0 ==> final(self).is_open(j) == old(self).is_open(j),
            forall|j: int| j != handle.0 ==> #[trigger] final(self).slot(j) == old(self).slot(j),
    {
        if handle.0 < self.buffers.len() {
            self.buffers.set(handle.0, None);
            assert forall|j: int| 0 <= j < self.buffers@.len() implies ((#[trigger] self.buffers@[j]) matches Some(b) ==> b.wf()) by {
                if j != handle.0 {
                    assert(self.buffers@[j] == old(self).buffers@[j]);
                }
            }
        }
    }

    /// The handle of the first open buffer whose path is `path`; none for an empty path.
    pub fn find_with_path(&self, path: &str) -> (r: Option<BufferHandle>)
        ensures
            path@.len() == 0 ==> r.is_none(),
            r matches Some(h) ==> self.is_open(h.0 as int) && self.buffer_path(h.0 as int) == path@,
            r.is_none() && path@.len() > 0 ==> forall|j: int| #[trigger] self.is_open(j) ==> self.buffer_path(j) != path@,
    {
        if path.is_empty() {
            return None;
        }
        let mut i: usize = 0;
        while i < self.buffers.len()
            invariant
                i <= self.buffers@.len(),
                path@.len() > 0,
                forall|j: int| 0 <= j < i && #[trigger] self.is_open(j) ==> self.buffer_path(j) != path@,
            decreases self.buffers@.len() - i,
        {
            if let Some(b) = &self.buffers[i] {
                if string_eq(&b.path, path) {
                    return Some(BufferHandle(i));
                }
            }
            i = i + 1;
        }
        None
    }
}

/// Whether `a` and `b` hold the same characters.
fn string_eq(a: &String, b: &str) -> (r: bool)
    ensures
        r == (a@ == b@),
{
    let owned = b.to_owned();
    *a == owned
}

#[derive(Clone, Copy, Debug, PartialEq, Eq, Structural)]
pub enum WordKind {
    Identifier,
    Symbol,
    Whitespace,
}

/// The kind of word byte `b` belongs to: ASCII whitespace; ASCII letters,
/// digits, `_` and bytes beyond ASCII form identifiers; the rest symbols.
pub open spec fn word_kind(b: u8) -> WordKind {
    if b == 0x20 || b == 0x09 || b == 0x0a || b == 0x0c || b == 0x0d {
        WordKind::Whitespace
    } else if (0x30 <= b <= 0x39) || (0x41 <= b <= 0x5a) || (0x61 <= b <= 0x7a) || b == 0x5f || b >= 0x80 {
        WordKind::Identifier
    } else {
        WordKind::Symbol
    }
}

pub(crate) fn word_kind_of(b: u8) -> (r: WordKind)
    ensures
        r == word_kind(b),
{
    if b == 0x20 || b == 0x09 || b == 0x0a || b == 0x0c || b == 0x0d {
        WordKind::Whitespace
    } else if (0x30 <= b && b <= 0x39) || (0x41 <= b && b <= 0x5a) || (0x61 <= b && b <= 0x7a) || b == 0x5f || b >= 0x80 {
        WordKind::Identifier
    } else {
        WordKind::Symbol
    }
}

/// The end of the run of bytes of kind `k` that starts at `i`.
pub open spec fn run_end(s: Seq<u8>, i: int, k: WordKind) -> int
    decreases s.len() - i,
{
    if i < 0 || i >= s.len() || word_kind(s[i]) != k {
        i
    } else {
        run_end(s, i + 1, k)
    }
}

/// The start of the run of bytes of kind `k` that ends at `i`.
pub open spec fn run_start(s: Seq<u8>, i: int, k: WordKind) -> int
    decreases i,
{
    if i <= 0 || i > s.len() || word_kind(s[i - 1]) != k {
        i
    } else {
        run_start(s, i - 1, k)
    }
}

/// The word of line `s` at column `c`: its kind and bounds; at the end of
/// the line, an empty whitespace word.
pub open spec fn word_at_spec(s: Seq<u8>, c: int) -> (WordKind, int, int) {
    if c >= s.len() {
        (WordKind::Whitespace, c, c)
    } else {
        let k = word_kind(s[c]);
        (k, run_start(s, c, k), run_end(s, c, k))
    }
}

/// The words of `s` that end at or before `e`, nearest first.
pub open spec fn words_left(s: Seq<u8>, e: int) -> Seq<(WordKind, int, int)>
    decreases e,
{
    if e <= 0 || e > s.len() {
        Seq::empty()
    } else {
        let k = word_kind(s[e - 1]);
        let start = run_start(s, e, k);
        if 0 <= start < e {
            seq![(k, start, e)] + words_left(s, start)
        } else {
            Seq::empty()
        }
    }
}

/// The words of `s` that start at or after `b`, nearest first.
pub open spec fn words_right(s: Seq<u8>, b: int) -> Seq<(WordKind, int, int)>
    decreases s.len() - b,
{
    if b < 0 || b >= s.len() {
        Seq::empty()
    } else {
        let k = word_kind(s[b]);
        let end = run_end(s, b, k);
        if b < end <= s.len() {
            seq![(k, b, end)] + words_right(s, end)
        } else {
            Seq::empty()
        }
    }
}

pub proof fn lemma_run_end(s: Seq<u8>, i: int, k: WordKind)
    requires
        0 <= i <= s.len(),
    ensures
        i <= run_end(s, i, k) <= s.len(),
        i < s.len() && word_kind(s[i]) == k ==> run_end(s, i, k) > i,
    decreases s.len() - i,
{
    if i < s.len() && word_kind(s[i]) == k {
        lemma_run_end(s, i + 1, k);
    }
}

proof fn lemma_run_start(s: Seq<u8>, i: int, k: WordKind)
    requires
        0 <= i <= s.len(),
    ensures
        0 <= run_start(s, i, k) <= i,
        i > 0 && word_kind(s[i - 1]) == k ==> run_start(s, i, k) < i,
    decreases i,
{
    if i > 0 && word_kind(s[i - 1]) == k {
        lemma_run_start(s, i - 1, k);
    }
}

pub(crate) fn find_run_end(s: &[u8], i: usize, k: WordKind) -> (r: usize)
    requires
        i <= s@.len(),
    ensures
        r == run_end(s@, i as int, k),
{
    let mut j = i;
    while j < s.len() && word_kind_of(s[j]) == k
        invariant
            i <= j <= s@.len(),
            run_end(s@, i as int, k) == run_end(s@, j as int, k),
        decreases s@.len() - j,
    {
        j = j + 1;
    }
    j
}

fn find_run_start(s: &[u8], i: usize, k: WordKind) -> (r: usize)
    requires
        i <= s@.len(),
    ensures
        r == run_start(s@, i as int, k),
{
    let mut j = i;
    while j > 0 && word_kind_of(s[j - 1]) == k
        invariant
            j <= i <= s@.len(),
            run_start(s@, i as int, k) == run_start(s@, j as int, k),
        decreases j,
    {
        j = j - 1;
    }
    j
}

/// A word of a line: its kind, its bytes and the column where it starts.
#[derive(Clone, Copy, Debug)]
pub struct WordRefWithIndex<'a> {
    pub kind: WordKind,
    pub text: &'a [u8],
    pub index: usize,
}

/// A word of a buffer: its kind, its bytes and the position where it starts.
#[derive(Clone, Copy, Debug)]
pub struct WordRefWithPosition<'a> {
    pub kind: WordKind,
    pub text: &'a [u8],
    pub position: BufferPosition,
}

impl<'a> WordRefWithIndex<'a> {
    /// This word placed on line `line_index`.
    pub fn to_word_ref_with_position(self, line_index: usize) -> (r: WordRefWithPosition<'a>)
        ensures
            r.kind == self.kind,
            r.text@ == self.text@,
            r.position == (BufferPosition { line_index, column_byte_index: self.index }),
    {
        WordRefWithPosition {
            kind: self.kind,
            text: self.text,
            position: BufferPosition { line_index, column_byte_index: self.index },
        }
    }
}

impl<'a> WordRefWithPosition<'a> {
    /// The position just past the end of this word.
    pub fn end_position(&self) -> (r: BufferPosition)
        requires
            self.position.column_byte_index + self.text@.len() <= usize::MAX,
        ensures
            r == (BufferPosition {
                line_index: self.position.line_index,
                column_byte_index: (self.position.column_byte_index + self.text@.len()) as usize,
            }),
    {
        BufferPosition {
            line_index: self.position.line_index,
            column_byte_index: self.position.column_byte_index + self.text.len(),
        }
    }
}

/// `w` is the word `(kind, start, end)` of line `s`.
pub open spec fn is_word<'a>(w: WordRefWithIndex<'a>, s: Seq<u8>, word: (WordKind, int, int)) -> bool {
    w.kind == word.0 && w.index == word.1 && w.text@ == s.subrange(word.1, word.2)
}

/// The word `(kind, start, end)` of line `s` at column `c`, as a reference.
fn word_ref<'a>(s: &'a [u8], kind: WordKind, start: usize, end: usize) -> (r: WordRefWithIndex<'a>)
    requires
        start <= end <= s@.len(),
    ensures
        is_word(r, s@, (kind, start as int, end as int)),
{
    let (head, _) = s.split_at(end);
    let (_, text) = head.split_at(start);
    assert(text@ =~= s@.subrange(start as int, end as int));
    WordRefWithIndex { kind, text, index: start }
}

impl BufferLine {
    /// The word at column `index`.
    pub fn word_at(&self, index: usize) -> (r: WordRefWithIndex<'_>)
        requires
            index <= self@.len(),
        ensures
            is_word(r, self@, word_at_spec(self@, index as int)),
    {
        let s = self.as_bytes();
        if index >= s.len() {
            return word_ref(s, WordKind::Whitespace, index, index);
        }
        let k = word_kind_of(s[index]);
        let start = find_run_start(s, index, k);
        let end = find_run_end(s, index, k);
        proof {
            lemma_run_start(s@, index as int, k);
            lemma_run_end(s@, index as int, k);
        }
        word_ref(s, k, start, end)
    }

    /// The word at column `index`, the words before it, nearest first, and the words after it.
    pub fn words_from(&self, index: usize) -> (r: (WordRefWithIndex<'_>, Vec<WordRefWithIndex<'_>>, Vec<WordRefWithIndex<'_>>))
        requires
            index <= self@.len(),
        ensures
            is_word(r.0, self@, word_at_spec(self@, index as int)),
            r.1@.len() == words_left(self@, word_at_spec(self@, index as int).1).len(),
            forall|i: int| 0 <= i < r.1@.len() ==> is_word(#[trigger] r.1@[i], self@, words_left(self@, word_at_spec(self@, index as int).1)[i]),
            r.2@.len() == words_right(self@, word_at_spec(self@, index as int).2).len(),
            forall|i: int| 0 <= i < r.2@.len() ==> is_word(#[trigger] r.2@[i], self@, words_right(self@, word_at_spec(self@, index as int).2)[i]),
    {
        let s = self.as_bytes();
        let mid = self.word_at(index);
        let ghost w = word_at_spec(s@, index as int);
        proof {
            if index < s@.len() {
                lemma_run_start(s@, index as int, word_kind(s@[index as int]));
                lemma_run_end(s@, index as int, word_kind(s@[index as int]));
            }
        }
        let _ = s.len();
        assert(mid.text@.len() == w.2 - w.1);
        let mid_start = mid.index;
        let mid_end = mid.index + mid.text.len();
        let mut left: Vec<WordRefWithIndex<'_>> = Vec::new();
        let mut e = mid_start;
        let ghost goal_left = words_left(s@, mid_start as int);
        assert(goal_left == Seq::<(WordKind, int, int)>::empty() + words_left(s@, e as int));
        while e > 0
            invariant
                e <= mid_start <= s@.len(),
                s@ == self@,
                goal_left == words_left(s@, mid_start as int),
                left@.len() + words_left(s@, e as int).len() == goal_left.len(),
                forall|i: int| 0 <= i < left@.len() ==> is_word(#[trigger] left@[i], s@, goal_left[i]),
                forall|i: int| 0 <= i < words_left(s@, e as int).len() ==> goal_left[left@.len() + i] == #[trigger] words_left(s@, e as int)[i],
            decreases e,
        {
            let k = word_kind_of(s[e - 1]);
            let start = find_run_start(s, e, k);
            proof {
                lemma_run_start(s@, e as int, k);
            }
            let word = word_ref(s, k, start, e);
            let ghost rest = words_left(s@, start as int);
            assert(words_left(s@, e as int) == seq![(k, start as int, e as int)] + rest);
            assert(words_left(s@, e as int)[0] == (k, start as int, e as int));
            assert(goal_left[left@.len() + 0int] == words_left(s@, e as int)[0]);
            left.push(word);
            assert forall|i: int| 0 <= i < rest.len() implies goal_left[left@.len() + i] == #[trigger] rest[i] by {
                assert(words_left(s@, e as int)[i + 1] == rest[i]);
            }
            e = start;
        }
        let mut right: Vec<WordRefWithIndex<'_>> = Vec::new();
        let mut b = mid_end;
        let ghost goal_right = words_right(s@, mid_end as int);
        while b < s.len()
            invariant
                mid_end <= b <= s@.len(),
                s@ == self@,
                goal_right == words_right(s@, mid_end as int),
                right@.len() + words_right(s@, b as int).len() == goal_right.len(),
                forall|i: int| 0 <= i < right@.len() ==> is_word(#[trigger] right@[i], s@, goal_right[i]),
                forall|i: int| 0 <= i < words_right(s@, b as int).len() ==> goal_right[right@.len() + i] == #[trigger] words_right(s@, b as int)[i],
            decreases s@.len() - b,
        {
            let k = word_kind_of(s[b]);
            let end = find_run_end(s, b, k);
            proof {
                lemma_run_end(s@, b as int, k);
            }
            let word = word_ref(s, k, b, end);
            let ghost rest = words_right(s@, end as int);
            assert(words_right(s@, b as int) == seq![(k, b as int, end as int)] + rest);
            assert(words_right(s@, b as int)[0] == (k, b as int, end as int));
            assert(goal_right[right@.len() + 0int] == words_right(s@, b as int)[0]);
            right.push(word);
            assert forall|i: int| 0 <= i < rest.len() implies goal_right[right@.len() + i] == #[trigger] rest[i] by {
                assert(words_right(s@, b as int)[i + 1] == rest[i]);
            }
            b = end;
        }
        (mid, left, right)
    }
}

impl BufferContent {
    /// The word at `position`, clamped.
    pub fn word_at(&self, position: BufferPosition) -> (r: WordRefWithPosition<'_>)
        requires
            self.wf(),
        ensures
            ({
                let p = clamp(self@, position);
                let w = word_at_spec(self@[p.line_index as int], p.column_byte_index as int);
                &&& r.kind == w.0
                &&& r.position == (BufferPosition { line_index: p.line_index, column_byte_index: w.1 as usize })
                &&& r.text@ == self@[p.line_index as int].subrange(w.1, w.2)
            }),
    {
        let p = self.saturate_position(position);
        self.lines[p.line_index].word_at(p.column_byte_index).to_word_ref_with_position(p.line_index)
    }

    /// The word at `position`, clamped, the words before it on its line,
    /// nearest first, and the words after it.
    pub fn words_from(&self, position: BufferPosition) -> (r: (WordRefWithPosition<'_>, Vec<WordRefWithPosition<'_>>, Vec<WordRefWithPosition<'_>>))
        requires
            self.wf(),
        ensures
            ({
                let p = clamp(self@, position);
                let s = self@[p.line_index as int];
                let w = word_at_spec(s, p.column_byte_index as int);
                &&& r.0.kind == w.0
                &&& r.0.position == (BufferPosition { line_index: p.line_index, column_byte_index: w.1 as usize })
                &&& r.0.text@ == s.subrange(w.1, w.2)
                &&& r.1@.len() == words_left(s, w.1).len()
                &&& r.2@.len() == words_right(s, w.2).len()
                &&& forall|i: int| 0 <= i < r.1@.len() ==> {
                    let x = words_left(s, w.1)[i];
                    &&& (#[trigger] r.1@[i]).kind == x.0
                    &&& r.1@[i].position == (BufferPosition { line_index: p.line_index, column_byte_index: x.1 as usize })
                    &&& r.1@[i].text@ == s.subrange(x.1, x.2)
                }
                &&& forall|i: int| 0 <= i < r.2@.len() ==> {
                    let x = words_right(s, w.2)[i];
                    &&& (#[trigger] r.2@[i]).kind == x.0
                    &&& r.2@[i].position == (BufferPosition { line_index: p.line_index, column_byte_index: x.1 as usize })
                    &&& r.2@[i].text@ == s.subrange(x.1, x.2)
                }
            }),
    {
        let p = self.saturate_position(position);
        let l = p.line_index;
        let (mid, left, right) = self.lines[l].words_from(p.column_byte_index);
        let mut left_words: Vec<WordRefWithPosition<'_>> = Vec::new();
        let mut i: usize = 0;
        while i < left.len()
            invariant
                i <= left@.len(),
                left_words@.len() == i,
                forall|j: int| 0 <= j < i ==> {
                    &&& (#[trigger] left_words@[j]).kind == left@[j].kind
                    &&& left_words@[j].position == (BufferPosition { line_index: l, column_byte_index: left@[j].index })
                    &&& left_words@[j].text@ == left@[j].text@
                },
            decreases left@.len() - i,
        {
            left_words.push(left[i].to_word_ref_with_position(l));
            i = i + 1;
        }
        let mut right_words: Vec<WordRefWithPosition<'_>> = Vec::new();
        let mut i: usize = 0;
        while i < right.len()
            invariant
                i <= right@.len(),
                right_words@.len() == i,
                forall|j: int| 0 <= j < i ==> {
                    &&& (#[trigger] right_words@[j]).kind == right@[j].kind
                    &&& right_words@[j].position == (BufferPosition { line_index: l, column_byte_index: right@[j].index })
                    &&& right_words@[j].text@ == right@[j].text@
                },
            decreases right@.len() - i,
        {
            right_words.push(right[i].to_word_ref_with_position(l));
            i = i + 1;
        }
        (mid.to_word_ref_with_position(l), left_words, right_words)
    }
}

/// Whether the buffer in slot `i` has unsaved changes.
pub open spec fn slot_modified(c: &BufferCollection, i: int) -> bool {
    c.slot(i) matches Some(b) && b.modified()
}

impl BufferCollection {
    /// Whether the buffer of `handle` has unsaved changes; none where it is not open.
    pub fn needs_save(&self, handle: BufferHandle) -> (r: Option<bool>)
        ensures
            r.is_some() == self.is_open(handle.0 as int),
            r matches Some(m) ==> m == slot_modified(self, handle.0 as int),
    {
        if handle.0 < self.buffers.len() {
            match &self.buffers[handle.0] {
                Some(b) => Some(b.needs_save()),
                None => None,
            }
        } else {
            None
        }
    }

    /// Whether any open buffer has unsaved changes.
    pub fn any_needs_save(&self) -> (r: bool)
        ensures
            r == exists|i: int| 0 <= i < self.slots() && slot_modified(self, i),
    {
        let mut i: usize = 0;
        while i < self.buffers.len()
            invariant
                i <= self.buffers@.len(),
                forall|j: int| 0 <= j < i ==> !slot_modified(self, j),
            decreases self.buffers@.len() - i,
        {
            if let Some(b) = &self.buffers[i] {
                if b.needs_save() {
                    assert(slot_modified(self, i as int));
                    return true;
                }
            }
            i = i + 1;
        }
        false
    }
}

impl BufferCollection {
    /// The handle of the first open buffer whose path, relative to `root`
    /// unless it starts with `/`, is `path`.
    pub fn find_with_root_path(&self, root: &str, path: &str) -> (r: Option<BufferHandle>)
        ensures
            r matches Some(h) ==> self.is_open(h.0 as int) && crate::lsp::same_path_with_root(
                root.spec_bytes(),
                vstd::utf8::encode_utf8(self.buffer_path(h.0 as int)),
                path.spec_bytes(),
            ),
            r.is_none() ==> forall|j: int| #[trigger] self.is_open(j) ==> !crate::lsp::same_path_with_root(
                root.spec_bytes(),
                vstd::utf8::encode_utf8(self.buffer_path(j)),
                path.spec_bytes(),
            ),
    {
        let mut i: usize = 0;
        while i < self.buffers.len()
            invariant
                i <= self.buffers@.len(),
                forall|j: int| 0 <= j < i && #[trigger] self.is_open(j) ==> !crate::lsp::same_path_with_root(
                    root.spec_bytes(),
                    vstd::utf8::encode_utf8(self.buffer_path(j)),
                    path.spec_bytes(),
                ),
            decreases self.buffers@.len() - i,
        {
            if let Some(b) = &self.buffers[i] {
                let p = b.path.as_str().as_bytes();
                if crate::lsp::are_same_path_with_root(root.as_bytes(), p, path.as_bytes()) {
                    return Some(BufferHandle(i));
                }
            }
            i = i + 1;
        }
        None
    }
}

/// The handles of the open buffers among the first `n` slots that may be
/// saved, in handle order.
pub open spec fn savable_handles(c: &BufferCollection, n: int) -> Seq<BufferHandle>
    decreases n,
{
    if n <= 0 {
        Seq::empty()
    } else {
        savable_handles(c, n - 1) + if (c.slot(n - 1) matches Some(b) && b.properties().saving_enabled) {
            seq![BufferHandle((n - 1) as usize)]
        } else {
            Seq::empty()
        }
    }
}

/// The listing of the open buffers among the first `n` slots: each path
/// followed by a newline.
pub open spec fn buffer_listing(c: &BufferCollection, n: int) -> Seq<u8>
    decreases n,
{
    if n <= 0 {
        Seq::empty()
    } else {
        buffer_listing(c, n - 1) + match c.slot(n - 1) {
            Some(b) => vstd::utf8::encode_utf8(b.path_view()).push(NEWLINE),
            None => Seq::empty(),
        }
    }
}

impl BufferCollection {
    /// The buffers that `save-all` writes: the open ones that may be saved.
    pub fn savable(&self) -> (r: Vec<BufferHandle>)
        ensures
            r@ == savable_handles(self, self.slots() as int),
    {
        let mut out: Vec<BufferHandle> = Vec::new();
        let mut i: usize = 0;
        while i < self.buffers.len()
            invariant
                i <= self.buffers@.len(),
                out@ == savable_handles(self, i as int),
            decreases self.buffers@.len() - i,
        {
            if let Some(b) = &self.buffers[i] {
                if b.get_properties().saving_enabled {
                    out.push(BufferHandle(i));
                }
            }
            assert(out@ =~= savable_handles(self, i + 1));
            i = i + 1;
        }
        out
    }

    /// The text of `list-buffer`: the path of each open buffer on its own line.
    pub fn listing(&self) -> (r: Vec<u8>)
        ensures
            r@ == buffer_listing(self, self.slots() as int),
    {
        let mut out: Vec<u8> = Vec::new();
        let mut i: usize = 0;
        while i < self.buffers.len()
            invariant
                i <= self.buffers@.len(),
                out@ == buffer_listing(self, i as int),
            decreases self.buffers@.len() - i,
        {
            if let Some(b) = &self.buffers[i] {
                push_bytes(&mut out, b.path.as_str().as_bytes());
                out.push(NEWLINE);
            }
            assert(out@ =~= buffer_listing(self, i + 1));
            i = i + 1;
        }
        out
    }

    /// Closes the buffer of `handle` and stops counting the identifiers of its lines.
    pub fn remove_with_words(&mut self, handle: BufferHandle, word_database: &mut WordDatabase)
        requires
            old(self).wf(),
            old(word_database).wf(),
        ensures
            final(self).wf(),
            final(word_database).wf(),
            !final(self).is_open(handle.0 as int),
            forall|j: int| j != handle.0 ==> #[trigger] final(self).slot(j) == old(self).slot(j),
            !old(self).is_open(handle.0 as int) ==> *final(word_database) == *old(word_database),
            old(self).is_open(handle.0 as int) ==> forall|w: Seq<u8>| #[trigger] final(word_database).count(w) == less(
                old(word_database).count(w),
                lines_words(old(self).buffer_lines(handle.0 as int), 0, old(self).buffer_lines(handle.0 as int).len() as int, w),
            ),
    {
        if handle.0 < self.buffers.len() {
            if let Some(b) = &self.buffers[handle.0] {
                let content = b.content();
                word_database.remove_lines(content, 0, content.line_count());
            }
        }
        self.remove(handle);
    }
}

/// The handles of the open buffers among the first `n` slots, in order.
pub open spec fn open_handles(c: &BufferCollection, n: int) -> Seq<BufferHandle>
    decreases n,
{
    if n <= 0 {
        Seq::empty()
    } else {
        open_handles(c, n - 1) + if c.is_open(n - 1) {
            seq![BufferHandle((n - 1) as usize)]
        } else {
            Seq::empty()
        }
    }
}

impl BufferCollection {
    /// The handles of the open buffers, in handle order.
    pub fn iter_with_handles(&self) -> (r: Vec<BufferHandle>)
        ensures
            r@ == open_handles(self, self.slots() as int),
    {
        let mut out: Vec<BufferHandle> = Vec::new();
        let mut i: usize = 0;
        while i < self.buffers.len()
            invariant
                i <= self.buffers@.len(),
                out@ == open_handles(self, i as int),
            decreases self.buffers@.len() - i,
        {
            if self.buffers[i].is_some() {
                out.push(BufferHandle(i));
            }
            assert(out@ =~= open_handles(self, i + 1));
            i = i + 1;
        }
        out
    }
}

} // verus!
