use vstd::prelude::*;

verus! {

/// The newline byte that separates buffer lines.
pub const NEWLINE: u8 = 10;

/// Whether byte `b` starts a UTF-8 encoded character (it is no continuation byte).
pub open spec fn starts_char(b: u8) -> bool {
    !(0x80 <= b && b < 0xc0)
}

/// Whether `b` can start a character: bytes `0x80..0xc0` only continue one.
pub fn is_char_boundary(b: u8) -> (r: bool)
    ensures
        r == starts_char(b),
{
    !(0x80 <= b && b < 0xc0)
}

/// The number of characters in UTF-8 bytes `s`: the bytes that start one.
pub open spec fn char_count_of(s: Seq<u8>) -> nat
    decreases s.len(),
{
    if s.len() == 0 {
        0
    } else {
        char_count_of(s.drop_last()) + if starts_char(s.last()) {
            1nat
        } else {
            0nat
        }
    }
}

pub proof fn lemma_char_count_concat(a: Seq<u8>, b: Seq<u8>)
    ensures
        char_count_of(a + b) == char_count_of(a) + char_count_of(b),
    decreases b.len(),
{
    if b.len() == 0 {
        assert(a + b =~= a);
    } else {
        lemma_char_count_concat(a, b.drop_last());
        assert((a + b).drop_last() =~= a + b.drop_last());
    }
}

pub proof fn lemma_char_count_bound(s: Seq<u8>)
    ensures
        char_count_of(s) <= s.len(),
    decreases s.len(),
{
    if s.len() > 0 {
        lemma_char_count_bound(s.drop_last());
    }
}

/// `t` holds no newline byte.
pub open spec fn no_newline(t: Seq<u8>) -> bool {
    forall|i: int| 0 <= i < t.len() ==> t[i] != NEWLINE
}

/// Every line of `ls` is free of newlines.
pub open spec fn all_no_newline(ls: Seq<Seq<u8>>) -> bool {
    forall|i: int| 0 <= i < ls.len() ==> no_newline(#[trigger] ls[i])
}

/// The lines of `t`, split at each newline byte; there is always at least one.
pub open spec fn split_lines(t: Seq<u8>) -> Seq<Seq<u8>>
    decreases t.len(),
{
    if t.len() == 0 {
        seq![Seq::empty()]
    } else {
        let prev = split_lines(t.drop_last());
        if t.last() == NEWLINE {
            prev.push(Seq::empty())
        } else {
            prev.update(prev.len() - 1, prev.last().push(t.last()))
        }
    }
}

/// Lines `ls` joined with one newline between neighbours.
pub open spec fn join_lines(ls: Seq<Seq<u8>>) -> Seq<u8>
    decreases ls.len(),
{
    if ls.len() == 0 {
        Seq::empty()
    } else if ls.len() == 1 {
        ls[0]
    } else {
        join_lines(ls.drop_last()) + seq![NEWLINE] + ls.last()
    }
}

/// How the lines of a concatenation arise from the lines of its parts.
pub open spec fn merge_lines(x: Seq<Seq<u8>>, y: Seq<Seq<u8>>) -> Seq<Seq<u8>> {
    x.drop_last() + seq![x.last() + y[0]] + y.skip(1)
}

pub proof fn lemma_split_lines_len(t: Seq<u8>)
    ensures
        split_lines(t).len() >= 1,
    decreases t.len(),
{
    if t.len() > 0 {
        lemma_split_lines_len(t.drop_last());
    }
}

pub proof fn lemma_split_lines_no_newline(t: Seq<u8>)
    ensures
        all_no_newline(split_lines(t)),
    decreases t.len(),
{
    if t.len() > 0 {
        lemma_split_lines_no_newline(t.drop_last());
        lemma_split_lines_len(t.drop_last());
        let prev = split_lines(t.drop_last());
        if t.last() != NEWLINE {
            assert(no_newline(prev.last().push(t.last())));
        }
        let cur = split_lines(t);
        assert forall|i: int| 0 <= i < cur.len() implies no_newline(#[trigger] cur[i]) by {
            if i < prev.len() {
                assert(no_newline(prev[i]));
            }
        }
    }
}

pub proof fn lemma_split_lines_single(t: Seq<u8>)
    requires
        no_newline(t),
    ensures
        split_lines(t) == seq![t],
    decreases t.len(),
{
    if t.len() > 0 {
        lemma_split_lines_single(t.drop_last());
        assert(t.drop_last().push(t.last()) =~= t);
        assert(split_lines(t) =~= seq![t]);
    } else {
        assert(t =~= Seq::<u8>::empty());
    }
}

pub proof fn lemma_split_lines_concat(a: Seq<u8>, b: Seq<u8>)
    ensures
        split_lines(a + b) == merge_lines(split_lines(a), split_lines(b)),
    decreases b.len(),
{
    lemma_split_lines_len(a);
    let sa = split_lines(a);
    if b.len() == 0 {
        assert(a + b =~= a);
        assert(merge_lines(sa, split_lines(b)) =~= sa);
    } else {
        let b0 = b.drop_last();
        lemma_split_lines_concat(a, b0);
        lemma_split_lines_len(b0);
        assert((a + b).drop_last() =~= a + b0);
        let y = split_lines(b0);
        let m = merge_lines(sa, y);
        if b.last() == NEWLINE {
            assert(merge_lines(sa, y.push(Seq::empty())) =~= m.push(Seq::empty()));
        } else {
            let c = b.last();
            let y2 = y.update(y.len() - 1, y.last().push(c));
            if y.len() == 1 {
                assert(sa.last() + y[0].push(c) =~= (sa.last() + y[0]).push(c));
            }
            assert(merge_lines(sa, y2) =~= m.update(m.len() - 1, m.last().push(c)));
        }
    }
}

pub proof fn lemma_split_join(ls: Seq<Seq<u8>>)
    requires
        ls.len() >= 1,
        all_no_newline(ls),
    ensures
        split_lines(join_lines(ls)) == ls,
    decreases ls.len(),
{
    if ls.len() == 1 {
        assert(no_newline(ls[0]));
        lemma_split_lines_single(ls[0]);
        assert(seq![ls[0]] =~= ls);
    } else {
        let init = ls.drop_last();
        assert forall|i: int| 0 <= i < init.len() implies no_newline(#[trigger] init[i]) by {
            assert(no_newline(ls[i]));
        }
        lemma_split_join(init);
        let last = ls.last();
        assert(no_newline(last));
        let nl = seq![NEWLINE];
        assert(join_lines(ls) == join_lines(init) + nl + last);
        assert(join_lines(init) + nl + last =~= join_lines(init) + (nl + last));
        lemma_split_lines_concat(join_lines(init), nl + last);
        lemma_split_lines_concat(nl, last);
        lemma_split_lines_single(last);
        assert(nl.drop_last() =~= Seq::<u8>::empty());
        assert(nl.last() == NEWLINE);
        assert(split_lines(nl.drop_last()) == seq![Seq::<u8>::empty()]);
        assert(split_lines(nl) =~= seq![Seq::<u8>::empty(), Seq::<u8>::empty()]);
        assert(split_lines(nl + last) =~= seq![Seq::<u8>::empty(), last]);
        assert(split_lines(join_lines(ls)) =~= ls);
    }
}

pub proof fn lemma_join_split(t: Seq<u8>)
    ensures
        join_lines(split_lines(t)) == t,
    decreases t.len(),
{
    if t.len() > 0 {
        let t0 = t.drop_last();
        lemma_join_split(t0);
        lemma_split_lines_len(t0);
        let prev = split_lines(t0);
        assert(t0.push(t.last()) =~= t);
        if t.last() == NEWLINE {
            let cur = prev.push(Seq::empty());
            assert(cur.drop_last() =~= prev);
            assert(join_lines(cur) =~= t);
        } else {
            let cur = prev.update(prev.len() - 1, prev.last().push(t.last()));
            if prev.len() == 1 {
                assert(join_lines(cur) =~= t);
            } else {
                assert(cur.drop_last() =~= prev.drop_last());
                assert(join_lines(cur) =~= t);
            }
        }
    }
}

pub proof fn lemma_split_lines_bounds(t: Seq<u8>)
    ensures
        split_lines(t).len() <= t.len() + 1,
        forall|i: int| 0 <= i < split_lines(t).len() ==> (#[trigger] split_lines(t)[i]).len() <= t.len(),
    decreases t.len(),
{
    if t.len() > 0 {
        lemma_split_lines_bounds(t.drop_last());
        lemma_split_lines_len(t.drop_last());
    }
}

} // verus!
