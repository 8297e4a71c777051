use vstd::prelude::*;

use crate::buffer::{BufferContent, find_run_end, lemma_run_end, push_bytes, run_end, word_kind, word_kind_of, WordKind};
use crate::command::same_bytes;

verus! {

/// The total count that entries `es` keep for word `w`.
pub open spec fn total(es: Seq<(Seq<u8>, nat)>, w: Seq<u8>) -> nat
    decreases es.len(),
{
    if es.len() == 0 {
        0
    } else {
        total(es.drop_last(), w) + if es.last().0 == w {
            es.last().1
        } else {
            0
        }
    }
}

proof fn lemma_total_update(es: Seq<(Seq<u8>, nat)>, i: int, x: (Seq<u8>, nat), w: Seq<u8>)
    requires
        0 <= i < es.len(),
    ensures
        total(es.update(i, x), w) + (if es[i].0 == w { es[i].1 } else { 0 }) == total(es, w) + (if x.0 == w { x.1 } else { 0 }),
    decreases es.len(),
{
    let u = es.update(i, x);
    if i < es.len() - 1 {
        lemma_total_update(es.drop_last(), i, x, w);
        assert(u.drop_last() =~= es.drop_last().update(i, x));
    } else {
        assert(u.drop_last() =~= es.drop_last());
    }
}

proof fn lemma_total_zero(es: Seq<(Seq<u8>, nat)>, w: Seq<u8>)
    ensures
        total(es, w) == 0 <==> forall|k: int| 0 <= k < es.len() && es[k].0 == w ==> es[k].1 == 0,
    decreases es.len(),
{
    if es.len() > 0 {
        lemma_total_zero(es.drop_last(), w);
        if total(es, w) == 0 {
            assert forall|k: int| 0 <= k < es.len() && es[k].0 == w implies es[k].1 == 0 by {
                if k < es.len() - 1 {
                    assert(es[k] == es.drop_last()[k]);
                }
            }
        } else if forall|k: int| 0 <= k < es.len() && es[k].0 == w ==> es[k].1 == 0 {
            assert forall|k: int| 0 <= k < es.drop_last().len() && es.drop_last()[k].0 == w implies es.drop_last()[k].1 == 0 by {
                assert(es.drop_last()[k] == es[k]);
            }
        }
    }
}

/// The identifiers of line `s` that start at or after `b`, in order.
pub open spec fn ids_from(s: Seq<u8>, b: int) -> Seq<Seq<u8>>
    decreases s.len() - b,
{
    if b < 0 || b >= s.len() {
        Seq::empty()
    } else {
        let k = word_kind(s[b]);
        let end = run_end(s, b, k);
        if b < end <= s.len() {
            (if k == WordKind::Identifier {
                seq![s.subrange(b, end)]
            } else {
                Seq::empty()
            }) + ids_from(s, end)
        } else {
            Seq::empty()
        }
    }
}

/// The identifiers of line `s`, in order.
pub open spec fn identifiers(s: Seq<u8>) -> Seq<Seq<u8>> {
    ids_from(s, 0)
}

proof fn lemma_occurrences_bound(ids: Seq<Seq<u8>>, w: Seq<u8>)
    ensures
        occurrences_of(ids, w) <= ids.len(),
    decreases ids.len(),
{
    if ids.len() > 0 {
        lemma_occurrences_bound(ids.drop_last(), w);
    }
}

/// The count `c` plus `n`, or `usize::MAX` where that is larger.
pub open spec fn plus(c: nat, n: nat) -> nat {
    if c + n <= usize::MAX {
        c + n
    } else {
        usize::MAX as nat
    }
}

/// The total for `w` is the count of the one entry that holds `w`.
proof fn lemma_total_unique(es: Seq<(Seq<u8>, nat)>, i: int, w: Seq<u8>)
    requires
        0 <= i < es.len(),
        es[i].0 == w,
        forall|a: int, b: int| 0 <= a < b < es.len() ==> es[a].0 != es[b].0,
    ensures
        total(es, w) == es[i].1,
{
    let z = es.update(i, (w, 0nat));
    lemma_total_update(es, i, (w, 0nat), w);
    lemma_total_zero(z, w);
    assert forall|k: int| 0 <= k < z.len() && z[k].0 == w implies z[k].1 == 0 by {
        if k != i {
            if k < i {
                assert(es[k].0 != es[i].0);
            } else {
                assert(es[i].0 != es[k].0);
            }
        }
    }
}

/// The count `c` less `n`, or zero.
pub open spec fn less(c: nat, n: nat) -> nat {
    if c >= n {
        (c - n) as nat
    } else {
        0
    }
}

/// How many times identifier `w` occurs in identifiers `ids`.
pub open spec fn occurrences_of(ids: Seq<Seq<u8>>, w: Seq<u8>) -> nat
    decreases ids.len(),
{
    if ids.len() == 0 {
        0
    } else {
        occurrences_of(ids.drop_last(), w) + if ids.last() == w {
            1nat
        } else {
            0nat
        }
    }
}

/// How often each identifier occurs in the buffers that feed completion.
pub struct WordDatabase {
    words: Vec<(Vec<u8>, usize)>,
}

impl WordDatabase {
    pub closed spec fn entries(&self) -> Seq<(Seq<u8>, nat)> {
        self.words@.map_values(|e: (Vec<u8>, usize)| (e.0@, e.1 as nat))
    }

    /// How many occurrences of word `w` are counted.
    pub open spec fn count(&self, w: Seq<u8>) -> nat {
        total(self.entries(), w)
    }

    /// Each word has at most one entry.
    pub closed spec fn wf(&self) -> bool {
        forall|a: int, b: int| 0 <= a < b < self.words@.len() ==> self.words@[a].0@ != self.words@[b].0@
    }

    /// A count never exceeds `usize::MAX`.
    pub proof fn lemma_count_bound(&self, w: Seq<u8>)
        requires
            self.wf(),
        ensures
            self.count(w) <= usize::MAX,
    {
        let es = self.entries();
        lemma_total_zero(es, w);
        if self.count(w) > 0 {
            let k = choose|k: int| 0 <= k < es.len() && es[k].0 == w && es[k].1 != 0;
            assert forall|a: int, b: int| 0 <= a < b < es.len() implies es[a].0 != es[b].0 by {
                assert(es[a].0 == self.words@[a].0@ && es[b].0 == self.words@[b].0@);
            }
            lemma_total_unique(es, k, w);
        }
    }

    pub fn new() -> (r: WordDatabase)
        ensures
            r.wf(),
            forall|w: Seq<u8>| r.count(w) == 0,
    {
        let r = WordDatabase { words: Vec::new() };
        assert(r.entries() =~= Seq::<(Seq<u8>, nat)>::empty());
        r
    }

    /// The number of counted occurrences of `word`.
    pub fn word_count(&self, word: &[u8]) -> (r: usize)
        ensures
            self.count(word@) <= usize::MAX ==> r == self.count(word@),
    {
        let mut sum: usize = 0;
        let mut i: usize = 0;
        let ghost es = self.entries();
        while i < self.words.len()
            invariant
                i <= es.len(),
                es == self.entries(),
                total(es.subrange(0, i as int), word@) <= usize::MAX ==> sum == total(es.subrange(0, i as int), word@),
                total(es.subrange(0, i as int), word@) > usize::MAX ==> sum == usize::MAX,
            decreases es.len() - i,
        {
            assert(es.subrange(0, i + 1).drop_last() =~= es.subrange(0, i as int));
            let (w, n) = (&self.words[i].0, self.words[i].1);
            assert(es[i as int] == (w@, n as nat));
            if same_bytes(w.as_slice(), word) {
                if sum > usize::MAX - n {
                    sum = usize::MAX;
                } else if sum != usize::MAX {
                    sum = sum + n;
                }
            }
            i = i + 1;
        }
        assert(es.subrange(0, es.len() as int) =~= es);
        sum
    }

    /// Counts one more occurrence of `word`; a count stops at `usize::MAX`.
    pub fn add_word(&mut self, word: &[u8])
        requires
            old(self).wf(),
        ensures
            final(self).wf(),
            final(self).count(word@) == plus(old(self).count(word@), 1),
            forall|w: Seq<u8>| w != word@ ==> final(self).count(w) == old(self).count(w),
    {
        let ghost es = self.entries();
        proof {
            assert forall|a: int, b: int| 0 <= a < b < es.len() implies es[a].0 != es[b].0 by {
                assert(es[a].0 == self.words@[a].0@ && es[b].0 == self.words@[b].0@);
            }
        }
        let mut i: usize = 0;
        while i < self.words.len()
            invariant
                i <= es.len(),
                es == self.entries(),
                es == old(self).entries(),
                self.words@ == old(self).words@,
                old(self).wf(),
                forall|a: int, b: int| 0 <= a < b < es.len() ==> es[a].0 != es[b].0,
                forall|k: int| 0 <= k < i ==> es[k].0 != word@,
            decreases es.len() - i,
        {
            if same_bytes(self.words[i].0.as_slice(), word) {
                let n = self.words[i].1;
                assert(es[i as int] == (self.words@[i as int].0@, n as nat));
                proof {
                    lemma_total_unique(es, i as int, word@);
                }
                if n == usize::MAX {
                    return;
                }
                proof {
                    lemma_total_update(es, i as int, (word@, (n + 1) as nat), word@);
                }
                let mut entry: (Vec<u8>, usize) = (Vec::new(), 0);
                self.words.set_and_swap(i, &mut entry);
                entry.1 = n + 1;
                let ghost e2 = (entry.0@, entry.1 as nat);
                self.words.set_and_swap(i, &mut entry);
                assert(self.entries() =~= es.update(i as int, e2));
                assert forall|w: Seq<u8>| w != word@ implies total(self.entries(), w) == total(es, w) by {
                    lemma_total_update(es, i as int, e2, w);
                }
                assert forall|a: int, b: int| 0 <= a < b < self.words@.len() implies self.words@[a].0@ != self.words@[b].0@ by {
                    assert(self.entries()[a].0 == self.words@[a].0@ && self.entries()[b].0 == self.words@[b].0@);
                }
                return;
            }
            i = i + 1;
        }
        proof {
            lemma_total_zero(es, word@);
        }
        let mut copy: Vec<u8> = Vec::new();
        push_bytes(&mut copy, word);
        self.words.push((copy, 1));
        assert(self.entries().drop_last() =~= es);
        assert forall|a: int, b: int| 0 <= a < b < self.words@.len() implies self.words@[a].0@ != self.words@[b].0@ by {
            if b < es.len() {
                assert(es[a].0 == self.words@[a].0@ && es[b].0 == self.words@[b].0@);
            } else {
                assert(es[a].0 == self.words@[a].0@);
            }
        }
    }

    /// Counts one occurrence of `word` less, where any is counted.
    pub fn remove_word(&mut self, word: &[u8])
        requires
            old(self).wf(),
        ensures
            final(self).wf(),
            final(self).count(word@) == if old(self).count(word@) > 0 {
                (old(self).count(word@) - 1) as nat
            } else {
                0
            },
            forall|w: Seq<u8>| w != word@ ==> final(self).count(w) == old(self).count(w),
    {
        let ghost es = self.entries();
        let mut i: usize = 0;
        while i < self.words.len()
            invariant
                i <= es.len(),
                es == self.entries(),
                es == old(self).entries(),
                self.words@ == old(self).words@,
                old(self).wf(),
                forall|k: int| 0 <= k < i && es[k].0 == word@ ==> es[k].1 == 0,
            decreases es.len() - i,
        {
            let n = self.words[i].1;
            if n > 0 && same_bytes(self.words[i].0.as_slice(), word) {
                assert(es[i as int] == (self.words@[i as int].0@, n as nat));
                let mut entry: (Vec<u8>, usize) = (Vec::new(), 0);
                self.words.set_and_swap(i, &mut entry);
                entry.1 = n - 1;
                let ghost e2 = (entry.0@, entry.1 as nat);
                self.words.set_and_swap(i, &mut entry);
                assert(self.entries() =~= es.update(i as int, e2));
                proof {
                    lemma_total_update(es, i as int, e2, word@);
                }
                assert forall|a: int, b: int| 0 <= a < b < self.words@.len() implies self.words@[a].0@ != self.words@[b].0@ by {
                    assert(self.entries()[a].0 == self.words@[a].0@ && self.entries()[b].0 == self.words@[b].0@);
                    assert(es[a].0 == old(self).words@[a].0@ && es[b].0 == old(self).words@[b].0@);
                }
                assert forall|w: Seq<u8>| w != word@ implies total(self.entries(), w) == total(es, w) by {
                    lemma_total_update(es, i as int, e2, w);
                }
                return;
            }
            assert(es[i as int] == (self.words@[i as int].0@, n as nat));
            i = i + 1;
        }
        proof {
            lemma_total_zero(es, word@);
        }
    }
}

impl WordDatabase {
    /// Counts every identifier of line `line`.
    pub fn add_line_words(&mut self, line: &[u8])
        requires
            old(self).wf(),
        ensures
            final(self).wf(),
            forall|w: Seq<u8>| final(self).count(w) == plus(old(self).count(w), occurrences_of(identifiers(line@), w)),
    {
        let ghost mut prefix: Seq<Seq<u8>> = Seq::empty();
        let mut b: usize = 0;
        assert(ids_from(line@, 0) == prefix + ids_from(line@, 0));
        assert forall|w: Seq<u8>| #[trigger] self.count(w) == plus(old(self).count(w), occurrences_of(prefix, w)) by {
            old(self).lemma_count_bound(w);
        }
        while b < line.len()
            invariant
                b <= line@.len(),
                ids_from(line@, 0) == prefix + ids_from(line@, b as int),
                self.wf(),
                old(self).wf(),
                forall|w: Seq<u8>| #[trigger] self.count(w) == plus(old(self).count(w), occurrences_of(prefix, w)),
            decreases line@.len() - b,
        {
            let k = word_kind_of(line[b]);
            let end = find_run_end(line, b, k);
            proof {
                lemma_run_end(line@, b as int, k);
            }
            let ghost rest = ids_from(line@, end as int);
            if k == WordKind::Identifier {
                let (head, _) = line.split_at(end);
                let (_, word) = head.split_at(b);
                assert(word@ =~= line@.subrange(b as int, end as int));
                self.add_word(word);
                proof {
                    let p2 = prefix.push(word@);
                    assert(p2.drop_last() =~= prefix);
                    assert(ids_from(line@, b as int) == seq![word@] + rest);
                    assert(prefix + ids_from(line@, b as int) =~= p2 + rest);
                    assert forall|w: Seq<u8>| #[trigger] self.count(w) == plus(old(self).count(w), occurrences_of(p2, w)) by {
                        old(self).lemma_count_bound(w);
                    }
                    prefix = p2;
                }
            } else {
                assert(ids_from(line@, b as int) == Seq::<Seq<u8>>::empty() + rest);
                assert(prefix + ids_from(line@, b as int) =~= prefix + rest);
            }
            b = end;
        }
        assert(ids_from(line@, b as int) =~= Seq::<Seq<u8>>::empty());
        assert(prefix =~= identifiers(line@));
    }

    /// Stops counting every identifier of line `line`; a count never goes below zero.
    pub fn remove_line_words(&mut self, line: &[u8])
        requires
            old(self).wf(),
        ensures
            final(self).wf(),
            forall|w: Seq<u8>| final(self).count(w) == less(old(self).count(w), occurrences_of(identifiers(line@), w)),
    {
        let ghost mut prefix: Seq<Seq<u8>> = Seq::empty();
        let mut b: usize = 0;
        assert(ids_from(line@, 0) == prefix + ids_from(line@, 0));
        while b < line.len()
            invariant
                b <= line@.len(),
                ids_from(line@, 0) == prefix + ids_from(line@, b as int),
                self.wf(),
                forall|w: Seq<u8>| #[trigger] self.count(w) == less(old(self).count(w), occurrences_of(prefix, w)),
            decreases line@.len() - b,
        {
            let k = word_kind_of(line[b]);
            let end = find_run_end(line, b, k);
            proof {
                lemma_run_end(line@, b as int, k);
            }
            let ghost rest = ids_from(line@, end as int);
            if k == WordKind::Identifier {
                let (head, _) = line.split_at(end);
                let (_, word) = head.split_at(b);
                assert(word@ =~= line@.subrange(b as int, end as int));
                self.remove_word(word);
                proof {
                    let p2 = prefix.push(word@);
                    assert(p2.drop_last() =~= prefix);
                    assert(ids_from(line@, b as int) == seq![word@] + rest);
                    assert(prefix + ids_from(line@, b as int) =~= p2 + rest);
                    assert forall|w: Seq<u8>| #[trigger] self.count(w) == less(old(self).count(w), occurrences_of(p2, w)) by {}
                    prefix = p2;
                }
            } else {
                assert(ids_from(line@, b as int) == Seq::<Seq<u8>>::empty() + rest);
                assert(prefix + ids_from(line@, b as int) =~= prefix + rest);
            }
            b = end;
        }
        assert(ids_from(line@, b as int) =~= Seq::<Seq<u8>>::empty());
        assert(prefix =~= identifiers(line@));
    }
}

/// How many times `w` occurs among the identifiers of lines `a..b` of `ls`.
pub open spec fn lines_words(ls: Seq<Seq<u8>>, a: int, b: int, w: Seq<u8>) -> nat
    decreases b - a,
{
    if b <= a {
        0
    } else {
        lines_words(ls, a, b - 1, w) + occurrences_of(identifiers(ls[b - 1]), w)
    }
}

impl WordDatabase {
    /// Counts every identifier of lines `a..b` of `content`.
    pub fn add_lines(&mut self, content: &BufferContent, a: usize, b: usize)
        requires
            old(self).wf(),
            content.wf(),
            a <= b <= content@.len(),
        ensures
            final(self).wf(),
            forall|w: Seq<u8>| #[trigger] final(self).count(w) == plus(old(self).count(w), lines_words(content@, a as int, b as int, w)),
    {
        let mut l = a;
        assert forall|w: Seq<u8>| #[trigger] self.count(w) == plus(old(self).count(w), lines_words(content@, a as int, l as int, w)) by {
            old(self).lemma_count_bound(w);
        }
        while l < b
            invariant
                a <= l <= b <= content@.len(),
                content.wf(),
                self.wf(),
                old(self).wf(),
                forall|w: Seq<u8>| #[trigger] self.count(w) == plus(old(self).count(w), lines_words(content@, a as int, l as int, w)),
            decreases b - l,
        {
            let line = content.line_at(l);
            self.add_line_words(line.as_bytes());
            assert forall|w: Seq<u8>| #[trigger] self.count(w) == plus(old(self).count(w), lines_words(content@, a as int, l + 1, w)) by {
                old(self).lemma_count_bound(w);
            }
            l = l + 1;
        }
    }

    /// Stops counting every identifier of lines `a..b` of `content`.
    pub fn remove_lines(&mut self, content: &BufferContent, a: usize, b: usize)
        requires
            old(self).wf(),
            content.wf(),
            a <= b <= content@.len(),
        ensures
            final(self).wf(),
            forall|w: Seq<u8>| #[trigger] final(self).count(w) == less(old(self).count(w), lines_words(content@, a as int, b as int, w)),
    {
        let mut l = a;
        while l < b
            invariant
                a <= l <= b <= content@.len(),
                content.wf(),
                self.wf(),
                forall|w: Seq<u8>| #[trigger] self.count(w) == less(old(self).count(w), lines_words(content@, a as int, l as int, w)),
            decreases b - l,
        {
            let line = content.line_at(l);
            self.remove_line_words(line.as_bytes());
            l = l + 1;
        }
    }
}

} // verus!
