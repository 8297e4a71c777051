use vstd::prelude::*;
use vstd::string::StringSliceAdditionalSpecFns;
use vstd::utf8::{
    is_char_boundary as char_boundary_at, is_char_boundary_iff_not_is_continuation_byte,
    is_char_boundary_start_end_of_seq, length_of_first_scalar, pop_first_scalar, valid_utf8, valid_utf8_split,
};

use crate::platform::Key;
use crate::text::{is_char_boundary, starts_char};

verus! {

/// The FNV-1a offset basis.
pub const FNV_OFFSET_BASIS: u64 = 0xcbf29ce484222325;

/// The FNV-1a prime.
pub const FNV_PRIME: u64 = 0x100000001b3;

/// The 64-bit FNV-1a hash of `s`: from the offset basis, each byte is
/// xored in and the result multiplied by the prime, modulo 2^64.
pub open spec fn fnv1a(s: Seq<u8>) -> u64
    decreases s.len(),
{
    if s.len() == 0 {
        FNV_OFFSET_BASIS
    } else {
        (fnv1a(s.drop_last()) ^ (s.last() as u64)).wrapping_mul(FNV_PRIME)
    }
}

pub fn hash_bytes(bytes: &[u8]) -> (r: u64)
    ensures
        r == fnv1a(bytes@),
{
    let mut hash: u64 = FNV_OFFSET_BASIS;
    let mut i: usize = 0;
    while i < bytes.len()
        invariant
            i <= bytes@.len(),
            hash == fnv1a(bytes@.subrange(0, i as int)),
        decreases bytes@.len() - i,
    {
        assert(bytes@.subrange(0, i + 1).drop_last() =~= bytes@.subrange(0, i as int));
        hash = (hash ^ bytes[i] as u64).wrapping_mul(FNV_PRIME);
        i = i + 1;
    }
    assert(bytes@.subrange(0, bytes@.len() as int) =~= bytes@);
    hash
}

/// Relies on `std::str::from_utf8`: it accepts exactly the valid UTF-8
/// byte sequences, and the string it returns holds those bytes.
#[verifier::external_body]
fn str_from_utf8(bytes: &[u8]) -> (r: Option<&str>)
    ensures
        r.is_some() <==> valid_utf8(bytes@),
        r matches Some(s) ==> s.spec_bytes() == bytes@,
{
    std::str::from_utf8(bytes).ok()
}

/// `bytes` read as UTF-8, or the empty string where they are not valid.
fn utf8_or_empty(bytes: &[u8]) -> (r: &str)
    ensures
        valid_utf8(bytes@) ==> r.spec_bytes() == bytes@,
        !valid_utf8(bytes@) ==> r.spec_bytes().len() == 0,
{
    match str_from_utf8(bytes) {
        Some(s) => s,
        None => {
            let e: &str = "";
            proof {
                reveal_strlit("");
            }
            e
        },
    }
}

/// The number of bytes at the start of `s` that continue a character.
pub open spec fn leading_continuations(s: Seq<u8>, i: int) -> int
    decreases s.len() - i,
{
    if i < 0 || i >= s.len() || starts_char(s[i]) {
        i
    } else {
        leading_continuations(s, i + 1)
    }
}

/// The index of the last byte of `s` before `i` that starts a character, or 0.
pub open spec fn last_char_start(s: Seq<u8>, i: int) -> int
    decreases i,
{
    if i <= 0 {
        0
    } else if starts_char(s[i - 1]) {
        i - 1
    } else {
        last_char_start(s, i - 1)
    }
}

/// What receiving `bytes` with the held bytes `residue` gives: the bytes
/// that complete the held character, the bytes of whole characters after
/// them, and the bytes held back for the next chunk. A chunk that only
/// continues the held character is held with it until a later chunk starts
/// a new character or an empty chunk ends the stream. A held character
/// longer than four bytes is dropped, and so is a chunk whose tail would be.
pub open spec fn receive_spec(residue: Seq<u8>, bytes: Seq<u8>) -> (Seq<u8>, Seq<u8>, Seq<u8>) {
    let c = leading_continuations(bytes, 0);
    if bytes.len() > 0 && c == bytes.len() && residue.len() + c <= 4 {
        (Seq::<u8>::empty(), Seq::<u8>::empty(), residue + bytes)
    } else {
        let (before, rest) = if residue.len() + c <= 4 {
            (residue + bytes.subrange(0, c), bytes.subrange(c, bytes.len() as int))
        } else {
            (Seq::<u8>::empty(), bytes.subrange(4 - residue.len(), bytes.len() as int))
        };
        let end = last_char_start(rest, rest.len() as int);
        let tail = rest.subrange(end, rest.len() as int);
        if tail.len() > 4 {
            (Seq::<u8>::empty(), Seq::<u8>::empty(), Seq::<u8>::empty())
        } else {
            (before, rest.subrange(0, end), tail)
        }
    }
}

/// Receiving `bytes` loses no byte: no held character grows past four
/// bytes and no tail is too long.
pub open spec fn receive_fits(residue: Seq<u8>, bytes: Seq<u8>) -> bool {
    let c = leading_continuations(bytes, 0);
    let rest = bytes.subrange(c, bytes.len() as int);
    &&& residue.len() + c <= 4
    &&& rest.len() - last_char_start(rest, rest.len() as int) <= 4
}

/// The bytes given out while `chunks` are received in order, starting
/// with held bytes `residue`, and the bytes held at the end.
pub open spec fn stream(residue: Seq<u8>, chunks: Seq<Seq<u8>>) -> (Seq<u8>, Seq<u8>)
    decreases chunks.len(),
{
    if chunks.len() == 0 {
        (Seq::empty(), residue)
    } else {
        let (out, held) = stream(residue, chunks.drop_last());
        let (before, after, tail) = receive_spec(held, chunks.last());
        (out + before + after, tail)
    }
}

/// Every chunk of `chunks` is received without loss, from held bytes `residue`.
pub open spec fn stream_fits(residue: Seq<u8>, chunks: Seq<Seq<u8>>) -> bool
    decreases chunks.len(),
{
    chunks.len() == 0 || (stream_fits(residue, chunks.drop_last()) && receive_fits(
        stream(residue, chunks.drop_last()).1,
        chunks.last(),
    ))
}

/// The concatenation of `chunks`.
pub open spec fn concat(chunks: Seq<Seq<u8>>) -> Seq<u8>
    decreases chunks.len(),
{
    if chunks.len() == 0 {
        Seq::empty()
    } else {
        concat(chunks.drop_last()) + chunks.last()
    }
}

proof fn lemma_leading_continuations(s: Seq<u8>, i: int)
    requires
        0 <= i <= s.len(),
    ensures
        i <= leading_continuations(s, i) <= s.len(),
    decreases s.len() - i,
{
    if i < s.len() && !starts_char(s[i]) {
        lemma_leading_continuations(s, i + 1);
    }
}

proof fn lemma_last_char_start(s: Seq<u8>, i: int)
    requires
        0 <= i <= s.len(),
    ensures
        0 <= last_char_start(s, i) <= i,
        i > 0 ==> last_char_start(s, i) < i,
    decreases i,
{
    if i > 0 && !starts_char(s[i - 1]) {
        lemma_last_char_start(s, i - 1);
    }
}

/// Receiving a chunk without loss gives out, and holds back, exactly the
/// held bytes followed by the chunk.
pub proof fn lemma_receive_keeps_bytes(residue: Seq<u8>, bytes: Seq<u8>)
    requires
        receive_fits(residue, bytes),
    ensures
        ({
            let (before, after, tail) = receive_spec(residue, bytes);
            before + after + tail == residue + bytes
        }),
{
    lemma_leading_continuations(bytes, 0);
    let c = leading_continuations(bytes, 0);
    let rest = bytes.subrange(c, bytes.len() as int);
    lemma_last_char_start(rest, rest.len() as int);
    let end = last_char_start(rest, rest.len() as int);
    assert(rest.subrange(0, end) + rest.subrange(end, rest.len() as int) =~= rest);
    assert(bytes.subrange(0, c) + rest =~= bytes);
    let (before, after, tail) = receive_spec(residue, bytes);
    assert(before + after + tail =~= residue + bytes);
}

/// Streaming chunks through the reassembler without loss gives out every
/// byte once, in order: what was given out followed by what is still held
/// is the held bytes at the start followed by all chunks.
pub proof fn lemma_stream_keeps_bytes(residue: Seq<u8>, chunks: Seq<Seq<u8>>)
    requires
        stream_fits(residue, chunks),
    ensures
        stream(residue, chunks).0 + stream(residue, chunks).1 == residue + concat(chunks),
    decreases chunks.len(),
{
    if chunks.len() > 0 {
        lemma_stream_keeps_bytes(residue, chunks.drop_last());
        let (out, held) = stream(residue, chunks.drop_last());
        lemma_receive_keeps_bytes(held, chunks.last());
        let (before, after, tail) = receive_spec(held, chunks.last());
        assert(out + before + after + tail =~= out + (before + after + tail));
        assert(residue + concat(chunks) =~= residue + concat(chunks.drop_last()) + chunks.last());
    }
}

/// Bytes of a UTF-8 stream that arrive in chunks, reassembled into whole
/// characters: a character split between chunks is held until it completes.
pub struct ResidualStrBytes {
    bytes: [u8; 4],
    len: u8,
}

impl ResidualStrBytes {
    pub closed spec fn wf(&self) -> bool {
        self.len <= 4
    }

    /// The bytes held from earlier chunks.
    pub closed spec fn held(&self) -> Seq<u8> {
        self.bytes@.subrange(0, self.len as int)
    }

    pub fn new() -> (r: ResidualStrBytes)
        ensures
            r.wf(),
            r.held().len() == 0,
    {
        ResidualStrBytes { bytes: [0u8; 4], len: 0 }
    }

    /// Receives a chunk: returns the text of the character that completes
    /// the held bytes and the text of the whole characters after it (each
    /// empty where its bytes are no valid UTF-8), and holds the bytes of a
    /// character left incomplete at the end.
    pub fn receive_bytes<'a>(&mut self, buf: &'a mut [u8; 4], bytes: &'a [u8]) -> (r: [&'a str; 2])
        requires
            old(self).wf(),
        ensures
            final(self).wf(),
            ({
                let (before, after, tail) = receive_spec(old(self).held(), bytes@);
                &&& final(self).held() == tail
                &&& valid_utf8(before) ==> r[0].spec_bytes() == before
                &&& !valid_utf8(before) ==> r[0].spec_bytes().len() == 0
                &&& valid_utf8(after) ==> r[1].spec_bytes() == after
                &&& !valid_utf8(after) ==> r[1].spec_bytes().len() == 0
            }),
    {
        let ghost residue = self.held();
        let ghost s = bytes@;
        proof {
            lemma_leading_continuations(s, 0);
        }
        let mut held: [u8; 4] = self.bytes;
        let mut len: usize = self.len as usize;
        let mut i: usize = 0;
        let mut dropped = false;
        while i < bytes.len() && !is_char_boundary(bytes[i]) && !dropped
            invariant
                i <= s.len(),
                s == bytes@,
                len <= 4,
                held@.len() == 4,
                !dropped ==> held@.subrange(0, len as int) == residue + s.subrange(0, i as int),
                !dropped ==> leading_continuations(s, 0) == leading_continuations(s, i as int),
                !dropped ==> len == residue.len() + i,
                dropped ==> residue.len() + leading_continuations(s, 0) > 4 && i == 4 - residue.len() && len == 0,
            decreases s.len() - i, if dropped { 0int } else { 1int },
        {
            if len == 4 {
                len = 0;
                dropped = true;
                proof {
                    lemma_leading_continuations(s, i + 1);
                }
            } else {
                let ghost prev = held@;
                held[len] = bytes[i];
                assert(held@.subrange(0, len + 1) =~= prev.subrange(0, len as int).push(s[i as int]));
                assert(s.subrange(0, i + 1) =~= s.subrange(0, i as int).push(s[i as int]));
                len = len + 1;
                i = i + 1;
            }
        }
        proof {
            if !dropped {
                lemma_leading_continuations(s, i as int);
            }
        }
        if !dropped && i == bytes.len() && bytes.len() > 0 {
            self.bytes = held;
            self.len = len as u8;
            assert(self.held() =~= residue + s);
            proof {
                reveal_strlit("");
            }
            return ["", ""];
        }
        *buf = held;
        let shared: &'a [u8; 4] = buf;
        let (before_bytes, _) = shared.as_slice().split_at(len);
        let (_, rest) = bytes.split_at(i);
        let mut end = rest.len();
        let mut found = false;
        while end > 0 && !found
            invariant
                end <= rest@.len(),
                !found ==> last_char_start(rest@, rest@.len() as int) == last_char_start(rest@, end as int),
                found ==> last_char_start(rest@, rest@.len() as int) == end,
            decreases end, if found { 0int } else { 1int },
        {
            if is_char_boundary(rest[end - 1]) {
                found = true;
            }
            end = end - 1;
        }
        proof {
            lemma_last_char_start(rest@, rest@.len() as int);
        }
        assert(last_char_start(rest@, rest@.len() as int) == end);
        let (after_bytes, tail) = rest.split_at(end);
        assert(rest@ =~= s.subrange(i as int, s.len() as int));
        if tail.len() > 4 {
            self.len = 0;
            proof {
                reveal_strlit("");
            }
            assert(self.held() =~= Seq::<u8>::empty());
            return ["", ""];
        }
        let mut k: usize = 0;
        while k < tail.len()
            invariant
                k <= tail@.len() <= 4,
                self.bytes@.len() == 4,
                self.bytes@.subrange(0, k as int) == tail@.subrange(0, k as int),
            decreases tail@.len() - k,
        {
            let ghost prev = self.bytes@;
            self.bytes[k] = tail[k];
            assert(self.bytes@.subrange(0, k + 1) =~= tail@.subrange(0, k + 1));
            k = k + 1;
        }
        self.len = tail.len() as u8;
        assert(self.held() =~= tail@);
        assert(before_bytes@ =~= if dropped { Seq::<u8>::empty() } else { residue + s.subrange(0, i as int) });
        [utf8_or_empty(before_bytes), utf8_or_empty(after_bytes)]
    }
}

/// Relies on `String::clear`: the string becomes empty.
#[verifier::external_body]
pub(crate) fn string_clear(s: &mut String)
    ensures
        final(s)@ == Seq::<char>::empty(),
{
    s.clear()
}

/// Relies on `String::push_str`: the characters of `t` are appended.
#[verifier::external_body]
pub(crate) fn string_push_str(s: &mut String, t: &str)
    ensures
        final(s)@ == old(s)@ + t@,
{
    s.push_str(t)
}

/// Relies on `String::push`: character `c` is appended.
#[verifier::external_body]
pub(crate) fn string_push(s: &mut String, c: char)
    ensures
        final(s)@ == old(s)@.push(c),
{
    s.push(c)
}

/// Relies on `String::pop`: the last character is removed and returned;
/// an empty string stays empty and gives none.
#[verifier::external_body]
pub(crate) fn string_pop(s: &mut String) -> (r: Option<char>)
    ensures
        old(s)@.len() == 0 ==> r.is_none() && final(s)@ == old(s)@,
        old(s)@.len() > 0 ==> r == Some(old(s)@.last()) && final(s)@ == old(s)@.drop_last(),
{
    s.pop()
}

/// Strings kept for reuse, so that new strings need not allocate.
pub struct StringPool {
    pool: Vec<String>,
}

impl StringPool {
    pub fn new() -> (r: StringPool)
        ensures
            r.len() == 0,
    {
        StringPool { pool: Vec::new() }
    }

    /// The number of strings held for reuse.
    pub closed spec fn len(&self) -> nat {
        self.pool@.len()
    }

    /// An empty string, taken from the pool where it holds one.
    pub fn acquire(&mut self) -> (r: String)
        requires
            old(self).wf(),
        ensures
            final(self).wf(),
            r@.len() == 0,
            final(self).len() == if old(self).len() == 0 {
                0
            } else {
                old(self).len() - 1
            },
    {
        match self.pool.pop() {
            Some(s) => s,
            None => String::new(),
        }
    }

    /// A string holding `value`, taken from the pool where it holds one.
    pub fn acquire_with(&mut self, value: &str) -> (r: String)
        requires
            old(self).wf(),
        ensures
            final(self).wf(),
            r@ == value@,
            final(self).len() == if old(self).len() == 0 {
                0
            } else {
                old(self).len() - 1
            },
    {
        let mut s = self.acquire();
        string_push_str(&mut s, value);
        assert(s@ =~= value@);
        s
    }

    /// Takes string `s` back for reuse, emptied.
    pub fn release(&mut self, s: String)
        requires
            old(self).wf(),
        ensures
            final(self).wf(),
            final(self).len() == old(self).len() + 1,
    {
        let mut s = s;
        string_clear(&mut s);
        self.pool.push(s);
        assert forall|i: int| 0 <= i < self.pool@.len() implies (#[trigger] self.pool@[i])@.len() == 0 by {
            if i < old(self).pool@.len() {
                assert(self.pool@[i] == old(self).pool@[i]);
            }
        }
    }

    /// Every string held is empty.
    pub closed spec fn wf(&self) -> bool {
        forall|i: int| 0 <= i < self.pool@.len() ==> (#[trigger] self.pool@[i])@.len() == 0
    }
}

#[derive(Clone, Copy, Debug, PartialEq, Eq, Structural)]
pub enum MessageKind {
    Info,
    Error,
}

/// The message line shown under the buffer views.
pub struct StatusBar {
    kind: MessageKind,
    message: String,
}

impl StatusBar {
    pub closed spec fn kind_view(&self) -> MessageKind {
        self.kind
    }

    pub closed spec fn message_view(&self) -> Seq<char> {
        self.message@
    }

    pub fn new() -> (r: StatusBar)
        ensures
            r.kind_view() == MessageKind::Info,
            r.message_view().len() == 0,
    {
        StatusBar { kind: MessageKind::Info, message: String::new() }
    }

    pub fn message(&self) -> (r: (MessageKind, &str))
        ensures
            r.0 == self.kind_view(),
            r.1@ == self.message_view(),
    {
        (self.kind, self.message.as_str())
    }

    pub fn clear(&mut self)
        ensures
            final(self).kind_view() == old(self).kind_view(),
            final(self).message_view().len() == 0,
    {
        string_clear(&mut self.message);
    }

    /// Replaces the message with `text`, of kind `kind`.
    pub fn write(&mut self, kind: MessageKind, text: &str)
        ensures
            final(self).kind_view() == kind,
            final(self).message_view() == text@,
    {
        self.kind = kind;
        string_clear(&mut self.message);
        string_push_str(&mut self.message, text);
        assert(self.message@ =~= text@);
    }

    /// Appends `text` to the message.
    pub fn str(&mut self, text: &str)
        ensures
            final(self).kind_view() == old(self).kind_view(),
            final(self).message_view() == old(self).message_view() + text@,
    {
        string_push_str(&mut self.message, text);
    }
}

#[derive(Clone, Copy, Debug, PartialEq, Eq, Structural)]
pub enum ReadLinePoll {
    Pending,
    Submitted,
    Canceled,
}

/// Whether `c` belongs to a word that Ctrl-W deletes: an ASCII letter or
/// digit, an underscore, or any character beyond ASCII.
pub open spec fn is_word_char(c: char) -> bool {
    ('a' <= c && c <= 'z') || ('A' <= c && c <= 'Z') || ('0' <= c && c <= '9') || c == '_' || (c as u32) >= 0x80
}

/// How long `s` is once the last word and what follows it are deleted.
pub open spec fn without_last_word(s: Seq<char>) -> int
    decreases s.len(),
{
    let trimmed = trailing_run(s, s.len() as int, false);
    trailing_run(s, trimmed, true)
}

/// The start of the run of characters before `end` that are word
/// characters (`word`) or are not.
pub open spec fn trailing_run(s: Seq<char>, end: int, word: bool) -> int
    decreases end,
{
    if end <= 0 || end > s.len() {
        if end > s.len() { s.len() as int } else { 0 }
    } else if is_word_char(s[end - 1]) == word {
        trailing_run(s, end - 1, word)
    } else {
        end
    }
}

/// What a read line reports after key `key`.
pub open spec fn poll_result(key: Key) -> ReadLinePoll {
    if key == Key::Esc || key == Key::Ctrl('c') {
        ReadLinePoll::Canceled
    } else if key == Key::Enter || key == Key::Ctrl('m') {
        ReadLinePoll::Submitted
    } else {
        ReadLinePoll::Pending
    }
}

/// The input of a read line after key `key`.
pub open spec fn polled_input(key: Key, input: Seq<char>) -> Seq<char> {
    if key == Key::Home || key == Key::Ctrl('u') {
        Seq::empty()
    } else if key == Key::Ctrl('w') {
        input.subrange(0, without_last_word(input))
    } else if key == Key::Backspace || key == Key::Ctrl('h') {
        if input.len() > 0 {
            input.drop_last()
        } else {
            input
        }
    } else {
        match key {
            Key::Char(c) => input.push(c),
            _ => input,
        }
    }
}

proof fn lemma_trailing_run_bounds(s: Seq<char>, end: int, word: bool)
    requires
        0 <= end <= s.len(),
    ensures
        0 <= trailing_run(s, end, word) <= end,
    decreases end,
{
    if end > 0 && is_word_char(s[end - 1]) == word {
        lemma_trailing_run_bounds(s, end - 1, word);
    }
}

proof fn lemma_trailing_run_prefix(s: Seq<char>, n: int, end: int, word: bool)
    requires
        0 <= end <= n <= s.len(),
    ensures
        trailing_run(s.subrange(0, n), end, word) == trailing_run(s, end, word),
    decreases end,
{
    if end > 0 {
        assert(s.subrange(0, n)[end - 1] == s[end - 1]);
        lemma_trailing_run_prefix(s, n, end - 1, word);
    }
}

/// A line of input with its prompt.
pub struct ReadLine {
    prompt: String,
    input: String,
}

impl ReadLine {
    pub closed spec fn prompt_view(&self) -> Seq<char> {
        self.prompt@
    }

    pub closed spec fn input_view(&self) -> Seq<char> {
        self.input@
    }

    pub fn new() -> (r: ReadLine)
        ensures
            r.prompt_view().len() == 0,
            r.input_view().len() == 0,
    {
        ReadLine { prompt: String::new(), input: String::new() }
    }

    pub fn prompt(&self) -> (r: &str)
        ensures
            r@ == self.prompt_view(),
    {
        self.prompt.as_str()
    }

    pub fn set_prompt(&mut self, prompt: &str)
        ensures
            final(self).prompt_view() == prompt@,
            final(self).input_view() == old(self).input_view(),
    {
        string_clear(&mut self.prompt);
        string_push_str(&mut self.prompt, prompt);
        assert(self.prompt@ =~= prompt@);
    }

    pub fn input(&self) -> (r: &str)
        ensures
            r@ == self.input_view(),
    {
        self.input.as_str()
    }

    /// Appends `text` to the input, as a paste does.
    pub fn push_input(&mut self, text: &str)
        ensures
            final(self).prompt_view() == old(self).prompt_view(),
            final(self).input_view() == old(self).input_view() + text@,
    {
        string_push_str(&mut self.input, text);
    }

    /// Applies key `key` to the input: Esc or Ctrl-C cancels, Enter or
    /// Ctrl-M submits, Home or Ctrl-U clears, Ctrl-W deletes the last word,
    /// Backspace or Ctrl-H deletes the last character, and a character is
    /// appended; other keys change nothing.
    pub fn poll(&mut self, key: Key) -> (r: ReadLinePoll)
        ensures
            final(self).prompt_view() == old(self).prompt_view(),
            r == poll_result(key),
            final(self).input_view() == polled_input(key, old(self).input_view()),
    {
        match key {
            Key::Esc | Key::Ctrl('c') => ReadLinePoll::Canceled,
            Key::Enter | Key::Ctrl('m') => ReadLinePoll::Submitted,
            Key::Home | Key::Ctrl('u') => {
                string_clear(&mut self.input);
                ReadLinePoll::Pending
            },
            Key::Ctrl('w') => {
                let ghost s0 = self.input@;
                self.delete_trailing(false);
                proof {
                    let t1 = trailing_run(s0, s0.len() as int, false);
                    lemma_trailing_run_bounds(s0, s0.len() as int, false);
                    lemma_trailing_run_prefix(s0, t1, t1, true);
                }
                self.delete_trailing(true);
                proof {
                    let t1 = trailing_run(s0, s0.len() as int, false);
                    let t2 = trailing_run(s0, t1, true);
                    lemma_trailing_run_bounds(s0, t1, true);
                    assert(s0.subrange(0, t1).subrange(0, t2) =~= s0.subrange(0, t2));
                    assert(without_last_word(s0) == t2);
                }
                ReadLinePoll::Pending
            },
            Key::Backspace | Key::Ctrl('h') => {
                let _ = string_pop(&mut self.input);
                ReadLinePoll::Pending
            },
            Key::Char(c) => {
                string_push(&mut self.input, c);
                ReadLinePoll::Pending
            },
            _ => ReadLinePoll::Pending,
        }
    }

    /// Deletes the run of word characters (`word`), or of other characters,
    /// at the end of the input.
    fn delete_trailing(&mut self, word: bool)
        ensures
            final(self).prompt_view() == old(self).prompt_view(),
            final(self).input_view() == old(self).input_view().subrange(
                0,
                trailing_run(old(self).input_view(), old(self).input_view().len() as int, word),
            ),
    {
        let ghost start = self.input@;
        loop
            invariant
                self.prompt@ == old(self).prompt@,
                start == old(self).input@,
                self.input@.len() <= start.len(),
                self.input@ == start.subrange(0, self.input@.len() as int),
                trailing_run(start, start.len() as int, word) == trailing_run(start, self.input@.len() as int, word),
            decreases self.input@.len(),
        {
            let ghost before = self.input@;
            match string_pop(&mut self.input) {
                None => {
                    return;
                },
                Some(c) => {
                    if is_word_char_exec(c) != word {
                        string_push(&mut self.input, c);
                        assert(self.input@ =~= before);
                        return;
                    }
                    assert(self.input@ =~= start.subrange(0, self.input@.len() as int));
                },
            }
        }
    }
}

fn is_word_char_exec(c: char) -> (r: bool)
    ensures
        r == is_word_char(c),
{
    ('a' <= c && c <= 'z') || ('A' <= c && c <= 'Z') || ('0' <= c && c <= '9') || c == '_' || (c as u32) >= 0x80
}

/// In valid UTF-8, the character that starts at boundary `b` ends within four bytes.
proof fn lemma_boundary_gap(s: Seq<u8>, b: int)
    requires
        valid_utf8(s),
        0 <= b < s.len(),
        char_boundary_at(s, b),
    ensures
        exists|l: int| 1 <= l <= 4 && b + l <= s.len() && #[trigger] char_boundary_at(s, b + l),
    decreases s.len(),
{
    let l0 = length_of_first_scalar(s);
    let t = pop_first_scalar(s);
    assert(1 <= l0 <= 4 && l0 <= s.len());
    assert(t.len() == s.len() - l0);
    assert(valid_utf8(t));
    if b == 0 {
        assert(char_boundary_at(t, 0));
        assert(char_boundary_at(s, 0 + l0));
    } else {
        assert(char_boundary_at(t, b - l0));
        assert(b - l0 >= 0);
        if b - l0 == t.len() {
            assert(false);
        }
        lemma_boundary_gap(t, b - l0);
        let l = choose|l: int| 1 <= l <= 4 && b - l0 + l <= t.len() && #[trigger] char_boundary_at(t, b - l0 + l);
        assert(char_boundary_at(s, b + l));
    }
}

/// In valid UTF-8, a byte starts a character exactly where it is a character boundary.
proof fn lemma_starts_iff_boundary(s: Seq<u8>, j: int)
    requires
        valid_utf8(s),
        0 <= j < s.len(),
    ensures
        starts_char(s[j]) <==> char_boundary_at(s, j),
{
    is_char_boundary_iff_not_is_continuation_byte(s, j);
}

/// In valid UTF-8, at most three bytes after a boundary continue its character.
proof fn lemma_no_long_run(s: Seq<u8>, b: int, e: int)
    requires
        valid_utf8(s),
        0 <= b < e <= s.len(),
        char_boundary_at(s, b),
        forall|j: int| b < j < e ==> !starts_char(#[trigger] s[j]),
    ensures
        e <= b + 4,
{
    lemma_boundary_gap(s, b);
    let l = choose|l: int| 1 <= l <= 4 && b + l <= s.len() && #[trigger] char_boundary_at(s, b + l);
    if e > b + 4 {
        assert(b + l < e);
        lemma_starts_iff_boundary(s, b + l);
        assert(starts_char(s[b + l]));
    }
}

proof fn lemma_leading_continuations_shape(c: Seq<u8>, i: int)
    requires
        0 <= i <= c.len(),
    ensures
        i <= leading_continuations(c, i) <= c.len(),
        forall|j: int| i <= j < leading_continuations(c, i) ==> !starts_char(#[trigger] c[j]),
        leading_continuations(c, i) < c.len() ==> starts_char(c[leading_continuations(c, i)]),
    decreases c.len() - i,
{
    if i < c.len() && !starts_char(c[i]) {
        lemma_leading_continuations_shape(c, i + 1);
    }
}

proof fn lemma_last_char_start_shape(c: Seq<u8>, i: int)
    requires
        0 < i <= c.len(),
        starts_char(c[0]),
    ensures
        0 <= last_char_start(c, i) < i,
        starts_char(c[last_char_start(c, i)]),
        forall|j: int| last_char_start(c, i) < j < i ==> !starts_char(#[trigger] c[j]),
    decreases i,
{
    if !starts_char(c[i - 1]) {
        lemma_last_char_start_shape(c, i - 1);
    }
}

/// Each piece given out while `chunks` are received, from held bytes `residue`, is valid UTF-8.
pub open spec fn stream_pieces_valid(residue: Seq<u8>, chunks: Seq<Seq<u8>>) -> bool
    decreases chunks.len(),
{
    chunks.len() == 0 || (stream_pieces_valid(residue, chunks.drop_last()) && {
        let (before, after, tail) = receive_spec(stream(residue, chunks.drop_last()).1, chunks.last());
        valid_utf8(before) && valid_utf8(after)
    })
}

/// The held bytes `s[o..p]` of a valid stream `s` received up to `p`: the
/// start of the character that the last received byte belongs to.
pub open spec fn held_start(s: Seq<u8>, o: int, p: int) -> bool {
    &&& 0 <= o <= p <= s.len()
    &&& p == 0 ==> o == 0
    &&& p > 0 ==> o < p && char_boundary_at(s, o) && forall|j: int| o < j < p ==> !starts_char(#[trigger] s[j])
}

proof fn lemma_valid_between(s: Seq<u8>, a: int, b: int)
    requires
        valid_utf8(s),
        0 <= a <= b <= s.len(),
        char_boundary_at(s, a),
        char_boundary_at(s, b),
    ensures
        valid_utf8(s.subrange(a, b)),
{
    valid_utf8_split(s, a);
    let t = s.subrange(a, s.len() as int);
    lemma_boundary_shift(s, a, b);
    valid_utf8_split(t, b - a);
    assert(t.subrange(0, b - a) =~= s.subrange(a, b));
}

/// A boundary of `s` after boundary `a` is a boundary of `s[a..]`.
proof fn lemma_boundary_shift(s: Seq<u8>, a: int, b: int)
    requires
        valid_utf8(s),
        0 <= a <= b <= s.len(),
        char_boundary_at(s, a),
        char_boundary_at(s, b),
    ensures
        char_boundary_at(s.subrange(a, s.len() as int), b - a),
{
    let t = s.subrange(a, s.len() as int);
    valid_utf8_split(s, a);
    if b - a == t.len() {
        is_char_boundary_start_end_of_seq(t);
    } else {
        lemma_starts_iff_boundary(s, b);
        assert(t[b - a] == s[b]);
        is_char_boundary_iff_not_is_continuation_byte(t, b - a);
    }
}

/// One chunk `s[p..p + n]` of a valid stream `s`, received with the held
/// bytes `s[o..p]`: nothing is lost, both pieces given out are valid UTF-8,
/// and the bytes held after it are again those of one incomplete character.
proof fn lemma_receive_step(s: Seq<u8>, o: int, p: int, n: int)
    requires
        valid_utf8(s),
        held_start(s, o, p),
        0 <= n,
        p + n <= s.len(),
        n > 0 || p == s.len(),
    ensures
        ({
            let (before, after, tail) = receive_spec(s.subrange(o, p), s.subrange(p, p + n));
            &&& receive_fits(s.subrange(o, p), s.subrange(p, p + n))
            &&& valid_utf8(before)
            &&& valid_utf8(after)
            &&& n == 0 ==> tail.len() == 0
            &&& n > 0 ==> exists|o2: int| #[trigger] held_start(s, o2, p + n) && tail == s.subrange(o2, p + n)
        }),
{
    let held = s.subrange(o, p);
    let c = s.subrange(p, p + n);
    lemma_leading_continuations_shape(c, 0);
    let c0 = leading_continuations(c, 0);
    is_char_boundary_start_end_of_seq(s);
    if s.len() > 0 {
        lemma_starts_iff_boundary(s, 0);
    }
    if n > 0 && c0 == n {
        // The chunk only continues the held character.
        assert(p > 0) by {
            if p == 0 {
                assert(c[0] == s[0]);
            }
        }
        assert forall|j: int| o < j < p + n implies !starts_char(#[trigger] s[j]) by {
            if j >= p {
                assert(c[j - p] == s[j]);
            }
        }
        lemma_no_long_run(s, o, p + n);
        assert(held + c =~= s.subrange(o, p + n));
        assert(valid_utf8(Seq::<u8>::empty()));
        assert(c.subrange(c0, n) =~= Seq::<u8>::empty());
        assert(receive_fits(held, c));
        assert(receive_spec(held, c) == (Seq::<u8>::empty(), Seq::<u8>::empty(), held + c));
        assert(held_start(s, o, p + n));
    } else {
        // Complete the held character, then hand out whole characters.
        let q = p + c0;
        assert forall|j: int| o < j < q implies !starts_char(#[trigger] s[j]) by {
            if j >= p {
                assert(c[j - p] == s[j]);
            }
        }
        if q < s.len() {
            assert(c[c0] == s[q]);
            lemma_starts_iff_boundary(s, q);
        }
        assert(char_boundary_at(s, q));
        if p > 0 {
            if q > o {
                lemma_no_long_run(s, o, q);
            }
        } else {
            if n > 0 {
                assert(c[0] == s[0]);
            }
            assert(c0 == 0);
        }
        assert(held + c.subrange(0, c0) =~= s.subrange(o, q));
        let before = s.subrange(o, q);
        if p == 0 {
            assert(o == 0);
        }
        lemma_valid_between(s, o, q);
        let rest = c.subrange(c0, n);
        assert(rest =~= s.subrange(q, p + n));
        assert(held.len() + c0 <= 4);
        if rest.len() == 0 {
            assert(valid_utf8(Seq::<u8>::empty()));
            assert(rest.subrange(0, 0) =~= Seq::<u8>::empty());
            assert(rest.subrange(0, rest.len() as int) =~= Seq::<u8>::empty());
            assert(last_char_start(rest, rest.len() as int) == 0);
            assert(receive_spec(held, c) == (before, Seq::<u8>::empty(), Seq::<u8>::empty()));
            if n > 0 {
                assert(q == p + n);
                assert(false);
            }
        } else {
            assert(rest[0] == s[q]);
            lemma_last_char_start_shape(rest, rest.len() as int);
            let end = last_char_start(rest, rest.len() as int);
            let q2 = q + end;
            assert(rest[end] == s[q2]);
            lemma_starts_iff_boundary(s, q2);
            assert(rest.subrange(0, end) =~= s.subrange(q, q2));
            lemma_valid_between(s, q, q2);
            assert forall|j: int| q2 < j < p + n implies !starts_char(#[trigger] s[j]) by {
                assert(rest[j - q] == s[j]);
            }
            if p + n > q2 + 1 {
                lemma_no_long_run(s, q2, p + n);
            }
            assert(rest.subrange(end, rest.len() as int) =~= s.subrange(q2, p + n));
            assert(held_start(s, q2, p + n));
            assert(receive_fits(held, c));
            assert(receive_spec(held, c) == (before, s.subrange(q, q2), s.subrange(q2, p + n)));
        }
    }
}

proof fn lemma_concat_prefix(cs: Seq<Seq<u8>>, k: int)
    requires
        0 <= k <= cs.len(),
    ensures
        concat(cs.subrange(0, k)).len() <= concat(cs).len(),
        concat(cs).subrange(0, concat(cs.subrange(0, k)).len() as int) == concat(cs.subrange(0, k)),
    decreases cs.len() - k,
{
    if k == cs.len() {
        assert(cs.subrange(0, k) =~= cs);
        assert(concat(cs).subrange(0, concat(cs).len() as int) =~= concat(cs));
    } else {
        lemma_concat_prefix(cs, k + 1);
        let a = cs.subrange(0, k);
        let b = cs.subrange(0, k + 1);
        assert(b.drop_last() =~= a);
        assert(concat(b) == concat(a) + cs[k]);
        assert(concat(cs).subrange(0, concat(a).len() as int) =~= concat(b).subrange(0, concat(a).len() as int));
        assert(concat(b).subrange(0, concat(a).len() as int) =~= concat(a));
    }
}

proof fn lemma_stream_state(s: Seq<u8>, cs: Seq<Seq<u8>>, k: int)
    requires
        valid_utf8(s),
        concat(cs) == s,
        forall|i: int| 0 <= i < cs.len() ==> (#[trigger] cs[i]).len() > 0,
        0 <= k <= cs.len(),
    ensures
        stream_fits(Seq::empty(), cs.subrange(0, k)),
        stream_pieces_valid(Seq::empty(), cs.subrange(0, k)),
        exists|o: int|
            #[trigger] held_start(s, o, concat(cs.subrange(0, k)).len() as int) && stream(Seq::empty(), cs.subrange(0, k)).1
                == s.subrange(o, concat(cs.subrange(0, k)).len() as int),
    decreases k,
{
    let pre = cs.subrange(0, k);
    lemma_concat_prefix(cs, k);
    if k == 0 {
        assert(pre =~= Seq::<Seq<u8>>::empty());
        assert(held_start(s, 0, 0));
        assert(s.subrange(0, 0) =~= Seq::<u8>::empty());
    } else {
        lemma_stream_state(s, cs, k - 1);
        let pre0 = cs.subrange(0, k - 1);
        lemma_concat_prefix(cs, k - 1);
        let p0 = concat(pre0).len() as int;
        let o = choose|o: int| #[trigger] held_start(s, o, p0) && stream(Seq::empty(), pre0).1 == s.subrange(o, p0);
        let chunk = cs[k - 1];
        let n = chunk.len() as int;
        assert(pre.drop_last() =~= pre0);
        assert(pre.last() == chunk);
        assert(concat(pre) == concat(pre0) + chunk);
        assert(concat(pre).len() == p0 + n);
        assert(s.subrange(0, p0 + n) == concat(pre));
        assert forall|j: int| 0 <= j < n implies chunk[j] == s.subrange(p0, p0 + n)[j] by {
            assert(concat(pre)[p0 + j] == chunk[j]);
            assert(s.subrange(0, p0 + n)[p0 + j] == s[p0 + j]);
        }
        assert(chunk =~= s.subrange(p0, p0 + n));
        lemma_receive_step(s, o, p0, n);
        let o2 = choose|o2: int| #[trigger] held_start(s, o2, p0 + n) && receive_spec(s.subrange(o, p0), s.subrange(p0, p0 + n)).2
            == s.subrange(o2, p0 + n);
        assert(held_start(s, o2, concat(pre).len() as int));
    }
}

/// Any valid UTF-8 text, split into chunks anywhere and streamed through
/// the reassembler, then ended with an empty chunk, comes out whole:
/// nothing is dropped, every piece given out is valid UTF-8, and the pieces
/// in order are the text.
pub proof fn lemma_utf8_stream_round_trip(s: Seq<u8>, cs: Seq<Seq<u8>>)
    requires
        valid_utf8(s),
        concat(cs) == s,
        forall|i: int| 0 <= i < cs.len() ==> (#[trigger] cs[i]).len() > 0,
    ensures
        stream_fits(Seq::empty(), cs.push(Seq::empty())),
        stream_pieces_valid(Seq::empty(), cs.push(Seq::empty())),
        stream(Seq::empty(), cs.push(Seq::empty())).0 == s,
        stream(Seq::empty(), cs.push(Seq::empty())).1.len() == 0,
{
    let all = cs.push(Seq::<u8>::empty());
    lemma_stream_state(s, cs, cs.len() as int);
    assert(cs.subrange(0, cs.len() as int) =~= cs);
    let o = choose|o: int| #[trigger] held_start(s, o, concat(cs).len() as int) && stream(Seq::empty(), cs).1 == s.subrange(
        o,
        concat(cs).len() as int,
    );
    lemma_receive_step(s, o, s.len() as int, 0);
    assert(all.drop_last() =~= cs);
    assert(s.subrange(s.len() as int, s.len() as int) =~= Seq::<u8>::empty());
    lemma_stream_keeps_bytes(Seq::empty(), all);
    assert(concat(all) =~= concat(cs) + Seq::<u8>::empty());
    assert(stream(Seq::empty(), all).0 + stream(Seq::empty(), all).1 =~= s);
    assert(stream(Seq::empty(), all).0 =~= s);
}

} // verus!
