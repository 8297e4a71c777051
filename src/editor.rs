use vstd::prelude::*;

use crate::editor_utils::{string_clear, string_pop, string_push};
use crate::builtins::ModeKind;
use crate::platform::Key;

verus! {

/// What the editor loop does after a tick.
#[derive(Clone, Copy, Debug, PartialEq, Eq, Structural)]
pub enum EditorLoop {
    Quit,
    QuitAll,
    Continue,
}

impl EditorLoop {
    /// Whether the loop stops, for this client or for all.
    pub fn is_quit(self) -> (r: bool)
        ensures
            r == (self == EditorLoop::Quit || self == EditorLoop::QuitAll),
    {
        match self {
            EditorLoop::Quit | EditorLoop::QuitAll => true,
            EditorLoop::Continue => false,
        }
    }
}

#[derive(Clone, Copy, Debug, PartialEq, Eq, Structural)]
pub enum StatusMessageKind {
    Info,
    Error,
}

/// Reads keys in order from a log of buffered keys; reads past the end give `Key::NoKey`.
pub struct KeysIterator<'a> {
    keys: &'a [Key],
    index: usize,
}

impl<'a> KeysIterator<'a> {
    pub closed spec fn keys(&self) -> Seq<Key> {
        self.keys@
    }

    /// The index of the next key to read.
    pub closed spec fn index(&self) -> int {
        self.index as int
    }

    pub fn new(keys: &'a [Key]) -> (r: KeysIterator<'a>)
        ensures
            r.keys() == keys@,
            r.index() == 0,
    {
        KeysIterator { keys, index: 0 }
    }

    pub fn next(&mut self) -> (r: Key)
        requires
            old(self).index() <= old(self).keys().len(),
        ensures
            final(self).keys() == old(self).keys(),
            final(self).index() <= final(self).keys().len(),
            old(self).index() < old(self).keys().len() ==> r == old(self).keys()[old(self).index()]
                && final(self).index() == old(self).index() + 1,
            old(self).index() == old(self).keys().len() ==> r == Key::NoKey && final(self).index() == old(self).index(),
    {
        if self.index < self.keys.len() {
            let next = self.keys[self.index];
            self.index = self.index + 1;
            next
        } else {
            Key::NoKey
        }
    }

    /// Steps back over the last key read, so that it is read again.
    pub fn put_back(&mut self)
        ensures
            final(self).keys() == old(self).keys(),
            final(self).index() == if old(self).index() > 0 {
                old(self).index() - 1
            } else {
                0
            },
    {
        if self.index > 0 {
            self.index = self.index - 1;
        }
    }
}

#[derive(Clone, Copy, Debug, PartialEq, Eq, Structural)]
pub enum InputPollResult {
    Pending,
    Submited,
    Canceled,
}

/// The start of the run of characters before `end` that are spaces
/// (`space`) or are not.
pub open spec fn space_run(s: Seq<char>, end: int, space: bool) -> int
    decreases end,
{
    if end <= 0 || end > s.len() {
        if end > s.len() { s.len() as int } else { 0 }
    } else if (s[end - 1] == ' ') == space {
        space_run(s, end - 1, space)
    } else {
        end
    }
}

/// How long input `s` is once Ctrl-W deletes its last word and the spaces before it.
pub open spec fn without_last_spaced_word(s: Seq<char>) -> int {
    space_run(s, space_run(s, s.len() as int, false), true)
}

/// The input after key `key` in a mode that reads a line.
pub open spec fn input_after(key: Key, input: Seq<char>) -> Seq<char> {
    if key == Key::Esc || key == Key::Ctrl('c') || key == Key::Ctrl('u') {
        Seq::empty()
    } else if key == Key::Ctrl('w') {
        input.subrange(0, without_last_spaced_word(input))
    } else if key == Key::Ctrl('h') {
        if input.len() > 0 {
            input.drop_last()
        } else {
            input
        }
    } else {
        match key {
            Key::Char(c) => input.push(c),
            _ => input,
        }
    }
}

/// What a mode that reads a line reports after key `key`.
pub open spec fn poll_after(key: Key) -> InputPollResult {
    if key == Key::Esc || key == Key::Ctrl('c') {
        InputPollResult::Canceled
    } else if key == Key::Ctrl('m') {
        InputPollResult::Submited
    } else {
        InputPollResult::Pending
    }
}

proof fn lemma_space_run_bounds(s: Seq<char>, end: int, space: bool)
    requires
        0 <= end <= s.len(),
    ensures
        0 <= space_run(s, end, space) <= end,
    decreases end,
{
    if end > 0 && (s[end - 1] == ' ') == space {
        lemma_space_run_bounds(s, end - 1, space);
    }
}

proof fn lemma_space_run_prefix(s: Seq<char>, n: int, end: int, space: bool)
    requires
        0 <= end <= n <= s.len(),
    ensures
        space_run(s.subrange(0, n), end, space) == space_run(s, end, space),
    decreases end,
{
    if end > 0 {
        assert(s.subrange(0, n)[end - 1] == s[end - 1]);
        lemma_space_run_prefix(s, n, end - 1, space);
    }
}

/// Deletes the run of spaces (`space`), or of other characters, at the end of `input`.
fn delete_trailing_spaces(input: &mut String, space: bool)
    ensures
        final(input)@ == old(input)@.subrange(0, space_run(old(input)@, old(input)@.len() as int, space)),
{
    let ghost start = input@;
    loop
        invariant
            start == old(input)@,
            input@.len() <= start.len(),
            input@ == start.subrange(0, input@.len() as int),
            space_run(start, start.len() as int, space) == space_run(start, input@.len() as int, space),
        decreases input@.len(),
    {
        let ghost before = input@;
        match string_pop(input) {
            None => {
                return;
            },
            Some(c) => {
                if (c == ' ') != space {
                    string_push(input, c);
                    assert(input@ =~= before);
                    return;
                }
                assert(input@ =~= start.subrange(0, input@.len() as int));
            },
        }
    }
}

/// Reads the next key into a line of input: Esc or Ctrl-C cancels and
/// clears it, Ctrl-M submits it, Ctrl-U clears it, Ctrl-W deletes the last
/// word and the spaces before it, Ctrl-H deletes the last character, and a
/// character is appended.
pub fn poll_input(input: &mut String, keys: &mut KeysIterator) -> (r: InputPollResult)
    requires
        old(keys).index() <= old(keys).keys().len(),
    ensures
        final(keys).keys() == old(keys).keys(),
        final(keys).index() <= final(keys).keys().len(),
        old(keys).index() < old(keys).keys().len() ==> final(keys).index() == old(keys).index() + 1,
        old(keys).index() == old(keys).keys().len() ==> final(keys).index() == old(keys).index(),
        ({
            let key = if old(keys).index() < old(keys).keys().len() {
                old(keys).keys()[old(keys).index()]
            } else {
                Key::NoKey
            };
            &&& r == poll_after(key)
            &&& final(input)@ == input_after(key, old(input)@)
        }),
{
    let key = keys.next();
    match key {
        Key::Esc | Key::Ctrl('c') => {
            string_clear(input);
            InputPollResult::Canceled
        },
        Key::Ctrl('m') => InputPollResult::Submited,
        Key::Ctrl('u') => {
            string_clear(input);
            InputPollResult::Pending
        },
        Key::Ctrl('w') => {
            let ghost s0 = input@;
            delete_trailing_spaces(input, false);
            proof {
                let t1 = space_run(s0, s0.len() as int, false);
                lemma_space_run_bounds(s0, s0.len() as int, false);
                lemma_space_run_prefix(s0, t1, t1, true);
            }
            delete_trailing_spaces(input, true);
            proof {
                let t1 = space_run(s0, s0.len() as int, false);
                let t2 = space_run(s0, t1, true);
                lemma_space_run_bounds(s0, t1, true);
                assert(s0.subrange(0, t1).subrange(0, t2) =~= s0.subrange(0, t2));
            }
            InputPollResult::Pending
        },
        Key::Ctrl('h') => {
            let _ = string_pop(input);
            InputPollResult::Pending
        },
        Key::Char(c) => {
            string_push(input, c);
            InputPollResult::Pending
        },
        _ => InputPollResult::Pending,
    }
}

/// A key binding of a mode: typing `from` stands for typing `to`.
pub struct KeyMap {
    pub mode: ModeKind,
    pub from: Vec<Key>,
    pub to: Vec<Key>,
}

/// What the buffered keys are to the bindings of a mode.
pub enum MatchResult<'a> {
    NoMatch,
    Prefix,
    ReplaceWith(&'a [Key]),
}

/// `keys` is the start of `from`.
pub open spec fn starts(keys: Seq<Key>, from: Seq<Key>) -> bool {
    keys.len() <= from.len() && from.subrange(0, keys.len() as int) == keys
}

/// The index of the first binding of `mode` from `i` on whose keys are `keys`, or -1.
pub open spec fn exact_binding(maps: Seq<KeyMap>, mode: ModeKind, keys: Seq<Key>, i: int) -> int
    decreases maps.len() - i,
{
    if i < 0 || i >= maps.len() {
        -1
    } else if maps[i].mode == mode && maps[i].from@ == keys {
        i
    } else {
        exact_binding(maps, mode, keys, i + 1)
    }
}

/// Some binding of `mode` starts with `keys`.
pub open spec fn has_prefix(maps: Seq<KeyMap>, mode: ModeKind, keys: Seq<Key>) -> bool {
    exists|i: int| 0 <= i < maps.len() && maps[i].mode == mode && starts(keys, #[trigger] maps[i].from@)
}

fn keys_equal(a: &[Key], b: &[Key]) -> (r: bool)
    ensures
        r == (a@ == b@),
{
    if a.len() != b.len() {
        return false;
    }
    let mut i: usize = 0;
    while i < a.len()
        invariant
            a@.len() == b@.len(),
            i <= a@.len(),
            a@.subrange(0, i as int) == b@.subrange(0, i as int),
        decreases a@.len() - i,
    {
        if a[i] != b[i] {
            assert(a@[i as int] != b@[i as int]);
            return false;
        }
        assert(a@.subrange(0, i + 1) =~= a@.subrange(0, i as int).push(a@[i as int]));
        assert(b@.subrange(0, i + 1) =~= b@.subrange(0, i as int).push(b@[i as int]));
        i = i + 1;
    }
    assert(a@ =~= a@.subrange(0, i as int));
    assert(b@ =~= b@.subrange(0, i as int));
    true
}

/// The key bindings of all modes.
pub struct KeyMapCollection {
    maps: Vec<KeyMap>,
}

impl KeyMapCollection {
    pub closed spec fn bindings(&self) -> Seq<KeyMap> {
        self.maps@
    }

    pub fn new() -> (r: KeyMapCollection)
        ensures
            r.bindings().len() == 0,
    {
        KeyMapCollection { maps: Vec::new() }
    }

    /// Binds `from` to `to` in `mode`, after the bindings already made.
    pub fn add(&mut self, mode: ModeKind, from: Vec<Key>, to: Vec<Key>)
        ensures
            final(self).bindings().len() == old(self).bindings().len() + 1,
            final(self).bindings().drop_last() == old(self).bindings(),
            final(self).bindings().last().mode == mode,
            final(self).bindings().last().from@ == from@,
            final(self).bindings().last().to@ == to@,
    {
        self.maps.push(KeyMap { mode, from, to });
        assert(self.maps@.drop_last() =~= old(self).maps@);
    }

    /// Matches the buffered `keys` against the bindings of `mode`: the keys
    /// of the first binding whose keys they are; else whether they start a binding.
    pub fn matches(&self, mode: ModeKind, keys: &[Key]) -> (r: MatchResult<'_>)
        ensures
            ({
                let k = exact_binding(self.bindings(), mode, keys@, 0);
                match r {
                    MatchResult::ReplaceWith(to) => k >= 0 && to@ == self.bindings()[k].to@,
                    MatchResult::Prefix => k < 0 && has_prefix(self.bindings(), mode, keys@),
                    MatchResult::NoMatch => k < 0 && !has_prefix(self.bindings(), mode, keys@),
                }
            }),
    {
        let ghost maps = self.maps@;
        let mut prefix = false;
        let mut i: usize = 0;
        while i < self.maps.len()
            invariant
                i <= maps.len(),
                maps == self.maps@,
                exact_binding(maps, mode, keys@, 0) == exact_binding(maps, mode, keys@, i as int),
                prefix == exists|j: int| 0 <= j < i && maps[j].mode == mode && starts(keys@, #[trigger] maps[j].from@),
            decreases maps.len() - i,
        {
            let m = &self.maps[i];
            if m.mode == mode {
                if keys_equal(m.from.as_slice(), keys) {
                    return MatchResult::ReplaceWith(m.to.as_slice());
                }
                if keys.len() <= m.from.len() {
                    let (head, _) = m.from.as_slice().split_at(keys.len());
                    if keys_equal(head, keys) {
                        prefix = true;
                        assert(starts(keys@, maps[i as int].from@));
                    }
                }
            }
            i = i + 1;
        }
        if prefix {
            MatchResult::Prefix
        } else {
            MatchResult::NoMatch
        }
    }
}

/// Adds `key` to the buffered keys of a client and applies the bindings of
/// `mode`: returns whether the keys are ready for the mode, which they are
/// not while they only start a binding. Keys that are a binding's are
/// replaced by what it stands for.
pub fn buffer_key(buffered: &mut Vec<Key>, keymaps: &KeyMapCollection, mode: ModeKind, key: Key) -> (r: bool)
    ensures
        ({
            let pushed = old(buffered)@.push(key);
            let k = exact_binding(keymaps.bindings(), mode, pushed, 0);
            &&& k >= 0 ==> r && final(buffered)@ == keymaps.bindings()[k].to@
            &&& k < 0 && has_prefix(keymaps.bindings(), mode, pushed) ==> !r && final(buffered)@ == pushed
            &&& k < 0 && !has_prefix(keymaps.bindings(), mode, pushed) ==> r && final(buffered)@ == pushed
        }),
{
    buffered.push(key);
    let replacement: Option<Vec<Key>> = match keymaps.matches(mode, buffered.as_slice()) {
        MatchResult::NoMatch => None,
        MatchResult::Prefix => {
            return false;
        },
        MatchResult::ReplaceWith(to) => {
            let mut v: Vec<Key> = Vec::new();
            let mut i: usize = 0;
            while i < to.len()
                invariant
                    i <= to@.len(),
                    v@ == to@.subrange(0, i as int),
                decreases to@.len() - i,
            {
                v.push(to[i]);
                i = i + 1;
                assert(v@ =~= to@.subrange(0, i as int));
            }
            assert(to@.subrange(0, to@.len() as int) =~= to@);
            Some(v)
        },
    };
    if let Some(v) = replacement {
        *buffered = v;
    }
    true
}

/// What a mode reports after it consumed keys.
#[derive(Clone, Copy, Debug, PartialEq, Eq, Structural)]
pub enum ModeOperation {
    Pending,
    Proceed,
    Quit,
    QuitAll,
    EnterMode(ModeKind),
}

/// What the editor loop does after a mode operation: stop reading keys this
/// tick with the loop result, or go on reading.
#[derive(Clone, Copy, Debug, PartialEq, Eq, Structural)]
pub enum KeyStep {
    Stop(EditorLoop),
    Next,
}

/// Applies mode operation `op` to the buffered keys, of which the modes
/// consumed the first `consumed`, and to the current mode: a pending mode
/// keeps the keys not yet consumed for the next tick; quitting clears them;
/// entering a mode switches to it; otherwise the next key is read, and once
/// none is left the keys are cleared.
pub fn on_mode_operation(op: ModeOperation, buffered: &mut Vec<Key>, consumed: usize, mode: &mut ModeKind, keys_left: bool) -> (r: KeyStep)
    requires
        consumed <= old(buffered)@.len(),
    ensures
        op == ModeOperation::Pending ==> r == KeyStep::Stop(EditorLoop::Continue)
            && final(buffered)@ == old(buffered)@.subrange(consumed as int, old(buffered)@.len() as int)
            && *final(mode) == *old(mode),
        op == ModeOperation::Quit ==> r == KeyStep::Stop(EditorLoop::Quit) && final(buffered)@.len() == 0
            && *final(mode) == *old(mode),
        op == ModeOperation::QuitAll ==> r == KeyStep::Stop(EditorLoop::QuitAll) && final(buffered)@.len() == 0
            && *final(mode) == *old(mode),
        op matches ModeOperation::EnterMode(next) ==> *final(mode) == next,
        op == ModeOperation::Proceed ==> *final(mode) == *old(mode),
        (op == ModeOperation::Proceed || op is EnterMode) ==> (if keys_left {
            r == KeyStep::Next && final(buffered)@ == old(buffered)@
        } else {
            r == KeyStep::Stop(EditorLoop::Continue) && final(buffered)@.len() == 0
        }),
{
    match op {
        ModeOperation::Pending => {
            let rest = buffered.split_off(consumed);
            *buffered = rest;
            return KeyStep::Stop(EditorLoop::Continue);
        },
        ModeOperation::Quit => {
            buffered.clear();
            return KeyStep::Stop(EditorLoop::Quit);
        },
        ModeOperation::QuitAll => {
            buffered.clear();
            return KeyStep::Stop(EditorLoop::QuitAll);
        },
        ModeOperation::EnterMode(next) => {
            *mode = next;
        },
        ModeOperation::Proceed => {},
    }
    if keys_left {
        KeyStep::Next
    } else {
        buffered.clear();
        KeyStep::Stop(EditorLoop::Continue)
    }
}

} // verus!
