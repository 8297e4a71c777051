use vstd::prelude::*;
use vstd::string::StringSliceAdditionalSpecFns;

use crate::buffer::{push_bytes, slot_modified, BufferCollection, BufferHandle};
use crate::word_database::WordDatabase;

verus! {

/// Whether `b` is ASCII whitespace: space, tab, line feed, form feed or carriage return.
pub open spec fn is_ascii_space(b: u8) -> bool {
    b == 0x20 || b == 0x09 || b == 0x0a || b == 0x0c || b == 0x0d
}

/// Bytes skipped between tokens: whitespace and the line-continuation backslash.
pub open spec fn is_blank(b: u8) -> bool {
    is_ascii_space(b) || b == 0x5c
}

/// Bytes that end a text or flag token.
pub open spec fn is_separator(b: u8) -> bool {
    is_ascii_space(b) || b == 0x3d || b == 0x21 || b == 0x22 || b == 0x27
}

/// The first index at or after `i` that holds no blank byte, or `t.len()`.
pub open spec fn skip_blank(t: Seq<u8>, i: int) -> int
    decreases t.len() - i,
{
    if i >= t.len() {
        t.len() as int
    } else if is_blank(t[i]) {
        skip_blank(t, i + 1)
    } else {
        i
    }
}

/// The first index at or after `i` that holds a separator, or `t.len()`.
pub open spec fn find_separator(t: Seq<u8>, i: int) -> int
    decreases t.len() - i,
{
    if i >= t.len() {
        t.len() as int
    } else if is_separator(t[i]) {
        i
    } else {
        find_separator(t, i + 1)
    }
}

/// The first index at or after `i` that holds `b`, or `t.len()`.
pub open spec fn find_byte(t: Seq<u8>, b: u8, i: int) -> int
    decreases t.len() - i,
{
    if i >= t.len() {
        t.len() as int
    } else if t[i] == b {
        i
    } else {
        find_byte(t, b, i + 1)
    }
}

#[derive(Clone, Copy, Debug, PartialEq, Eq, Structural)]
pub enum CommandTokenKind {
    Text,
    Flag,
    Equals,
    Bang,
    Unterminated,
}

/// A token of a command: its kind and the bytes `from..to` of the command it covers.
#[derive(Clone, Copy, Debug, PartialEq, Eq, Structural)]
pub struct CommandToken {
    pub kind: CommandTokenKind,
    pub from: usize,
    pub to: usize,
}

/// The token that starts at or after index `i` of `t`, and the index where
/// the rest of `t` starts; none where only blanks are left.
pub open spec fn next_token(t: Seq<u8>, i: int) -> Option<(CommandToken, int)> {
    let j = skip_blank(t, i);
    if j >= t.len() {
        None
    } else {
        let b = t[j];
        if b == 0x2d {
            let end = find_separator(t, j + 1);
            Some((CommandToken { kind: CommandTokenKind::Flag, from: (j + 1) as usize, to: end as usize }, end))
        } else if b == 0x22 || b == 0x27 {
            let end = find_byte(t, b, j + 1);
            if end < t.len() {
                Some((CommandToken { kind: CommandTokenKind::Text, from: (j + 1) as usize, to: end as usize }, end + 1))
            } else {
                Some((CommandToken { kind: CommandTokenKind::Unterminated, from: (j + 1) as usize, to: end as usize }, end))
            }
        } else if b == 0x3d {
            Some((CommandToken { kind: CommandTokenKind::Equals, from: j as usize, to: (j + 1) as usize }, j + 1))
        } else if b == 0x21 {
            Some((CommandToken { kind: CommandTokenKind::Bang, from: j as usize, to: (j + 1) as usize }, j + 1))
        } else {
            let end = find_separator(t, j);
            Some((CommandToken { kind: CommandTokenKind::Text, from: j as usize, to: end as usize }, end))
        }
    }
}

/// The tokens of `t` from index `i` on.
pub open spec fn tokens_from(t: Seq<u8>, i: int) -> Seq<CommandToken>
    decreases t.len() - i,
{
    match next_token(t, i) {
        None => Seq::empty(),
        Some((tok, rest)) => if i < rest <= t.len() {
            seq![tok] + tokens_from(t, rest)
        } else {
            Seq::empty()
        },
    }
}

/// The tokens of command `t`.
pub open spec fn tokens(t: Seq<u8>) -> Seq<CommandToken> {
    tokens_from(t, 0)
}

/// Every token of `toks` covers bytes that lie within `t`.
pub open spec fn tokens_within(t: Seq<u8>, toks: Seq<CommandToken>) -> bool {
    forall|k: int| 0 <= k < toks.len() ==> (#[trigger] toks[k]).from <= toks[k].to <= t.len()
}

proof fn lemma_skip_blank(t: Seq<u8>, i: int)
    requires
        0 <= i <= t.len(),
    ensures
        i <= skip_blank(t, i) <= t.len(),
        skip_blank(t, i) < t.len() ==> !is_blank(t[skip_blank(t, i)]),
    decreases t.len() - i,
{
    if i < t.len() && is_blank(t[i]) {
        lemma_skip_blank(t, i + 1);
    }
}

proof fn lemma_find_separator(t: Seq<u8>, i: int)
    requires
        0 <= i <= t.len(),
    ensures
        i <= find_separator(t, i) <= t.len(),
    decreases t.len() - i,
{
    if i < t.len() && !is_separator(t[i]) {
        lemma_find_separator(t, i + 1);
    }
}

proof fn lemma_find_byte(t: Seq<u8>, b: u8, i: int)
    requires
        0 <= i <= t.len(),
    ensures
        i <= find_byte(t, b, i) <= t.len(),
    decreases t.len() - i,
{
    if i < t.len() && t[i] != b {
        lemma_find_byte(t, b, i + 1);
    }
}

pub proof fn lemma_next_token(t: Seq<u8>, i: int)
    requires
        0 <= i <= t.len() <= usize::MAX,
    ensures
        next_token(t, i) matches Some((tok, rest)) ==> tok.from <= tok.to <= t.len() && i < rest <= t.len(),
{
    lemma_skip_blank(t, i);
    let j = skip_blank(t, i);
    if j < t.len() {
        lemma_find_separator(t, j + 1);
        lemma_find_separator(t, j);
        lemma_find_byte(t, t[j], j + 1);
        assert(!is_blank(t[j]));
        let b = t[j];
        if !(b == 0x2d || b == 0x22 || b == 0x27 || b == 0x3d || b == 0x21) {
            assert(!is_separator(b));
            assert(find_separator(t, j) == find_separator(t, j + 1));
        }
    }
}

/// Every token lies within the command it was read from.
pub proof fn lemma_tokens_within(t: Seq<u8>, i: int)
    requires
        0 <= i <= t.len() <= usize::MAX,
    ensures
        tokens_within(t, tokens_from(t, i)),
    decreases t.len() - i,
{
    lemma_next_token(t, i);
    if let Some((tok, rest)) = next_token(t, i) {
        lemma_tokens_within(t, rest);
        let toks = tokens_from(t, i);
        assert forall|k: int| 0 <= k < toks.len() implies (#[trigger] toks[k]).from <= toks[k].to <= t.len() by {
            if k > 0 {
                assert(toks[k] == tokens_from(t, rest)[k - 1]);
            }
        }
    }
}

fn is_blank_byte(b: u8) -> (r: bool)
    ensures
        r == is_blank(b),
{
    b == 0x20 || b == 0x09 || b == 0x0a || b == 0x0c || b == 0x0d || b == 0x5c
}

fn is_separator_byte(b: u8) -> (r: bool)
    ensures
        r == is_separator(b),
{
    b == 0x20 || b == 0x09 || b == 0x0a || b == 0x0c || b == 0x0d || b == 0x3d || b == 0x21 || b == 0x22
        || b == 0x27
}

/// Reads the token at or after index `i` of `t`; also returns where the rest starts.
pub fn read_token(t: &[u8], i: usize) -> (r: Option<(CommandToken, usize)>)
    requires
        i <= t@.len(),
    ensures
        r matches Some((tok, rest)) ==> next_token(t@, i as int) == Some((tok, rest as int)),
        r.is_none() ==> next_token(t@, i as int).is_none(),
{
    let mut j = i;
    while j < t.len() && is_blank_byte(t[j])
        invariant
            i <= j <= t@.len(),
            skip_blank(t@, i as int) == skip_blank(t@, j as int),
        decreases t@.len() - j,
    {
        j = j + 1;
    }
    if j >= t.len() {
        return None;
    }
    let b = t[j];
    if b == 0x2d {
        let end = separator_from(t, j + 1);
        Some((CommandToken { kind: CommandTokenKind::Flag, from: j + 1, to: end }, end))
    } else if b == 0x22 || b == 0x27 {
        let mut end = j + 1;
        while end < t.len() && t[end] != b
            invariant
                j < end <= t@.len(),
                find_byte(t@, b, j + 1) == find_byte(t@, b, end as int),
            decreases t@.len() - end,
        {
            end = end + 1;
        }
        if end < t.len() {
            Some((CommandToken { kind: CommandTokenKind::Text, from: j + 1, to: end }, end + 1))
        } else {
            Some((CommandToken { kind: CommandTokenKind::Unterminated, from: j + 1, to: end }, end))
        }
    } else if b == 0x3d {
        Some((CommandToken { kind: CommandTokenKind::Equals, from: j, to: j + 1 }, j + 1))
    } else if b == 0x21 {
        Some((CommandToken { kind: CommandTokenKind::Bang, from: j, to: j + 1 }, j + 1))
    } else {
        let end = separator_from(t, j);
        Some((CommandToken { kind: CommandTokenKind::Text, from: j, to: end }, end))
    }
}

fn separator_from(t: &[u8], i: usize) -> (r: usize)
    requires
        i <= t@.len(),
    ensures
        r == find_separator(t@, i as int),
{
    let mut k = i;
    while k < t.len() && !is_separator_byte(t[k])
        invariant
            i <= k <= t@.len(),
            find_separator(t@, i as int) == find_separator(t@, k as int),
        decreases t@.len() - k,
    {
        k = k + 1;
    }
    k
}

/// All tokens of command `t`.
pub fn tokenize(t: &[u8]) -> (r: Vec<CommandToken>)
    ensures
        r@ == tokens(t@),
        tokens_within(t@, r@),
{
    let mut out: Vec<CommandToken> = Vec::new();
    let mut i: usize = 0;
    let _ = t.len();
    proof {
        lemma_tokens_within(t@, 0);
    }
    loop
        invariant
            i <= t@.len() <= usize::MAX,
            tokens_within(t@, tokens(t@)),
            out@ + tokens_from(t@, i as int) == tokens(t@),
        decreases t@.len() - i,
    {
        proof {
            lemma_next_token(t@, i as int);
        }
        match read_token(t, i) {
            None => {
                assert(out@ + tokens_from(t@, i as int) =~= out@);
                return out;
            },
            Some((tok, rest)) => {
                assert(tokens_from(t@, i as int) == seq![tok] + tokens_from(t@, rest as int));
                out.push(tok);
                assert(out@ + tokens_from(t@, rest as int) =~= tokens(t@));
                i = rest;
            },
        }
    }
}

/// The most values a command with extra values takes beyond its required ones.
pub const MAX_OTHER_VALUES_LEN: usize = 8;

/// Where the names a command argument completes from come from.
pub enum CompletionSource {
    Files,
    Buffers,
    Commands,
    Custom(Vec<&'static str>),
}

/// A command of the table that the parser binds arguments against.
pub struct BuiltinCommand {
    pub names: Vec<&'static str>,
    pub description: &'static str,
    pub bang_usage: Option<&'static str>,
    pub required_values: Vec<(&'static str, Option<CompletionSource>)>,
    pub optional_values: Vec<(&'static str, Option<CompletionSource>)>,
    pub extra_values: Option<(&'static str, Option<CompletionSource>)>,
    pub flags: Vec<(&'static str, Option<CompletionSource>)>,
}

/// What a flag of a parsed command was set to.
#[derive(Clone, Copy, Debug, PartialEq, Eq, Structural)]
pub enum FlagValue {
    Unset,
    True,
    Span(usize, usize),
}

#[derive(Clone, Copy, Debug, PartialEq, Eq, Structural)]
pub enum ParseErrorKind {
    InvalidCommandName,
    CommandNotFound,
    CommandDoesNotAcceptBang,
    UnterminatedArgument,
    InvalidArgument,
    TooFewValues,
    TooManyValues,
    UnknownFlag,
    InvalidFlagValue,
}

/// A parse error: its kind, the bytes `from..to` of the command it points
/// at, and the value count it names, if any.
#[derive(Clone, Copy, Debug, PartialEq, Eq, Structural)]
pub struct ParseErrorSpan {
    pub kind: ParseErrorKind,
    pub from: usize,
    pub to: usize,
    pub count: usize,
}

pub open spec fn error_at(kind: ParseErrorKind, tok: CommandToken, count: usize) -> ParseErrorSpan {
    ParseErrorSpan { kind, from: tok.from, to: tok.to, count }
}

/// The bytes of `t` that `tok` covers.
pub open spec fn token_bytes(t: Seq<u8>, tok: CommandToken) -> Seq<u8> {
    t.subrange(tok.from as int, tok.to as int)
}

/// The index of the first name of `names` whose bytes are `w`, or -1.
pub open spec fn name_index(names: Seq<&'static str>, w: Seq<u8>, i: int) -> int
    decreases names.len() - i,
{
    if i < 0 || i >= names.len() {
        -1
    } else if names[i].spec_bytes() == w {
        i
    } else {
        name_index(names, w, i + 1)
    }
}

/// The names of flags `flags`.
pub open spec fn flag_names(flags: Seq<(&'static str, Option<CompletionSource>)>) -> Seq<&'static str> {
    flags.map_values(|f: (&'static str, Option<CompletionSource>)| f.0)
}

/// The index of the first command of `table` with a name whose bytes are `w`, or -1.
pub open spec fn command_index(table: Seq<BuiltinCommand>, w: Seq<u8>, i: int) -> int
    decreases table.len() - i,
{
    if i < 0 || i >= table.len() {
        -1
    } else if name_index(table[i].names@, w, 0) >= 0 {
        i
    } else {
        command_index(table, w, i + 1)
    }
}

/// The most values `cmd` takes beyond its required ones.
pub open spec fn max_other_values(cmd: BuiltinCommand) -> nat {
    if cmd.extra_values.is_some() {
        MAX_OTHER_VALUES_LEN as nat
    } else {
        cmd.optional_values@.len()
    }
}

/// Binds tokens `toks[i..]` of command `t` to `cmd`, with `count` values
/// and the flag values `flags` bound so far; `name` is the command name token.
pub open spec fn bind_from(
    t: Seq<u8>,
    toks: Seq<CommandToken>,
    i: int,
    cmd: BuiltinCommand,
    name: CommandToken,
    values: Seq<CommandToken>,
    flags: Seq<FlagValue>,
) -> Result<(Seq<CommandToken>, Seq<FlagValue>), ParseErrorSpan>
    decreases toks.len() - i,
{
    let min = cmd.required_values@.len();
    if i < 0 || i >= toks.len() {
        if values.len() < min {
            let tok = if values.len() > 0 {
                values[values.len() - 1]
            } else {
                name
            };
            Err(error_at(ParseErrorKind::TooFewValues, tok, min as usize))
        } else {
            Ok((values, flags))
        }
    } else {
        let tok = toks[i];
        match tok.kind {
            CommandTokenKind::Text => {
                if values.len() >= min && values.len() - min >= max_other_values(cmd) {
                    Err(error_at(ParseErrorKind::TooManyValues, tok, (max_other_values(cmd) + min) as usize))
                } else {
                    bind_from(t, toks, i + 1, cmd, name, values.push(tok), flags)
                }
            },
            CommandTokenKind::Flag => {
                let k = name_index(flag_names(cmd.flags@), token_bytes(t, tok), 0);
                if i + 1 < toks.len() && toks[i + 1].kind == CommandTokenKind::Equals {
                    if i + 2 < toks.len() {
                        let v = toks[i + 2];
                        if v.kind == CommandTokenKind::Text {
                            if k < 0 {
                                Err(error_at(ParseErrorKind::UnknownFlag, tok, 0))
                            } else {
                                bind_from(t, toks, i + 3, cmd, name, values, flags.update(k, FlagValue::Span(v.from, v.to)))
                            }
                        } else if v.kind == CommandTokenKind::Unterminated {
                            Err(error_at(ParseErrorKind::UnterminatedArgument, v, 0))
                        } else {
                            Err(error_at(ParseErrorKind::InvalidFlagValue, v, 0))
                        }
                    } else {
                        Err(error_at(ParseErrorKind::InvalidFlagValue, toks[i + 1], 0))
                    }
                } else if k < 0 {
                    Err(error_at(ParseErrorKind::UnknownFlag, tok, 0))
                } else {
                    bind_from(t, toks, i + 1, cmd, name, values, flags.update(k, FlagValue::True))
                }
            },
            CommandTokenKind::Unterminated => Err(error_at(ParseErrorKind::UnterminatedArgument, tok, 0)),
            _ => Err(error_at(ParseErrorKind::InvalidArgument, tok, 0)),
        }
    }
}

/// The first index at or after `i` that holds no ASCII whitespace, or `t.len()`.
pub open spec fn skip_space(t: Seq<u8>, i: int) -> int
    decreases t.len() - i,
{
    if i >= t.len() {
        t.len() as int
    } else if is_ascii_space(t[i]) {
        skip_space(t, i + 1)
    } else {
        i
    }
}

/// A parsed command: the index of its command in the table, whether it
/// carried a bang, its value tokens and the values of its flags.
pub struct ParsedCommand {
    pub command: usize,
    pub bang: bool,
    pub values: Vec<CommandToken>,
    pub flags: Vec<FlagValue>,
}

/// The result of parsing command `t` against `table`: the command index,
/// the bang, the value tokens and the flag values, or the error.
pub open spec fn parse_spec(t: Seq<u8>, table: Seq<BuiltinCommand>) -> Result<
    (int, bool, Seq<CommandToken>, Seq<FlagValue>),
    ParseErrorSpan,
> {
    let toks = tokens(t);
    if toks.len() == 0 {
        Err(ParseErrorSpan { kind: ParseErrorKind::InvalidCommandName, from: skip_space(t, 0) as usize, to: t.len() as usize, count: 0 })
    } else if toks[0].kind != CommandTokenKind::Text {
        Err(error_at(ParseErrorKind::InvalidCommandName, toks[0], 0))
    } else {
        let name = toks[0];
        let bang = toks.len() > 1 && toks[1].kind == CommandTokenKind::Bang && toks[1].from == name.to;
        let index = command_index(table, token_bytes(t, name), 0);
        if index < 0 {
            Err(error_at(ParseErrorKind::CommandNotFound, name, 0))
        } else if bang && table[index].bang_usage.is_none() {
            Err(error_at(ParseErrorKind::CommandDoesNotAcceptBang, name, 0))
        } else {
            let cmd = table[index];
            let start = if bang {
                2int
            } else {
                1int
            };
            match bind_from(t, toks, start, cmd, name, Seq::empty(), Seq::new(cmd.flags@.len(), |k: int| FlagValue::Unset)) {
                Ok((values, flags)) => Ok((index, bang, values, flags)),
                Err(e) => Err(e),
            }
        }
    }
}

/// Whether two strings hold the same bytes.
pub(crate) fn same_bytes(a: &[u8], b: &[u8]) -> (r: bool)
    ensures
        r == (a@ == b@),
{
    if a.len() != b.len() {
        return false;
    }
    let mut i: usize = 0;
    while i < a.len()
        invariant
            a@.len() == b@.len(),
            i <= a@.len(),
            a@.subrange(0, i as int) == b@.subrange(0, i as int),
        decreases a@.len() - i,
    {
        if a[i] != b[i] {
            assert(a@[i as int] != b@[i as int]);
            return false;
        }
        assert(a@.subrange(0, i + 1) =~= a@.subrange(0, i as int).push(a@[i as int]));
        assert(b@.subrange(0, i + 1) =~= b@.subrange(0, i as int).push(b@[i as int]));
        i = i + 1;
    }
    assert(a@ =~= a@.subrange(0, i as int));
    assert(b@ =~= b@.subrange(0, i as int));
    true
}

/// The bytes of `t` from `from` to `to`.
fn sub_bytes<'a>(t: &'a [u8], from: usize, to: usize) -> (r: &'a [u8])
    requires
        from <= to <= t@.len(),
    ensures
        r@ == t@.subrange(from as int, to as int),
{
    let (head, _) = t.split_at(to);
    let (_, r) = head.split_at(from);
    assert(r@ =~= t@.subrange(from as int, to as int));
    r
}

/// The index of the first of `names` whose bytes are `w`, or none.
fn find_name(names: &Vec<&'static str>, w: &[u8]) -> (r: Option<usize>)
    ensures
        r matches Some(i) ==> name_index(names@, w@, 0) == i as int,
        r.is_none() ==> name_index(names@, w@, 0) == -1,
{
    let mut i: usize = 0;
    while i < names.len()
        invariant
            i <= names@.len(),
            name_index(names@, w@, 0) == name_index(names@, w@, i as int),
        decreases names@.len() - i,
    {
        if same_bytes(names[i].as_bytes(), w) {
            return Some(i);
        }
        i = i + 1;
    }
    None
}

/// The index of the first flag of `flags` whose name has the bytes `w`, or none.
fn find_flag(flags: &Vec<(&'static str, Option<CompletionSource>)>, w: &[u8]) -> (r: Option<usize>)
    ensures
        r matches Some(i) ==> name_index(flag_names(flags@), w@, 0) == i as int && i < flags@.len(),
        r.is_none() ==> name_index(flag_names(flags@), w@, 0) == -1,
{
    let ghost names = flag_names(flags@);
    let mut i: usize = 0;
    while i < flags.len()
        invariant
            i <= flags@.len(),
            names == flag_names(flags@),
            name_index(names, w@, 0) == name_index(names, w@, i as int),
        decreases flags@.len() - i,
    {
        assert(names[i as int] == flags@[i as int].0);
        if same_bytes(flags[i].0.as_bytes(), w) {
            return Some(i);
        }
        i = i + 1;
    }
    None
}

/// Binds the tokens `toks[start..]` of command `t` to `cmd`.
fn bind(t: &[u8], toks: &Vec<CommandToken>, start: usize, cmd: &BuiltinCommand, name: CommandToken) -> (r: Result<(Vec<CommandToken>, Vec<FlagValue>), ParseErrorSpan>)
    requires
        start <= toks@.len(),
        tokens_within(t@, toks@),
        name.from <= name.to <= t@.len(),
        cmd.required_values@.len() + MAX_OTHER_VALUES_LEN + cmd.optional_values@.len() <= usize::MAX,
    ensures
        ({
            let init = Seq::new(cmd.flags@.len(), |k: int| FlagValue::Unset);
            match (r, bind_from(t@, toks@, start as int, *cmd, name, Seq::empty(), init)) {
                (Ok((values, flags)), Ok((vs, fs))) => values@ == vs && flags@ == fs,
                (Err(e), Err(e2)) => e == e2,
                _ => false,
            }
        }),
{
    let min = cmd.required_values.len();
    let max_others = match &cmd.extra_values {
        Some(_) => MAX_OTHER_VALUES_LEN,
        None => cmd.optional_values.len(),
    };
    let mut values: Vec<CommandToken> = Vec::new();
    let mut flags: Vec<FlagValue> = Vec::new();
    let mut k: usize = 0;
    while k < cmd.flags.len()
        invariant
            k <= cmd.flags@.len(),
            flags@ == Seq::new(k as nat, |j: int| FlagValue::Unset),
        decreases cmd.flags@.len() - k,
    {
        flags.push(FlagValue::Unset);
        assert(flags@ =~= Seq::new((k + 1) as nat, |j: int| FlagValue::Unset));
        k = k + 1;
    }
    let ghost init = Seq::new(cmd.flags@.len(), |k: int| FlagValue::Unset);
    assert(flags@ =~= init);
    let ghost goal = bind_from(t@, toks@, start as int, *cmd, name, Seq::empty(), flags@);
    assert(goal == bind_from(t@, toks@, start as int, *cmd, name, Seq::empty(), Seq::new(cmd.flags@.len(), |k: int| FlagValue::Unset)));
    assert(values@ =~= Seq::<CommandToken>::empty());
    let mut i = start;
    while i < toks.len()
        invariant
            start <= i <= toks@.len(),
            tokens_within(t@, toks@),
            min == cmd.required_values@.len(),
            max_others == max_other_values(*cmd),
            min + max_others <= usize::MAX,
            flags@.len() == cmd.flags@.len(),
            goal == bind_from(t@, toks@, i as int, *cmd, name, values@, flags@),
            goal == bind_from(t@, toks@, start as int, *cmd, name, Seq::empty(), Seq::new(cmd.flags@.len(), |k: int| FlagValue::Unset)),
        decreases toks@.len() - i,
    {
        let tok = toks[i];
        assert(toks@[i as int] == tok);
        assert(goal == bind_from(t@, toks@, i as int, *cmd, name, values@, flags@));
        match tok.kind {
            CommandTokenKind::Text => {
                if values.len() >= min && values.len() - min >= max_others {
                    return Err(ParseErrorSpan { kind: ParseErrorKind::TooManyValues, from: tok.from, to: tok.to, count: max_others + min });
                }
                values.push(tok);
                i = i + 1;
            },
            CommandTokenKind::Flag => {
                assert(toks@[i as int] == tok);
                let key = sub_bytes(t, tok.from, tok.to);
                let index = find_flag(&cmd.flags, key);
                if i + 1 < toks.len() && toks[i + 1].kind == CommandTokenKind::Equals {
                    if i + 2 < toks.len() {
                        let v = toks[i + 2];
                        if v.kind == CommandTokenKind::Text {
                            match index {
                                None => {
                                    return Err(ParseErrorSpan { kind: ParseErrorKind::UnknownFlag, from: tok.from, to: tok.to, count: 0 });
                                },
                                Some(f) => {
                                    flags.set(f, FlagValue::Span(v.from, v.to));
                                    i = i + 3;
                                },
                            }
                        } else if v.kind == CommandTokenKind::Unterminated {
                            return Err(ParseErrorSpan { kind: ParseErrorKind::UnterminatedArgument, from: v.from, to: v.to, count: 0 });
                        } else {
                            return Err(ParseErrorSpan { kind: ParseErrorKind::InvalidFlagValue, from: v.from, to: v.to, count: 0 });
                        }
                    } else {
                        let e = toks[i + 1];
                        return Err(ParseErrorSpan { kind: ParseErrorKind::InvalidFlagValue, from: e.from, to: e.to, count: 0 });
                    }
                } else {
                    match index {
                        None => {
                            return Err(ParseErrorSpan { kind: ParseErrorKind::UnknownFlag, from: tok.from, to: tok.to, count: 0 });
                        },
                        Some(f) => {
                            flags.set(f, FlagValue::True);
                            i = i + 1;
                        },
                    }
                }
            },
            CommandTokenKind::Unterminated => {
                return Err(ParseErrorSpan { kind: ParseErrorKind::UnterminatedArgument, from: tok.from, to: tok.to, count: 0 });
            },
            _ => {
                return Err(ParseErrorSpan { kind: ParseErrorKind::InvalidArgument, from: tok.from, to: tok.to, count: 0 });
            },
        }
    }
    if values.len() < min {
        let tok = if values.len() > 0 {
            values[values.len() - 1]
        } else {
            name
        };
        return Err(ParseErrorSpan { kind: ParseErrorKind::TooFewValues, from: tok.from, to: tok.to, count: min });
    }
    Ok((values, flags))
}

/// Each command of `table` takes few enough values that their counts fit in `usize`.
pub open spec fn table_fits(table: Seq<BuiltinCommand>) -> bool {
    forall|i: int|
        0 <= i < table.len() ==> (#[trigger] table[i]).required_values@.len() + MAX_OTHER_VALUES_LEN
            + table[i].optional_values@.len() <= usize::MAX
}

fn skip_spaces(t: &[u8]) -> (r: usize)
    ensures
        r == skip_space(t@, 0),
{
    let mut i: usize = 0;
    while i < t.len() && (t[i] == 0x20 || t[i] == 0x09 || t[i] == 0x0a || t[i] == 0x0c || t[i] == 0x0d)
        invariant
            i <= t@.len(),
            skip_space(t@, 0) == skip_space(t@, i as int),
        decreases t@.len() - i,
    {
        i = i + 1;
    }
    i
}

proof fn lemma_skip_space(t: Seq<u8>, i: int)
    requires
        0 <= i <= t.len(),
    ensures
        i <= skip_space(t, i) <= t.len(),
    decreases t.len() - i,
{
    if i < t.len() && is_ascii_space(t[i]) {
        lemma_skip_space(t, i + 1);
    }
}

/// The index in `table` of the command named by bytes `w`, or none.
fn find_command_index(table: &Vec<BuiltinCommand>, w: &[u8]) -> (r: Option<usize>)
    ensures
        r matches Some(i) ==> command_index(table@, w@, 0) == i as int && i < table@.len(),
        r.is_none() ==> command_index(table@, w@, 0) == -1,
{
    let mut i: usize = 0;
    while i < table.len()
        invariant
            i <= table@.len(),
            command_index(table@, w@, 0) == command_index(table@, w@, i as int),
        decreases table@.len() - i,
    {
        if find_name(&table[i].names, w).is_some() {
            return Some(i);
        }
        i = i + 1;
    }
    None
}

/// Parses command `t` against `table`.
pub fn parse_command(t: &[u8], table: &Vec<BuiltinCommand>) -> (r: Result<ParsedCommand, ParseErrorSpan>)
    requires
        table_fits(table@),
    ensures
        match (r, parse_spec(t@, table@)) {
            (Ok(p), Ok((index, bang, values, flags))) => p.command == index && p.bang == bang
                && p.values@ == values && p.flags@ == flags,
            (Err(e), Err(e2)) => e == e2,
            _ => false,
        },
{
    let toks = tokenize(t);
    if toks.len() == 0 {
        return Err(ParseErrorSpan { kind: ParseErrorKind::InvalidCommandName, from: skip_spaces(t), to: t.len(), count: 0 });
    }
    let name = toks[0];
    if name.kind != CommandTokenKind::Text {
        return Err(ParseErrorSpan { kind: ParseErrorKind::InvalidCommandName, from: name.from, to: name.to, count: 0 });
    }
    assert(toks@[0] == name);
    let bang = toks.len() > 1 && toks[1].kind == CommandTokenKind::Bang && toks[1].from == name.to;
    let name_bytes = sub_bytes(t, name.from, name.to);
    let index = match find_command_index(table, name_bytes) {
        Some(i) => i,
        None => {
            return Err(ParseErrorSpan { kind: ParseErrorKind::CommandNotFound, from: name.from, to: name.to, count: 0 });
        },
    };
    let cmd = &table[index];
    if bang && cmd.bang_usage.is_none() {
        return Err(ParseErrorSpan { kind: ParseErrorKind::CommandDoesNotAcceptBang, from: name.from, to: name.to, count: 0 });
    }
    let start: usize = if bang { 2 } else { 1 };
    assert(table@[index as int].required_values@.len() + MAX_OTHER_VALUES_LEN + table@[index as int].optional_values@.len() <= usize::MAX);
    match bind(t, &toks, start, cmd, name) {
        Ok((values, flags)) => Ok(ParsedCommand { command: index, bang, values, flags }),
        Err(e) => Err(e),
    }
}

/// Every flag value of `fs` that is a span lies within `t`.
pub open spec fn flags_within(t: Seq<u8>, fs: Seq<FlagValue>) -> bool {
    forall|k: int| 0 <= k < fs.len() ==> match #[trigger] fs[k] {
        FlagValue::Span(a, b) => a <= b <= t.len(),
        _ => true,
    }
}

proof fn lemma_bind_within(
    t: Seq<u8>,
    toks: Seq<CommandToken>,
    i: int,
    cmd: BuiltinCommand,
    name: CommandToken,
    values: Seq<CommandToken>,
    flags: Seq<FlagValue>,
)
    requires
        tokens_within(t, toks),
        tokens_within(t, values),
        flags_within(t, flags),
        flags.len() == cmd.flags@.len(),
        name.from <= name.to <= t.len(),
    ensures
        bind_from(t, toks, i, cmd, name, values, flags) matches Err(e) ==> e.from <= e.to <= t.len(),
        bind_from(t, toks, i, cmd, name, values, flags) matches Ok((vs, fs)) ==> {
            &&& tokens_within(t, vs)
            &&& flags_within(t, fs)
            &&& vs.len() >= cmd.required_values@.len()
            &&& fs.len() == flags.len()
        },
    decreases toks.len() - i,
{
    if 0 <= i < toks.len() {
        let tok = toks[i];
        assert(tok.from <= tok.to <= t.len());
        if i + 1 < toks.len() {
            assert(toks[i + 1].from <= toks[i + 1].to <= t.len());
        }
        let pushed = values.push(tok);
        assert(tokens_within(t, pushed)) by {
            assert forall|k: int| 0 <= k < pushed.len() implies (#[trigger] pushed[k]).from <= pushed[k].to <= t.len() by {
                if k < values.len() {
                    assert(pushed[k] == values[k]);
                }
            }
        }
        lemma_bind_within(t, toks, i + 1, cmd, name, pushed, flags);
        let k = name_index(flag_names(cmd.flags@), token_bytes(t, tok), 0);
        lemma_name_index_bounds(flag_names(cmd.flags@), token_bytes(t, tok), 0);
        if 0 <= k < flags.len() {
            let f1 = flags.update(k, FlagValue::True);
            assert(flags_within(t, f1)) by {
                assert forall|j: int| 0 <= j < f1.len() implies match #[trigger] f1[j] {
                    FlagValue::Span(a, b) => a <= b <= t.len(),
                    _ => true,
                } by {
                    if j != k {
                        assert(f1[j] == flags[j]);
                    }
                }
            }
            lemma_bind_within(t, toks, i + 1, cmd, name, values, f1);
            if i + 2 < toks.len() {
                let v = toks[i + 2];
                assert(v.from <= v.to <= t.len());
                let f2 = flags.update(k, FlagValue::Span(v.from, v.to));
                assert(flags_within(t, f2)) by {
                    assert forall|j: int| 0 <= j < f2.len() implies match #[trigger] f2[j] {
                        FlagValue::Span(a, b) => a <= b <= t.len(),
                        _ => true,
                    } by {
                        if j != k {
                            assert(f2[j] == flags[j]);
                        }
                    }
                }
                lemma_bind_within(t, toks, i + 3, cmd, name, values, f2);
            }
        } else if i + 2 < toks.len() {
            assert(toks[i + 2].from <= toks[i + 2].to <= t.len());
        }
    } else if values.len() > 0 {
        assert(values[values.len() - 1].from <= values[values.len() - 1].to <= t.len());
    }
}

/// What a successful parse binds lies within the command text.
pub proof fn lemma_parse_within(t: Seq<u8>, table: Seq<BuiltinCommand>)
    requires
        t.len() <= usize::MAX,
    ensures
        parse_spec(t, table) matches Ok((index, bang, values, flags)) ==> {
            &&& 0 <= index < table.len()
            &&& tokens_within(t, values)
            &&& flags_within(t, flags)
            &&& values.len() >= table[index].required_values@.len()
        },
{
    lemma_tokens_within(t, 0);
    let toks = tokens(t);
    if toks.len() > 0 {
        assert(toks[0].from <= toks[0].to <= t.len());
        let w = token_bytes(t, toks[0]);
        lemma_command_index_bounds(table, w, 0);
        let cmd_index = command_index(table, w, 0);
        if cmd_index >= 0 {
            let bang = toks.len() > 1 && toks[1].kind == CommandTokenKind::Bang && toks[1].from == toks[0].to;
            let start = if bang { 2int } else { 1int };
            let cmd = table[cmd_index];
            let init = Seq::new(cmd.flags@.len(), |k: int| FlagValue::Unset);
            assert(tokens_within(t, Seq::<CommandToken>::empty()));
            lemma_bind_within(t, toks, start, cmd, toks[0], Seq::empty(), init);
        }
    }
}

proof fn lemma_name_index_bounds(names: Seq<&'static str>, w: Seq<u8>, i: int)
    requires
        0 <= i,
    ensures
        name_index(names, w, i) == -1 || i <= name_index(names, w, i) < names.len(),
    decreases names.len() - i,
{
    if i < names.len() && names[i].spec_bytes() != w {
        lemma_name_index_bounds(names, w, i + 1);
    }
}

proof fn lemma_command_index_bounds(table: Seq<BuiltinCommand>, w: Seq<u8>, i: int)
    requires
        0 <= i,
    ensures
        command_index(table, w, i) == -1 || i <= command_index(table, w, i) < table.len(),
    decreases table.len() - i,
{
    if i < table.len() && name_index(table[i].names@, w, 0) < 0 {
        lemma_command_index_bounds(table, w, i + 1);
    }
}

/// A parse error always points at bytes that lie within the command text.
pub proof fn lemma_parse_error_within(t: Seq<u8>, table: Seq<BuiltinCommand>)
    requires
        t.len() <= usize::MAX,
    ensures
        parse_spec(t, table) matches Err(e) ==> e.from <= e.to <= t.len(),
{
    lemma_tokens_within(t, 0);
    lemma_skip_space(t, 0);
    let toks = tokens(t);
    if toks.len() > 0 {
        assert(toks[0].from <= toks[0].to <= t.len());
        let cmd_index = command_index(table, token_bytes(t, toks[0]), 0);
        if cmd_index >= 0 {
            let bang = toks.len() > 1 && toks[1].kind == CommandTokenKind::Bang && toks[1].from == toks[0].to;
            let start = if bang { 2int } else { 1int };
            let cmd = table[cmd_index];
            let init = Seq::new(cmd.flags@.len(), |k: int| FlagValue::Unset);
            assert(tokens_within(t, Seq::<CommandToken>::empty()));
            lemma_bind_within(t, toks, start, cmd, toks[0], Seq::empty(), init);
        }
    }
}

/// Parsing depends on the command text and the table alone: the same text
/// parsed against the same table gives the same command, bang, values and flags.
pub proof fn lemma_parse_deterministic(t1: Seq<u8>, t2: Seq<u8>, table: Seq<BuiltinCommand>)
    requires
        t1 == t2,
    ensures
        parse_spec(t1, table) == parse_spec(t2, table),
{
}

/// Scanning a command that starts at `i`: where it ends, and where the text
/// after it starts. A newline ends it, a backslash escapes the next byte,
/// and `#` starts a comment that runs to the end of the line.
pub open spec fn command_end(t: Seq<u8>, i: int) -> (int, int)
    decreases t.len() - i,
{
    if i >= t.len() {
        (t.len() as int, t.len() as int)
    } else if t[i] == 0x0a {
        (i, i)
    } else if t[i] == 0x5c {
        if i + 2 <= t.len() {
            command_end(t, i + 2)
        } else {
            (t.len() as int, t.len() as int)
        }
    } else if t[i] == 0x23 {
        (i, find_byte(t, 0x0a, i))
    } else {
        command_end(t, i + 1)
    }
}

/// The next command of script `t` at or after `i`, as its byte bounds and
/// where the rest of the script starts; blank lines and comments are skipped.
pub open spec fn next_command(t: Seq<u8>, i: int) -> Option<(int, int, int)>
    decreases t.len() - i,
{
    let j = skip_space(t, i);
    if i < 0 || j >= t.len() {
        None
    } else {
        let (end, rest) = command_end(t, j);
        if end > j {
            Some((j, end, rest))
        } else if i < rest <= t.len() {
            next_command(t, rest)
        } else {
            None
        }
    }
}

proof fn lemma_command_end(t: Seq<u8>, i: int)
    requires
        0 <= i <= t.len(),
    ensures
        ({
            let (end, rest) = command_end(t, i);
            i <= end <= rest <= t.len()
        }),
    decreases t.len() - i,
{
    if i < t.len() {
        if t[i] == 0x5c {
            if i + 2 <= t.len() {
                lemma_command_end(t, i + 2);
            }
        } else if t[i] == 0x23 {
            lemma_find_byte(t, 0x0a, i);
        } else if t[i] != 0x0a {
            lemma_command_end(t, i + 1);
        }
    }
}

/// The commands of a script, one per line, in order.
pub struct CommandIter<'a> {
    text: &'a [u8],
    position: usize,
}

impl<'a> CommandIter<'a> {
    pub fn new(commands: &'a str) -> (r: CommandIter<'a>)
        ensures
            r.text() == commands.spec_bytes(),
            r.position() == 0,
    {
        CommandIter { text: commands.as_bytes(), position: 0 }
    }

    pub closed spec fn text(&self) -> Seq<u8> {
        self.text@
    }

    pub closed spec fn position(&self) -> int {
        self.position as int
    }

    /// The next command of the script, if any is left.
    pub fn next(&mut self) -> (r: Option<&'a [u8]>)
        requires
            old(self).position() <= old(self).text().len(),
        ensures
            final(self).text() == old(self).text(),
            final(self).position() <= final(self).text().len(),
            match (r, next_command(old(self).text(), old(self).position())) {
                (None, None) => true,
                (Some(c), Some((from, to, rest))) => c@ == old(self).text().subrange(from, to)
                    && final(self).position() == rest,
                _ => false,
            },
    {
        let t = self.text;
        let mut i = self.position;
        loop
            invariant
                t@ == self.text@,
                self.text@ == old(self).text@,
                self.position == old(self).position,
                i <= t@.len(),
                next_command(t@, self.position as int) == next_command(t@, i as int),
            decreases t@.len() - i,
        {
            let mut j = i;
            while j < t.len() && (t[j] == 0x20 || t[j] == 0x09 || t[j] == 0x0a || t[j] == 0x0c || t[j] == 0x0d)
                invariant
                    i <= j <= t@.len(),
                    skip_space(t@, i as int) == skip_space(t@, j as int),
                decreases t@.len() - j,
            {
                j = j + 1;
            }
            if j >= t.len() {
                self.position = t.len();
                return None;
            }
            let mut k = j;
            let mut end: usize = t.len();
            let mut rest: usize = t.len();
            let mut found = false;
            while k < t.len() && !found
                invariant
                    j <= k <= t@.len(),
                    j < t@.len(),
                    !found ==> command_end(t@, j as int) == command_end(t@, k as int),
                    !found ==> end == t@.len() && rest == t@.len(),
                    found ==> command_end(t@, j as int) == (end as int, rest as int),
                decreases t@.len() - k, if found { 0int } else { 1int },
            {
                let b = t[k];
                if b == 0x0a {
                    end = k;
                    rest = k;
                    found = true;
                } else if b == 0x5c {
                    if t.len() - k >= 2 {
                        k = k + 2;
                    } else {
                        k = t.len();
                    }
                } else if b == 0x23 {
                    let mut m = k;
                    while m < t.len() && t[m] != 0x0a
                        invariant
                            k <= m <= t@.len(),
                            find_byte(t@, 0x0a, k as int) == find_byte(t@, 0x0a, m as int),
                        decreases t@.len() - m,
                    {
                        m = m + 1;
                    }
                    end = k;
                    rest = m;
                    found = true;
                } else {
                    k = k + 1;
                }
            }
            proof {
                lemma_command_end(t@, j as int);
            }
            if end > j {
                self.position = rest;
                return Some(sub_bytes(t, j, end));
            }
            if rest <= i {
                self.position = t.len();
                return None;
            }
            i = rest;
        }
    }
}

/// Where a command comes from: the index of a command of the table.
#[derive(Clone, Copy, Debug, PartialEq, Eq, Structural)]
pub enum CommandSource {
    Builtin(usize),
}

/// A parse error, with the bytes of the command it points at.
#[derive(Debug)]
pub enum CommandParseError<'a> {
    InvalidCommandName(&'a [u8]),
    CommandNotFound(&'a [u8]),
    CommandDoesNotAcceptBang(&'a [u8]),
    UnterminatedArgument(&'a [u8]),
    InvalidArgument(&'a [u8]),
    TooFewValues(&'a [u8], usize),
    TooManyValues(&'a [u8], usize),
    UnknownFlag(&'a [u8]),
    InvalidFlagValue(&'a [u8]),
}

/// The kind of error `e` is, the bytes it points at, and the count it names.
pub open spec fn parse_error_view(e: CommandParseError) -> (ParseErrorKind, Seq<u8>, usize) {
    match e {
        CommandParseError::InvalidCommandName(s) => (ParseErrorKind::InvalidCommandName, s@, 0),
        CommandParseError::CommandNotFound(s) => (ParseErrorKind::CommandNotFound, s@, 0),
        CommandParseError::CommandDoesNotAcceptBang(s) => (ParseErrorKind::CommandDoesNotAcceptBang, s@, 0),
        CommandParseError::UnterminatedArgument(s) => (ParseErrorKind::UnterminatedArgument, s@, 0),
        CommandParseError::InvalidArgument(s) => (ParseErrorKind::InvalidArgument, s@, 0),
        CommandParseError::TooFewValues(s, n) => (ParseErrorKind::TooFewValues, s@, n),
        CommandParseError::TooManyValues(s, n) => (ParseErrorKind::TooManyValues, s@, n),
        CommandParseError::UnknownFlag(s) => (ParseErrorKind::UnknownFlag, s@, 0),
        CommandParseError::InvalidFlagValue(s) => (ParseErrorKind::InvalidFlagValue, s@, 0),
    }
}

/// The count an error of `span`'s kind names: the value count for too few
/// or too many values, else zero.
pub open spec fn shown_count(span: ParseErrorSpan) -> usize {
    if span.kind == ParseErrorKind::TooFewValues || span.kind == ParseErrorKind::TooManyValues {
        span.count
    } else {
        0
    }
}

/// The bytes a parsed flag stands for: empty where unset, `true` where bare.
pub open spec fn flag_bytes(t: Seq<u8>, f: FlagValue) -> Seq<u8> {
    match f {
        FlagValue::Unset => Seq::empty(),
        FlagValue::True => seq![0x74u8, 0x72u8, 0x75u8, 0x65u8],
        FlagValue::Span(from, to) => t.subrange(from as int, to as int),
    }
}

/// The arguments bound to a command: its bang, its required values, the
/// values after those, and one value per declared flag.
#[derive(Debug)]
pub struct CommandArgs<'a> {
    pub bang: bool,
    pub required_values: Vec<&'a [u8]>,
    pub other_values: Vec<&'a [u8]>,
    pub flags: Vec<&'a [u8]>,
}

/// The byte views of a sequence of slices.
pub open spec fn slice_views<'a>(v: Seq<&'a [u8]>) -> Seq<Seq<u8>> {
    v.map_values(|s: &'a [u8]| s@)
}

/// The bytes of `t` that tokens `toks` cover.
pub open spec fn token_views(t: Seq<u8>, toks: Seq<CommandToken>) -> Seq<Seq<u8>> {
    toks.map_values(|tok: CommandToken| token_bytes(t, tok))
}


/// The command table and the history of commands entered.
pub struct CommandManager {
    builtin_commands: Vec<BuiltinCommand>,
    history: Vec<String>,
}

/// How many commands the history keeps.
pub const HISTORY_CAPACITY: usize = 10;

impl CommandManager {
    /// A manager for the commands of `table`, with an empty history.
    pub fn with_commands(builtin_commands: Vec<BuiltinCommand>) -> (r: CommandManager)
        ensures
            r.commands() == builtin_commands@,
            r.history_view().len() == 0,
    {
        CommandManager { builtin_commands, history: Vec::new() }
    }

    pub closed spec fn commands(&self) -> Seq<BuiltinCommand> {
        self.builtin_commands@
    }

    /// The commands entered, oldest first.
    pub closed spec fn history_view(&self) -> Seq<Seq<char>> {
        self.history@.map_values(|s: String| s@)
    }

    pub fn builtin_commands(&self) -> (r: &Vec<BuiltinCommand>)
        ensures
            r@ == self.commands(),
    {
        &self.builtin_commands
    }

    /// The command that `name` names.
    pub fn find_command(&self, name: &str) -> (r: Option<CommandSource>)
        ensures
            r matches Some(CommandSource::Builtin(i)) ==> command_index(self.commands(), name.spec_bytes(), 0) == i as int,
            r.is_none() ==> command_index(self.commands(), name.spec_bytes(), 0) == -1,
    {
        match find_command_index(&self.builtin_commands, name.as_bytes()) {
            Some(i) => Some(CommandSource::Builtin(i)),
            None => None,
        }
    }

    pub fn history_len(&self) -> (r: usize)
        ensures
            r == self.history_view().len(),
    {
        self.history.len()
    }

    /// History entry `index`, oldest first; empty past the end.
    pub fn history_entry(&self, index: usize) -> (r: &str)
        ensures
            index < self.history_view().len() ==> r@ == self.history_view()[index as int],
            index >= self.history_view().len() ==> r@.len() == 0,
    {
        if index < self.history.len() {
            self.history[index].as_str()
        } else {
            proof {
                reveal_strlit("");
            }
            ""
        }
    }

    /// Records `entry` as the newest command; empty entries are not kept,
    /// and past the capacity the oldest entry goes.
    pub fn add_to_history(&mut self, entry: &str)
        requires
            old(self).history_view().len() <= HISTORY_CAPACITY,
        ensures
            final(self).commands() == old(self).commands(),
            final(self).history_view().len() <= HISTORY_CAPACITY,
            entry@.len() == 0 ==> final(self).history_view() == old(self).history_view(),
            entry@.len() > 0 && old(self).history_view().len() < HISTORY_CAPACITY ==> final(self).history_view()
                == old(self).history_view().push(entry@),
            entry@.len() > 0 && old(self).history_view().len() == HISTORY_CAPACITY ==> final(self).history_view()
                == old(self).history_view().drop_first().push(entry@),
    {
        if entry.is_empty() {
            return;
        }
        let ghost before = self.history_view();
        if self.history.len() == HISTORY_CAPACITY {
            self.history.remove(0);
            assert(self.history_view() =~= before.drop_first());
        }
        let ghost mid = self.history_view();
        self.history.push(entry.to_owned());
        assert(self.history_view() =~= mid.push(entry@));
    }

    /// Parses command `text` against the command table.
    pub fn parse<'a>(&self, text: &'a str) -> (r: Result<(CommandSource, CommandArgs<'a>), CommandParseError<'a>>)
        requires
            table_fits(self.commands()),
        ensures
            match (r, parse_spec(text.spec_bytes(), self.commands())) {
                (Ok((CommandSource::Builtin(i), args)), Ok((index, bang, values, flags))) => {
                    let min = self.commands()[index].required_values@.len();
                    &&& i == index
                    &&& args.bang == bang
                    &&& slice_views(args.required_values@) == token_views(text.spec_bytes(), values).subrange(0, min as int)
                    &&& slice_views(args.other_values@) == token_views(text.spec_bytes(), values).subrange(min as int, values.len() as int)
                    &&& slice_views(args.flags@) == flags.map_values(|f: FlagValue| flag_bytes(text.spec_bytes(), f))
                },
                (Err(e), Err(span)) => parse_error_view(e) == (
                    span.kind,
                    text.spec_bytes().subrange(span.from as int, span.to as int),
                    shown_count(span),
                ),
                _ => false,
            },
    {
        let t = text.as_bytes();
        let _ = t.len();
        proof {
            lemma_parse_error_within(t@, self.commands());
            lemma_parse_within(t@, self.commands());
        }
        match parse_command(t, &self.builtin_commands) {
            Err(e) => {
                let s = sub_bytes(t, e.from, e.to);
                let err = match e.kind {
                    ParseErrorKind::InvalidCommandName => CommandParseError::InvalidCommandName(s),
                    ParseErrorKind::CommandNotFound => CommandParseError::CommandNotFound(s),
                    ParseErrorKind::CommandDoesNotAcceptBang => CommandParseError::CommandDoesNotAcceptBang(s),
                    ParseErrorKind::UnterminatedArgument => CommandParseError::UnterminatedArgument(s),
                    ParseErrorKind::InvalidArgument => CommandParseError::InvalidArgument(s),
                    ParseErrorKind::TooFewValues => CommandParseError::TooFewValues(s, e.count),
                    ParseErrorKind::TooManyValues => CommandParseError::TooManyValues(s, e.count),
                    ParseErrorKind::UnknownFlag => CommandParseError::UnknownFlag(s),
                    ParseErrorKind::InvalidFlagValue => CommandParseError::InvalidFlagValue(s),
                };
                assert(parse_error_view(err) == (e.kind, t@.subrange(e.from as int, e.to as int), shown_count(e)));
                Err(err)
            },
            Ok(p) => {
                let min = self.builtin_commands[p.command].required_values.len();
                let ghost tv = token_views(t@, p.values@);
                let mut required_values: Vec<&'a [u8]> = Vec::new();
                let mut other_values: Vec<&'a [u8]> = Vec::new();
                let mut i: usize = 0;
                while i < p.values.len()
                    invariant
                        i <= p.values@.len(),
                        min <= p.values@.len(),
                        tv == token_views(t@, p.values@),
                        tokens_within(t@, p.values@),
                        i <= min ==> slice_views(required_values@) == tv.subrange(0, i as int) && other_values@.len() == 0,
                        i > min ==> slice_views(required_values@) == tv.subrange(0, min as int)
                            && slice_views(other_values@) == tv.subrange(min as int, i as int),
                    decreases p.values@.len() - i,
                {
                    let tok = p.values[i];
                    assert(p.values@[i as int] == tok);
                    let s = sub_bytes(t, tok.from, tok.to);
                    if i < min {
                        let ghost prev = required_values@;
                        required_values.push(s);
                        assert(slice_views(required_values@) =~= slice_views(prev).push(s@));
                        assert(slice_views(required_values@) =~= tv.subrange(0, i + 1));
                    } else {
                        let ghost prev = other_values@;
                        other_values.push(s);
                        assert(slice_views(other_values@) =~= slice_views(prev).push(s@));
                        assert(slice_views(other_values@) =~= tv.subrange(min as int, i + 1));
                    }
                    i = i + 1;
                }
                assert(slice_views(other_values@) =~= tv.subrange(min as int, tv.len() as int));
                let mut flags: Vec<&'a [u8]> = Vec::new();
                let ghost fv = p.flags@.map_values(|f: FlagValue| flag_bytes(t@, f));
                let mut k: usize = 0;
                while k < p.flags.len()
                    invariant
                        k <= p.flags@.len(),
                        fv == p.flags@.map_values(|f: FlagValue| flag_bytes(t@, f)),
                        flags_within(t@, p.flags@),
                        slice_views(flags@) == fv.subrange(0, k as int),
                    decreases p.flags@.len() - k,
                {
                    let f = p.flags[k];
                    assert(p.flags@[k as int] == f);
                    let s: &'a [u8] = match f {
                        FlagValue::Unset => {
                            let e: &'a [u8] = &[];
                            assert(e@ =~= Seq::<u8>::empty());
                            e
                        },
                        FlagValue::True => {
                            let e: &'a [u8] = &[0x74u8, 0x72u8, 0x75u8, 0x65u8];
                            assert(e@ =~= seq![0x74u8, 0x72u8, 0x75u8, 0x65u8]);
                            e
                        },
                        FlagValue::Span(from, to) => sub_bytes(t, from, to),
                    };
                    let ghost prev = flags@;
                    flags.push(s);
                    assert(slice_views(flags@) =~= slice_views(prev).push(s@));
                    assert(slice_views(flags@) =~= fv.subrange(0, k + 1));
                    k = k + 1;
                }
                assert(fv.subrange(0, fv.len() as int) =~= fv);
                assert(fv =~= p.flags@.map_values(|f: FlagValue| flag_bytes(text.spec_bytes(), f)));
                assert(slice_views(flags@) == fv);
                assert(slice_views(required_values@) == tv.subrange(0, min as int));
                assert(slice_views(other_values@) == tv.subrange(min as int, tv.len() as int));
                assert(min == self.commands()[p.command as int].required_values@.len());
                Ok((CommandSource::Builtin(p.command), CommandArgs { bang: p.bang, required_values, other_values, flags }))
            },
        }
    }
}

/// The decimal digits of `n`.
pub open spec fn decimal(n: nat) -> Seq<u8>
    decreases n,
{
    if n < 10 {
        seq![(0x30 + n) as u8]
    } else {
        decimal(n / 10).push((0x30 + n % 10) as u8)
    }
}

/// Appends the decimal digits of `n` to `out`.
pub fn push_decimal(out: &mut Vec<u8>, n: usize)
    ensures
        final(out)@ == old(out)@ + decimal(n as nat),
    decreases n,
{
    if n < 10 {
        out.push(0x30 + n as u8);
        assert(final(out)@ =~= old(out)@ + decimal(n as nat));
    } else {
        push_decimal(out, n / 10);
        out.push(0x30 + (n % 10) as u8);
        assert(out@ =~= old(out)@ + decimal(n as nat));
    }
}

/// `n` copies of byte `b`.
pub open spec fn repeat(b: u8, n: nat) -> Seq<u8> {
    Seq::new(n, |i: int| b)
}

fn push_repeat(out: &mut Vec<u8>, b: u8, n: usize)
    ensures
        final(out)@ == old(out)@ + repeat(b, n as nat),
{
    let mut i: usize = 0;
    while i < n
        invariant
            i <= n,
            out@ == old(out)@ + repeat(b, i as nat),
        decreases n - i,
    {
        out.push(b);
        i = i + 1;
        assert(out@ =~= old(out)@ + repeat(b, i as nat));
    }
}

/// The message of parse error `e`, which points at bytes `token` of the command.
pub open spec fn error_message(e: ParseErrorSpan, token: Seq<u8>) -> Seq<u8> {
    let quote = "'".spec_bytes();
    match e.kind {
        ParseErrorKind::InvalidCommandName => "invalid command name '".spec_bytes() + token + quote,
        ParseErrorKind::CommandNotFound => "no such command '".spec_bytes() + token + quote,
        ParseErrorKind::CommandDoesNotAcceptBang => "command '".spec_bytes() + token + "' does not accept bang".spec_bytes(),
        ParseErrorKind::UnterminatedArgument => "unterminated argument".spec_bytes(),
        ParseErrorKind::InvalidArgument => "invalid argument '".spec_bytes() + token + quote,
        ParseErrorKind::TooFewValues => "command expects at least ".spec_bytes() + decimal(e.count as nat) + " values".spec_bytes(),
        ParseErrorKind::TooManyValues => "command expects at most ".spec_bytes() + decimal(e.count as nat) + " values".spec_bytes(),
        ParseErrorKind::UnknownFlag => "unknown flag '".spec_bytes() + token + quote,
        ParseErrorKind::InvalidFlagValue => "invalid flag value '".spec_bytes() + token + quote,
    }
}

/// Parse error `e` of command `t` as shown to the user: the command, a line
/// that marks the bytes the error points at with carets under them, and
/// the message.
pub open spec fn rendered_error(t: Seq<u8>, e: ParseErrorSpan) -> Seq<u8> {
    t + seq![0x0au8] + repeat(0x20, e.from as nat) + repeat(0x5e, (e.to - e.from) as nat) + seq![0x0au8]
        + error_message(e, t.subrange(e.from as int, e.to as int))
}

/// Renders parse error `e` of command `t` for the status bar.
pub fn render_parse_error(t: &[u8], e: ParseErrorSpan) -> (r: Vec<u8>)
    requires
        e.from <= e.to <= t@.len(),
    ensures
        r@ == rendered_error(t@, e),
{
    let mut out: Vec<u8> = Vec::new();
    push_bytes(&mut out, t);
    out.push(0x0a);
    push_repeat(&mut out, 0x20, e.from);
    push_repeat(&mut out, 0x5e, e.to - e.from);
    out.push(0x0a);
    let ghost head = out@;
    let token = sub_bytes(t, e.from, e.to);
    let quote = "'".as_bytes();
    match e.kind {
        ParseErrorKind::InvalidCommandName => {
            push_bytes(&mut out, "invalid command name '".as_bytes());
            push_bytes(&mut out, token);
            push_bytes(&mut out, quote);
        },
        ParseErrorKind::CommandNotFound => {
            push_bytes(&mut out, "no such command '".as_bytes());
            push_bytes(&mut out, token);
            push_bytes(&mut out, quote);
        },
        ParseErrorKind::CommandDoesNotAcceptBang => {
            push_bytes(&mut out, "command '".as_bytes());
            push_bytes(&mut out, token);
            push_bytes(&mut out, "' does not accept bang".as_bytes());
        },
        ParseErrorKind::UnterminatedArgument => {
            push_bytes(&mut out, "unterminated argument".as_bytes());
        },
        ParseErrorKind::InvalidArgument => {
            push_bytes(&mut out, "invalid argument '".as_bytes());
            push_bytes(&mut out, token);
            push_bytes(&mut out, quote);
        },
        ParseErrorKind::TooFewValues => {
            push_bytes(&mut out, "command expects at least ".as_bytes());
            push_decimal(&mut out, e.count);
            push_bytes(&mut out, " values".as_bytes());
        },
        ParseErrorKind::TooManyValues => {
            push_bytes(&mut out, "command expects at most ".as_bytes());
            push_decimal(&mut out, e.count);
            push_bytes(&mut out, " values".as_bytes());
        },
        ParseErrorKind::UnknownFlag => {
            push_bytes(&mut out, "unknown flag '".as_bytes());
            push_bytes(&mut out, token);
            push_bytes(&mut out, quote);
        },
        ParseErrorKind::InvalidFlagValue => {
            push_bytes(&mut out, "invalid flag value '".as_bytes());
            push_bytes(&mut out, token);
            push_bytes(&mut out, quote);
        },
    }
    assert(out@ =~= head + error_message(e, t@.subrange(e.from as int, e.to as int)));
    out
}

/// Parses command `text` against `table` and, where it fails, renders the
/// error; the caret line always marks bytes within the command.
pub fn parse_or_render(text: &str, table: &Vec<BuiltinCommand>) -> (r: Result<ParsedCommand, Vec<u8>>)
    requires
        table_fits(table@),
    ensures
        match (r, parse_spec(text.spec_bytes(), table@)) {
            (Ok(p), Ok((index, bang, values, flags))) => p.command == index && p.bang == bang
                && p.values@ == values && p.flags@ == flags,
            (Err(shown), Err(e)) => e.from <= e.to <= text.spec_bytes().len() && shown@ == rendered_error(
                text.spec_bytes(),
                e,
            ),
            _ => false,
        },
{
    let t = text.as_bytes();
    let _ = t.len();
    proof {
        lemma_parse_error_within(t@, table@);
    }
    match parse_command(t, table) {
        Ok(p) => Ok(p),
        Err(e) => Err(render_parse_error(t, e)),
    }
}

/// An error a command gives when it runs.
#[derive(Clone, Copy, Debug, PartialEq, Eq, Structural)]
pub enum CommandError {
    NoBufferOpened,
    UnsavedChanges,
    InvalidBufferHandle(BufferHandle),
    InvalidPath,
    SavingDisabled,
    NoPath,
    InvalidRegisterKey,
    InvalidModeKind,
    InvalidTokenKind,
    InvalidIfOp,
    InvalidEnvironmentVariable,
    InvalidBufferProperty,
    LspServerNotRunning,
    LspServerNotLogging,
}

/// What a command asks of the editor loop when it is done.
#[derive(Clone, Copy, Debug, PartialEq, Eq, Structural)]
pub enum CommandOperation {
    Quit,
    QuitAll,
}

/// Whether buffer `handle` may be closed: with a bang, or where it has no
/// unsaved changes; an error for a buffer that is not open.
pub fn assert_can_discard_buffer(bang: bool, buffers: &BufferCollection, handle: BufferHandle) -> (r: Result<(), CommandError>)
    ensures
        !buffers.is_open(handle.0 as int) ==> r == Err::<(), CommandError>(CommandError::InvalidBufferHandle(handle)),
        buffers.is_open(handle.0 as int) ==> (r.is_ok() <==> (bang || !slot_modified(buffers, handle.0 as int))),
        buffers.is_open(handle.0 as int) && r.is_err() ==> r == Err::<(), CommandError>(CommandError::UnsavedChanges),
{
    match buffers.needs_save(handle) {
        None => Err(CommandError::InvalidBufferHandle(handle)),
        Some(modified) => if bang || !modified {
            Ok(())
        } else {
            Err(CommandError::UnsavedChanges)
        },
    }
}

/// Whether all buffers may be closed: with a bang, or where none has unsaved changes.
pub fn assert_can_discard_all_buffers(bang: bool, buffers: &BufferCollection) -> (r: Result<(), CommandError>)
    ensures
        r.is_ok() <==> (bang || !exists|i: int| 0 <= i < buffers.slots() && slot_modified(buffers, i)),
        r.is_err() ==> r == Err::<(), CommandError>(CommandError::UnsavedChanges),
{
    if bang || !buffers.any_needs_save() {
        Ok(())
    } else {
        Err(CommandError::UnsavedChanges)
    }
}

/// What `quit` does: it stops this client, checking for unsaved changes
/// only when it is the last client.
pub fn quit(bang: bool, buffers: &BufferCollection, client_count: usize) -> (r: Result<CommandOperation, CommandError>)
    ensures
        client_count > 1 ==> r == Ok::<CommandOperation, CommandError>(CommandOperation::Quit),
        client_count <= 1 ==> match assert_can_discard_all_spec(bang, buffers) {
            true => r == Ok::<CommandOperation, CommandError>(CommandOperation::Quit),
            false => r == Err::<CommandOperation, CommandError>(CommandError::UnsavedChanges),
        },
{
    if client_count <= 1 {
        match assert_can_discard_all_buffers(bang, buffers) {
            Ok(()) => Ok(CommandOperation::Quit),
            Err(e) => Err(e),
        }
    } else {
        Ok(CommandOperation::Quit)
    }
}

/// What `quit-all` does: it stops every client, checking for unsaved changes.
pub fn quit_all(bang: bool, buffers: &BufferCollection) -> (r: Result<CommandOperation, CommandError>)
    ensures
        assert_can_discard_all_spec(bang, buffers) ==> r == Ok::<CommandOperation, CommandError>(CommandOperation::QuitAll),
        !assert_can_discard_all_spec(bang, buffers) ==> r == Err::<CommandOperation, CommandError>(CommandError::UnsavedChanges),
{
    match assert_can_discard_all_buffers(bang, buffers) {
        Ok(()) => Ok(CommandOperation::QuitAll),
        Err(e) => Err(e),
    }
}

/// All buffers may be discarded: with a bang, or where none has unsaved changes.
pub open spec fn assert_can_discard_all_spec(bang: bool, buffers: &BufferCollection) -> bool {
    bang || !exists|i: int| 0 <= i < buffers.slots() && slot_modified(buffers, i)
}

/// Why reading a buffer's file failed.
#[derive(Clone, Copy, Debug, PartialEq, Eq, Structural)]
pub enum BufferReadError {
    FileNotFound,
    InvalidData,
    Io,
}

/// The first error among `results[i..]` other than a missing file.
pub open spec fn first_fatal(results: Seq<Result<(), BufferReadError>>, i: int) -> Option<BufferReadError>
    decreases results.len() - i,
{
    if i < 0 || i >= results.len() {
        None
    } else {
        match results[i] {
            Err(e) => if e != BufferReadError::FileNotFound {
                Some(e)
            } else {
                first_fatal(results, i + 1)
            },
            Ok(()) => first_fatal(results, i + 1),
        }
    }
}

/// The outcome of `reopen-all` from the outcome of reading each buffer
/// again: a missing file is tolerated; the first other error is reported.
pub fn reopen_all_result(results: &Vec<Result<(), BufferReadError>>) -> (r: Result<(), BufferReadError>)
    ensures
        first_fatal(results@, 0) matches Some(e) ==> r == Err::<(), BufferReadError>(e),
        first_fatal(results@, 0).is_none() ==> r.is_ok(),
{
    let mut i: usize = 0;
    while i < results.len()
        invariant
            i <= results@.len(),
            first_fatal(results@, 0) == first_fatal(results@, i as int),
        decreases results@.len() - i,
    {
        match results[i] {
            Err(e) => {
                if e != BufferReadError::FileNotFound {
                    return Err(e);
                }
            },
            Ok(()) => {},
        }
        i = i + 1;
    }
    Ok(())
}

/// Whether buffer `handle` can be saved: it is open, may be saved, and has a path.
pub fn check_save(buffers: &BufferCollection, handle: BufferHandle) -> (r: Result<(), CommandError>)
    requires
        buffers.wf(),
    ensures
        !buffers.is_open(handle.0 as int) ==> r == Err::<(), CommandError>(CommandError::InvalidBufferHandle(handle)),
        buffers.slot(handle.0 as int) matches Some(b) ==> {
            &&& !b.properties().saving_enabled ==> r == Err::<(), CommandError>(CommandError::SavingDisabled)
            &&& b.properties().saving_enabled && b.path_view().len() == 0 ==> r == Err::<(), CommandError>(CommandError::NoPath)
            &&& b.properties().saving_enabled && b.path_view().len() > 0 ==> r.is_ok()
        },
{
    match buffers.get(handle) {
        None => Err(CommandError::InvalidBufferHandle(handle)),
        Some(b) => {
            if !b.get_properties().saving_enabled {
                Err(CommandError::SavingDisabled)
            } else if b.path().is_none() {
                Err(CommandError::NoPath)
            } else {
                Ok(())
            }
        },
    }
}

/// The `close` command: closes buffer `handle` unless it has unsaved
/// changes and there is no bang.
pub fn close_buffer(bang: bool, buffers: &mut BufferCollection, word_database: &mut WordDatabase, handle: BufferHandle) -> (r: Result<(), CommandError>)
    requires
        old(buffers).wf(),
        old(word_database).wf(),
    ensures
        final(buffers).wf(),
        final(word_database).wf(),
        r == assert_can_discard_spec(bang, &*old(buffers), handle),
        r.is_ok() ==> !final(buffers).is_open(handle.0 as int)
            && forall|j: int| j != handle.0 ==> #[trigger] final(buffers).slot(j) == old(buffers).slot(j),
        r.is_err() ==> *final(buffers) == *old(buffers) && *final(word_database) == *old(word_database),
{
    match assert_can_discard_buffer(bang, buffers, handle) {
        Ok(()) => {
            buffers.remove_with_words(handle, word_database);
            Ok(())
        },
        Err(e) => Err(e),
    }
}

/// The result of the discard check of buffer `handle`.
pub open spec fn assert_can_discard_spec(bang: bool, buffers: &BufferCollection, handle: BufferHandle) -> Result<(), CommandError> {
    if !buffers.is_open(handle.0 as int) {
        Err(CommandError::InvalidBufferHandle(handle))
    } else if bang || !slot_modified(buffers, handle.0 as int) {
        Ok(())
    } else {
        Err(CommandError::UnsavedChanges)
    }
}

/// The byte bounds of the commands of script `t` from index `i` on, in order.
pub open spec fn script_commands(t: Seq<u8>, i: int) -> Seq<(int, int)>
    decreases t.len() - i,
{
    match next_command(t, i) {
        None => Seq::empty(),
        Some((from, to, rest)) => if i < rest <= t.len() {
            seq![(from, to)] + script_commands(t, rest)
        } else {
            seq![(from, to)]
        },
    }
}

/// How the commands `cmds` of script `t` parse against `table`: the first
/// that fails, by index, with its error, or none.
pub open spec fn first_script_error(t: Seq<u8>, cmds: Seq<(int, int)>, table: Seq<BuiltinCommand>, k: int) -> Option<(int, ParseErrorSpan)>
    decreases cmds.len() - k,
{
    if k < 0 || k >= cmds.len() {
        None
    } else {
        match parse_spec(t.subrange(cmds[k].0, cmds[k].1), table) {
            Err(e) => Some((k, e)),
            Ok(_) => first_script_error(t, cmds, table, k + 1),
        }
    }
}

proof fn lemma_next_command_bounds(t: Seq<u8>, i: int)
    requires
        0 <= i <= t.len(),
    ensures
        next_command(t, i) matches Some((from, to, rest)) ==> i <= from < to <= rest <= t.len(),
    decreases t.len() - i,
{
    lemma_skip_space(t, i);
    let j = skip_space(t, i);
    if j < t.len() {
        lemma_command_end(t, j);
        let (end, rest) = command_end(t, j);
        if end <= j && i < rest <= t.len() {
            lemma_next_command_bounds(t, rest);
        }
    }
}

/// Parsed command `p` is what parsing command `c` against `table` gives.
pub open spec fn parse_agrees(p: ParsedCommand, c: Seq<u8>, table: Seq<BuiltinCommand>) -> bool {
    match parse_spec(c, table) {
        Ok((index, bang, values, flags)) => p.command == index && p.bang == bang && p.values@ == values && p.flags@ == flags,
        Err(_) => false,
    }
}

/// Parses the commands of script `text` in order against `table`, stopping
/// at the first that fails: its index among the commands and its rendered
/// error come back; otherwise every parsed command, in order.
pub fn parse_script(text: &str, table: &Vec<BuiltinCommand>) -> (r: Result<Vec<ParsedCommand>, (usize, Vec<u8>)>)
    requires
        table_fits(table@),
    ensures
        ({
            let t = text.spec_bytes();
            let cmds = script_commands(t, 0);
            match (r, first_script_error(t, cmds, table@, 0)) {
                (Ok(ps), None) => ps@.len() == cmds.len() && forall|k: int|
                    0 <= k < cmds.len() ==> parse_agrees(#[trigger] ps@[k], t.subrange(cmds[k].0, cmds[k].1), table@),
                (Err((k, shown)), Some((k2, e))) => k == k2 && shown@ == rendered_error(t.subrange(cmds[k2].0, cmds[k2].1), e),
                _ => false,
            }
        }),
{
    let mut commands = CommandIter::new(text);
    let ghost t = text.spec_bytes();
    let ghost cmds = script_commands(t, 0);
    let mut parsed: Vec<ParsedCommand> = Vec::new();
    let mut k: usize = 0;
    let _ = text.as_bytes().len();
    assert(cmds.subrange(0, cmds.len() as int) =~= cmds);
    loop
        invariant
            commands.text() == t,
            t == text.spec_bytes(),
            0 <= commands.position() <= t.len(),
            t.len() <= usize::MAX,
            table_fits(table@),
            cmds == script_commands(t, 0),
            k <= cmds.len(),
            parsed@.len() == k,
            cmds.subrange(k as int, cmds.len() as int) == script_commands(t, commands.position()),
            first_script_error(t, cmds, table@, 0) == first_script_error(t, cmds, table@, k as int),
            forall|j: int| 0 <= j < k ==> parse_agrees(#[trigger] parsed@[j], t.subrange(cmds[j].0, cmds[j].1), table@),
        decreases t.len() - commands.position(),
    {
        let ghost pos = commands.position();
        proof {
            lemma_next_command_bounds(t, pos);
        }
        match commands.next() {
            None => {
                assert(script_commands(t, pos) =~= Seq::<(int, int)>::empty());
                assert(k == cmds.len());
                assert(first_script_error(t, cmds, table@, k as int).is_none());
                return Ok(parsed);
            },
            Some(command) => {
                let ghost (from, to, rest) = next_command(t, pos).unwrap();
                assert(script_commands(t, pos) == seq![(from, to)] + script_commands(t, rest));
                let ghost tail = cmds.subrange(k as int, cmds.len() as int);
                assert(tail.len() >= 1);
                assert(tail[0] == cmds[k as int]);
                assert(cmds[k as int] == (from, to));
                assert(cmds.subrange(k + 1, cmds.len() as int) =~= tail.subrange(1, tail.len() as int));
                assert(tail.subrange(1, tail.len() as int) =~= script_commands(t, rest));
                assert(command@ == t.subrange(cmds[k as int].0, cmds[k as int].1));
                let _ = command.len();
                proof {
                    lemma_parse_error_within(command@, table@);
                }
                match parse_command(command, table) {
                    Ok(p) => {
                        let ghost prev = parsed@;
                        parsed.push(p);
                        assert(forall|j: int| 0 <= j < k ==> parsed@[j] == prev[j]);
                        assert(parsed@[k as int] == p);
                        assert(parse_agrees(p, command@, table@));
                        assert(first_script_error(t, cmds, table@, k as int) == first_script_error(t, cmds, table@, k + 1));
                        assert forall|j: int| 0 <= j < k + 1 implies parse_agrees(
                            #[trigger] parsed@[j],
                            t.subrange(cmds[j].0, cmds[j].1),
                            table@,
                        ) by {
                            if j < k {
                                assert(parsed@[j] == prev[j]);
                            }
                        }
                    },
                    Err(e) => {
                        assert(first_script_error(t, cmds, table@, k as int) == Some((k as int, e)));
                        return Err((k, render_parse_error(command, e)));
                    },
                }
                k = parsed.len();
            },
        }
    }
}

} // verus!
