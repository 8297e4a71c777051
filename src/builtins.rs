use vstd::prelude::*;
use vstd::string::StringSliceAdditionalSpecFns;

use crate::command::{same_bytes, table_fits, BuiltinCommand, CommandError, CompletionSource};
use crate::editor::KeyMapCollection;
use crate::platform::Key;

verus! {

/// Whether bytes `w` spell `name`.
fn is_name(w: &[u8], name: &str) -> (r: bool)
    ensures
        r == (w@ == name.spec_bytes()),
{
    same_bytes(w, name.as_bytes())
}

/// How a buffer behaves: whether it keeps history, may be saved, stands for
/// a file, and feeds the word database.
#[derive(Clone, Copy, Debug, PartialEq, Eq, Structural)]
pub struct BufferProperties {
    pub history_enabled: bool,
    pub saving_enabled: bool,
    pub is_file: bool,
    pub word_database_enabled: bool,
}

impl BufferProperties {
    /// The properties of a text file: everything enabled.
    pub fn text() -> (r: BufferProperties)
        ensures
            r.history_enabled && r.saving_enabled && r.is_file && r.word_database_enabled,
    {
        BufferProperties { history_enabled: true, saving_enabled: true, is_file: true, word_database_enabled: true }
    }

    /// The properties of a scratch buffer: everything disabled.
    pub fn scratch() -> (r: BufferProperties)
        ensures
            !r.history_enabled && !r.saving_enabled && !r.is_file && !r.word_database_enabled,
    {
        BufferProperties { history_enabled: false, saving_enabled: false, is_file: false, word_database_enabled: false }
    }
}

/// The properties after the `open` property `name`; none for an unknown name.
pub open spec fn with_property(p: BufferProperties, name: Seq<u8>) -> Option<BufferProperties> {
    if name == "text".spec_bytes() {
        Some(BufferProperties { history_enabled: true, saving_enabled: true, is_file: true, word_database_enabled: true })
    } else if name == "scratch".spec_bytes() {
        Some(BufferProperties { history_enabled: false, saving_enabled: false, is_file: false, word_database_enabled: false })
    } else if name == "history-enabled".spec_bytes() {
        Some(BufferProperties { history_enabled: true, ..p })
    } else if name == "history-disabled".spec_bytes() {
        Some(BufferProperties { history_enabled: false, ..p })
    } else if name == "saving-enabled".spec_bytes() {
        Some(BufferProperties { saving_enabled: true, ..p })
    } else if name == "saving-disabled".spec_bytes() {
        Some(BufferProperties { saving_enabled: false, ..p })
    } else if name == "word-database-enabled".spec_bytes() {
        Some(BufferProperties { word_database_enabled: true, ..p })
    } else if name == "word-database-disabled".spec_bytes() {
        Some(BufferProperties { word_database_enabled: false, ..p })
    } else {
        None
    }
}

/// Applies the `open` property named by bytes `name` to `p`; none for an unknown name.
pub fn apply_property(p: BufferProperties, name: &[u8]) -> (r: Option<BufferProperties>)
    ensures
        r == with_property(p, name@),
{
    if is_name(name, "text") {
        Some(BufferProperties::text())
    } else if is_name(name, "scratch") {
        Some(BufferProperties::scratch())
    } else if is_name(name, "history-enabled") {
        Some(BufferProperties { history_enabled: true, ..p })
    } else if is_name(name, "history-disabled") {
        Some(BufferProperties { history_enabled: false, ..p })
    } else if is_name(name, "saving-enabled") {
        Some(BufferProperties { saving_enabled: true, ..p })
    } else if is_name(name, "saving-disabled") {
        Some(BufferProperties { saving_enabled: false, ..p })
    } else if is_name(name, "word-database-enabled") {
        Some(BufferProperties { word_database_enabled: true, ..p })
    } else if is_name(name, "word-database-disabled") {
        Some(BufferProperties { word_database_enabled: false, ..p })
    } else {
        None
    }
}

#[derive(Clone, Copy, Debug, PartialEq, Eq, Structural)]
pub enum ModeKind {
    Normal,
    Insert,
    Command,
    ReadLine,
    Picker,
}

/// The mode named by bytes `name`, as `map` takes it.
/// The mode that bytes `name` name.
pub open spec fn mode_kind_of(name: Seq<u8>) -> Option<ModeKind> {
    if name == "normal".spec_bytes() {
        Some(ModeKind::Normal)
    } else if name == "insert".spec_bytes() {
        Some(ModeKind::Insert)
    } else if name == "command".spec_bytes() {
        Some(ModeKind::Command)
    } else if name == "readline".spec_bytes() {
        Some(ModeKind::ReadLine)
    } else if name == "picker".spec_bytes() {
        Some(ModeKind::Picker)
    } else {
        None
    }
}

pub fn parse_mode_kind(name: &[u8]) -> (r: Option<ModeKind>)
    ensures
        r == mode_kind_of(name@),
{
    if is_name(name, "normal") {
        Some(ModeKind::Normal)
    } else if is_name(name, "insert") {
        Some(ModeKind::Insert)
    } else if is_name(name, "command") {
        Some(ModeKind::Command)
    } else if is_name(name, "readline") {
        Some(ModeKind::ReadLine)
    } else if is_name(name, "picker") {
        Some(ModeKind::Picker)
    } else {
        None
    }
}

#[derive(Clone, Copy, Debug, PartialEq, Eq, Structural)]
pub enum TokenKind {
    Keyword,
    Type,
    Symbol,
    Literal,
    String,
    Comment,
    Text,
}

/// The syntax token kind named by bytes `name`, as `syntax` takes it.
/// The syntax token kind that bytes `name` name.
pub open spec fn token_kind_of(name: Seq<u8>) -> Option<TokenKind> {
    if name == "keywords".spec_bytes() {
        Some(TokenKind::Keyword)
    } else if name == "types".spec_bytes() {
        Some(TokenKind::Type)
    } else if name == "symbols".spec_bytes() {
        Some(TokenKind::Symbol)
    } else if name == "literals".spec_bytes() {
        Some(TokenKind::Literal)
    } else if name == "strings".spec_bytes() {
        Some(TokenKind::String)
    } else if name == "comments".spec_bytes() {
        Some(TokenKind::Comment)
    } else if name == "texts".spec_bytes() {
        Some(TokenKind::Text)
    } else {
        None
    }
}

pub fn parse_token_kind(name: &[u8]) -> (r: Option<TokenKind>)
    ensures
        r == token_kind_of(name@),
{
    if is_name(name, "keywords") {
        Some(TokenKind::Keyword)
    } else if is_name(name, "types") {
        Some(TokenKind::Type)
    } else if is_name(name, "symbols") {
        Some(TokenKind::Symbol)
    } else if is_name(name, "literals") {
        Some(TokenKind::Literal)
    } else if is_name(name, "strings") {
        Some(TokenKind::String)
    } else if is_name(name, "comments") {
        Some(TokenKind::Comment)
    } else if is_name(name, "texts") {
        Some(TokenKind::Text)
    } else {
        None
    }
}

/// An `if` comparison operator: `==` or `!=`.
#[derive(Clone, Copy, Debug, PartialEq, Eq, Structural)]
pub enum IfOp {
    Equals,
    NotEquals,
}

/// Evaluates `if LEFT OP RIGHT`: whether the continuation runs; an error
/// for an operator other than `==` and `!=`.
pub fn eval_if(left: &[u8], op: &[u8], right: &[u8]) -> (r: Result<bool, CommandError>)
    ensures
        op@ == "==".spec_bytes() ==> r == Ok::<bool, CommandError>(left@ == right@),
        op@ == "!=".spec_bytes() ==> r == Ok::<bool, CommandError>(left@ != right@),
        op@ != "==".spec_bytes() && op@ != "!=".spec_bytes() ==> r == Err::<bool, CommandError>(CommandError::InvalidIfOp),
{
    proof {
        reveal_strlit("==");
        reveal_strlit("!=");
        vstd::utf8::encode_utf8_decode_utf8("=="@);
        vstd::utf8::encode_utf8_decode_utf8("!="@);
        assert("=="@[0] != "!="@[0]);
        assert("==".spec_bytes() != "!=".spec_bytes());
    }
    if is_name(op, "==") {
        Ok(same_bytes(left, right))
    } else if is_name(op, "!=") {
        Ok(!same_bytes(left, right))
    } else {
        Err(CommandError::InvalidIfOp)
    }
}

/// Whether `set-env` accepts environment variable name `key`: not empty and without `=`.
pub fn is_valid_env_key(key: &[u8]) -> (r: bool)
    ensures
        r == (key@.len() > 0 && forall|i: int| 0 <= i < key@.len() ==> key@[i] != 0x3d),
{
    if key.len() == 0 {
        return false;
    }
    let mut i: usize = 0;
    while i < key.len()
        invariant
            i <= key@.len(),
            forall|j: int| 0 <= j < i ==> key@[j] != 0x3d,
        decreases key@.len() - i,
    {
        if key[i] == 0x3d {
            return false;
        }
        i = i + 1;
    }
    true
}

fn command(
    names: Vec<&'static str>,
    bang: bool,
    required: Vec<(&'static str, Option<CompletionSource>)>,
    optional: Vec<(&'static str, Option<CompletionSource>)>,
    extra: Option<(&'static str, Option<CompletionSource>)>,
) -> (r: BuiltinCommand)
    ensures
        r.names@ == names@,
        r.bang_usage.is_some() == bang,
        r.required_values@.len() == required@.len(),
        r.optional_values@.len() == optional@.len(),
        r.extra_values.is_some() == extra.is_some(),
        r.flags@.len() == 0,
{
    BuiltinCommand {
        names,
        description: "",
        bang_usage: if bang { Some("force") } else { None },
        required_values: required,
        optional_values: optional,
        extra_values: extra,
        flags: Vec::new(),
    }
}

/// The editor's built-in commands, with their names, arities and bang use.
pub fn builtin_commands() -> (r: Vec<BuiltinCommand>)
    ensures
        r@.len() == 28,
        table_fits(r@),
{
    let mut t: Vec<BuiltinCommand> = Vec::new();
    t.push(command(vec!["help", "h"], false, vec![], vec![("keyword", None)], None));
    t.push(command(vec!["open", "o"], false, vec![("path", Some(CompletionSource::Files))], vec![], Some(("property", None))));
    t.push(command(vec!["save", "s"], false, vec![], vec![("path", Some(CompletionSource::Files))], None));
    t.push(command(vec!["save-all", "sa"], false, vec![], vec![], None));
    t.push(command(vec!["reopen", "r"], true, vec![], vec![], None));
    t.push(command(vec!["reopen-all", "ra"], true, vec![], vec![], None));
    t.push(command(vec!["close", "c"], true, vec![], vec![], None));
    t.push(command(vec!["close-all", "ca"], true, vec![], vec![], None));
    t.push(command(vec!["quit", "q"], true, vec![], vec![], None));
    t.push(command(vec!["quit-all", "qa"], true, vec![], vec![], None));
    t.push(command(vec!["config"], false, vec![("key", None)], vec![("value", None)], None));
    t.push(command(vec!["color"], false, vec![("key", None)], vec![("value", None)], None));
    t.push(command(vec!["map"], false, vec![("mode", None), ("from", None), ("to", None)], vec![], None));
    t.push(command(vec!["syntax"], false, vec![("extension", None)], vec![("kind", None), ("pattern", None)], None));
    t.push(command(vec!["set-register"], false, vec![("key", None), ("value", None)], vec![], None));
    t.push(command(vec!["set-env"], false, vec![("key", None), ("value", None)], vec![], None));
    t.push(command(vec!["enqueue-keys"], false, vec![("keys", None)], vec![], None));
    t.push(command(vec!["insert-text"], false, vec![("text", None)], vec![], None));
    t.push(command(vec!["toggle-comment"], false, vec![("prefix", None)], vec![], None));
    t.push(command(vec!["spawn"], false, vec![("command", None)], vec![], None));
    t.push(command(vec!["replace-with-output"], false, vec![("command", None)], vec![], None));
    t.push(command(vec!["picker-entries-from-lines"], false, vec![("command", None)], vec![], None));
    t.push(command(vec!["command"], false, vec![("name", None), ("source", None)], vec![], None));
    t.push(command(vec!["eval"], false, vec![("source", None)], vec![], None));
    t.push(command(vec!["if"], false, vec![("left", None), ("op", None), ("right", None), ("source", None)], vec![], None));
    t.push(command(vec!["list-buffer"], false, vec![], vec![], None));
    t.push(command(vec!["list-lints"], false, vec![], vec![], None));
    t.push(command(vec!["list-breakpoints"], false, vec![], vec![], None));
    assert forall|i: int| 0 <= i < t@.len() implies (#[trigger] t@[i]).required_values@.len() + crate::command::MAX_OTHER_VALUES_LEN
        + t@[i].optional_values@.len() <= usize::MAX by {}
    t
}

/// Checks the key of `set-register`: a register key is one byte.
pub fn parse_register_key(key: &[u8]) -> (r: Result<u8, CommandError>)
    ensures
        key@.len() == 1 ==> r == Ok::<u8, CommandError>(key@[0]),
        key@.len() != 1 ==> r == Err::<u8, CommandError>(CommandError::InvalidRegisterKey),
{
    if key.len() == 1 {
        Ok(key[0])
    } else {
        Err(CommandError::InvalidRegisterKey)
    }
}

/// Checks the key of `set-env`: not empty and without `=`.
pub fn check_env_key(key: &[u8]) -> (r: Result<(), CommandError>)
    ensures
        r.is_ok() == (key@.len() > 0 && forall|i: int| 0 <= i < key@.len() ==> key@[i] != 0x3d),
        r.is_err() ==> r == Err::<(), CommandError>(CommandError::InvalidEnvironmentVariable),
{
    if is_valid_env_key(key) {
        Ok(())
    } else {
        Err(CommandError::InvalidEnvironmentVariable)
    }
}

/// The token kind that `syntax` names, or the error for an unknown name.
pub fn syntax_token_kind(name: &[u8]) -> (r: Result<TokenKind, CommandError>)
    ensures
        token_kind_of(name@) matches Some(k) ==> r == Ok::<TokenKind, CommandError>(k),
        token_kind_of(name@).is_none() ==> r == Err::<TokenKind, CommandError>(CommandError::InvalidTokenKind),
{
    match parse_token_kind(name) {
        Some(k) => Ok(k),
        None => Err(CommandError::InvalidTokenKind),
    }
}

/// The `map` command: binds keys `from` to keys `to` in the mode named by
/// bytes `mode`; an unknown mode is an error and binds nothing.
pub fn map_keys(keymaps: &mut KeyMapCollection, mode: &[u8], from: Vec<Key>, to: Vec<Key>) -> (r: Result<(), CommandError>)
    ensures
        mode_kind_of(mode@).is_none() ==> r == Err::<(), CommandError>(CommandError::InvalidModeKind)
            && final(keymaps).bindings() == old(keymaps).bindings(),
        mode_kind_of(mode@) matches Some(m) ==> {
            &&& r.is_ok()
            &&& final(keymaps).bindings().drop_last() == old(keymaps).bindings()
            &&& final(keymaps).bindings().last().mode == m
            &&& final(keymaps).bindings().last().from@ == from@
            &&& final(keymaps).bindings().last().to@ == to@
        },
{
    match parse_mode_kind(mode) {
        Some(m) => {
            keymaps.add(m, from, to);
            Ok(())
        },
        None => Err(CommandError::InvalidModeKind),
    }
}

/// The properties after the `open` properties `names`, in order, starting
/// from those of a text file; an unknown name is an error.
pub open spec fn properties_after(p: BufferProperties, names: Seq<&[u8]>) -> Option<BufferProperties>
    decreases names.len(),
{
    if names.len() == 0 {
        Some(p)
    } else {
        match properties_after(p, names.drop_last()) {
            None => None,
            Some(q) => with_property(q, names.last()@),
        }
    }
}

/// Reads the trailing properties of `open`.
pub fn parse_properties(names: &Vec<&[u8]>) -> (r: Result<BufferProperties, CommandError>)
    ensures
        ({
            let start = BufferProperties { history_enabled: true, saving_enabled: true, is_file: true, word_database_enabled: true };
            match properties_after(start, names@) {
                Some(q) => r == Ok::<BufferProperties, CommandError>(q),
                None => r == Err::<BufferProperties, CommandError>(CommandError::InvalidBufferProperty),
            }
        }),
{
    let ghost start = BufferProperties { history_enabled: true, saving_enabled: true, is_file: true, word_database_enabled: true };
    let mut p = BufferProperties::text();
    let mut i: usize = 0;
    assert(names@.subrange(0, 0) =~= Seq::<&[u8]>::empty());
    while i < names.len()
        invariant
            i <= names@.len(),
            start == (BufferProperties { history_enabled: true, saving_enabled: true, is_file: true, word_database_enabled: true }),
            properties_after(start, names@.subrange(0, i as int)) == Some(p),
        decreases names@.len() - i,
    {
        assert(names@.subrange(0, i + 1).drop_last() =~= names@.subrange(0, i as int));
        match apply_property(p, names[i]) {
            Some(q) => {
                p = q;
            },
            None => {
                proof {
                    lemma_properties_after_none(start, names@, i + 1);
                }
                return Err(CommandError::InvalidBufferProperty);
            },
        }
        i = i + 1;
    }
    assert(names@.subrange(0, names@.len() as int) =~= names@);
    Ok(p)
}

proof fn lemma_properties_after_none(p: BufferProperties, names: Seq<&[u8]>, k: int)
    requires
        0 <= k <= names.len(),
        properties_after(p, names.subrange(0, k)).is_none(),
    ensures
        properties_after(p, names).is_none(),
    decreases names.len() - k,
{
    if k < names.len() {
        assert(names.subrange(0, k + 1).drop_last() =~= names.subrange(0, k));
        lemma_properties_after_none(p, names, k + 1);
    } else {
        assert(names.subrange(0, k) =~= names);
    }
}

} // verus!
