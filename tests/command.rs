use pepper::command::{
    BuiltinCommand, CommandArgs, CommandIter, CommandManager, CommandParseError, CommandSource,
    MAX_OTHER_VALUES_LEN,
};

fn create_commands() -> CommandManager {
    CommandManager::with_commands(vec![BuiltinCommand {
        names: vec!["command-name", "c"],
        description: "",
        bang_usage: Some(""),
        required_values: vec![],
        optional_values: vec![],
        extra_values: Some(("", None)),
        flags: vec![("switch", None), ("option", None)],
    }])
}

fn text(bytes: &[u8]) -> &str {
    std::str::from_utf8(bytes).unwrap()
}

fn parse_bang(commands: &CommandManager, command: &str) -> bool {
    let (source, args) = match commands.parse(command) {
        Ok(result) => result,
        Err(_) => panic!("command parse error"),
    };
    assert!(matches!(source, CommandSource::Builtin(0)));
    args.bang
}

#[test]
fn command_parsing() {
    let commands = create_commands();
    assert_eq!(false, parse_bang(&commands, "command-name"));
    assert_eq!(false, parse_bang(&commands, "  command-name  "));
    assert_eq!(true, parse_bang(&commands, "  command-name!  "));
    assert_eq!(true, parse_bang(&commands, "  command-name!"));
}

fn parse_args<'a>(commands: &CommandManager, command: &'a str) -> CommandArgs<'a> {
    match commands.parse(command) {
        Ok((_, args)) => args,
        Err(_) => panic!("command '{}' parse error", command),
    }
}

fn other_values_vec<'a>(args: &CommandArgs<'a>) -> Vec<&'a str> {
    args.other_values.iter().map(|v| text(v)).collect()
}

#[test]
fn arg_parsing() {
    let commands = create_commands();
    let args = parse_args(&commands, "c  aaa  bbb  ccc  ");
    assert_eq!(["aaa", "bbb", "ccc"], &other_values_vec(&args)[..]);
    let args = parse_args(&commands, "c  'aaa'  \"bbb\"  ccc  ");
    assert_eq!(["aaa", "bbb", "ccc"], &other_values_vec(&args)[..]);
    let args = parse_args(&commands, "c  'aaa'\"bbb\"\"ccc\"ddd  ");
    assert_eq!(["aaa", "bbb", "ccc", "ddd"], &other_values_vec(&args)[..]);

    let args = parse_args(
        &commands,
        "c \\\n-switch'value'\\\n-option=\"option value!\"\\\n",
    );
    assert_eq!(["value"], &other_values_vec(&args)[..]);
    assert_eq!("true", text(args.flags[0]));
    assert_eq!("option value!", text(args.flags[1]));
}

fn parse_error<'a>(commands: &CommandManager, command: &'a str) -> CommandParseError<'a> {
    match commands.parse(command) {
        Ok(_) => panic!("command parsed successfully"),
        Err(error) => error,
    }
}

#[test]
fn command_parsing_fail() {
    let commands = create_commands();

    match parse_error(&commands, "") {
        CommandParseError::InvalidCommandName(s) => assert_eq!("", text(s)),
        _ => panic!("other error occurred"),
    }
    match parse_error(&commands, "   ") {
        CommandParseError::InvalidCommandName(s) => assert_eq!("", text(s)),
        _ => panic!("other error occurred"),
    }
    match parse_error(&commands, " !") {
        CommandParseError::InvalidCommandName(s) => assert_eq!("!", text(s)),
        _ => panic!("other error occurred"),
    }
    match parse_error(&commands, "!  'aa'") {
        CommandParseError::InvalidCommandName(s) => assert_eq!("!", text(s)),
        _ => panic!("other error occurred"),
    }
    match parse_error(&commands, "c -option=") {
        CommandParseError::InvalidFlagValue(s) => assert_eq!("=", text(s)),
        _ => panic!("other error occurred"),
    }
    match parse_error(&commands, "  a \"aa\"") {
        CommandParseError::CommandNotFound(s) => assert_eq!("a", text(s)),
        _ => panic!("other error occurred"),
    }

    match parse_error(&commands, "c! 'abc") {
        CommandParseError::UnterminatedArgument(s) => assert_eq!("abc", text(s)),
        _ => panic!("other error occurred"),
    }
    match parse_error(&commands, "c! '") {
        CommandParseError::UnterminatedArgument(s) => assert_eq!("", text(s)),
        _ => panic!("other error occurred"),
    }
    match parse_error(&commands, "c! \"'") {
        CommandParseError::UnterminatedArgument(s) => assert_eq!("'", text(s)),
        _ => panic!("other error occurred"),
    }

    const TOO_MANY_VALUES_LEN: usize = MAX_OTHER_VALUES_LEN;
    let mut too_many_values_command = String::new();
    too_many_values_command.push('c');
    for _ in 0..TOO_MANY_VALUES_LEN {
        too_many_values_command.push_str(" a");
    }
    too_many_values_command.push_str(" b");
    match parse_error(&commands, &too_many_values_command) {
        CommandParseError::TooManyValues(s, TOO_MANY_VALUES_LEN) => assert_eq!("b", text(s)),
        _ => panic!("other error occurred"),
    }
}

fn next_command<'a>(commands: &mut CommandIter<'a>) -> Option<&'a str> {
    commands.next().map(text)
}

#[test]
fn multi_command_line_parsing() {
    let mut commands = CommandIter::new("command0\ncommand1");
    assert_eq!(Some("command0"), next_command(&mut commands));
    assert_eq!(Some("command1"), next_command(&mut commands));
    assert_eq!(None, next_command(&mut commands));

    let mut commands = CommandIter::new("command0\n\n\ncommand1");
    assert_eq!(Some("command0"), next_command(&mut commands));
    assert_eq!(Some("command1"), next_command(&mut commands));
    assert_eq!(None, next_command(&mut commands));

    let mut commands = CommandIter::new("command0\\\n still command0\ncommand1");
    assert_eq!(Some("command0\\\n still command0"), next_command(&mut commands));
    assert_eq!(Some("command1"), next_command(&mut commands));
    assert_eq!(None, next_command(&mut commands));

    let mut commands = CommandIter::new("   #command0");
    assert_eq!(None, next_command(&mut commands));

    let mut commands = CommandIter::new("command0 # command1");
    assert_eq!(Some("command0 "), next_command(&mut commands));
    assert_eq!(None, next_command(&mut commands));

    let mut commands = CommandIter::new("    # command0\ncommand1");
    assert_eq!(Some("command1"), next_command(&mut commands));
    assert_eq!(None, next_command(&mut commands));

    let mut commands =
        CommandIter::new("command0# comment\n\n# more comment\n\n# one more comment\ncommand1");
    assert_eq!(Some("command0"), next_command(&mut commands));
    assert_eq!(Some("command1"), next_command(&mut commands));
    assert_eq!(None, next_command(&mut commands));
}

#[test]
fn parse_is_repeatable() {
    let commands = create_commands();
    let input = "c! 'x' -option=y z";
    let first = parse_args(&commands, input);
    let second = parse_args(&commands, input);
    assert_eq!(first.bang, second.bang);
    assert_eq!(other_values_vec(&first), other_values_vec(&second));
    assert_eq!(first.flags, second.flags);
}

#[test]
fn parse_error_points_inside_input() {
    let commands = create_commands();
    let input = "c -unknown";
    match parse_error(&commands, input) {
        CommandParseError::UnknownFlag(s) => {
            let start = s.as_ptr() as usize - input.as_ptr() as usize;
            assert_eq!(3, start);
            assert!(start + s.len() <= input.len());
            assert_eq!("unknown", text(s));
        }
        _ => panic!("other error occurred"),
    }
}

#[test]
fn bang_needs_no_space_before_it() {
    let commands = create_commands();
    match parse_error(&commands, "c !") {
        CommandParseError::InvalidArgument(s) => assert_eq!("!", text(s)),
        _ => panic!("other error occurred"),
    }
}

#[test]
fn too_few_values_names_the_minimum() {
    let commands = CommandManager::with_commands(vec![BuiltinCommand {
        names: vec!["open"],
        description: "",
        bang_usage: None,
        required_values: vec![("path", None)],
        optional_values: vec![],
        extra_values: None,
        flags: vec![],
    }]);
    match parse_error(&commands, "open") {
        CommandParseError::TooFewValues(s, 1) => assert_eq!("open", text(s)),
        _ => panic!("other error occurred"),
    }
    match parse_error(&commands, "open! a") {
        CommandParseError::CommandDoesNotAcceptBang(s) => assert_eq!("open", text(s)),
        _ => panic!("other error occurred"),
    }
    let args = parse_args(&commands, "open a");
    assert_eq!("a", text(args.required_values[0]));
}

#[test]
fn history_keeps_the_last_ten() {
    let mut commands = create_commands();
    commands.add_to_history("");
    assert_eq!(0, commands.history_len());
    for i in 0..12 {
        commands.add_to_history(&format!("e{}", i));
    }
    assert_eq!(10, commands.history_len());
    assert_eq!("e2", commands.history_entry(0));
    assert_eq!("e11", commands.history_entry(9));
    assert_eq!("", commands.history_entry(10));
}

#[test]
fn render_error_marks_token() {
    let table = pepper::builtins::builtin_commands();
    match pepper::command::parse_or_render("open a -x", &table) {
        Ok(_) => panic!("command parsed successfully"),
        Err(shown) => assert_eq!("open a -x\n        ^\nunknown flag 'x'", String::from_utf8(shown).unwrap()),
    }
    match pepper::command::parse_or_render("map normal a", &table) {
        Ok(_) => panic!("command parsed successfully"),
        Err(shown) => assert_eq!(
            "map normal a\n           ^\ncommand expects at least 3 values",
            String::from_utf8(shown).unwrap()
        ),
    }
    assert!(pepper::command::parse_or_render("quit!", &table).is_ok());
}

#[test]
fn builtin_names_parse() {
    let p = pepper::builtins::BufferProperties::text();
    let q = pepper::builtins::apply_property(p, b"saving-disabled").unwrap();
    assert!(!q.saving_enabled && q.history_enabled);
    assert!(pepper::builtins::apply_property(p, b"bogus").is_none());
    assert_eq!(Some(pepper::builtins::ModeKind::Picker), pepper::builtins::parse_mode_kind(b"picker"));
    assert_eq!(Some(pepper::builtins::TokenKind::Comment), pepper::builtins::parse_token_kind(b"comments"));
    assert_eq!(Ok(true), pepper::builtins::eval_if(b"a", b"==", b"a"));
    assert_eq!(Ok(true), pepper::builtins::eval_if(b"a", b"!=", b"b"));
    assert!(pepper::builtins::eval_if(b"a", b"<", b"b").is_err());
    assert!(!pepper::builtins::is_valid_env_key(b""));
    assert!(!pepper::builtins::is_valid_env_key(b"A=B"));
    assert!(pepper::builtins::is_valid_env_key(b"PATH"));
}

#[test]
fn reopen_all_tolerates_missing_files() {
    let missing = Err(pepper::command::BufferReadError::FileNotFound);
    let bad = Err(pepper::command::BufferReadError::InvalidData);
    assert_eq!(Ok(()), pepper::command::reopen_all_result(&vec![Ok(()), missing]));
    assert_eq!(bad, pepper::command::reopen_all_result(&vec![missing, bad, Err(pepper::command::BufferReadError::Io)]));
}

#[test]
fn command_argument_checks() {
    assert_eq!(Ok(b'a'), pepper::builtins::parse_register_key(b"a"));
    assert_eq!(Err(pepper::command::CommandError::InvalidRegisterKey), pepper::builtins::parse_register_key(b"ab"));
    assert_eq!(Err(pepper::command::CommandError::InvalidIfOp), pepper::builtins::eval_if(b"a", b"<", b"b"));
    assert_eq!(Err(pepper::command::CommandError::InvalidEnvironmentVariable), pepper::builtins::check_env_key(b"A=B"));
    assert_eq!(Err(pepper::command::CommandError::InvalidTokenKind), pepper::builtins::syntax_token_kind(b"x"));
    let mut maps = pepper::editor::KeyMapCollection::new();
    assert_eq!(
        Err(pepper::command::CommandError::InvalidModeKind),
        pepper::builtins::map_keys(&mut maps, b"visual", vec![], vec![])
    );
    assert_eq!(Ok(()), pepper::builtins::map_keys(&mut maps, b"insert", vec![pepper::platform::Key::Tab], vec![]));
    let names: Vec<&[u8]> = vec![b"scratch", b"history-enabled"];
    let p = pepper::builtins::parse_properties(&names).unwrap();
    assert!(p.history_enabled && !p.saving_enabled);
    let bad: Vec<&[u8]> = vec![b"bogus"];
    assert_eq!(Err(pepper::command::CommandError::InvalidBufferProperty), pepper::builtins::parse_properties(&bad));
}

#[test]
fn script_stops_at_first_failing_command() {
    let table = pepper::builtins::builtin_commands();
    match pepper::command::parse_script("open a.txt\n# comment\nquit!\n", &table) {
        Ok(parsed) => assert_eq!(2, parsed.len()),
        Err(_) => panic!("script failed"),
    }
    match pepper::command::parse_script("save\nmap normal\nquit", &table) {
        Ok(_) => panic!("script parsed"),
        Err((index, shown)) => {
            assert_eq!(1, index);
            assert_eq!(
                "map normal\n    ^^^^^^\ncommand expects at least 3 values",
                String::from_utf8(shown).unwrap()
            );
        }
    }
}
