use ash::config::{
    config_entry, execute_conf_function, is_function_definition, remove_var_lines, ConfigReader,
};
use ash::parsing::ParsedCommand;
use ash::state::ShellState;

fn cmd(name: &str, args: &[&str]) -> ParsedCommand {
    let mut c = ParsedCommand::new();
    c.command = name.to_string();
    c.arguments = args.iter().map(|a| a.to_string()).collect();
    c
}

fn shell() -> ShellState {
    ShellState::new("/home/tux".to_string(), "/home/tux".to_string())
}

#[test]
fn function_definitions() {
    let cases: Vec<(&str, Option<&str>)> = vec![
        ("greet() {\n", Some("greet")),
        ("greet(){", Some("greet")),
        ("  my_fn ( ) {  ", Some("my_fn")),
        ("my_fn () {", Some("my_fn")),
        ("function hi {", Some("hi")),
        ("function  x  {\n", Some("x")),
        ("function hi{", Some("hi")),
        ("echo hi", None),
        ("bad name() {", None),
        ("() {", None),
        ("function {", None),
        ("alias ll='ls -alF'\n", None),
    ];
    for (line, name) in cases {
        assert_eq!(is_function_definition(line), name.map(|n| n.to_string()), "line {:?}", line);
    }
}

#[test]
fn config_reader_runs_commands_and_stores_functions() {
    let mut s = shell();
    let mut reader = ConfigReader::new(&mut s);
    assert!(s.reading_config);
    let mut commands: Vec<ParsedCommand> = Vec::new();
    let lines = [
        "# ~/.ashrc\n",
        "\n",
        "alias ll='ls -alF'\n",
        "greet() {\n",
        "    echo \"Hello\"\n",
        "    echo second\n",
        "}\n",
        "export EDITOR=vim\n",
    ];
    for line in lines {
        assert!(reader.accepts_line(line, &s));
        if let Some(c) = reader.read_config_line(line, &mut s) {
            commands.push(c);
        }
    }
    reader.finish(&mut s);
    assert!(!s.reading_config);
    assert_eq!(commands.len(), 2);
    assert_eq!(commands[0].command, "alias");
    assert_eq!(commands[0].arguments, vec!["ll=ls -alF".to_string()]);
    assert_eq!(commands[1].command, "export");
    assert_eq!(commands[1].arguments, vec!["EDITOR=vim".to_string()]);
    s.exit_code = Some(7);
    let body = execute_conf_function("greet", &mut s).unwrap();
    assert_eq!(s.exit_code, Some(0));
    assert_eq!(body.len(), 2);
    assert_eq!(body[0].command, "echo");
    assert_eq!(body[0].arguments, vec!["Hello".to_string()]);
    assert_eq!(body[1].arguments, vec!["second".to_string()]);
    s.exit_code = Some(7);
    assert!(execute_conf_function("nope", &mut s).is_none());
    assert_eq!(s.exit_code, Some(7));
}

#[test]
fn config_reader_nested_braces() {
    let mut s = shell();
    let mut reader = ConfigReader::new(&mut s);
    for line in ["function f {\n", "  if x { y }\n", "  z\n", "}\n"] {
        assert!(reader.accepts_line(line, &s));
        assert!(reader.read_config_line(line, &mut s).is_none());
    }
    assert!(!reader.in_function);
    let body = execute_conf_function("f", &mut s).unwrap();
    assert_eq!(body.len(), 1);
    assert_eq!(body[0].command, "z");
}

#[test]
fn config_reader_refuses_unbalanced_close() {
    let mut s = shell();
    let mut reader = ConfigReader::new(&mut s);
    assert!(reader.read_config_line("f() {\n", &mut s).is_none());
    assert!(!reader.accepts_line("} }\n", &s));
}

#[test]
fn config_reader_refuses_blank_command_line() {
    let mut s = shell();
    let reader = ConfigReader::new(&mut s);
    assert!(!reader.accepts_line("   \n", &s));
    assert!(reader.accepts_line(" \n", &s) == false);
    assert!(reader.accepts_line("\n", &s));
}

#[test]
fn config_reader_skips_single_byte_lines() {
    let mut s = shell();
    let mut reader = ConfigReader::new(&mut s);
    assert!(reader.read_config_line("x", &mut s).is_none());
    assert!(reader.read_config_line("#x y", &mut s).is_none());
    assert!(reader.read_config_line("", &mut s).is_none());
}

#[test]
fn config_entries() {
    assert_eq!(
        config_entry(&cmd("export", &["A=1", "B=a b", ""])),
        "export A=1 \"B=a b\" \"\"\n"
    );
    assert_eq!(
        config_entry(&cmd("export", &["x=\"y z\""])),
        "export \"x=\\\"y z\\\"\"\n"
    );
    assert_eq!(config_entry(&cmd("export", &[])), "export\n");
}

#[test]
fn config_entry_parses_back() {
    let c = cmd("export", &["A=1", "B=a b", "q=\"x y\""]);
    let line = config_entry(&c);
    let back = ash::parsing::simple_parse(&line);
    assert_eq!(back.command, c.command);
    assert_eq!(back.arguments, c.arguments);
}

#[test]
fn removing_variable_lines() {
    let lines: Vec<String> = vec![
        "export PATH=1".to_string(),
        "  PATH=2".to_string(),
        "export PATHX=3".to_string(),
        "echo PATH=4".to_string(),
        "alias ll='ls'".to_string(),
    ];
    let kept = remove_var_lines(&lines, "PATH");
    assert_eq!(
        kept,
        vec!["export PATHX=3".to_string(), "echo PATH=4".to_string(), "alias ll='ls'".to_string()]
    );
}
