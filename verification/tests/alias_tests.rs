use ash::builtin::alias::{
    alias, alias_expands, aliases_expandable, check_alias, check_aliases, get_alias, unalias,
    unquote,
};
use ash::parsing::{Operator, ParsedCommand};
use ash::state::ShellState;
use ash::varmap::NameSet;

fn cmd(name: &str, args: &[&str]) -> ParsedCommand {
    let mut c = ParsedCommand::new();
    c.command = name.to_string();
    c.arguments = args.iter().map(|a| a.to_string()).collect();
    c
}

fn shell() -> ShellState {
    ShellState::new("/home/tux".to_string(), "/home/tux".to_string())
}

fn define(s: &mut ShellState, arg: &str) {
    assert!(alias(&cmd("alias", &[arg]), s));
}

fn expand(s: &ShellState, line: &str) -> String {
    let mut visited = NameSet::new();
    check_alias(line, s, &mut visited)
}

#[test]
fn unquote_cases() {
    for (a, b) in [("\"abc\"", "abc"), ("\"", "\""), ("abc\"", "abc\""), ("\"\"", ""), ("'x'", "'x'"), ("\"é\"", "é")] {
        let mut t = a.to_string();
        unquote(&mut t);
        assert_eq!(t, b);
    }
}

#[test]
fn alias_defines_and_expands() {
    let mut s = shell();
    define(&mut s, "ll=ls -alF");
    assert_eq!(s.alias_value("ll"), Some("ls -alF".to_string()));
    assert_eq!(expand(&s, "ll /tmp"), "ls -alF /tmp");
    assert_eq!(expand(&s, "ll"), "ls -alF");
    assert_eq!(expand(&s, "other x"), "other x");
}

#[test]
fn alias_strips_double_quotes() {
    let mut s = shell();
    define(&mut s, "\"g\"=\"git status\"");
    assert_eq!(s.alias_value("g"), Some("git status".to_string()));
    define(&mut s, "e=a=b");
    assert_eq!(s.alias_value("e"), Some("a=b".to_string()));
}

#[test]
fn alias_without_equals_is_refused() {
    let mut s = shell();
    assert!(!alias(&cmd("alias", &["foo"]), &mut s));
    assert_eq!(s.alias_value("foo"), None);
}

#[test]
fn unalias_cases() {
    let mut s = shell();
    define(&mut s, "a=b");
    define(&mut s, "c=d");
    assert!(unalias(&cmd("unalias", &["a"]), &mut s));
    assert_eq!(s.alias_value("a"), None);
    assert_eq!(s.alias_value("c"), Some("d".to_string()));
    assert!(!unalias(&cmd("unalias", &["a"]), &mut s));
    assert!(unalias(&cmd("unalias", &["-a"]), &mut s));
    assert_eq!(s.alias_value("c"), None);
}

#[test]
fn alias_then_unalias_restores() {
    let mut s = shell();
    define(&mut s, "k=v");
    assert!(unalias(&cmd("unalias", &["k"]), &mut s));
    assert_eq!(s.alias_value("k"), None);
    assert_eq!(expand(&s, "k x"), "k x");
}

#[test]
fn alias_chains_and_cycles() {
    let mut s = shell();
    define(&mut s, "a=b");
    define(&mut s, "b=a");
    let mut visited = NameSet::new();
    assert_eq!(get_alias("a", &s, &mut visited), "a");
    define(&mut s, "ls=ls --color");
    assert_eq!(expand(&s, "ls -l"), "ls --color -l");
    define(&mut s, "x=y z");
    define(&mut s, "y=w");
    assert_eq!(expand(&s, "x 1"), "w z 1");
    define(&mut s, "empty=");
    assert_eq!(expand(&s, "empty q"), " q");
}

#[test]
fn get_alias_of_visited_or_unknown_name() {
    let mut s = shell();
    define(&mut s, "a=b");
    let mut visited = NameSet::new();
    assert_eq!(get_alias("zzz", &s, &mut visited), "zzz");
    assert!(visited.contains(&['z', 'z', 'z']));
    assert_eq!(get_alias("zzz", &s, &mut visited), "zzz");
    visited.insert(vec!['a']);
    assert_eq!(get_alias("a", &s, &mut visited), "a");
}

#[test]
fn check_alias_byte_offsets() {
    let s = shell();
    assert_eq!(expand(&s, " ab cd"), "ab  cd");
    assert_eq!(expand(&s, "\u{3000}ab"), "ab ab");
    assert_eq!(expand(&s, "\u{a0}a b"), "a a b");
    assert!(!alias_expands("\u{3000}a b", &s));
    assert!(!alias_expands("   ", &s));
    assert!(alias_expands("ls", &s));
}

#[test]
fn check_aliases_rewrites_commands() {
    let mut s = shell();
    define(&mut s, "ll=ls -alF");
    let cmds = vec![(cmd("ll", &["x"]), Operator::Pipe), (cmd("grep", &["y"]), Operator::NoOp)];
    assert!(aliases_expandable(&cmds, &s));
    let out = check_aliases(cmds, &s);
    assert_eq!(out[0].0.command, "ls");
    assert_eq!(out[0].0.arguments, vec!["-alF".to_string(), "x".to_string()]);
    assert_eq!(out[0].1, Operator::Pipe);
    assert_eq!(out[1].0.command, "grep");
    assert_eq!(out[1].0.arguments, vec!["y".to_string()]);
    assert_eq!(out[1].1, Operator::NoOp);
}

#[test]
fn check_aliases_without_aliases_is_identity() {
    let s = shell();
    let cmds = vec![(cmd("echo", &["a", "b"]), Operator::NoOp)];
    let out = check_aliases(cmds, &s);
    assert_eq!(out[0].0.command, "echo");
    assert_eq!(out[0].0.arguments, vec!["a".to_string(), "b".to_string()]);
}

#[test]
fn empty_command_cannot_be_expanded() {
    let s = shell();
    let cmds = vec![(cmd("", &[]), Operator::NoOp)];
    assert!(!aliases_expandable(&cmds, &s));
}
