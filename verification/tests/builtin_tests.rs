use ash::builtin::{
    change_directory_target, check_env_vars, echo, exit_shell, expand_env_vars, export, parse_i8,
    unset,
};
use ash::parsing::ParsedCommand;
use ash::state::ShellState;
use ash::text::chars_of;

fn cmd(name: &str, args: &[&str]) -> ParsedCommand {
    let mut c = ParsedCommand::new();
    c.command = name.to_string();
    c.arguments = args.iter().map(|a| a.to_string()).collect();
    c
}

fn shell() -> ShellState {
    let mut s = ShellState::new("/home/tux".to_string(), "/home/tux".to_string());
    s.set_env_var("HOME", "/h");
    s
}

#[test]
fn check_env_vars_substitutes_names() {
    let s = shell();
    assert_eq!(check_env_vars("$HOME/x $ $$ ${A}", &s), "/h/x $ $$ ${A}");
    assert_eq!(check_env_vars("$UNSET-y", &s), "-y");
    assert_eq!(check_env_vars("a_$HOME_b", &s), "a_");
    assert_eq!(check_env_vars("", &s), "");
    assert_eq!(check_env_vars("$", &s), "$");
}

#[test]
fn expand_env_vars_respects_quotes() {
    let mut s = shell();
    assert_eq!(
        expand_env_vars("echo $HOME '$HOME' \"$HOME\" \\$HOME ${HOME}x $UNSET.", &mut s),
        "echo /h '$HOME' \"/h\" \\$HOME /hx ."
    );
    assert_eq!(expand_env_vars("${HOME", &mut s), "/h");
    assert_eq!(expand_env_vars("${NOPE}z", &mut s), "z");
    assert_eq!(expand_env_vars("\"it's $HOME\"", &mut s), "\"it's /h\"");
    assert_eq!(expand_env_vars("'a \"$HOME\" b'", &mut s), "'a \"$HOME\" b'");
    assert_eq!(expand_env_vars("end\\", &mut s), "end\\");
    assert_eq!(expand_env_vars("$ $1x", &mut s), "$ ");
}

#[test]
fn expansion_without_dollar_is_identity() {
    let mut s = shell();
    for t in ["plain text", "'q' \"d\" \\e", ""] {
        assert_eq!(expand_env_vars(t, &mut s), t);
        assert_eq!(check_env_vars(t, &s), t);
    }
}

#[test]
fn exit_codes() {
    let cases: Vec<(Vec<&str>, i8)> = vec![
        (vec!["3"], 3),
        (vec!["abc"], 0),
        (vec![], 0),
        (vec!["-128"], -128),
        (vec!["128"], 0),
        (vec!["+5"], 5),
        (vec!["-"], 0),
        (vec!["007"], 7),
        (vec!["12", "x"], 12),
    ];
    for (args, code) in cases {
        let mut s = shell();
        exit_shell(&cmd("exit", &args), &mut s);
        assert_eq!(s.exit_code, Some(code), "args {:?}", args);
        assert!(s.should_exit);
    }
}

#[test]
fn parse_i8_matches_std() {
    let mut samples: Vec<String> = Vec::new();
    for i in -300i32..300 {
        samples.push(i.to_string());
        samples.push(format!("+{}", i));
        samples.push(format!("00{}", i));
    }
    for t in ["", "+", "-", "--1", "+-1", "1a", " 1", "99999999999999999999", "-0", "+0"] {
        samples.push(t.to_string());
    }
    for t in samples {
        assert_eq!(parse_i8(&chars_of(&t)), t.parse::<i8>().ok(), "input {:?}", t);
    }
}

#[test]
fn echo_line_and_exit_code() {
    let mut s = shell();
    s.set_env_var("X", "1");
    s.exit_code = Some(5);
    let out = echo(&cmd("echo", &["a", "$X", "$NOPE", "b"]), &mut s);
    assert_eq!(out, "a 1  b");
    assert_eq!(s.exit_code, Some(0));
    assert_eq!(echo(&cmd("echo", &[]), &mut s), "");
}

#[test]
fn export_sets_variables() {
    let mut s = shell();
    s.set_env_var("C", "keep");
    s.exit_code = Some(9);
    let vars = export(&cmd("export", &["A=1", "B=$A-x", "C", "D", "E=x=y"]), &mut s);
    assert_eq!(
        vars,
        vec![
            ("A".to_string(), "1".to_string()),
            ("B".to_string(), "1-x".to_string()),
            ("E".to_string(), "x=y".to_string())
        ]
    );
    assert_eq!(s.env_var("A"), Some("1".to_string()));
    assert_eq!(s.env_var("B"), Some("1-x".to_string()));
    assert_eq!(s.env_var("C"), Some("keep".to_string()));
    assert_eq!(s.env_var("D"), Some(String::new()));
    assert_eq!(s.env_var("E"), Some("x=y".to_string()));
    assert_eq!(s.exit_code, Some(0));
}

#[test]
fn export_then_unset_restores() {
    let mut s = shell();
    export(&cmd("export", &["NEW=value"]), &mut s);
    assert_eq!(s.env_var("NEW"), Some("value".to_string()));
    s.exit_code = Some(3);
    unset(&cmd("unset", &["NEW", "MISSING"]), &mut s);
    assert_eq!(s.env_var("NEW"), None);
    assert_eq!(s.env_var("HOME"), Some("/h".to_string()));
    assert_eq!(s.exit_code, Some(0));
}

#[test]
fn cd_targets() {
    let s = shell();
    assert_eq!(change_directory_target(&cmd("cd", &[]), &s), "/home/tux");
    assert_eq!(change_directory_target(&cmd("cd", &["~"]), &s), "/home/tux");
    assert_eq!(change_directory_target(&cmd("cd", &["~/docs"]), &s), "/home/tux/docs");
    assert_eq!(change_directory_target(&cmd("cd", &["~x"]), &s), "/home/tuxx");
    assert_eq!(change_directory_target(&cmd("cd", &["/tmp", "y"]), &s), "/tmp");
}

#[test]
fn check_env_vars_matches_expand_on_simple_text() {
    let mut s = shell();
    s.set_env_var("A_1", "x y");
    for t in ["$HOME and $A_1/$NOPE $", "plain", "$$HOME", "a$", "{$HOME}"] {
        let c = check_env_vars(t, &s);
        assert_eq!(c, expand_env_vars(t, &mut s), "input {:?}", t);
    }
}

#[test]
fn variable_names_take_unicode_letters_and_digits() {
    let mut s = shell();
    s.set_env_var("café٣", "v");
    assert_eq!(check_env_vars("[$café٣]", &s), "[v]");
    assert_eq!(expand_env_vars("$café٣·x", &mut s), "v·x");
    assert_eq!(check_env_vars("$HOME\u{3000}y", &s), "/h\u{3000}y");
}
