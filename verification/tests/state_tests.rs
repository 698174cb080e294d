use ash::input::{read_command_line, read_input};
use ash::interface::prompt_path;
use ash::parsing::Operator;
use ash::state::{load_history, record_history, ShellState, MAX_HISTORY_SIZE};

fn shell() -> ShellState {
    ShellState::new("/home/tux".to_string(), "/home/tux".to_string())
}

#[test]
fn new_state() {
    let s = shell();
    assert_eq!(s.exit_code, Some(0));
    assert!(!s.should_exit);
    assert_eq!(s.history_max, MAX_HISTORY_SIZE);
    assert_eq!(MAX_HISTORY_SIZE, 1000);
    assert!(s.history.is_empty());
}

#[test]
fn history_skips_blank_and_repeated_lines() {
    let mut s = shell();
    record_history(&mut s, "  ls -l \n");
    record_history(&mut s, "ls -l");
    record_history(&mut s, "   \n");
    record_history(&mut s, "pwd\n");
    record_history(&mut s, "ls -l\n");
    assert_eq!(s.history, vec!["ls -l".to_string(), "pwd".to_string(), "ls -l".to_string()]);
}

#[test]
fn history_keeps_latest_entries() {
    let mut s = shell();
    s.history_max = 2;
    for l in ["a", "b", "c", "c", "d"] {
        record_history(&mut s, l);
        assert!(s.history.len() <= 2);
    }
    assert_eq!(s.history, vec!["c".to_string(), "d".to_string()]);
}

#[test]
fn loading_history() {
    let mut s = shell();
    s.history_max = 3;
    s.exit_code = Some(1);
    record_history(&mut s, "first");
    let lines: Vec<String> = vec![" a ".to_string(), "".to_string(), "b".to_string(), "c\t".to_string()];
    load_history(&mut s, &lines);
    assert_eq!(s.history, vec!["a".to_string(), "b".to_string(), "c".to_string()]);
    assert_eq!(s.exit_code, Some(0));
}

#[test]
fn prompt_paths() {
    assert_eq!(prompt_path("/home/tux", "/home/tux"), "~");
    assert_eq!(prompt_path("/home/tux/projects", "/home/tux"), "~/projects");
    assert_eq!(prompt_path("/home/tux2", "/home/tux"), "/home/tux2");
    assert_eq!(prompt_path("/etc", "/home/tux"), "/etc");
}

#[test]
fn reading_input_lines() {
    let mut s = shell();
    s.set_env_var("D", "/tmp");
    assert!(read_input(&s, "   \n").is_none());
    let cmds = read_input(&s, " ls $D | wc -l \n").unwrap().unwrap();
    assert_eq!(cmds.len(), 2);
    assert_eq!(cmds[0].0.command, "ls");
    assert_eq!(cmds[0].0.arguments, vec!["$D".to_string()]);
    assert_eq!(cmds[0].1, Operator::Pipe);
    assert_eq!(cmds[1].0.command, "wc");
    assert_eq!(cmds[1].1, Operator::NoOp);
    assert!(read_input(&s, "ls &&").unwrap().is_err());
}

#[test]
fn reading_input_expands_aliases_only() {
    let mut s = shell();
    s.set_env_var("D", "/tmp");
    assert!(ash::builtin::alias::alias(&ash::parsing::simple_parse("alias p=\"echo $D\""), &mut s));
    let cmds = read_input(&s, " p x && ls").unwrap().unwrap();
    assert_eq!(cmds.len(), 2);
    assert_eq!(cmds[0].0.command, "echo");
    assert_eq!(cmds[0].0.arguments, vec!["$D".to_string(), "x".to_string()]);
    assert_eq!(cmds[0].1, Operator::And);
}

#[test]
fn reading_command_lines() {
    let mut s = shell();
    s.set_env_var("D", "/tmp");
    assert!(read_command_line(&s, "   \n").is_none());
    let cmds = read_command_line(&s, " ls $D | wc -l \n").unwrap().unwrap();
    assert_eq!(cmds.len(), 2);
    assert_eq!(cmds[0].0.command, "ls");
    assert_eq!(cmds[0].0.arguments, vec!["/tmp".to_string()]);
    assert_eq!(cmds[0].1, Operator::Pipe);
    assert_eq!(cmds[1].0.command, "wc");
    assert_eq!(cmds[1].1, Operator::NoOp);
    assert!(read_command_line(&s, "ls &&").unwrap().is_err());
}

#[test]
fn reading_command_lines_expands_aliases_before_variables() {
    let mut s = shell();
    s.set_env_var("D", "/tmp");
    assert!(ash::builtin::alias::alias(&ash::parsing::simple_parse("alias p=\"echo $D\""), &mut s));
    assert!(ash::input::input_expandable(&s, " p x "));
    let cmds = read_command_line(&s, " p x ").unwrap().unwrap();
    assert_eq!(cmds.len(), 1);
    assert_eq!(cmds[0].0.command, "echo");
    assert_eq!(cmds[0].0.arguments, vec!["/tmp".to_string(), "x".to_string()]);
    s.set_env_var("V", "p");
    let cmds = read_command_line(&s, "$V y").unwrap().unwrap();
    assert_eq!(cmds[0].0.command, "p");
    assert!(!ash::input::input_expandable(&s, "a\u{3000}b"));
    assert!(ash::input::input_expandable(&s, "   "));
}

#[test]
fn loading_saved_history_gives_it_back() {
    let mut saved = shell();
    for l in ["ls -l", "cd /tmp", "echo 'a b'"] {
        record_history(&mut saved, l);
    }
    let mut s = shell();
    load_history(&mut s, &saved.history);
    assert_eq!(s.history, saved.history);
}
