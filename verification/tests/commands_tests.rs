use ash::commands::{
    execute_command, execute_full_command, pipeline_display, Action, ChainStep, CommandChain,
    Effect,
};
use ash::parsing::{Operator, ParsedCommand};
use ash::state::ShellState;

fn cmd(name: &str, args: &[&str]) -> ParsedCommand {
    let mut c = ParsedCommand::new();
    c.command = name.to_string();
    c.arguments = args.iter().map(|a| a.to_string()).collect();
    c
}

fn shell() -> ShellState {
    let mut s = ShellState::new("/home/tux".to_string(), "/home/tux/src".to_string());
    s.set_env_var("X", "1");
    s
}

#[test]
fn dispatch_cd_pwd_echo() {
    let mut s = shell();
    match execute_command(&cmd("cd", &["~/a"]), &Operator::NoOp, &mut s) {
        Action::Builtin(Effect::ChangeDirectory(t)) => assert_eq!(t, "/home/tux/a"),
        _ => panic!("cd"),
    }
    s.exit_code = Some(4);
    match execute_command(&cmd("pwd", &[]), &Operator::NoOp, &mut s) {
        Action::Builtin(Effect::Print(t)) => assert_eq!(t, "/home/tux/src"),
        _ => panic!("pwd"),
    }
    assert_eq!(s.exit_code, Some(0));
    match execute_command(&cmd("echo", &["$X", "y"]), &Operator::Background, &mut s) {
        Action::Builtin(Effect::Print(t)) => assert_eq!(t, "1 y"),
        _ => panic!("echo"),
    }
}

#[test]
fn dispatch_exit_and_external() {
    let mut s = shell();
    assert!(matches!(execute_command(&cmd("exit", &["2"]), &Operator::NoOp, &mut s), Action::Exit));
    assert_eq!(s.exit_code, Some(2));
    assert!(s.should_exit);
    let mut t = shell();
    assert!(matches!(execute_command(&cmd("ls", &["-l"]), &Operator::NoOp, &mut t), Action::External));
    assert!(!t.should_exit);
}

#[test]
fn dispatch_export_and_unset() {
    let mut s = shell();
    match execute_command(&cmd("export", &["A=$X", "B=a b"]), &Operator::NoOp, &mut s) {
        Action::Builtin(Effect::Export(vars, entry)) => {
            assert_eq!(vars, vec![("A".to_string(), "1".to_string()), ("B".to_string(), "a b".to_string())]);
            assert_eq!(entry, Some("export A=$X \"B=a b\"\n".to_string()));
        }
        _ => panic!("export"),
    }
    assert_eq!(s.env_var("A"), Some("1".to_string()));
    s.reading_config = true;
    match execute_command(&cmd("export", &["C=2"]), &Operator::NoOp, &mut s) {
        Action::Builtin(Effect::Export(_, entry)) => assert_eq!(entry, None),
        _ => panic!("export"),
    }
    match execute_command(&cmd("unset", &["A", "C"]), &Operator::NoOp, &mut s) {
        Action::Builtin(Effect::Unset(names)) => assert_eq!(names, vec!["A".to_string(), "C".to_string()]),
        _ => panic!("unset"),
    }
    assert_eq!(s.env_var("A"), None);
    assert_eq!(s.env_var("C"), None);
}

#[test]
fn dispatch_alias_and_unalias_notices() {
    let mut s = shell();
    assert!(matches!(
        execute_command(&cmd("alias", &["ll=ls -l"]), &Operator::NoOp, &mut s),
        Action::Builtin(Effect::Nothing)
    ));
    match execute_command(&cmd("alias", &["bad"]), &Operator::NoOp, &mut s) {
        Action::Builtin(Effect::Print(t)) => assert_eq!(t, "bad is not a valid alias"),
        _ => panic!("alias"),
    }
    match execute_command(&cmd("unalias", &["nope"]), &Operator::NoOp, &mut s) {
        Action::Builtin(Effect::Print(t)) => assert_eq!(t, "nope alias not found"),
        _ => panic!("unalias"),
    }
    assert!(matches!(
        execute_command(&cmd("unalias", &["ll"]), &Operator::NoOp, &mut s),
        Action::Builtin(Effect::Nothing)
    ));
    assert_eq!(s.alias_value("ll"), None);
}

fn step(chain: &mut CommandChain, name: &str, op: Operator, exit: Option<i8>) -> ChainStep {
    let mut s = shell();
    s.exit_code = exit;
    execute_full_command(chain, &cmd(name, &[]), &op, &s)
}

fn ran(step: &ChainStep) -> Vec<String> {
    match step {
        ChainStep::Skip => vec!["skip".to_string()],
        ChainStep::Queue => vec!["queue".to_string()],
        ChainStep::Run(c) => vec![c.command.clone()],
        ChainStep::RunPipeline(p) => p.iter().map(|c| c.command.clone()).collect(),
    }
}

#[test]
fn and_runs_only_after_success() {
    let mut chain = CommandChain::new();
    assert_eq!(ran(&step(&mut chain, "a", Operator::And, Some(0))), vec!["a"]);
    assert_eq!(ran(&step(&mut chain, "b", Operator::NoOp, Some(1))), vec!["skip"]);
    let mut chain = CommandChain::new();
    step(&mut chain, "a", Operator::And, Some(0));
    assert_eq!(ran(&step(&mut chain, "b", Operator::NoOp, Some(0))), vec!["b"]);
}

#[test]
fn or_runs_only_after_failure() {
    let mut chain = CommandChain::new();
    step(&mut chain, "a", Operator::Or, Some(0));
    assert_eq!(ran(&step(&mut chain, "b", Operator::NoOp, Some(0))), vec!["skip"]);
    let mut chain = CommandChain::new();
    step(&mut chain, "a", Operator::Or, Some(0));
    assert_eq!(ran(&step(&mut chain, "b", Operator::NoOp, Some(2))), vec!["b"]);
}

#[test]
fn skipping_continues_to_or() {
    let mut chain = CommandChain::new();
    step(&mut chain, "false", Operator::And, Some(0));
    assert_eq!(ran(&step(&mut chain, "x", Operator::Or, Some(1))), vec!["skip"]);
    assert_eq!(ran(&step(&mut chain, "y", Operator::NoOp, Some(1))), vec!["y"]);
}

#[test]
fn pipes_run_together() {
    let mut chain = CommandChain::new();
    assert_eq!(ran(&step(&mut chain, "a", Operator::Pipe, Some(0))), vec!["queue"]);
    assert_eq!(ran(&step(&mut chain, "b", Operator::Pipe, Some(0))), vec!["queue"]);
    assert_eq!(ran(&step(&mut chain, "c", Operator::And, Some(0))), vec!["a", "b", "c"]);
    assert_eq!(ran(&step(&mut chain, "d", Operator::NoOp, Some(0))), vec!["d"]);
}

#[test]
fn single_commands_run_alone() {
    let mut chain = CommandChain::new();
    assert_eq!(ran(&step(&mut chain, "cd", Operator::And, Some(0))), vec!["cd"]);
    assert_eq!(ran(&step(&mut chain, "ls", Operator::NoOp, Some(0))), vec!["ls"]);
}

#[test]
fn pipeline_text() {
    let p = vec![cmd("ls", &["-l"]), cmd("grep", &["x"]), cmd("wc", &[])];
    assert_eq!(pipeline_display(&p), "ls | grep | wc");
    assert_eq!(pipeline_display(&vec![]), "");
}

#[test]
fn dispatch_history() {
    let mut s = shell();
    for i in 0..12 {
        ash::state::record_history(&mut s, &format!("cmd {}", i));
    }
    s.exit_code = Some(3);
    match execute_command(&cmd("history", &[]), &Operator::NoOp, &mut s) {
        Action::Builtin(Effect::PrintLines(lines)) => {
            let expected: Vec<String> = s
                .history
                .iter()
                .enumerate()
                .map(|(i, c)| format!("{:5}  {}", i + 1, c))
                .collect();
            assert_eq!(lines, expected);
            assert_eq!(lines[0], "    1  cmd 0");
            assert_eq!(lines[11], "   12  cmd 11");
        }
        _ => panic!("history"),
    }
    assert_eq!(s.exit_code, Some(0));
}

#[test]
fn history_numbers_wider_than_five_columns() {
    let mut s = shell();
    s.history_max = 200_000;
    for i in 0..100_000 {
        s.history.push(format!("c{}", i));
    }
    let lines = ash::builtin::show_history(&mut s);
    assert_eq!(lines[9_999], "10000  c9999");
    assert_eq!(lines[99_999], "100000  c99999");
}

#[test]
fn dispatch_source() {
    let mut s = shell();
    match execute_command(&cmd("source", &["/tmp/rc"]), &Operator::NoOp, &mut s) {
        Action::Builtin(Effect::Source(p)) => assert_eq!(p, "/tmp/rc"),
        _ => panic!("source"),
    }
    assert!(!ash::commands::is_runnable(&cmd("source", &[]), &s));
    assert!(!ash::commands::is_runnable(&cmd("alias", &[]), &s));
    assert!(ash::commands::is_runnable(&cmd("ls", &[]), &s));
}

#[test]
fn dispatch_configuration_function() {
    let mut s = shell();
    let mut reader = ash::config::ConfigReader::new(&mut s);
    for line in ["greet() {\n", "  echo hi\n", "  pwd\n", "}\n"] {
        assert!(reader.read_config_line(line, &mut s).is_none());
    }
    reader.finish(&mut s);
    s.exit_code = Some(4);
    assert!(ash::commands::is_runnable(&cmd("greet", &[]), &s));
    match execute_command(&cmd("greet", &[]), &Operator::NoOp, &mut s) {
        Action::Function(cmds) => {
            let names: Vec<String> = cmds.iter().map(|c| c.command.clone()).collect();
            assert_eq!(names, vec!["echo".to_string(), "pwd".to_string()]);
            assert_eq!(cmds[0].arguments, vec!["hi".to_string()]);
        }
        _ => panic!("function"),
    }
    assert_eq!(s.exit_code, Some(0));
    s.exit_code = Some(2);
    ash::config::finish_function(&mut s);
    assert_eq!(s.exit_code, Some(0));
}

#[test]
fn pipeline_exit_codes() {
    assert_eq!(ash::commands::pipeline_exit_code(true, &vec![Some(3)]), 0);
    assert_eq!(ash::commands::pipeline_exit_code(false, &vec![Some(3), Some(0)]), 0);
    assert_eq!(ash::commands::pipeline_exit_code(false, &vec![Some(0), Some(2)]), 2);
    assert_eq!(ash::commands::pipeline_exit_code(false, &vec![Some(0), None]), 1);
    assert_eq!(ash::commands::pipeline_exit_code(false, &vec![Some(300)]), 44);
    assert_eq!(ash::commands::pipeline_exit_code(false, &vec![]), 0);
}
