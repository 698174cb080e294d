use ash::input_parsing::{simple_parse, ParsedCommand};

fn view(c: &ParsedCommand) -> (String, Vec<String>, Vec<String>) {
    (c.command.clone(), c.options.clone(), c.arguments.clone())
}

fn v(cmd: &str, opts: &[&str], args: &[&str]) -> (String, Vec<String>, Vec<String>) {
    (
        cmd.to_string(),
        opts.iter().map(|a| a.to_string()).collect(),
        args.iter().map(|a| a.to_string()).collect(),
    )
}

#[test]
fn plain_parse_sorts_options() {
    assert_eq!(view(&simple_parse("ls -l -a foo bar")), v("ls", &["-l", "-a"], &["foo", "bar"]));
    assert_eq!(view(&simple_parse("  grep  -n\tneedle  -i ")), v("grep", &["-n", "-i"], &["needle"]));
}

#[test]
fn plain_parse_empty() {
    assert_eq!(view(&simple_parse("   ")), v("", &[], &[]));
    assert_eq!(view(&ParsedCommand::new()), v("", &[], &[]));
}

#[test]
fn plain_parse_command_starting_with_dash() {
    assert_eq!(view(&simple_parse("-x -y z")), v("-x", &["-y"], &["z"]));
}

#[test]
fn tokenizers_agree_without_quotes() {
    let line = "grep -n foo -i bar";
    let plain = simple_parse(line);
    let quoted = ash::parsing::simple_parse(line);
    assert_eq!(plain.command, quoted.command);
    let opts: Vec<String> = quoted.arguments.iter().filter(|a| a.starts_with('-')).cloned().collect();
    let args: Vec<String> = quoted.arguments.iter().filter(|a| !a.starts_with('-')).cloned().collect();
    assert_eq!(plain.options, opts);
    assert_eq!(plain.arguments, args);
}
