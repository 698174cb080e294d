use ash::parsing::{split_by_operators, simple_parse, Operator, ParseError, ParsedCommand};

fn words(c: &ParsedCommand) -> (String, Vec<String>) {
    (c.command.clone(), c.arguments.clone())
}

fn w(name: &str, args: &[&str]) -> (String, Vec<String>) {
    (name.to_string(), args.iter().map(|a| a.to_string()).collect())
}

fn segments(input: &str) -> Vec<((String, Vec<String>), Operator)> {
    split_by_operators(input)
        .unwrap()
        .iter()
        .map(|(c, o)| (words(c), *o))
        .collect()
}

fn error_of(input: &str) -> ParseError {
    match split_by_operators(input) {
        Ok(_) => panic!("expected an error for {:?}", input),
        Err(e) => e,
    }
}

#[test]
fn new_is_empty() {
    let c = ParsedCommand::new();
    assert_eq!(words(&c), w("", &[]));
}

#[test]
fn quote_parse_plain_words() {
    assert_eq!(words(&simple_parse("  ls -la /tmp  ")), w("ls", &["-la", "/tmp"]));
}

#[test]
fn quote_parse_quotes_and_escapes() {
    let c = simple_parse("echo 'hello world' \"a b\" c\\ d");
    assert_eq!(words(&c), w("echo", &["hello world", "a b", "c d"]));
    assert_eq!(words(&simple_parse("echo \"it's\"")), w("echo", &["it's"]));
    assert_eq!(words(&simple_parse("echo 'say \"hi\"'")), w("echo", &["say \"hi\""]));
    assert_eq!(words(&simple_parse("echo a\"b c\"d")), w("echo", &["ab cd"]));
}

#[test]
fn quote_parse_edge_cases() {
    assert_eq!(words(&simple_parse("")), w("", &[]));
    assert_eq!(words(&simple_parse("\"\"")), w("", &[]));
    assert_eq!(words(&simple_parse("\"\" x")), w("x", &[]));
    assert_eq!(words(&simple_parse("a\\")), w("a", &[]));
    assert_eq!(words(&simple_parse("'unterminated text")), w("unterminated text", &[]));
}

#[test]
fn split_pipe_and_operators() {
    assert_eq!(
        segments("ls | grep rs"),
        vec![(w("ls", &[]), Operator::Pipe), (w("grep", &["rs"]), Operator::NoOp)]
    );
    assert_eq!(
        segments("cd dir && ls"),
        vec![(w("cd", &["dir"]), Operator::And), (w("ls", &[]), Operator::NoOp)]
    );
    assert_eq!(
        segments("test -f x || echo missing"),
        vec![(w("test", &["-f", "x"]), Operator::Or), (w("echo", &["missing"]), Operator::NoOp)]
    );
    assert_eq!(segments("sleep 100 &"), vec![(w("sleep", &["100"]), Operator::Background)]);
    assert_eq!(
        segments("a & b"),
        vec![(w("a", &[]), Operator::Background), (w("b", &[]), Operator::NoOp)]
    );
    assert_eq!(
        segments("a|b|c"),
        vec![
            (w("a", &[]), Operator::Pipe),
            (w("b", &[]), Operator::Pipe),
            (w("c", &[]), Operator::NoOp)
        ]
    );
}

#[test]
fn split_blank_line_is_empty() {
    assert!(segments("   ").is_empty());
    assert!(segments("").is_empty());
}

#[test]
fn split_without_operators_is_one_command() {
    assert_eq!(segments("  echo 'a b'  "), vec![(w("echo", &["a b"]), Operator::NoOp)]);
}

#[test]
fn split_errors() {
    let cases: Vec<(&str, &str, &str)> = vec![
        ("&& ls", "MissBefore", "'&&' has no command before it"),
        ("ls &&", "MissAfter", "'&&' has no command after it"),
        ("ls &&   ", "MissAfter", "'&&' has no command after it"),
        ("ls &&& x", "InvalidOperator", "invalid operator &&"),
        ("ls ||| x", "InvalidOperator", "invalid operator ||"),
        ("|| a", "MissBefore", "'||' has no command before it"),
        ("a || ", "MissAfter", "'||' has no command after it"),
        ("| ls", "MissBefore", "'|' has no command before it"),
        ("ls |", "MissAfter", "'|' has no command after it"),
        ("& ls", "InvalidOperator", "invalid operator &"),
        ("ls &&|| x", "InvalidOperator", "invalid operator ||"),
        ("ls &&| x", "InvalidOperator", "invalid operator | "),
        ("ls && || x", "MissBefore", "'||' has no command before it"),
        ("a | & b", "InvalidOperator", "invalid operator &"),
    ];
    for (input, kind, msg) in cases {
        let e = error_of(input);
        let k = match &e {
            ParseError::InvalidOperator(_) => "InvalidOperator",
            ParseError::MissBefore(_) => "MissBefore",
            ParseError::MissAfter(_) => "MissAfter",
        };
        assert_eq!(k, kind, "input {:?}", input);
        assert_eq!(e.message(), msg, "input {:?}", input);
    }
}

#[test]
fn split_only_last_has_no_operator() {
    let segs = segments("a && b || c | d & e");
    let n = segs.len();
    assert_eq!(n, 5);
    for (i, (_, op)) in segs.iter().enumerate() {
        if i + 1 < n {
            assert_ne!(*op, Operator::NoOp);
        }
    }
}

#[test]
fn quote_free_parse_splits_on_whitespace() {
    for line in ["ls -la /tmp", "  a\tb\u{3000}c  ", "", "   ", "x=1 && y"] {
        let c = simple_parse(line);
        let words: Vec<String> = line.split_whitespace().map(|w| w.to_string()).collect();
        assert_eq!(c.command, words.first().cloned().unwrap_or_default());
        assert_eq!(c.arguments, words.iter().skip(1).cloned().collect::<Vec<_>>());
    }
}
