//! The quote-aware command tokeniser and the splitting of a command line at
//! the operators `&&`, `||`, `|` and `&`.
use vstd::prelude::*;

use crate::text::{
    chars_of, is_blank, is_whitespace, is_ws, lemma_trim_blank, string_from, trim, trim_chars,
};

verus! {

/// A command name with its arguments.
#[derive(Debug, Clone)]
pub struct ParsedCommand {
    pub command: String,
    pub arguments: Vec<String>,
}

/// The view of a command: its name and its arguments.
pub type CommandView = (Seq<char>, Seq<Seq<char>>);

impl View for ParsedCommand {
    type V = CommandView;

    open spec fn view(&self) -> CommandView {
        (self.command@, self.arguments.deep_view())
    }
}

/// A copy of a list of strings.
pub fn copy_strings(v: &Vec<String>) -> (r: Vec<String>)
    ensures
        r.deep_view() == v.deep_view(),
{
    let mut r: Vec<String> = Vec::new();
    let n = v.len();
    for i in 0..n
        invariant
            n == v@.len(),
            r.deep_view() =~= v.deep_view().take(i as int),
    {
        let s = v[i].clone();
        let ghost before = r.deep_view();
        r.push(s);
        assert(r.deep_view() =~= before.push(v[i as int]@));
        assert(v.deep_view().take(i + 1) =~= v.deep_view().take(i as int).push(v[i as int]@));
    }
    assert(v.deep_view().take(n as int) =~= v.deep_view());
    r
}

impl ParsedCommand {
    /// An empty command: no name, no arguments.
    pub fn new() -> (r: Self)
        ensures
            r@ == (Seq::<char>::empty(), Seq::<Seq<char>>::empty()),
    {
        let r = ParsedCommand { command: String::new(), arguments: Vec::new() };
        assert(r.arguments.deep_view() =~= Seq::<Seq<char>>::empty());
        r
    }

    /// A copy of this command.
    pub fn duplicate(&self) -> (r: Self)
        ensures
            r@ == self@,
    {
        ParsedCommand { command: self.command.clone(), arguments: copy_strings(&self.arguments) }
    }
}

/// How a command is joined to the one that follows it.
#[derive(Debug, PartialEq, Eq, Clone, Copy, Structural)]
pub enum Operator {
    And,
    Or,
    NoOp,
    Background,
    Pipe,
}

/// The kinds of syntax errors of a command line.
#[derive(Debug, PartialEq, Eq, Clone, Copy, Structural)]
pub enum ParseErrorKind {
    InvalidOperator,
    MissBefore,
    MissAfter,
}

/// A syntax error of a command line, with its message.
#[derive(Debug)]
pub enum ParseError {
    InvalidOperator(String),
    MissBefore(String),
    MissAfter(String),
}

impl View for ParseError {
    type V = (ParseErrorKind, Seq<char>);

    open spec fn view(&self) -> (ParseErrorKind, Seq<char>) {
        match self {
            ParseError::InvalidOperator(m) => (ParseErrorKind::InvalidOperator, m@),
            ParseError::MissBefore(m) => (ParseErrorKind::MissBefore, m@),
            ParseError::MissAfter(m) => (ParseErrorKind::MissAfter, m@),
        }
    }
}

impl ParseError {
    /// The message of the error.
    pub fn message(&self) -> (m: &String)
        ensures
            m@ == self@.1,
    {
        match self {
            ParseError::InvalidOperator(m) => m,
            ParseError::MissBefore(m) => m,
            ParseError::MissAfter(m) => m,
        }
    }
}

/// The quoting state of the tokeniser.
#[derive(Debug, PartialEq, Eq, Clone, Copy, Structural)]
pub enum QuoteMode {
    Single,
    Double,
}

/// State of the quote-aware tokeniser: finished tokens, the token being read,
/// the open quote if any, and whether the previous character was a backslash.
pub type LexState = (Seq<Seq<char>>, Seq<char>, Option<QuoteMode>, bool);

/// One step of the quote-aware tokeniser.
///
/// A backslash makes the next character literal; a quote opens or closes a
/// quoted part (the other kind of quote is literal inside it); outside quotes
/// whitespace ends the current token; every other character is added to it.
pub open spec fn lex_step(st: LexState, c: char) -> LexState {
    let (toks, cur, mode, escape) = st;
    if escape {
        (toks, cur.push(c), mode, false)
    } else if c == '\\' {
        (toks, cur, mode, true)
    } else if c == '\'' {
        match mode {
            Option::None => (toks, cur, Some(QuoteMode::Single), false),
            Some(QuoteMode::Single) => (toks, cur, Option::None, false),
            Some(QuoteMode::Double) => (toks, cur.push(c), mode, false),
        }
    } else if c == '"' {
        match mode {
            Option::None => (toks, cur, Some(QuoteMode::Double), false),
            Some(QuoteMode::Double) => (toks, cur, Option::None, false),
            Some(QuoteMode::Single) => (toks, cur.push(c), mode, false),
        }
    } else if is_ws(c) {
        if mode is None {
            if cur.len() > 0 {
                (toks.push(cur), Seq::empty(), mode, false)
            } else {
                st
            }
        } else {
            (toks, cur.push(c), mode, false)
        }
    } else {
        (toks, cur.push(c), mode, false)
    }
}

/// The tokeniser state after reading all of `s`.
pub open spec fn lex_scan(s: Seq<char>) -> LexState
    decreases s.len(),
{
    if s.len() == 0 {
        (Seq::empty(), Seq::empty(), Option::None, false)
    } else {
        lex_step(lex_scan(s.drop_last()), s.last())
    }
}

/// The tokens of `s`: the finished ones and a last non-empty one.
pub open spec fn lex_tokens(s: Seq<char>) -> Seq<Seq<char>> {
    let st = lex_scan(s);
    if st.1.len() > 0 {
        st.0.push(st.1)
    } else {
        st.0
    }
}

/// The command whose name is the first token and whose arguments are the
/// others (an empty command when there are no tokens).
pub open spec fn command_of(toks: Seq<Seq<char>>) -> CommandView {
    if toks.len() > 0 {
        (toks[0], toks.skip(1))
    } else {
        (Seq::empty(), Seq::empty())
    }
}

/// The command that `simple_parse` reads from `s`.
pub open spec fn parse_view(s: Seq<char>) -> CommandView {
    command_of(lex_tokens(trim(s)))
}

/// The command made of a list of tokens.
pub fn command_from_tokens(toks: &Vec<Vec<char>>) -> (r: ParsedCommand)
    ensures
        r@ == command_of(toks.deep_view()),
{
    let mut r = ParsedCommand::new();
    let n = toks.len();
    if n == 0 {
        return r;
    }
    r.command = string_from(toks[0].as_slice());
    assert(toks[0].deep_view() =~= toks[0]@);
    for i in 1..n
        invariant
            n == toks@.len(),
            n > 0,
            r.command@ == toks.deep_view()[0],
            r.arguments.deep_view() =~= toks.deep_view().subrange(1, i as int),
    {
        let s = string_from(toks[i].as_slice());
        let ghost before = r.arguments.deep_view();
        r.arguments.push(s);
        assert(toks[i as int].deep_view() =~= toks[i as int]@);
        assert(r.arguments.deep_view() =~= before.push(toks.deep_view()[i as int]));
        assert(toks.deep_view().subrange(1, i + 1) =~= toks.deep_view().subrange(1, i as int).push(
            toks.deep_view()[i as int],
        ));
    }
    assert(toks.deep_view().subrange(1, n as int) =~= toks.deep_view().skip(1));
    r
}

/// The quote-aware tokens of `s`.
pub fn lex(s: &[char]) -> (toks: Vec<Vec<char>>)
    ensures
        toks.deep_view() == lex_tokens(s@),
{
    let n = s.len();
    let mut toks: Vec<Vec<char>> = Vec::new();
    let mut cur: Vec<char> = Vec::new();
    let mut mode: Option<QuoteMode> = None;
    let mut escape = false;
    for k in 0..n
        invariant
            n == s@.len(),
            (toks.deep_view(), cur@, mode, escape) == lex_scan(s@.take(k as int)),
    {
        let c = s[k];
        assert(s@.take(k + 1).drop_last() =~= s@.take(k as int));
        if escape {
            cur.push(c);
            escape = false;
        } else if c == '\\' {
            escape = true;
        } else if c == '\'' {
            match mode {
                None => {
                    mode = Some(QuoteMode::Single);
                },
                Some(QuoteMode::Single) => {
                    mode = None;
                },
                Some(QuoteMode::Double) => {
                    cur.push(c);
                },
            }
        } else if c == '"' {
            match mode {
                None => {
                    mode = Some(QuoteMode::Double);
                },
                Some(QuoteMode::Double) => {
                    mode = None;
                },
                Some(QuoteMode::Single) => {
                    cur.push(c);
                },
            }
        } else if is_whitespace(c) {
            if mode.is_none() {
                if cur.len() > 0 {
                    let ghost before = toks.deep_view();
                    assert(cur.deep_view() =~= cur@);
                    toks.push(cur);
                    assert(toks.deep_view() =~= before.push(cur@));
                    cur = Vec::new();
                }
            } else {
                cur.push(c);
            }
        } else {
            cur.push(c);
        }
    }
    assert(s@.take(n as int) =~= s@);
    if cur.len() > 0 {
        let ghost before = toks.deep_view();
        assert(cur.deep_view() =~= cur@);
        toks.push(cur);
        assert(toks.deep_view() =~= before.push(cur@));
    }
    toks
}

/// The command read from the characters `s`, as `simple_parse` reads it.
pub fn parse_chars(s: &[char]) -> (r: ParsedCommand)
    ensures
        r@ == parse_view(s@),
{
    let t = trim_chars(s);
    let toks = lex(t.as_slice());
    command_from_tokens(&toks)
}

/// Reads a command from a line: the first token is the command, the others
/// its arguments. Tokens are separated by whitespace outside quotes; single
/// and double quotes group characters, a backslash makes the next character
/// literal.
pub fn simple_parse(input: &str) -> (result: ParsedCommand)
    ensures
        result@ == parse_view(input@),
{
    let s = chars_of(input);
    parse_chars(s.as_slice())
}

/// A list of commands with their operators, by its view.
pub type SegmentsView = Seq<(CommandView, Operator)>;

/// The view of a list of commands with their operators.
pub open spec fn segments_view(v: Seq<(ParsedCommand, Operator)>) -> SegmentsView {
    v.map_values(|p: (ParsedCommand, Operator)| (p.0@, p.1))
}

/// What `split_by_operators` returns for the rest `rest` of a line, after the
/// commands `segs` were read, `current` holds the text since the last
/// operator, and `last_op` says whether the previous character ended an
/// operator.
pub open spec fn split_from(
    rest: Seq<char>,
    segs: SegmentsView,
    current: Seq<char>,
    last_op: bool,
) -> Result<SegmentsView, (ParseErrorKind, Seq<char>)>
    decreases rest.len(),
{
    if rest.len() == 0 {
        if trim(current).len() > 0 {
            Ok(segs.push((parse_view(trim(current)), Operator::NoOp)))
        } else {
            Ok(segs)
        }
    } else {
        let c = rest[0];
        let r = rest.drop_first();
        if c == '&' {
            if r.len() > 0 && r[0] == '&' {
                let r2 = r.drop_first();
                if (r2.len() > 0 && r2[0] == '&') || last_op {
                    Err((ParseErrorKind::InvalidOperator, "invalid operator &&"@))
                } else if trim(current).len() == 0 {
                    Err((ParseErrorKind::MissBefore, "'&&' has no command before it"@))
                } else if trim(r2).len() == 0 {
                    Err((ParseErrorKind::MissAfter, "'&&' has no command after it"@))
                } else {
                    split_from(
                        r2,
                        segs.push((parse_view(trim(current)), Operator::And)),
                        Seq::empty(),
                        true,
                    )
                }
            } else if trim(current).len() == 0 {
                Err((ParseErrorKind::InvalidOperator, "invalid operator &"@))
            } else {
                split_from(
                    r,
                    segs.push((parse_view(trim(current)), Operator::Background)),
                    Seq::empty(),
                    true,
                )
            }
        } else if c == '|' {
            if r.len() > 0 && r[0] == '|' {
                let r2 = r.drop_first();
                if (r2.len() > 0 && r2[0] == '|') || last_op {
                    Err((ParseErrorKind::InvalidOperator, "invalid operator ||"@))
                } else if trim(current).len() == 0 {
                    Err((ParseErrorKind::MissBefore, "'||' has no command before it"@))
                } else if trim(r2).len() == 0 {
                    Err((ParseErrorKind::MissAfter, "'||' has no command after it"@))
                } else {
                    split_from(
                        r2,
                        segs.push((parse_view(trim(current)), Operator::Or)),
                        Seq::empty(),
                        true,
                    )
                }
            } else if last_op {
                Err((ParseErrorKind::InvalidOperator, "invalid operator | "@))
            } else if trim(current).len() == 0 {
                Err((ParseErrorKind::MissBefore, "'|' has no command before it"@))
            } else if trim(r).len() == 0 {
                Err((ParseErrorKind::MissAfter, "'|' has no command after it"@))
            } else {
                split_from(
                    r,
                    segs.push((parse_view(trim(current)), Operator::Pipe)),
                    Seq::empty(),
                    true,
                )
            }
        } else {
            split_from(r, segs, current.push(c), false)
        }
    }
}

/// What `split_by_operators` returns for the line `s`.
pub open spec fn split_spec(s: Seq<char>) -> Result<SegmentsView, (ParseErrorKind, Seq<char>)> {
    split_from(s, Seq::empty(), Seq::empty(), false)
}

/// Whether `s[start..]` is all whitespace.
fn blank_from(s: &[char], start: usize) -> (r: bool)
    requires
        start <= s@.len(),
    ensures
        r == is_blank(s@.skip(start as int)),
{
    let n = s.len();
    for k in start..n
        invariant
            n == s@.len(),
            start <= n,
            forall|j: int| start <= j < k ==> is_ws(#[trigger] s@[j]),
    {
        if !is_whitespace(s[k]) {
            assert(s@.skip(start as int)[k - start] == s@[k as int]);
            return false;
        }
    }
    assert forall|j: int| 0 <= j < s@.skip(start as int).len() implies is_ws(
        #[trigger] s@.skip(start as int)[j],
    ) by {
        assert(s@.skip(start as int)[j] == s@[start + j]);
    }
    true
}

/// Adds a command to a list of commands.
fn push_segment(segs: &mut Vec<(ParsedCommand, Operator)>, cmd: ParsedCommand, op: Operator)
    ensures
        segments_view(final(segs)@) == segments_view(old(segs)@).push((cmd@, op)),
{
    segs.push((cmd, op));
    assert(segments_view(segs@) =~= segments_view(old(segs)@).push((cmd@, op)));
}

/// Splits a command line at the operators `&&`, `||`, `|` and `&` into
/// commands, each with the operator that follows it (`Operator::NoOp` for a
/// last command with no operator after it).
///
/// Refused lines: an operator with no command before it, `&&`, `||` or `|`
/// with nothing after it, `&&&`, `|||`, and `&&`, `||` or `|` right after
/// another operator.
pub fn split_by_operators(input: &str) -> (res: Result<Vec<(ParsedCommand, Operator)>, ParseError>)
    ensures
        match split_spec(input@) {
            Ok(w) => res matches Ok(v) && segments_view(v@) == w,
            Err(f) => res matches Err(e) && e@ == f,
        },
{
    let s = chars_of(input);
    let n = s.len();
    let mut segments: Vec<(ParsedCommand, Operator)> = Vec::new();
    let mut current: Vec<char> = Vec::new();
    let mut last_is_operator = false;
    let mut k: usize = 0;
    assert(s@.skip(0) =~= s@);
    assert(segments_view(segments@) =~= Seq::empty());
    while k < n
        invariant
            k <= n,
            n == s@.len(),
            s@ == input@,
            split_from(s@.skip(k as int), segments_view(segments@), current@, last_is_operator)
                == split_spec(input@),
        decreases n - k,
    {
        let c = s[k];
        let ghost rest = s@.skip(k as int);
        assert(rest[0] == c);
        assert(rest.drop_first() =~= s@.skip(k + 1));
        if c == '&' {
            if k + 1 < n && s[k + 1] == '&' {
                assert(rest.drop_first()[0] == s@[k + 1]);
                assert(rest.drop_first().drop_first() =~= s@.skip(k + 2));
                if (k + 2 < n && s[k + 2] == '&') || last_is_operator {
                    return Err(ParseError::InvalidOperator(String::from_str("invalid operator &&")));
                }
                let seg = trim_chars(current.as_slice());
                if seg.len() == 0 {
                    return Err(
                        ParseError::MissBefore(String::from_str("'&&' has no command before it")),
                    );
                }
                let after_blank = blank_from(s.as_slice(), k + 2);
                proof {
                    lemma_trim_blank(s@.skip(k + 2));
                }
                if after_blank {
                    return Err(
                        ParseError::MissAfter(String::from_str("'&&' has no command after it")),
                    );
                }
                let cmd = parse_chars(seg.as_slice());
                push_segment(&mut segments, cmd, Operator::And);
                last_is_operator = true;
                current = Vec::new();
                k = k + 2;
            } else {
                if k + 1 < n {
                    assert(rest.drop_first()[0] == s@[k + 1]);
                }
                let seg = trim_chars(current.as_slice());
                if seg.len() == 0 {
                    return Err(ParseError::InvalidOperator(String::from_str("invalid operator &")));
                }
                let cmd = parse_chars(seg.as_slice());
                push_segment(&mut segments, cmd, Operator::Background);
                current = Vec::new();
                last_is_operator = true;
                k = k + 1;
            }
        } else if c == '|' {
            if k + 1 < n && s[k + 1] == '|' {
                assert(rest.drop_first()[0] == s@[k + 1]);
                assert(rest.drop_first().drop_first() =~= s@.skip(k + 2));
                if (k + 2 < n && s[k + 2] == '|') || last_is_operator {
                    return Err(ParseError::InvalidOperator(String::from_str("invalid operator ||")));
                }
                let seg = trim_chars(current.as_slice());
                if seg.len() == 0 {
                    return Err(
                        ParseError::MissBefore(String::from_str("'||' has no command before it")),
                    );
                }
                let after_blank = blank_from(s.as_slice(), k + 2);
                proof {
                    lemma_trim_blank(s@.skip(k + 2));
                }
                if after_blank {
                    return Err(
                        ParseError::MissAfter(String::from_str("'||' has no command after it")),
                    );
                }
                let cmd = parse_chars(seg.as_slice());
                push_segment(&mut segments, cmd, Operator::Or);
                last_is_operator = true;
                current = Vec::new();
                k = k + 2;
            } else {
                if k + 1 < n {
                    assert(rest.drop_first()[0] == s@[k + 1]);
                }
                if last_is_operator {
                    return Err(ParseError::InvalidOperator(String::from_str("invalid operator | ")));
                }
                let seg = trim_chars(current.as_slice());
                if seg.len() == 0 {
                    return Err(
                        ParseError::MissBefore(String::from_str("'|' has no command before it")),
                    );
                }
                let after_blank = blank_from(s.as_slice(), k + 1);
                proof {
                    lemma_trim_blank(s@.skip(k + 1));
                }
                if after_blank {
                    return Err(
                        ParseError::MissAfter(String::from_str("'|' has no command after it")),
                    );
                }
                push_segment(&mut segments, parse_chars(seg.as_slice()), Operator::Pipe);
                last_is_operator = true;
                current = Vec::new();
                k = k + 1;
            }
        } else {
            current.push(c);
            last_is_operator = false;
            k = k + 1;
        }
    }
    assert(s@.skip(n as int) =~= Seq::<char>::empty());
    let seg = trim_chars(current.as_slice());
    if seg.len() > 0 {
        let cmd = parse_chars(seg.as_slice());
        push_segment(&mut segments, cmd, Operator::NoOp);
    }
    Ok(segments)
}

/// The tokeniser's starting state.
pub open spec fn lex_init() -> LexState {
    (Seq::empty(), Seq::empty(), Option::None, false)
}

/// The tokeniser state after reading `s` from state `st`.
pub open spec fn lex_run(st: LexState, s: Seq<char>) -> LexState
    decreases s.len(),
{
    if s.len() == 0 {
        st
    } else {
        lex_step(lex_run(st, s.drop_last()), s.last())
    }
}

pub proof fn lemma_lex_scan_run(s: Seq<char>)
    ensures
        lex_scan(s) == lex_run(lex_init(), s),
    decreases s.len(),
{
    if s.len() > 0 {
        lemma_lex_scan_run(s.drop_last());
    }
}

pub proof fn lemma_lex_run_one(st: LexState, x: char)
    ensures
        lex_run(st, seq![x]) == lex_step(st, x),
{
    assert(seq![x].drop_last() =~= Seq::<char>::empty());
    assert(seq![x].last() == x);
    assert(seq![x].len() == 1);
    assert(lex_run(st, Seq::<char>::empty()) == st);
    assert(lex_run(st, seq![x]) == lex_step(lex_run(st, seq![x].drop_last()), seq![x].last()));
}

pub proof fn lemma_lex_run_concat(st: LexState, a: Seq<char>, b: Seq<char>)
    ensures
        lex_run(st, a + b) == lex_run(lex_run(st, a), b),
    decreases b.len(),
{
    if b.len() == 0 {
        assert(a + b =~= a);
    } else {
        assert((a + b).drop_last() =~= a + b.drop_last());
        assert((a + b).last() == b.last());
        lemma_lex_run_concat(st, a, b.drop_last());
    }
}

/// The commands a line holds when it has no `&` and no `|`.
pub open spec fn plain_segments(s: SegmentsView, current: Seq<char>) -> SegmentsView {
    if trim(current).len() > 0 {
        s.push((parse_view(trim(current)), Operator::NoOp))
    } else {
        s
    }
}

proof fn lemma_split_plain(rest: Seq<char>, segs: SegmentsView, current: Seq<char>, last_op: bool)
    requires
        !rest.contains('&'),
        !rest.contains('|'),
    ensures
        split_from(rest, segs, current, last_op) == Ok::<SegmentsView, (ParseErrorKind, Seq<char>)>(
            plain_segments(segs, current + rest),
        ),
    decreases rest.len(),
{
    if rest.len() == 0 {
        assert(current + rest =~= current);
    } else {
        let r = rest.drop_first();
        assert(rest[0] != '&' && rest[0] != '|') by {
            assert(rest.contains(rest[0]));
        }
        assert(!r.contains('&') && !r.contains('|')) by {
            if r.contains('&') {
                let j = choose|j: int| 0 <= j < r.len() && r[j] == '&';
                assert(rest[j + 1] == '&');
            }
            if r.contains('|') {
                let j = choose|j: int| 0 <= j < r.len() && r[j] == '|';
                assert(rest[j + 1] == '|');
            }
        }
        lemma_split_plain(r, segs, current.push(rest[0]), false);
        assert(current.push(rest[0]) + r =~= current + rest);
    }
}

/// A line without `&` and `|` is one command (none when it is blank), with
/// no operator after it.
pub proof fn law_split_without_operators(s: Seq<char>)
    requires
        !s.contains('&'),
        !s.contains('|'),
    ensures
        split_spec(s) == Ok::<SegmentsView, (ParseErrorKind, Seq<char>)>(
            if trim(s).len() > 0 {
                seq![(parse_view(trim(s)), Operator::NoOp)]
            } else {
                Seq::empty()
            },
        ),
{
    lemma_split_plain(s, Seq::empty(), Seq::empty(), false);
    assert(Seq::<char>::empty() + s =~= s);
    assert(Seq::<(CommandView, Operator)>::empty().push((parse_view(trim(s)), Operator::NoOp))
        =~= seq![(parse_view(trim(s)), Operator::NoOp)]);
}

proof fn lemma_push_not_noop(segs: SegmentsView, cmd: CommandView, op: Operator)
    requires
        op != Operator::NoOp,
        forall|i: int| 0 <= i < segs.len() ==> (#[trigger] segs[i]).1 != Operator::NoOp,
    ensures
        forall|i: int|
            0 <= i < segs.push((cmd, op)).len() ==> (#[trigger] segs.push((cmd, op))[i]).1
                != Operator::NoOp,
{
    assert forall|i: int| 0 <= i < segs.push((cmd, op)).len() implies (#[trigger] segs.push(
        (cmd, op),
    )[i]).1 != Operator::NoOp by {
        if i < segs.len() {
            assert(segs.push((cmd, op))[i] == segs[i]);
        }
    }
}

proof fn lemma_split_noop_last(rest: Seq<char>, segs: SegmentsView, current: Seq<char>, last_op: bool)
    requires
        forall|i: int| 0 <= i < segs.len() ==> (#[trigger] segs[i]).1 != Operator::NoOp,
    ensures
        split_from(rest, segs, current, last_op) matches Ok(w) ==> (forall|i: int|
            0 <= i < w.len() - 1 ==> (#[trigger] w[i]).1 != Operator::NoOp),
    decreases rest.len(),
{
    if rest.len() > 0 {
        let c = rest[0];
        let r = rest.drop_first();
        if c == '&' || c == '|' {
            let r2 = r.drop_first();
            let cmd = parse_view(trim(current));
            lemma_push_not_noop(segs, cmd, Operator::And);
            lemma_push_not_noop(segs, cmd, Operator::Or);
            lemma_push_not_noop(segs, cmd, Operator::Background);
            lemma_push_not_noop(segs, cmd, Operator::Pipe);
            if r.len() > 0 {
                lemma_split_noop_last(r2, segs.push((cmd, Operator::And)), Seq::empty(), true);
                lemma_split_noop_last(r2, segs.push((cmd, Operator::Or)), Seq::empty(), true);
            }
            lemma_split_noop_last(r, segs.push((cmd, Operator::Background)), Seq::empty(), true);
            lemma_split_noop_last(r, segs.push((cmd, Operator::Pipe)), Seq::empty(), true);
        } else {
            lemma_split_noop_last(r, segs, current.push(c), false);
        }
    } else {
        let w = plain_segments(segs, current);
        assert forall|i: int| 0 <= i < w.len() - 1 implies (#[trigger] w[i]).1
            != Operator::NoOp by {
            assert(w[i] == segs[i]);
        }
    }
}

/// Only the last command of a split line can have no operator after it.
pub proof fn law_split_noop_only_last(s: Seq<char>)
    ensures
        split_spec(s) matches Ok(w) ==> (forall|i: int|
            0 <= i < w.len() - 1 ==> (#[trigger] w[i]).1 != Operator::NoOp),
{
    lemma_split_noop_last(s, Seq::empty(), Seq::empty(), false);
}

/// `w` is a plain word: no whitespace, quotes or backslashes.
pub open spec fn plain_word(w: Seq<char>) -> bool {
    forall|i: int|
        0 <= i < w.len() ==> !is_ws(#[trigger] w[i]) && w[i] != '\'' && w[i] != '"' && w[i]
            != '\\'
}

/// No backslash occurs in `t`.
pub open spec fn no_backslash(t: Seq<char>) -> bool {
    forall|i: int| 0 <= i < t.len() ==> #[trigger] t[i] != '\\'
}

/// No two backslashes stand next to each other in `s`.
pub open spec fn no_double_backslash(s: Seq<char>) -> bool {
    forall|i: int| 0 <= i < s.len() - 1 ==> !(#[trigger] s[i] == '\\' && s[i + 1] == '\\')
}

proof fn lemma_lex_scan_plain_word(w: Seq<char>)
    requires
        plain_word(w),
    ensures
        lex_scan(w) == (Seq::<Seq<char>>::empty(), w, Option::<QuoteMode>::None, false),
    decreases w.len(),
{
    if w.len() > 0 {
        assert(plain_word(w.drop_last())) by {
            assert forall|i: int| 0 <= i < w.drop_last().len() implies !is_ws(
                #[trigger] w.drop_last()[i],
            ) && w.drop_last()[i] != '\'' && w.drop_last()[i] != '"' && w.drop_last()[i]
                != '\\' by {
                assert(w.drop_last()[i] == w[i]);
            }
        }
        lemma_lex_scan_plain_word(w.drop_last());
        assert(w.last() == w[w.len() - 1]);
        assert(w.drop_last().push(w.last()) =~= w);
    } else {
        assert(w =~= Seq::<char>::empty());
    }
}

/// Outside quotes a backslash is not part of a token but makes the next
/// character an ordinary one: a plain word followed by a backslash and any
/// character `c` is the single token made of the word and `c`.
pub proof fn law_backslash_escapes_next(w: Seq<char>, c: char)
    requires
        plain_word(w),
    ensures
        lex_tokens(w + seq!['\\', c]) == seq![w.push(c)],
{
    let s = w + seq!['\\', c];
    assert(s.drop_last() =~= w.push('\\'));
    assert(s.drop_last().drop_last() =~= w);
    assert(s.last() == c);
    assert(s.drop_last().last() == '\\');
    lemma_lex_scan_plain_word(w);
    assert(lex_scan(s.drop_last()) == lex_step(lex_scan(w), '\\'));
    assert(seq![w.push(c)] =~= Seq::<Seq<char>>::empty().push(w.push(c)));
}

/// A backslash reaches a token only when escaped by another backslash: in
/// text where no two backslashes stand next to each other, no token holds a
/// backslash.
pub proof fn law_tokens_drop_backslashes(s: Seq<char>)
    requires
        no_double_backslash(s),
    ensures
        forall|j: int| 0 <= j < lex_tokens(s).len() ==> no_backslash(#[trigger] lex_tokens(s)[j]),
{
    lemma_lex_scan_no_backslash(s);
}

proof fn lemma_lex_scan_no_backslash(s: Seq<char>)
    requires
        no_double_backslash(s),
    ensures
        no_backslash(lex_scan(s).1),
        forall|j: int| 0 <= j < lex_scan(s).0.len() ==> no_backslash(#[trigger] lex_scan(s).0[j]),
        lex_scan(s).3 ==> s.len() > 0 && s.last() == '\\',
        forall|j: int| 0 <= j < lex_tokens(s).len() ==> no_backslash(#[trigger] lex_tokens(s)[j]),
    decreases s.len(),
{
    if s.len() > 0 {
        let p = s.drop_last();
        assert(no_double_backslash(p)) by {
            assert forall|i: int| 0 <= i < p.len() - 1 implies !(#[trigger] p[i] == '\\' && p[i
                + 1] == '\\') by {
                assert(p[i] == s[i]);
                assert(p[i + 1] == s[i + 1]);
            }
        }
        lemma_lex_scan_no_backslash(p);
        let st = lex_scan(p);
        let c = s.last();
        if st.3 {
            assert(p.last() == s[s.len() - 2]);
            assert(c == s[s.len() - 1]);
            assert(c != '\\');
        }
        let (toks, cur, mode, escape) = st;
        assert forall|i: int| 0 <= i < cur.push(c).len() && c != '\\' implies #[trigger] cur.push(
            c,
        )[i] != '\\' by {
            if i < cur.len() {
                assert(cur.push(c)[i] == cur[i]);
            }
        }
        assert forall|j: int| 0 <= j < toks.push(cur).len() implies no_backslash(
            #[trigger] toks.push(cur)[j],
        ) by {
            if j < toks.len() {
                assert(toks.push(cur)[j] == toks[j]);
            }
        }
    }
    let st = lex_scan(s);
    assert forall|j: int| 0 <= j < lex_tokens(s).len() implies no_backslash(
        #[trigger] lex_tokens(s)[j],
    ) by {
        if j < st.0.len() {
            assert(lex_tokens(s)[j] == st.0[j]);
        }
    }
}

} // verus!
