//! The configuration file: function definitions, the line-by-line reading of
//! the file, the lines that `export` appends and the removal of variable
//! assignments.
use vstd::prelude::*;

use crate::builtin::alias::{
    alias_check, alias_expands, check_alias, law_alias_replaces_first_word, one_word, word_line,
};
use crate::builtin::is_name_char;
use crate::parsing::{
    CommandView, LexState, ParsedCommand, QuoteMode, lemma_lex_run_concat, lemma_lex_run_one,
    lemma_lex_scan_run, lex_init, lex_step, lex_run, lex_tokens, parse_view, simple_parse,
};
use crate::state::ShellState;
use crate::text::{
    byte_len, byte_length, chars_eq, chars_of, contains_char, copy_range, find_char,
    first_index_of, is_alphanumeric, is_ws, lemma_first_index_of, push_char,
    push_chars, starts_with_char, string_from, trim, trim_chars, trim_end, trim_start, trim_start_chars,
};
use crate::varmap::NameSet;

verus! {

/// `s` begins with `p`.
pub open spec fn has_prefix(s: Seq<char>, p: Seq<char>) -> bool {
    p.len() <= s.len() && s.take(p.len() as int) == p
}

/// `s` ends with `p`.
pub open spec fn has_suffix(s: Seq<char>, p: Seq<char>) -> bool {
    p.len() <= s.len() && s.skip(s.len() - p.len()) == p
}

/// Whether `s` begins with `p`.
pub fn starts_with(s: &[char], p: &[char]) -> (r: bool)
    ensures
        r == has_prefix(s@, p@),
{
    if p.len() > s.len() {
        return false;
    }
    let head = copy_range(s, 0, p.len());
    chars_eq(head.as_slice(), p)
}

/// Whether `s` ends with `p`.
pub fn ends_with(s: &[char], p: &[char]) -> (r: bool)
    ensures
        r == has_suffix(s@, p@),
{
    if p.len() > s.len() {
        return false;
    }
    let tail = copy_range(s, s.len() - p.len(), s.len());
    assert(tail@ =~= s@.skip(s@.len() - p@.len()));
    chars_eq(tail.as_slice(), p)
}

/// A valid function name: non-empty, made of letters, digits and `_`.
pub open spec fn valid_name(name: Seq<char>) -> bool {
    name.len() > 0 && forall|i: int| 0 <= i < name.len() ==> is_name_char(#[trigger] name[i])
}

/// Whether `name` is a valid function name.
fn is_valid_name(name: &[char]) -> (r: bool)
    ensures
        r == valid_name(name@),
{
    if name.len() == 0 {
        return false;
    }
    let n = name.len();
    for i in 0..n
        invariant
            n == name@.len(),
            forall|j: int| 0 <= j < i ==> is_name_char(#[trigger] name@[j]),
    {
        if !(is_alphanumeric(name[i]) || name[i] == '_') {
            assert(!is_name_char(name@[i as int]));
            return false;
        }
    }
    true
}

/// The word `function` followed by a space.
pub open spec fn function_keyword() -> Seq<char> {
    seq!['f', 'u', 'n', 'c', 't', 'i', 'o', 'n', ' ']
}

/// The name of the function whose definition `line` starts, if it starts one:
/// `NAME() {` (or `NAME(){`) and `function NAME {`.
pub open spec fn function_name(line: Seq<char>) -> Option<Seq<char>> {
    let t = trim(line);
    let paren = first_index_of(t, '(');
    let name1 = trim(t.take(paren));
    let after = trim_start(t.skip(8));
    let brace = first_index_of(after, '{');
    let name2 = trim(after.take(brace));
    if (has_suffix(t, seq![')', '{']) || has_suffix(t, seq![')', ' ', '{'])) && paren < t.len()
        && valid_name(name1) {
        Some(name1)
    } else if has_prefix(t, function_keyword()) && t.contains('{') && brace < after.len()
        && valid_name(name2) {
        Some(name2)
    } else {
        None
    }
}

/// The name of the function whose definition `line` starts, if any.
pub fn is_function_definition(line: &str) -> (r: Option<String>)
    ensures
        match function_name(line@) {
            Some(name) => r matches Some(x) && x@ == name,
            None => r is None,
        },
{
    let s = chars_of(line);
    let t = trim_chars(s.as_slice());
    let ends1 = ends_with(t.as_slice(), &[')', '{']);
    let ends2 = ends_with(t.as_slice(), &[')', ' ', '{']);
    proof {
        assert(seq![')', '{'] =~= [')', '{']@);
        assert(seq![')', ' ', '{'] =~= [')', ' ', '{']@);
        lemma_first_index_of(t@, '(');
    }
    if ends1 || ends2 {
        let paren = find_char(t.as_slice(), '(');
        if paren < t.len() {
            let head = copy_range(t.as_slice(), 0, paren);
            let name = trim_chars(head.as_slice());
            if is_valid_name(name.as_slice()) {
                return Some(string_from(name.as_slice()));
            }
        }
    }
    let kw = ['f', 'u', 'n', 'c', 't', 'i', 'o', 'n', ' '];
    assert(kw@ =~= function_keyword());
    if starts_with(t.as_slice(), &kw) && contains_char(t.as_slice(), '{') {
        let rest = copy_range(t.as_slice(), 8, t.len());
        assert(rest@ =~= t@.skip(8));
        let after = trim_start_chars(rest.as_slice());
        let brace = find_char(after.as_slice(), '{');
        if brace < after.len() {
            let head = copy_range(after.as_slice(), 0, brace);
            let name = trim_chars(head.as_slice());
            if is_valid_name(name.as_slice()) {
                return Some(string_from(name.as_slice()));
            }
        }
    }
    None
}

/// The number of occurrences of `c` in `s`.
pub open spec fn count_char(s: Seq<char>, c: char) -> nat
    decreases s.len(),
{
    if s.len() == 0 {
        0
    } else {
        count_char(s.drop_last(), c) + if s.last() == c {
            1nat
        } else {
            0nat
        }
    }
}

/// The number of occurrences of `c` in `s`.
fn count_of(s: &[char], c: char) -> (r: usize)
    ensures
        r == count_char(s@, c),
{
    let n = s.len();
    let mut r: usize = 0;
    for k in 0..n
        invariant
            n == s@.len(),
            r == count_char(s@.take(k as int), c),
            r <= k,
    {
        assert(s@.take(k + 1).drop_last() =~= s@.take(k as int));
        if s[k] == c {
            r = r + 1;
        }
    }
    assert(s@.take(n as int) =~= s@);
    r
}

/// The reading of the configuration file, line by line.
pub struct ConfigReader {
    /// Inside the body of a function definition.
    pub in_function: bool,
    pub current_function: String,
    pub function_body: Vec<String>,
    /// Braces opened and not yet closed in the current definition.
    pub brace_count: usize,
}

/// The view of a configuration reader: whether it is inside a definition,
/// the function's name, its body lines so far and the open braces.
pub type ReaderView = (bool, Seq<char>, Seq<Seq<char>>, nat);

impl View for ConfigReader {
    type V = ReaderView;

    open spec fn view(&self) -> ReaderView {
        (
            self.in_function,
            self.current_function@,
            self.function_body.deep_view(),
            self.brace_count as nat,
        )
    }
}

/// Lines that the reader passes over: empty lines, comments, and lines of a
/// single byte (such as a lone line break).
pub open spec fn skipped_line(line: Seq<char>) -> bool {
    line.len() == 0 || starts_with_char(line, '#') || byte_len(line) == 1
}

/// The lines the reader can take: where reading it does not fail (alias
/// expansion of a command line, and the brace count of a definition).
pub open spec fn line_accepted(
    st: ReaderView,
    line: Seq<char>,
    aliases: Map<Seq<char>, Seq<char>>,
) -> bool {
    ||| skipped_line(line)
    ||| (!st.0 && (function_name(line) is Some || alias_check(aliases, line, Set::empty()) is Some))
    ||| (st.0 && st.3 + count_char(line, '{') >= count_char(line, '}') && st.3 + count_char(
        line,
        '{',
    ) <= usize::MAX)
}

/// One line read by the reader: the reader's new state, the functions, and
/// the command to run (with the `Background` operator) if the line is one.
///
/// Outside a definition, a definition's first line starts one; another line
/// is a command, with aliases expanded. Inside a definition, lines without
/// braces are added (trimmed) to the body, and the function is stored when
/// its braces balance.
pub open spec fn config_step(
    st: ReaderView,
    line: Seq<char>,
    aliases: Map<Seq<char>, Seq<char>>,
    functions: Map<Seq<char>, Seq<Seq<char>>>,
) -> (ReaderView, Map<Seq<char>, Seq<Seq<char>>>, Option<CommandView>) {
    if skipped_line(line) {
        (st, functions, None)
    } else if !st.0 {
        match function_name(line) {
            Some(name) => ((true, name, Seq::empty(), count_char(line, '{')), functions, None),
            None => (st, functions, Some(parse_view(alias_check(aliases, line, Set::empty()).unwrap().0))),
        }
    } else {
        let braces = (st.3 + count_char(line, '{') - count_char(line, '}')) as nat;
        let body = if !line.contains('{') && !line.contains('}') {
            st.2.push(trim(line))
        } else {
            st.2
        };
        if braces == 0 {
            ((false, Seq::empty(), Seq::empty(), 0), functions.insert(st.1, body), None)
        } else {
            ((true, st.1, body, braces), functions, None)
        }
    }
}

impl ConfigReader {
    /// Starts reading the configuration file: the state records that it is
    /// being read.
    pub fn new(shell: &mut ShellState) -> (r: Self)
        ensures
            r@ == (false, Seq::<char>::empty(), Seq::<Seq<char>>::empty(), 0nat),
            *final(shell) == (ShellState { reading_config: true, ..*old(shell) }),
    {
        shell.reading_config = true;
        let r = ConfigReader {
            in_function: false,
            current_function: String::new(),
            function_body: Vec::new(),
            brace_count: 0,
        };
        assert(r.function_body.deep_view() =~= Seq::<Seq<char>>::empty());
        r
    }

    /// Ends reading the configuration file.
    pub fn finish(self, shell: &mut ShellState)
        ensures
            *final(shell) == (ShellState { reading_config: false, ..*old(shell) }),
    {
        shell.reading_config = false;
    }

    /// Whether `read_config_line` can take `line`.
    pub fn accepts_line(&self, line: &str, shell: &ShellState) -> (r: bool)
        ensures
            r == line_accepted(self@, line@, shell.alias_map()),
    {
        let s = chars_of(line);
        let bl = byte_length(s.as_slice());
        if s.len() == 0 || s[0] == '#' || bl == 1 {
            return true;
        }
        if !self.in_function {
            if is_function_definition(line).is_some() {
                return true;
            }
            return alias_expands(line, shell);
        }
        let opens = count_of(s.as_slice(), '{');
        let closes = count_of(s.as_slice(), '}');
        self.brace_count as u128 + opens as u128 >= closes as u128 && self.brace_count as u128
            + opens as u128 <= usize::MAX as u128
    }

    /// Reads one line of the configuration file (as read, with its line
    /// break): see `config_step`. Returns the command to run, if the line is
    /// one.
    pub fn read_config_line(&mut self, line: &str, shell: &mut ShellState) -> (r: Option<
        ParsedCommand,
    >)
        requires
            line_accepted(old(self)@, line@, old(shell).alias_map()),
        ensures
            ({
                let step = config_step(
                    old(self)@,
                    line@,
                    old(shell).alias_map(),
                    old(shell).function_map(),
                );
                &&& final(self)@ == step.0
                &&& final(shell).function_map() == step.1
                &&& match step.2 {
                    Some(c) => r matches Some(x) && x@ == c,
                    None => r is None,
                }
            }),
            *final(shell) == (ShellState { functions: final(shell).functions, ..*old(shell) }),
    {
        let s = chars_of(line);
        let bl = byte_length(s.as_slice());
        if s.len() == 0 || s[0] == '#' || bl == 1 {
            return None;
        }
        if !self.in_function {
            match is_function_definition(line) {
                Some(name) => {
                    self.in_function = true;
                    self.current_function = name;
                    self.function_body = Vec::new();
                    assert(self.function_body.deep_view() =~= Seq::<Seq<char>>::empty());
                    self.brace_count = count_of(s.as_slice(), '{');
                    None
                },
                None => {
                    let mut visited = NameSet::new();
                    assert(visited@ == Set::<Seq<char>>::empty());
                    let process = check_alias(line, shell, &mut visited);
                    Some(simple_parse(process.as_str()))
                },
            }
        } else {
            let opens = count_of(s.as_slice(), '{');
            let closes = count_of(s.as_slice(), '}');
            self.brace_count = self.brace_count + opens;
            self.brace_count = self.brace_count - closes;
            if !contains_char(s.as_slice(), '{') && !contains_char(s.as_slice(), '}') {
                let t = trim_chars(s.as_slice());
                let ghost before = self.function_body.deep_view();
                self.function_body.push(string_from(t.as_slice()));
                assert(self.function_body.deep_view() =~= before.push(t@));
            }
            if self.brace_count == 0 {
                let ghost before = shell.function_map();
                let ghost name = self.current_function@;
                let ghost body = self.function_body.deep_view();
                let key = chars_of(self.current_function.as_str());
                let mut body_vec = Vec::new();
                std::mem::swap(&mut body_vec, &mut self.function_body);
                shell.functions.insert(key, body_vec);
                assert(shell.function_map() =~= before.insert(name, body));
                self.in_function = false;
                self.current_function = String::new();
                assert(self.function_body.deep_view() =~= Seq::<Seq<char>>::empty());
            }
            None
        }
    }
}

/// The commands that running the function `name` executes, one per body
/// line with aliases expanded; `None` when there is no such function.
pub open spec fn function_commands(
    aliases: Map<Seq<char>, Seq<char>>,
    functions: Map<Seq<char>, Seq<Seq<char>>>,
    name: Seq<char>,
) -> Option<Seq<CommandView>> {
    if functions.contains_key(name) {
        Some(
            functions[name].map_values(
                |line: Seq<char>| parse_view(alias_check(aliases, line, Set::empty()).unwrap().0),
            ),
        )
    } else {
        None
    }
}

/// Every body line of the function `name` can be alias-expanded.
pub open spec fn function_runnable(
    aliases: Map<Seq<char>, Seq<char>>,
    functions: Map<Seq<char>, Seq<Seq<char>>>,
    name: Seq<char>,
) -> bool {
    functions.contains_key(name) ==> forall|i: int|
        0 <= i < functions[name].len() ==> (#[trigger] alias_check(
            aliases,
            functions[name][i],
            Set::empty(),
        )) is Some
}

/// Whether the body of the configuration function `fn_name`, if there is
/// one, can be alias-expanded line by line.
pub fn conf_function_runnable(fn_name: &str, shell: &ShellState) -> (r: bool)
    ensures
        r == function_runnable(shell.alias_map(), shell.function_map(), fn_name@),
{
    let key = chars_of(fn_name);
    let body = match shell.functions.get(key.as_slice()) {
        Some(b) => b,
        None => {
            return true;
        },
    };
    let ghost lines = body.deep_view();
    assert(lines == shell.function_map()[fn_name@]);
    let n = body.len();
    for i in 0..n
        invariant
            n == lines.len(),
            lines == body.deep_view(),
            lines == shell.function_map()[fn_name@],
            shell.function_map().contains_key(fn_name@),
            forall|j: int|
                0 <= j < i ==> (#[trigger] alias_check(shell.alias_map(), lines[j], Set::empty()))
                    is Some,
    {
        assert(lines[i as int] == body[i as int]@);
        if !alias_expands(body[i].as_str(), shell) {
            return false;
        }
    }
    true
}

/// Runs the configuration function `fn_name`: the commands of its body, to be
/// run in order with the `Background` operator, and the exit code becomes 0
/// (the caller sets it to 0 again, with `finish_function`, once they ran);
/// `None`, with nothing changed, when there is no such function.
pub fn execute_conf_function(fn_name: &str, shell: &mut ShellState) -> (r: Option<
    Vec<ParsedCommand>,
>)
    requires
        function_runnable(old(shell).alias_map(), old(shell).function_map(), fn_name@),
    ensures
        match function_commands(old(shell).alias_map(), old(shell).function_map(), fn_name@) {
            Some(cmds) => r matches Some(v) && v@.map_values(|c: ParsedCommand| c@) == cmds
                && *final(shell) == (ShellState { exit_code: Some(0i8), ..*old(shell) }),
            None => r is None && *final(shell) == *old(shell),
        },
{
    let r = function_body_commands(fn_name, shell);
    if r.is_some() {
        shell.exit_code = Some(0);
    }
    r
}

/// The exit code of a configuration function once its commands ran: 0.
pub fn finish_function(shell: &mut ShellState)
    ensures
        *final(shell) == (ShellState { exit_code: Some(0i8), ..*old(shell) }),
{
    shell.exit_code = Some(0);
}

/// The commands of the body of the configuration function `fn_name`.
fn function_body_commands(fn_name: &str, shell: &ShellState) -> (r: Option<Vec<ParsedCommand>>)
    requires
        function_runnable(shell.alias_map(), shell.function_map(), fn_name@),
    ensures
        match function_commands(shell.alias_map(), shell.function_map(), fn_name@) {
            Some(cmds) => r matches Some(v) && v@.map_values(|c: ParsedCommand| c@) == cmds,
            None => r is None,
        },
{
    let key = chars_of(fn_name);
    let body = match shell.functions.get(key.as_slice()) {
        Some(b) => b,
        None => {
            return None;
        },
    };
    let ghost lines = body.deep_view();
    assert(lines == shell.function_map()[fn_name@]);
    let ghost cmds = lines.map_values(
        |line: Seq<char>| parse_view(alias_check(shell.alias_map(), line, Set::empty()).unwrap().0),
    );
    let mut out: Vec<ParsedCommand> = Vec::new();
    let n = body.len();
    for i in 0..n
        invariant
            n == lines.len(),
            lines == body.deep_view(),
            function_runnable(shell.alias_map(), shell.function_map(), fn_name@),
            lines == shell.function_map()[fn_name@],
            shell.function_map().contains_key(fn_name@),
            cmds == lines.map_values(
                |line: Seq<char>|
                    parse_view(alias_check(shell.alias_map(), line, Set::empty()).unwrap().0),
            ),
            out@.map_values(|c: ParsedCommand| c@) =~= cmds.take(i as int),
    {
        let mut visited = NameSet::new();
        assert(lines[i as int] == body[i as int]@);
        assert(alias_check(shell.alias_map(), lines[i as int], Set::empty()) is Some);
        let expanded = check_alias(body[i].as_str(), shell, &mut visited);
        let c = simple_parse(expanded.as_str());
        let ghost before = out@.map_values(|c: ParsedCommand| c@);
        out.push(c);
        assert(out@.map_values(|c: ParsedCommand| c@) =~= before.push(cmds[i as int]));
        assert(cmds.take(i + 1) =~= cmds.take(i as int).push(cmds[i as int]));
    }
    assert(cmds.take(n as int) =~= cmds);
    Some(out)
}

/// `a` with every `"` preceded by a backslash.
pub open spec fn escape_quotes(a: Seq<char>) -> Seq<char>
    decreases a.len(),
{
    if a.len() == 0 {
        Seq::empty()
    } else {
        escape_quotes(a.drop_last()) + if a.last() == '"' {
            seq!['\\', '"']
        } else {
            seq![a.last()]
        }
    }
}

/// An argument as it is written to the configuration file: in double quotes
/// (with inner quotes escaped) when it is empty or holds a space.
pub open spec fn config_arg(a: Seq<char>) -> Seq<char> {
    if a.contains(' ') || a.len() == 0 {
        seq!['"'] + escape_quotes(a) + seq!['"']
    } else {
        a
    }
}

/// The arguments as written to the configuration file, each after a space.
pub open spec fn config_args(args: Seq<Seq<char>>) -> Seq<char>
    decreases args.len(),
{
    if args.len() == 0 {
        Seq::empty()
    } else {
        config_args(args.drop_last()) + seq![' '] + config_arg(args.last())
    }
}

/// The line that records `cmd` in the configuration file.
pub open spec fn config_line(cmd: CommandView) -> Seq<char> {
    cmd.0 + config_args(cmd.1) + seq!['\n']
}

/// Appends `a` with every `"` escaped.
fn push_escaped(out: &mut String, a: &[char])
    ensures
        final(out)@ == old(out)@ + escape_quotes(a@),
{
    let n = a.len();
    for k in 0..n
        invariant
            n == a@.len(),
            out@ == old(out)@ + escape_quotes(a@.take(k as int)),
    {
        assert(a@.take(k + 1).drop_last() =~= a@.take(k as int));
        if a[k] == '"' {
            push_char(out, '\\');
            push_char(out, '"');
        } else {
            push_char(out, a[k]);
        }
        assert(out@ =~= old(out)@ + escape_quotes(a@.take(k + 1)));
    }
    assert(a@.take(n as int) =~= a@);
}

/// The line that `export` appends to the configuration file for `cli`.
pub fn config_entry(cli: &ParsedCommand) -> (line: String)
    ensures
        line@ == config_line(cli@),
{
    let mut command = cli.command.clone();
    let n = cli.arguments.len();
    let ghost args = cli@.1;
    for i in 0..n
        invariant
            n == args.len(),
            args == cli@.1,
            command@ == cli@.0 + config_args(args.take(i as int)),
    {
        let a = chars_of(cli.arguments[i].as_str());
        assert(a@ == args[i as int]);
        assert(args.take(i + 1).drop_last() =~= args.take(i as int));
        push_char(&mut command, ' ');
        if contains_char(a.as_slice(), ' ') || a.len() == 0 {
            push_char(&mut command, '"');
            push_escaped(&mut command, a.as_slice());
            push_char(&mut command, '"');
        } else {
            push_chars(&mut command, a.as_slice());
        }
        assert(command@ =~= cli@.0 + config_args(args.take(i + 1)));
    }
    assert(args.take(n as int) =~= args);
    push_char(&mut command, '\n');
    command
}

/// A configuration line that assigns the variable `name` (`export NAME=...`
/// or `NAME=...`, after leading whitespace).
pub open spec fn assigns_var(line: Seq<char>, name: Seq<char>) -> bool {
    let t = trim_start(line);
    has_prefix(t, seq!['e', 'x', 'p', 'o', 'r', 't', ' '] + name + seq!['=']) || has_prefix(
        t,
        name + seq!['='],
    )
}

/// The configuration lines without those that assign the variable `name`.
pub fn remove_var_lines(lines: &Vec<String>, name: &str) -> (kept: Vec<String>)
    ensures
        kept.deep_view() == lines.deep_view().filter(|l: Seq<char>| !assigns_var(l, name@)),
{
    let nm = chars_of(name);
    let mut export_pattern: Vec<char> = vec!['e', 'x', 'p', 'o', 'r', 't', ' '];
    let mut bare_pattern: Vec<char> = Vec::new();
    let m = nm.len();
    for j in 0..m
        invariant
            m == nm@.len(),
            export_pattern@ == seq!['e', 'x', 'p', 'o', 'r', 't', ' '] + nm@.take(j as int),
            bare_pattern@ == nm@.take(j as int),
    {
        export_pattern.push(nm[j]);
        bare_pattern.push(nm[j]);
        assert(nm@.take(j + 1) =~= nm@.take(j as int).push(nm@[j as int]));
    }
    assert(nm@.take(m as int) =~= nm@);
    export_pattern.push('=');
    bare_pattern.push('=');
    let ghost ls = lines.deep_view();
    let mut kept: Vec<String> = Vec::new();
    let n = lines.len();
    for i in 0..n
        invariant
            n == ls.len(),
            ls == lines.deep_view(),
            nm@ == name@,
            export_pattern@ == seq!['e', 'x', 'p', 'o', 'r', 't', ' '] + name@ + seq!['='],
            bare_pattern@ == name@ + seq!['='],
            kept.deep_view() == ls.take(i as int).filter(|l: Seq<char>| !assigns_var(l, name@)),
    {
        let line = chars_of(lines[i].as_str());
        assert(line@ == ls[i as int]);
        let t = trim_start_chars(line.as_slice());
        let matched = starts_with(t.as_slice(), export_pattern.as_slice()) || starts_with(
            t.as_slice(),
            bare_pattern.as_slice(),
        );
        assert(ls.take(i + 1).drop_last() =~= ls.take(i as int));
        assert(ls.take(i + 1).last() == ls[i as int]);
        reveal_with_fuel(Seq::<_>::filter, 1);
        if !matched {
            let ghost before = kept.deep_view();
            kept.push(lines[i].clone());
            assert(kept.deep_view() =~= before.push(ls[i as int]));
        }
    }
    assert(ls.take(n as int) =~= ls);
    kept
}

/// A word that the tokeniser reads as it is: non-empty, without
/// whitespace, quotes or backslashes.
pub open spec fn plain_word(w: Seq<char>) -> bool {
    w.len() > 0 && forall|i: int|
        0 <= i < w.len() ==> !is_ws(#[trigger] w[i]) && w[i] != '"' && w[i] != '\'' && w[i] != '\\'
}

/// An argument that survives a trip through the configuration file: a
/// non-empty argument with a space and no backslash (it is written in
/// double quotes), or a plain word.
pub open spec fn recordable_arg(a: Seq<char>) -> bool {
    a.len() > 0 && if a.contains(' ') {
        !a.contains('\\')
    } else {
        plain_word(a)
    }
}

proof fn lemma_lex_plain(t: Seq<Seq<char>>, c: Seq<char>, w: Seq<char>)
    requires
        forall|i: int|
            0 <= i < w.len() ==> !is_ws(#[trigger] w[i]) && w[i] != '"' && w[i] != '\'' && w[i]
                != '\\',
    ensures
        lex_run((t, c, Option::None, false), w) == (t, c + w, Option::<QuoteMode>::None, false),
    decreases w.len(),
{
    if w.len() == 0 {
        assert(c + w =~= c);
    } else {
        assert forall|i: int| 0 <= i < w.drop_last().len() implies !is_ws(
            #[trigger] w.drop_last()[i],
        ) && w.drop_last()[i] != '"' && w.drop_last()[i] != '\'' && w.drop_last()[i] != '\\' by {
            assert(w.drop_last()[i] == w[i]);
        }
        lemma_lex_plain(t, c, w.drop_last());
        assert(w.last() == w[w.len() - 1]);
        assert((c + w.drop_last()).push(w.last()) =~= c + w);
    }
}

proof fn lemma_lex_escaped(t: Seq<Seq<char>>, c: Seq<char>, a: Seq<char>)
    requires
        !a.contains('\\'),
    ensures
        lex_run((t, c, Some(QuoteMode::Double), false), escape_quotes(a)) == (
            t,
            c + a,
            Some(QuoteMode::Double),
            false,
        ),
    decreases a.len(),
{
    let st = (t, c, Some(QuoteMode::Double), false);
    if a.len() == 0 {
        assert(c + a =~= c);
    } else {
        let r = a.drop_last();
        assert(!r.contains('\\')) by {
            if r.contains('\\') {
                let j = choose|j: int| 0 <= j < r.len() && r[j] == '\\';
                assert(a[j] == '\\');
            }
        }
        lemma_lex_escaped(t, c, r);
        let x = a.last();
        assert(x != '\\') by {
            assert(a[a.len() - 1] == x);
        }
        let piece = if x == '"' {
            seq!['\\', '"']
        } else {
            seq![x]
        };
        lemma_lex_run_concat(st, escape_quotes(r), piece);
        let mid = (t, c + r, Some(QuoteMode::Double), false);
        if x == '"' {
            lemma_lex_run_concat(mid, seq!['\\'], seq!['"']);
            assert(seq!['\\'] + seq!['"'] =~= seq!['\\', '"']);
            lemma_lex_run_one(mid, '\\');
            lemma_lex_run_one(lex_step(mid, '\\'), '"');
        } else {
            lemma_lex_run_one(mid, x);
        }
        assert((c + r).push(x) =~= c + a);
    }
}

proof fn lemma_lex_arg(t: Seq<Seq<char>>, a: Seq<char>)
    requires
        recordable_arg(a),
    ensures
        lex_run((t, Seq::empty(), Option::None, false), config_arg(a)) == (
            t,
            a,
            Option::<QuoteMode>::None,
            false,
        ),
{
    let st = (t, Seq::<char>::empty(), Option::<QuoteMode>::None, false);
    if a.contains(' ') {
        let q = seq!['"'];
        lemma_lex_run_one(st, '"');
        lemma_lex_run_one((t, a, Some(QuoteMode::Double), false), '"');
        lemma_lex_run_concat(st, q + escape_quotes(a), q);
        lemma_lex_run_concat(st, q, escape_quotes(a));
        assert(lex_run(st, q) == (t, Seq::<char>::empty(), Some(QuoteMode::Double), false));
        lemma_lex_escaped(t, Seq::empty(), a);
        assert(Seq::<char>::empty() + a =~= a);
    } else {
        lemma_lex_plain(t, Seq::empty(), a);
        assert(Seq::<char>::empty() + a =~= a);
    }
}

/// The tokeniser state after a name and recorded arguments.
pub open spec fn recorded_state(name: Seq<char>, args: Seq<Seq<char>>) -> LexState {
    if args.len() == 0 {
        (Seq::empty(), name, Option::None, false)
    } else {
        (seq![name] + args.drop_last(), args.last(), Option::None, false)
    }
}

proof fn lemma_lex_recorded(name: Seq<char>, args: Seq<Seq<char>>)
    requires
        plain_word(name),
        forall|i: int| 0 <= i < args.len() ==> recordable_arg(#[trigger] args[i]),
    ensures
        lex_run(lex_init(), name + config_args(args)) == recorded_state(name, args),
    decreases args.len(),
{
    if args.len() == 0 {
        assert(name + config_args(args) =~= name);
        lemma_lex_plain(Seq::empty(), Seq::empty(), name);
        assert(Seq::<char>::empty() + name =~= name);
    } else {
        let prev = args.drop_last();
        assert forall|i: int| 0 <= i < prev.len() implies recordable_arg(#[trigger] prev[i]) by {
            assert(prev[i] == args[i]);
        }
        lemma_lex_recorded(name, prev);
        let a = args.last();
        assert(recordable_arg(a)) by {
            assert(a == args[args.len() - 1]);
        }
        let head = name + config_args(prev);
        assert(name + config_args(args) =~= head + seq![' '] + config_arg(a));
        lemma_lex_run_concat(lex_init(), head + seq![' '], config_arg(a));
        lemma_lex_run_concat(lex_init(), head, seq![' ']);
        let st = recorded_state(name, prev);
        lemma_lex_run_one(st, ' ');
        assert(st.1.len() > 0);
        let flushed = (st.0.push(st.1), Seq::<char>::empty(), Option::<QuoteMode>::None, false);
        assert(lex_run(st, seq![' ']) == flushed);
        lemma_lex_arg(st.0.push(st.1), a);
        assert(st.0.push(st.1) =~= seq![name] + args.drop_last());
    }
}

proof fn lemma_recorded_text_ends(name: Seq<char>, args: Seq<Seq<char>>)
    requires
        plain_word(name),
        forall|i: int| 0 <= i < args.len() ==> recordable_arg(#[trigger] args[i]),
    ensures
        (name + config_args(args)).len() > 0,
        (name + config_args(args))[0] == name[0],
        !is_ws((name + config_args(args)).last()),
{
    let s = name + config_args(args);
    assert(s[0] == name[0]);
    assert(!is_ws(name[0]));
    if args.len() == 0 {
        assert(s =~= name);
        assert(!is_ws(name[name.len() - 1]));
    } else {
        let a = args.last();
        assert(recordable_arg(a)) by {
            assert(a == args[args.len() - 1]);
        }
        assert(s =~= name + config_args(args.drop_last()) + seq![' '] + config_arg(a));
        if a.contains(' ') {
            assert(config_arg(a).last() == '"');
        } else {
            assert(config_arg(a) == a);
            assert(!is_ws(a[a.len() - 1]));
        }
        assert(s.last() == config_arg(a).last());
    }
}

/// A command written to the configuration file reads back as the same
/// command, when its name is a plain word and its arguments are recordable
/// (see `recordable_arg`).
pub proof fn law_config_line_parses_back(cmd: CommandView)
    requires
        plain_word(cmd.0),
        forall|i: int| 0 <= i < cmd.1.len() ==> recordable_arg(#[trigger] cmd.1[i]),
    ensures
        parse_view(config_line(cmd)) == cmd,
{
    let name = cmd.0;
    let args = cmd.1;
    let body = name + config_args(args);
    let line = config_line(cmd);
    assert(line =~= body.push('\n'));
    lemma_recorded_text_ends(name, args);
    assert(line[0] == body[0]);
    assert(trim_start(line) == line);
    assert(line.drop_last() =~= body);
    assert(is_ws(line.last()));
    assert(trim_end(body) == body);
    assert(trim_end(line) == body);
    assert(trim(line) == body);
    lemma_lex_scan_run(body);
    lemma_lex_recorded(name, args);
    let toks = lex_tokens(body);
    if args.len() == 0 {
        assert(toks =~= seq![name]);
    } else {
        assert(toks =~= seq![name] + args);
    }
    assert(toks.skip(1) =~= args);
}

/// The commands of a configuration function are its body lines with
/// aliases expanded: a body line whose first word `w` is an alias for a value
/// starting with a word that is no alias gives the command read from the
/// line with `w` replaced by that value.
pub proof fn law_function_body_expands_aliases(
    aliases: Map<Seq<char>, Seq<char>>,
    functions: Map<Seq<char>, Seq<Seq<char>>>,
    name: Seq<char>,
    i: int,
    w: Seq<char>,
    rest: Option<Seq<char>>,
    u: Seq<char>,
    x: Option<Seq<char>>,
)
    requires
        aliases.dom().finite(),
        functions.contains_key(name),
        0 <= i < functions[name].len(),
        functions[name][i] == word_line(w, rest),
        one_word(w),
        one_word(u),
        aliases.contains_key(w),
        aliases[w] == word_line(u, x),
        !aliases.contains_key(u),
    ensures
        function_commands(aliases, functions, name) matches Some(cmds) && cmds.len()
            == functions[name].len() && cmds[i] == parse_view(word_line(word_line(u, x), rest)),
{
    law_alias_replaces_first_word(aliases, w, rest, u, x);
}

/// A command line of the configuration file runs with its first word's alias
/// expanded: outside a definition, a line (neither skipped nor a definition)
/// whose first word `w` is an alias for a value starting with a word that is
/// no alias gives the command read from the line with `w` replaced by that
/// value.
pub proof fn law_config_line_expands_aliases(
    st: ReaderView,
    aliases: Map<Seq<char>, Seq<char>>,
    functions: Map<Seq<char>, Seq<Seq<char>>>,
    w: Seq<char>,
    rest: Option<Seq<char>>,
    u: Seq<char>,
    x: Option<Seq<char>>,
)
    requires
        !st.0,
        !skipped_line(word_line(w, rest)),
        function_name(word_line(w, rest)) is None,
        aliases.dom().finite(),
        one_word(w),
        one_word(u),
        aliases.contains_key(w),
        aliases[w] == word_line(u, x),
        !aliases.contains_key(u),
    ensures
        config_step(st, word_line(w, rest), aliases, functions) == (st, functions, Some(
            parse_view(word_line(word_line(u, x), rest)),
        )),
{
    law_alias_replaces_first_word(aliases, w, rest, u, x);
}

} // verus!
