//! Variable expansion and the built-in commands `exit`, `echo`, `export`,
//! `unset` and `cd` (the parts that compute; the caller prints and talks to
//! the operating system).
use vstd::prelude::*;

use crate::parsing::ParsedCommand;
use crate::state::ShellState;
use crate::text::{
    alphanumeric, chars_of, copy_range, find_char, first_index_of, is_alphanumeric,
    lemma_first_index_of, push_char, push_chars, starts_with_char, string_from,
};

pub mod alias;

verus! {

/// Characters that may appear in a variable name after `$`.
pub open spec fn is_name_char(c: char) -> bool {
    alphanumeric(c) || c == '_'
}

/// The number of leading name characters of `s`.
pub open spec fn name_len(s: Seq<char>) -> nat
    decreases s.len(),
{
    if s.len() > 0 && is_name_char(s[0]) {
        1 + name_len(s.drop_first())
    } else {
        0
    }
}

pub proof fn lemma_name_len(s: Seq<char>)
    ensures
        name_len(s) <= s.len(),
        forall|j: int| 0 <= j < name_len(s) ==> is_name_char(#[trigger] s[j]),
        name_len(s) < s.len() ==> !is_name_char(s[name_len(s) as int]),
    decreases s.len(),
{
    if s.len() > 0 && is_name_char(s[0]) {
        lemma_name_len(s.drop_first());
        assert forall|j: int| 0 <= j < name_len(s) implies is_name_char(#[trigger] s[j]) by {
            if j > 0 {
                assert(s[j] == s.drop_first()[j - 1]);
            }
        }
        if name_len(s) < s.len() {
            assert(s[name_len(s) as int] == s.drop_first()[name_len(s.drop_first()) as int]);
        }
    }
}

/// The value of variable `name`, or nothing when it is not set.
pub open spec fn lookup(env: Map<Seq<char>, Seq<char>>, name: Seq<char>) -> Seq<char> {
    if env.contains_key(name) {
        env[name]
    } else {
        Seq::empty()
    }
}

/// `s` with each `$NAME` replaced by the value of `NAME` (nothing when it is
/// not set); a `$` not followed by a name character stays.
pub open spec fn substitute(s: Seq<char>, env: Map<Seq<char>, Seq<char>>) -> Seq<char>
    decreases s.len(),
{
    if s.len() == 0 {
        Seq::empty()
    } else if s[0] == '$' {
        let r = s.drop_first();
        let k = name_len(r);
        proof {
            lemma_name_len(r);
        }
        if k > 0 {
            lookup(env, r.take(k as int)) + substitute(r.skip(k as int), env)
        } else {
            seq!['$'] + substitute(r, env)
        }
    } else {
        seq![s[0]] + substitute(s.drop_first(), env)
    }
}

/// `s` with variables expanded, where `sq` and `dq` say whether a single or a
/// double quote is open.
///
/// Quotes are kept and toggle the quoting state (a quote of the other kind
/// inside quotes is an ordinary character). Outside single quotes a
/// backslash keeps itself and the next character unexpanded, `${NAME}` and
/// `$NAME` are replaced by the value of `NAME` (nothing when it is not set),
/// and a `$` not followed by `{` or a name character stays.
pub open spec fn expand_from(
    s: Seq<char>,
    sq: bool,
    dq: bool,
    env: Map<Seq<char>, Seq<char>>,
) -> Seq<char>
    decreases s.len(),
{
    if s.len() == 0 {
        Seq::empty()
    } else {
        let c = s[0];
        let r = s.drop_first();
        if c == '\'' && !dq {
            seq![c] + expand_from(r, !sq, dq, env)
        } else if c == '"' && !sq {
            seq![c] + expand_from(r, sq, !dq, env)
        } else if c == '\\' && !sq {
            if r.len() > 0 {
                seq![c, r[0]] + expand_from(r.drop_first(), sq, dq, env)
            } else {
                seq![c]
            }
        } else if c == '$' && !sq {
            if r.len() > 0 && r[0] == '{' {
                let b = r.drop_first();
                let k = first_index_of(b, '}');
                proof {
                    lemma_first_index_of(b, '}');
                }
                if k < b.len() {
                    lookup(env, b.take(k)) + expand_from(b.skip(k + 1), sq, dq, env)
                } else {
                    lookup(env, b)
                }
            } else {
                let k = name_len(r);
                proof {
                    lemma_name_len(r);
                }
                if k > 0 {
                    lookup(env, r.take(k as int)) + expand_from(r.skip(k as int), sq, dq, env)
                } else {
                    seq!['$'] + expand_from(r, sq, dq, env)
                }
            }
        } else {
            seq![c] + expand_from(r, sq, dq, env)
        }
    }
}

/// The number of leading name characters of `s[start..]`.
fn scan_name(s: &[char], start: usize) -> (k: usize)
    requires
        start <= s@.len(),
    ensures
        start + k <= s@.len(),
        k == name_len(s@.skip(start as int)),
{
    proof {
        lemma_name_len(s@.skip(start as int));
    }
    let n = s.len();
    let mut k: usize = 0;
    while start + k < n && (is_alphanumeric(s[start + k]) || s[start + k] == '_')
        invariant
            start + k <= n,
            n == s@.len(),
            forall|j: int| start <= j < start + k ==> is_name_char(#[trigger] s@[j]),
        decreases n - start - k,
    {
        k += 1;
    }
    proof {
        let r = s@.skip(start as int);
        let m = name_len(r);
        if k < m {
            assert(r[k as int] == s@[start + k]);
        } else if m < k {
            assert(r[m as int] == s@[start + m]);
        }
    }
    k
}

/// Appends the value of the variable named `name` (nothing when unset).
fn push_lookup(result: &mut String, name: &[char], shell: &ShellState)
    ensures
        final(result)@ == old(result)@ + lookup(shell.env(), name@),
{
    match shell.env_vars.get(name) {
        Some(v) => {
            result.append(v.as_str());
        },
        None => {
            assert(old(result)@ + lookup(shell.env(), name@) =~= old(result)@);
        },
    }
}

/// Replaces each `$NAME` in `input` by the value of the variable `NAME`
/// (nothing when it is not set); a `$` not followed by a letter, digit or
/// `_` stays.
pub fn check_env_vars(input: &str, shell: &ShellState) -> (r: String)
    ensures
        r@ == substitute(input@, shell.env()),
{
    let s = chars_of(input);
    check_env_chars(s.as_slice(), shell)
}

/// `check_env_vars` on a character sequence.
pub fn check_env_chars(s: &[char], shell: &ShellState) -> (r: String)
    ensures
        r@ == substitute(s@, shell.env()),
{
    let n = s.len();
    let mut result = String::new();
    let mut i: usize = 0;
    assert(s@.skip(0) =~= s@);
    while i < n
        invariant
            i <= n,
            n == s@.len(),
            result@ + substitute(s@.skip(i as int), shell.env()) == substitute(s@, shell.env()),
        decreases n - i,
    {
        let ghost rest = s@.skip(i as int);
        assert(rest.drop_first() =~= s@.skip(i + 1));
        if s[i] == '$' {
            let k = scan_name(s, i + 1);
            if k > 0 {
                let name = copy_range(s, i + 1, i + 1 + k);
                assert(rest.drop_first().take(k as int) =~= name@);
                assert(rest.drop_first().skip(k as int) =~= s@.skip(i + 1 + k));
                push_lookup(&mut result, name.as_slice(), shell);
                i = i + 1 + k;
            } else {
                push_char(&mut result, '$');
                i = i + 1;
            }
        } else {
            push_char(&mut result, s[i]);
            i = i + 1;
        }
        assert(result@ + substitute(s@.skip(i as int), shell.env()) =~= substitute(
            s@,
            shell.env(),
        ));
    }
    assert(s@.skip(n as int) =~= Seq::<char>::empty());
    result
}

/// Expands variables in a command line, respecting quotes and escapes (see
/// `expand_from`); the state is not changed.
pub fn expand_env_vars(input: &str, shell: &mut ShellState) -> (r: String)
    ensures
        r@ == expand_from(input@, false, false, old(shell).env()),
        *final(shell) == *old(shell),
{
    let s = chars_of(input);
    expand_env_chars(s.as_slice(), shell)
}

/// `expand_env_vars` on a character sequence.
pub fn expand_env_chars(s: &[char], shell: &ShellState) -> (r: String)
    ensures
        r@ == expand_from(s@, false, false, shell.env()),
{
    let ghost env = shell.env();
    let n = s.len();
    let mut result = String::new();
    let mut in_single_quote = false;
    let mut in_double_quote = false;
    let mut i: usize = 0;
    assert(s@.skip(0) =~= s@);
    while i < n
        invariant
            i <= n,
            n == s@.len(),
            env == shell.env(),
            result@ + expand_from(s@.skip(i as int), in_single_quote, in_double_quote, env)
                == expand_from(s@, false, false, env),
        decreases n - i,
    {
        let c = s[i];
        let ghost rest = s@.skip(i as int);
        let ghost sq = in_single_quote;
        let ghost dq = in_double_quote;
        assert(rest[0] == c);
        assert(rest.drop_first() =~= s@.skip(i + 1));
        if c == '\'' && !in_double_quote {
            in_single_quote = !in_single_quote;
            push_char(&mut result, c);
            i = i + 1;
        } else if c == '"' && !in_single_quote {
            in_double_quote = !in_double_quote;
            push_char(&mut result, c);
            i = i + 1;
        } else if c == '\\' && !in_single_quote {
            push_char(&mut result, c);
            if i + 1 < n {
                assert(rest.drop_first()[0] == s@[i + 1]);
                assert(rest.drop_first().drop_first() =~= s@.skip(i + 2));
                push_char(&mut result, s[i + 1]);
                i = i + 2;
            } else {
                assert(s@.skip(i + 1) =~= Seq::<char>::empty());
                i = i + 1;
            }
        } else if c == '$' && !in_single_quote {
            if i + 1 < n && s[i + 1] == '{' {
                assert(rest.drop_first()[0] == s@[i + 1]);
                let ghost b = rest.drop_first().drop_first();
                assert(b =~= s@.skip(i + 2));
                let b_start = i + 2;
                let mut j = b_start;
                while j < n && s[j] != '}'
                    invariant
                        b_start <= j <= n,
                        n == s@.len(),
                        forall|m: int| b_start <= m < j ==> s@[m] != '}',
                    decreases n - j,
                {
                    j += 1;
                }
                proof {
                    lemma_first_index_of(b, '}');
                    let f = first_index_of(b, '}');
                    if f < j - b_start {
                        assert(b[f] == s@[b_start + f]);
                    }
                    if j - b_start < f {
                        assert(b[j - b_start] == s@[j as int]);
                    }
                }
                let name = copy_range(s, b_start, j);
                assert(name@ =~= b.take(j - b_start));
                push_lookup(&mut result, name.as_slice(), shell);
                if j < n {
                    assert(b.skip(j - b_start + 1) =~= s@.skip(j + 1));
                    i = j + 1;
                } else {
                    assert(b.take(j - b_start) =~= b);
                    assert(s@.skip(n as int) =~= Seq::<char>::empty());
                    i = n;
                }
            } else {
                if i + 1 < n {
                    assert(rest.drop_first()[0] == s@[i + 1]);
                }
                let k = scan_name(s, i + 1);
                if k > 0 {
                    let name = copy_range(s, i + 1, i + 1 + k);
                    assert(rest.drop_first().take(k as int) =~= name@);
                    assert(rest.drop_first().skip(k as int) =~= s@.skip(i + 1 + k));
                    push_lookup(&mut result, name.as_slice(), shell);
                    i = i + 1 + k;
                } else {
                    push_char(&mut result, '$');
                    i = i + 1;
                }
            }
        } else {
            push_char(&mut result, c);
            i = i + 1;
        }
        assert(result@ + expand_from(s@.skip(i as int), in_single_quote, in_double_quote, env)
            =~= expand_from(s@, false, false, env));
    }
    assert(s@.skip(n as int) =~= Seq::<char>::empty());
    result
}

/// An ASCII decimal digit.
pub open spec fn is_digit(c: char) -> bool {
    '0' <= c && c <= '9'
}

/// The value of a sequence of decimal digits.
pub open spec fn digits_value(d: Seq<char>) -> int
    decreases d.len(),
{
    if d.len() == 0 {
        0
    } else {
        10 * digits_value(d.drop_last()) + (d.last() as int - '0' as int)
    }
}

/// `s` without a leading sign `+` or `-`.
pub open spec fn unsigned_part(s: Seq<char>) -> Seq<char> {
    if starts_with_char(s, '-') || starts_with_char(s, '+') {
        s.drop_first()
    } else {
        s
    }
}

/// `d` is a non-empty sequence of decimal digits.
pub open spec fn is_numeral(d: Seq<char>) -> bool {
    d.len() > 0 && forall|i: int| 0 <= i < d.len() ==> is_digit(#[trigger] d[i])
}

/// The value that `s` denotes as a signed decimal numeral.
pub open spec fn signed_value(s: Seq<char>) -> int {
    if starts_with_char(s, '-') {
        -digits_value(unsigned_part(s))
    } else {
        digits_value(unsigned_part(s))
    }
}

/// What `str::parse::<i8>` gives for `s`: an optional sign `+` or `-`
/// followed by one or more decimal digits whose value fits in an `i8`.
pub open spec fn parse_i8_spec(s: Seq<char>) -> Option<i8> {
    if is_numeral(unsigned_part(s)) && -128 <= signed_value(s) <= 127 {
        Some(signed_value(s) as i8)
    } else {
        None
    }
}

proof fn lemma_digits_value_step(d: Seq<char>, k: int)
    requires
        0 <= k < d.len(),
        forall|i: int| 0 <= i <= k ==> is_digit(#[trigger] d[i]),
    ensures
        digits_value(d.take(k + 1)) == 10 * digits_value(d.take(k)) + (d[k] as int - '0' as int),
        digits_value(d.take(k + 1)) >= digits_value(d.take(k)) >= 0,
    decreases k,
{
    assert(d.take(k + 1).drop_last() =~= d.take(k));
    if k > 0 {
        lemma_digits_value_step(d, k - 1);
    } else {
        assert(d.take(0) =~= Seq::<char>::empty());
    }
}

/// Reads an `i8` in decimal, as `str::parse::<i8>` does.
pub fn parse_i8(s: &[char]) -> (r: Option<i8>)
    ensures
        r == parse_i8_spec(s@),
{
    let n = s.len();
    if n == 0 {
        return None;
    }
    let neg = s[0] == '-';
    let start: usize = if s[0] == '-' || s[0] == '+' {
        1
    } else {
        0
    };
    let ghost d = if start == 1 {
        s@.drop_first()
    } else {
        s@
    };
    assert(d =~= s@.skip(start as int));
    if start == n {
        return None;
    }
    let mut acc: u32 = 0;
    assert(d.take(0) =~= Seq::<char>::empty());
    for k in start..n
        invariant
            n == s@.len(),
            start <= n,
            d == s@.skip(start as int),
            n > 0,
            start == (if s@[0] == '-' || s@[0] == '+' { 1int } else { 0int }),
            d == (if start == 1 { s@.drop_first() } else { s@ }),
            forall|i: int| 0 <= i < k - start ==> is_digit(#[trigger] d[i]),
            digits_value(d.take(k - start)) >= 0,
            digits_value(d.take(k - start)) <= 200 ==> acc == digits_value(d.take(k - start)),
            digits_value(d.take(k - start)) > 200 ==> acc > 200,
            acc <= 2009,
    {
        let c = s[k];
        assert(d[k - start] == c);
        if !('0' <= c && c <= '9') {
            assert(!is_digit(d[k - start]));
            assert(d == unsigned_part(s@));
            return None;
        }
        proof {
            lemma_digits_value_step(d, k - start);
        }
        let dv = (c as u32) - ('0' as u32);
        if acc <= 200 {
            acc = acc * 10 + dv;
        }
    }
    assert(d.take(n - start) =~= d);
    if neg {
        if acc <= 128 {
            let v = 0i32 - (acc as i32);
            Some(v as i8)
        } else {
            None
        }
    } else {
        if acc <= 127 {
            Some(acc as i8)
        } else {
            None
        }
    }
}

/// The exit code that `exit` with arguments `args` leaves: the first argument
/// read as an `i8`, or 0 when there is none or it is not one.
pub open spec fn exit_code_of(args: Seq<Seq<char>>) -> i8 {
    if args.len() > 0 && parse_i8_spec(args[0]) is Some {
        parse_i8_spec(args[0])->0
    } else {
        0
    }
}

/// The `exit` built-in: sets the exit code from the first argument (0 when
/// missing or not a number) and asks the shell to stop. The caller saves
/// the history first.
pub fn exit_shell(cli: &ParsedCommand, shell: &mut ShellState)
    ensures
        *final(shell) == (ShellState {
            exit_code: Some(exit_code_of(cli@.1)),
            should_exit: true,
            ..*old(shell)
        }),
{
    let mut code: Option<i8> = None;
    if cli.arguments.len() > 0 {
        let a = chars_of(cli.arguments[0].as_str());
        assert(cli@.1[0] == cli.arguments[0]@);
        code = parse_i8(a.as_slice());
    }
    if code.is_none() {
        code = Some(0);
    }
    shell.exit_code = code;
    shell.should_exit = true;
}

/// A word as `echo` prints it: `$NAME` becomes the value of `NAME` (nothing
/// when it is not set), other words stay.
pub open spec fn echo_word(arg: Seq<char>, env: Map<Seq<char>, Seq<char>>) -> Seq<char> {
    if starts_with_char(arg, '$') {
        lookup(env, arg.drop_first())
    } else {
        arg
    }
}

/// The words joined with single spaces.
pub open spec fn join_words(ws: Seq<Seq<char>>) -> Seq<char>
    decreases ws.len(),
{
    if ws.len() == 0 {
        Seq::empty()
    } else if ws.len() == 1 {
        ws[0]
    } else {
        join_words(ws.drop_last()) + seq![' '] + ws.last()
    }
}

/// The line that `echo` prints for the arguments `args`.
pub open spec fn echo_line(args: Seq<Seq<char>>, env: Map<Seq<char>, Seq<char>>) -> Seq<char> {
    join_words(args.map_values(|a: Seq<char>| echo_word(a, env)))
}

/// The `echo` built-in: the line to print; the exit code becomes 0.
pub fn echo(cli: &ParsedCommand, shell: &mut ShellState) -> (out: String)
    ensures
        out@ == echo_line(cli@.1, old(shell).env()),
        *final(shell) == (ShellState { exit_code: Some(0i8), ..*old(shell) }),
{
    let ghost words = cli@.1.map_values(|a: Seq<char>| echo_word(a, old(shell).env()));
    let mut out = String::new();
    let n = cli.arguments.len();
    for i in 0..n
        invariant
            n == cli@.1.len(),
            words == cli@.1.map_values(|a: Seq<char>| echo_word(a, shell.env())),
            out@ == join_words(words.take(i as int)),
    {
        let arg = chars_of(cli.arguments[i].as_str());
        assert(arg@ == cli@.1[i as int]);
        assert(words.take(i + 1).drop_last() =~= words.take(i as int));
        if i > 0 {
            push_char(&mut out, ' ');
        }
        if arg.len() > 0 && arg[0] == '$' {
            let name = copy_range(arg.as_slice(), 1, arg.len());
            assert(name@ =~= arg@.drop_first());
            push_lookup(&mut out, name.as_slice(), shell);
        } else {
            push_chars(&mut out, arg.as_slice());
        }
        assert(words.take(i + 1).last() == words[i as int]);
        assert(out@ =~= join_words(words.take(i + 1)));
    }
    assert(words.take(n as int) =~= words);
    shell.exit_code = Some(0);
    out
}

/// `arg` split at its first `=` into name and value, when it has one.
pub open spec fn split_at_eq(arg: Seq<char>) -> Option<(Seq<char>, Seq<char>)> {
    let k = first_index_of(arg, '=');
    if k < arg.len() {
        Some((arg.take(k), arg.skip(k + 1)))
    } else {
        None
    }
}

/// The variables after `export` handled `arg`: `NAME=VALUE` sets `NAME` to
/// `VALUE` with `$NAME` references substituted; a bare `NAME` is set to the
/// empty value when it is not set yet.
pub open spec fn export_step(env: Map<Seq<char>, Seq<char>>, arg: Seq<char>) -> Map<
    Seq<char>,
    Seq<char>,
> {
    match split_at_eq(arg) {
        Some((k, v)) => env.insert(k, substitute(v, env)),
        None => if env.contains_key(arg) {
            env
        } else {
            env.insert(arg, Seq::empty())
        },
    }
}

/// The variables after `export` handled all of `args`, in order.
pub open spec fn export_env(env: Map<Seq<char>, Seq<char>>, args: Seq<Seq<char>>) -> Map<
    Seq<char>,
    Seq<char>,
>
    decreases args.len(),
{
    if args.len() == 0 {
        env
    } else {
        export_step(export_env(env, args.drop_last()), args.last())
    }
}

/// The assignments `NAME = value` that `export` of `args` makes, in order.
pub open spec fn export_assignments(env: Map<Seq<char>, Seq<char>>, args: Seq<Seq<char>>) -> Seq<
    (Seq<char>, Seq<char>),
>
    decreases args.len(),
{
    if args.len() == 0 {
        Seq::empty()
    } else {
        let prev = export_assignments(env, args.drop_last());
        let e = export_env(env, args.drop_last());
        match split_at_eq(args.last()) {
            Some((k, v)) => prev.push((k, substitute(v, e))),
            None => prev,
        }
    }
}

/// The view of a list of name and value pairs.
pub open spec fn pairs_view(v: Seq<(String, String)>) -> Seq<(Seq<char>, Seq<char>)> {
    v.map_values(|p: (String, String)| (p.0@, p.1@))
}

/// The `export` built-in: sets the shell's variables and returns the
/// assignments made, for the caller to set in the process environment; the
/// exit code becomes 0. The caller also records the command in the
/// configuration file when the configuration is not being read.
pub fn export(cli: &ParsedCommand, shell: &mut ShellState) -> (vars: Vec<(String, String)>)
    ensures
        final(shell).env() == export_env(old(shell).env(), cli@.1),
        pairs_view(vars@) == export_assignments(old(shell).env(), cli@.1),
        *final(shell) == (ShellState {
            env_vars: final(shell).env_vars,
            exit_code: Some(0i8),
            ..*old(shell)
        }),
{
    let ghost env0 = shell.env();
    let ghost args = cli@.1;
    let mut vars: Vec<(String, String)> = Vec::new();
    let n = cli.arguments.len();
    for i in 0..n
        invariant
            n == args.len(),
            args == cli@.1,
            shell.env() == export_env(env0, args.take(i as int)),
            pairs_view(vars@) == export_assignments(env0, args.take(i as int)),
            *shell == (ShellState { env_vars: shell.env_vars, ..*old(shell) }),
    {
        let arg = chars_of(cli.arguments[i].as_str());
        assert(arg@ == args[i as int]);
        assert(args.take(i + 1).drop_last() =~= args.take(i as int));
        assert(args.take(i + 1).last() == args[i as int]);
        let k = find_char(arg.as_slice(), '=');
        proof {
            lemma_first_index_of(arg@, '=');
        }
        if k < arg.len() {
            let key = copy_range(arg.as_slice(), 0, k);
            let value = copy_range(arg.as_slice(), k + 1, arg.len());
            assert(key@ =~= arg@.take(k as int));
            assert(value@ =~= arg@.skip(k + 1));
            let expanded = check_env_chars(value.as_slice(), shell);
            let ghost before = shell.env();
            let key_string = string_from(key.as_slice());
            let ghost ev = expanded@;
            let expanded_copy = expanded.clone();
            shell.env_vars.insert(key, expanded);
            assert(shell.env() =~= before.insert(key_string@, ev));
            let ghost pv = pairs_view(vars@);
            vars.push((key_string, expanded_copy));
            assert(pairs_view(vars@) =~= pv.push((key_string@, ev)));
        } else {
            if !shell.env_vars.contains_key(arg.as_slice()) {
                let ghost before = shell.env();
                shell.env_vars.insert(arg, String::new());
                assert(shell.env() =~= before.insert(args[i as int], Seq::empty()));
            }
        }
    }
    assert(args.take(n as int) =~= args);
    shell.exit_code = Some(0);
    vars
}

/// The variables after `unset` of `args`: each named variable is removed.
pub open spec fn unset_env(env: Map<Seq<char>, Seq<char>>, args: Seq<Seq<char>>) -> Map<
    Seq<char>,
    Seq<char>,
>
    decreases args.len(),
{
    if args.len() == 0 {
        env
    } else {
        unset_env(env, args.drop_last()).remove(args.last())
    }
}

/// The `unset` built-in: removes the named variables from the shell; the
/// exit code becomes 0. The caller removes them from the process
/// environment and from the configuration file.
pub fn unset(cli: &ParsedCommand, shell: &mut ShellState)
    ensures
        final(shell).env() == unset_env(old(shell).env(), cli@.1),
        *final(shell) == (ShellState {
            env_vars: final(shell).env_vars,
            exit_code: Some(0i8),
            ..*old(shell)
        }),
{
    let ghost env0 = shell.env();
    let ghost args = cli@.1;
    let n = cli.arguments.len();
    for i in 0..n
        invariant
            n == args.len(),
            args == cli@.1,
            shell.env() == unset_env(env0, args.take(i as int)),
            *shell == (ShellState { env_vars: shell.env_vars, ..*old(shell) }),
    {
        let arg = chars_of(cli.arguments[i].as_str());
        assert(arg@ == args[i as int]);
        assert(args.take(i + 1).drop_last() =~= args.take(i as int));
        let ghost before = shell.env();
        shell.env_vars.remove(arg.as_slice());
        assert(shell.env() =~= before.remove(args[i as int]));
    }
    assert(args.take(n as int) =~= args);
    shell.exit_code = Some(0);
}

/// The directory `cd` with arguments `args` goes to: home without arguments
/// or for `~`, the home followed by the rest for `~...`, else the first
/// argument.
pub open spec fn cd_target(args: Seq<Seq<char>>, home: Seq<char>) -> Seq<char> {
    if args.len() == 0 {
        home
    } else if starts_with_char(args[0], '~') {
        if args[0] == seq!['~'] {
            home
        } else {
            home + args[0].drop_first()
        }
    } else {
        args[0]
    }
}

/// The directory that the `cd` built-in changes to; the caller makes the
/// change and records the new working directory.
pub fn change_directory_target(cli: &ParsedCommand, shell: &ShellState) -> (t: String)
    ensures
        t@ == cd_target(cli@.1, shell.home@),
{
    if cli.arguments.len() == 0 {
        return shell.home.clone();
    }
    let a = chars_of(cli.arguments[0].as_str());
    assert(a@ == cli@.1[0]);
    if a.len() > 0 && a[0] == '~' {
        if a.len() == 1 {
            assert(a@ =~= seq!['~']);
            shell.home.clone()
        } else {
            let mut t = shell.home.clone();
            let rest = copy_range(a.as_slice(), 1, a.len());
            assert(rest@ =~= a@.drop_first());
            push_chars(&mut t, rest.as_slice());
            t
        }
    } else {
        cli.arguments[0].clone()
    }
}

/// The decimal digit `d` (for `0 <= d < 10`).
pub open spec fn digit_char(d: int) -> char {
    seq!['0', '1', '2', '3', '4', '5', '6', '7', '8', '9'][d]
}

/// The decimal numeral of `n`, without leading zeros.
pub open spec fn decimal(n: nat) -> Seq<char>
    decreases n,
{
    if n < 10 {
        seq![digit_char(n as int)]
    } else {
        decimal(n / 10).push(digit_char((n % 10) as int))
    }
}

/// `s` preceded by spaces up to width `w` (as `{:w}` formats a number).
pub open spec fn pad_left(s: Seq<char>, w: nat) -> Seq<char> {
    if s.len() < w {
        Seq::new((w - s.len()) as nat, |i: int| ' ') + s
    } else {
        s
    }
}

/// The line that `history` prints for entry `entry` at index `i`: its
/// number, counted from 1, right-aligned in five columns, two spaces, and
/// the entry (`{:5}  {}`).
pub open spec fn history_line(i: int, entry: Seq<char>) -> Seq<char> {
    pad_left(decimal((i + 1) as nat), 5) + seq![' ', ' '] + entry
}

/// The lines that `history` prints for the history `h`, one per entry.
pub open spec fn history_listing(h: Seq<Seq<char>>) -> Seq<Seq<char>> {
    Seq::new(h.len(), |i: int| history_line(i, h[i]))
}

/// The decimal numeral of `n`.
fn decimal_chars(n: usize) -> (r: Vec<char>)
    ensures
        r@ == decimal(n as nat),
    decreases n,
{
    let digits = ['0', '1', '2', '3', '4', '5', '6', '7', '8', '9'];
    assert(digits@ =~= seq!['0', '1', '2', '3', '4', '5', '6', '7', '8', '9']);
    if n < 10 {
        let mut v: Vec<char> = Vec::new();
        v.push(digits[n]);
        assert(v@ =~= seq![digit_char(n as int)]);
        v
    } else {
        let mut v = decimal_chars(n / 10);
        v.push(digits[n % 10]);
        v
    }
}

/// The `history` built-in: the lines to print, one per entry (see
/// `history_line`); the exit code becomes 0.
pub fn show_history(shell: &mut ShellState) -> (lines: Vec<String>)
    ensures
        lines.deep_view() == history_listing(old(shell).history_view()),
        *final(shell) == (ShellState { exit_code: Some(0i8), ..*old(shell) }),
{
    let ghost h = shell.history_view();
    let mut lines: Vec<String> = Vec::new();
    let n = shell.history.len();
    for i in 0..n
        invariant
            n == h.len(),
            h == shell.history_view(),
            lines.deep_view() =~= history_listing(h).take(i as int),
    {
        let d = decimal_chars(i + 1);
        let mut prefix: Vec<char> = Vec::new();
        if d.len() < 5 {
            let pad = 5 - d.len();
            for k in 0..pad
                invariant
                    prefix@ == Seq::new(k as nat, |j: int| ' '),
            {
                prefix.push(' ');
                assert(prefix@ =~= Seq::new((k + 1) as nat, |j: int| ' '));
            }
        }
        let ghost padding = prefix@;
        for k in 0..d.len()
            invariant
                prefix@ == padding + d@.take(k as int),
        {
            prefix.push(d[k]);
            assert(d@.take(k + 1) =~= d@.take(k as int).push(d@[k as int]));
        }
        assert(d@.take(d@.len() as int) =~= d@);
        assert(prefix@ =~= pad_left(decimal((i + 1) as nat), 5));
        prefix.push(' ');
        prefix.push(' ');
        let mut line = string_from(prefix.as_slice());
        let entry = chars_of(shell.history[i].as_str());
        push_chars(&mut line, entry.as_slice());
        assert(line@ =~= history_line(i as int, h[i as int]));
        let ghost before = lines.deep_view();
        lines.push(line);
        assert(lines.deep_view() =~= before.push(history_line(i as int, h[i as int])));
        assert(history_listing(h).take(i + 1) =~= history_listing(h).take(i as int).push(
            history_line(i as int, h[i as int]),
        ));
    }
    assert(history_listing(h).take(n as int) =~= history_listing(h));
    shell.exit_code = Some(0);
    lines
}

/// Text without quotes, backslashes or `${`.
pub open spec fn simple_text(s: Seq<char>) -> bool {
    forall|i: int|
        0 <= i < s.len() ==> #[trigger] s[i] != '\'' && s[i] != '"' && s[i] != '\\' && (s[i] == '$'
            && i + 1 < s.len() ==> s[i + 1] != '{')
}

proof fn lemma_simple_text_skip(s: Seq<char>, j: int)
    requires
        simple_text(s),
        0 <= j <= s.len(),
    ensures
        simple_text(s.skip(j)),
{
    let t = s.skip(j);
    assert forall|i: int| 0 <= i < t.len() implies #[trigger] t[i] != '\'' && t[i] != '"' && t[i]
        != '\\' && (t[i] == '$' && i + 1 < t.len() ==> t[i + 1] != '{') by {
        assert(t[i] == s[i + j]);
        if i + 1 < t.len() {
            assert(t[i + 1] == s[i + j + 1]);
        }
    }
}

/// On text without quotes, backslashes or `${`, `check_env_vars` and
/// `expand_env_vars` give the same result.
pub proof fn law_check_env_vars_matches_expand(s: Seq<char>, env: Map<Seq<char>, Seq<char>>)
    requires
        simple_text(s),
    ensures
        substitute(s, env) == expand_from(s, false, false, env),
    decreases s.len(),
{
    if s.len() > 0 {
        let r = s.drop_first();
        assert(s[0] != '\'' && s[0] != '"' && s[0] != '\\');
        lemma_simple_text_skip(s, 1);
        assert(r =~= s.skip(1));
        if s[0] == '$' {
            if r.len() > 0 {
                assert(r[0] == s[1]);
            }
            lemma_name_len(r);
            let k = name_len(r);
            if k > 0 {
                lemma_simple_text_skip(r, k as int);
                law_check_env_vars_matches_expand(r.skip(k as int), env);
            } else {
                law_check_env_vars_matches_expand(r, env);
            }
        } else {
            law_check_env_vars_matches_expand(r, env);
        }
    }
}

/// Text without `$` is left unchanged by `check_env_vars`.
pub proof fn law_substitute_without_dollar(s: Seq<char>, env: Map<Seq<char>, Seq<char>>)
    requires
        !s.contains('$'),
    ensures
        substitute(s, env) == s,
    decreases s.len(),
{
    if s.len() > 0 {
        assert(s[0] != '$');
        assert(!s.drop_first().contains('$')) by {
            if s.drop_first().contains('$') {
                let j = choose|j: int| 0 <= j < s.drop_first().len() && s.drop_first()[j] == '$';
                assert(s[j + 1] == '$');
            }
        }
        law_substitute_without_dollar(s.drop_first(), env);
        assert(seq![s[0]] + s.drop_first() =~= s);
    }
}

/// Text without `$` is left unchanged by `expand_env_vars`, whatever the
/// quoting state.
pub proof fn law_expand_without_dollar(
    s: Seq<char>,
    sq: bool,
    dq: bool,
    env: Map<Seq<char>, Seq<char>>,
)
    requires
        !s.contains('$'),
    ensures
        expand_from(s, sq, dq, env) == s,
    decreases s.len(),
{
    if s.len() > 0 {
        let r = s.drop_first();
        assert(s[0] != '$');
        assert(!r.contains('$')) by {
            if r.contains('$') {
                let j = choose|j: int| 0 <= j < r.len() && r[j] == '$';
                assert(s[j + 1] == '$');
            }
        }
        if s[0] == '\\' && !sq && r.len() > 0 {
            assert(!r.drop_first().contains('$')) by {
                if r.drop_first().contains('$') {
                    let j = choose|j: int| 0 <= j < r.drop_first().len() && r.drop_first()[j] == '$';
                    assert(r[j + 1] == '$');
                }
            }
            law_expand_without_dollar(r.drop_first(), sq, dq, env);
            assert(seq![s[0], r[0]] + r.drop_first() =~= s);
        } else if s[0] == '\\' && !sq {
            assert(seq![s[0]] =~= s);
        } else if s[0] == '\'' && !dq {
            law_expand_without_dollar(r, !sq, dq, env);
            assert(seq![s[0]] + r =~= s);
        } else if s[0] == '"' && !sq {
            law_expand_without_dollar(r, sq, !dq, env);
            assert(seq![s[0]] + r =~= s);
        } else {
            law_expand_without_dollar(r, sq, dq, env);
            assert(seq![s[0]] + r =~= s);
        }
    }
}

proof fn lemma_single_quoted(t: Seq<char>, u: Seq<char>, env: Map<Seq<char>, Seq<char>>)
    requires
        !t.contains('\''),
    ensures
        expand_from(t + u, true, false, env) == t + expand_from(u, true, false, env),
    decreases t.len(),
{
    if t.len() > 0 {
        let r = t.drop_first();
        assert((t + u).drop_first() =~= r + u);
        assert((t + u)[0] == t[0]);
        assert(t[0] != '\'');
        assert(!r.contains('\'')) by {
            if r.contains('\'') {
                let j = choose|j: int| 0 <= j < r.len() && r[j] == '\'';
                assert(t[j + 1] == '\'');
            }
        }
        lemma_single_quoted(r, u, env);
        assert(seq![t[0]] + (r + expand_from(u, true, false, env)) =~= t + expand_from(
            u,
            true,
            false,
            env,
        ));
    } else {
        assert(t + u =~= u);
        assert(t + expand_from(u, true, false, env) =~= expand_from(u, true, false, env));
    }
}

/// Between single quotes nothing is expanded: `'TEXT'` (with no single quote
/// in `TEXT`) is left unchanged by `expand_env_vars`.
pub proof fn law_single_quotes_prevent_expansion(t: Seq<char>, env: Map<Seq<char>, Seq<char>>)
    requires
        !t.contains('\''),
    ensures
        expand_from(seq!['\''] + t + seq!['\''], false, false, env) == seq!['\''] + t + seq!['\''],
{
    let q = seq!['\''];
    let s = q + t + q;
    assert(s[0] == '\'');
    assert(s.drop_first() =~= t + q);
    lemma_single_quoted(t, q, env);
    assert(q.drop_first() =~= Seq::<char>::empty());
    assert(q[0] == '\'');
    assert(expand_from(q.drop_first(), false, false, env) == Seq::<char>::empty());
    assert(expand_from(q, true, false, env) =~= q);
    assert(q + (t + q) =~= s);
}

/// `export NAME=VALUE` (a name without `=`, a value without `$`) sets
/// `NAME` to `VALUE`, and `unset NAME` afterwards leaves the variables as
/// they were without `NAME`.
pub proof fn law_export_then_unset(
    env: Map<Seq<char>, Seq<char>>,
    name: Seq<char>,
    value: Seq<char>,
)
    requires
        !name.contains('='),
        !value.contains('$'),
    ensures
        export_env(env, seq![name + seq!['='] + value]) == env.insert(name, value),
        unset_env(export_env(env, seq![name + seq!['='] + value]), seq![name]) == env.remove(name),
{
    let arg = name + seq!['='] + value;
    lemma_first_index_of(arg, '=');
    let k = first_index_of(arg, '=');
    assert(arg[name.len() as int] == '=');
    if k < name.len() {
        assert(arg[k] == name[k]);
    }
    assert(k == name.len());
    assert(arg.take(k) =~= name);
    assert(arg.skip(k + 1) =~= value);
    law_substitute_without_dollar(value, env);
    let args = seq![arg];
    assert(args.drop_last() =~= Seq::<Seq<char>>::empty());
    assert(args.last() == arg);
    assert(export_env(env, args.drop_last()) == env);
    assert(split_at_eq(arg) == Some((name, value)));
    assert(export_step(env, arg) == env.insert(name, value));
    assert(export_env(env, args) == env.insert(name, value));
    let names = seq![name];
    assert(names.drop_last() =~= Seq::<Seq<char>>::empty());
    assert(names.last() == name);
    let m = env.insert(name, value);
    assert(unset_env(m, names.drop_last()) == m);
    assert(unset_env(m, names) == m.remove(name));
    assert(m.remove(name) =~= env.remove(name));
}

/// No quote and no backslash occurs in `s`.
pub open spec fn quote_free(s: Seq<char>) -> bool {
    forall|i: int| 0 <= i < s.len() ==> #[trigger] s[i] != '\'' && s[i] != '"' && s[i] != '\\'
}

/// Every `${` of `s` is closed by a later `}`.
pub open spec fn braces_closed(s: Seq<char>) -> bool {
    forall|i: int|
        0 <= i < s.len() - 1 && #[trigger] s[i] == '$' && s[i + 1] == '{' ==> s.skip(i + 2).contains(
            '}',
        )
}

proof fn lemma_quote_free_skip(s: Seq<char>, j: int)
    requires
        quote_free(s),
        0 <= j <= s.len(),
    ensures
        quote_free(s.skip(j)),
        braces_closed(s) ==> braces_closed(s.skip(j)),
{
    let t = s.skip(j);
    assert forall|i: int| 0 <= i < t.len() implies #[trigger] t[i] != '\'' && t[i] != '"' && t[i]
        != '\\' by {
        assert(t[i] == s[i + j]);
    }
    if braces_closed(s) {
        assert forall|i: int|
            0 <= i < t.len() - 1 && #[trigger] t[i] == '$' && t[i + 1] == '{' implies t.skip(
            i + 2,
        ).contains('}') by {
            assert(t[i] == s[i + j]);
            assert(t[i + 1] == s[i + j + 1]);
            assert(s[i + j] == '$');
            assert(t.skip(i + 2) =~= s.skip(i + j + 2));
        }
    }
}

proof fn lemma_name_len_concat(r: Seq<char>, u: Seq<char>)
    requires
        u.len() > 0,
        !is_name_char(u[0]),
    ensures
        name_len(r + u) == name_len(r),
    decreases r.len(),
{
    if r.len() == 0 {
        assert(r + u =~= u);
    } else {
        assert((r + u)[0] == r[0]);
        assert((r + u).drop_first() =~= r.drop_first() + u);
        lemma_name_len_concat(r.drop_first(), u);
    }
}

proof fn lemma_first_index_concat(b: Seq<char>, u: Seq<char>, c: char)
    requires
        first_index_of(b, c) < b.len(),
    ensures
        first_index_of(b + u, c) == first_index_of(b, c),
    decreases b.len(),
{
    assert((b + u)[0] == b[0]);
    if b[0] != c {
        assert((b + u).drop_first() =~= b.drop_first() + u);
        lemma_first_index_concat(b.drop_first(), u, c);
    }
}

proof fn lemma_first_index_prefix(name: Seq<char>, rest: Seq<char>, c: char)
    requires
        !name.contains(c),
    ensures
        first_index_of(name + seq![c] + rest, c) == name.len(),
    decreases name.len(),
{
    let s = name + seq![c] + rest;
    if name.len() == 0 {
        assert(s[0] == c);
    } else {
        assert(s[0] == name[0]);
        assert(name[0] != c);
        assert(s.drop_first() =~= name.drop_first() + seq![c] + rest);
        assert(!name.drop_first().contains(c)) by {
            if name.drop_first().contains(c) {
                let k = choose|k: int| 0 <= k < name.drop_first().len() && name.drop_first()[k] == c;
                assert(name[k + 1] == c);
            }
        }
        lemma_first_index_prefix(name.drop_first(), rest, c);
    }
}

/// Whether a double quote is open does not change how text without quotes
/// or backslashes is expanded: `$NAME` and `${NAME}` are replaced inside
/// double quotes as they are outside.
pub proof fn law_double_quotes_allow_expansion(s: Seq<char>, env: Map<Seq<char>, Seq<char>>)
    requires
        quote_free(s),
    ensures
        expand_from(s, false, true, env) == expand_from(s, false, false, env),
    decreases s.len(),
{
    if s.len() > 0 {
        let c = s[0];
        let r = s.drop_first();
        assert(c != '\'' && c != '"' && c != '\\');
        lemma_quote_free_skip(s, 1);
        assert(r =~= s.skip(1));
        if c == '$' {
            if r.len() > 0 && r[0] == '{' {
                let b = r.drop_first();
                lemma_quote_free_skip(r, 1);
                assert(b =~= r.skip(1));
                let k = first_index_of(b, '}');
                lemma_first_index_of(b, '}');
                if k < b.len() {
                    lemma_quote_free_skip(b, k + 1);
                    law_double_quotes_allow_expansion(b.skip(k + 1), env);
                }
            } else {
                let k = name_len(r);
                lemma_name_len(r);
                if k > 0 {
                    lemma_quote_free_skip(r, k as int);
                    law_double_quotes_allow_expansion(r.skip(k as int), env);
                } else {
                    law_double_quotes_allow_expansion(r, env);
                }
            }
        } else {
            law_double_quotes_allow_expansion(r, env);
        }
    }
}

proof fn lemma_expand_then_quote(t: Seq<char>, env: Map<Seq<char>, Seq<char>>)
    requires
        quote_free(t),
        braces_closed(t),
    ensures
        expand_from(t + seq!['"'], false, true, env) == expand_from(t, false, true, env) + seq![
            '"',
        ],
    decreases t.len(),
{
    let u = seq!['"'];
    assert(expand_from(Seq::<char>::empty(), false, false, env) =~= Seq::<char>::empty());
    assert(u.drop_first() =~= Seq::<char>::empty());
    assert(expand_from(u, false, true, env) =~= u);
    if t.len() == 0 {
        assert(t + u =~= u);
    } else {
        let s = t + u;
        let c = t[0];
        let r = t.drop_first();
        assert(s[0] == c);
        assert(s.drop_first() =~= r + u);
        assert(c != '\'' && c != '"' && c != '\\');
        lemma_quote_free_skip(t, 1);
        assert(r =~= t.skip(1));
        if c == '$' {
            if r.len() > 0 && r[0] == '{' {
                assert((r + u)[0] == '{');
                let b = r.drop_first();
                assert((r + u).drop_first() =~= b + u);
                assert(t[0] == '$' && t[1] == '{');
                assert(t.skip(2) =~= b);
                assert(b.contains('}'));
                lemma_first_index_of(b, '}');
                let k = first_index_of(b, '}');
                lemma_first_index_concat(b, u, '}');
                assert((b + u).take(k) =~= b.take(k));
                assert((b + u).skip(k + 1) =~= b.skip(k + 1) + u);
                lemma_quote_free_skip(t, k + 3);
                assert(t.skip(k + 3) =~= b.skip(k + 1));
                lemma_expand_then_quote(b.skip(k + 1), env);
                assert(expand_from(t, false, true, env) == lookup(env, b.take(k)) + expand_from(
                    b.skip(k + 1),
                    false,
                    true,
                    env,
                ));
                assert(expand_from(s, false, true, env) == lookup(env, b.take(k)) + expand_from(
                    b.skip(k + 1) + u,
                    false,
                    true,
                    env,
                ));
            } else {
                assert(!is_name_char('"'));
                lemma_name_len_concat(r, u);
                lemma_name_len(r);
                let k = name_len(r);
                if r.len() == 0 {
                    assert(r + u =~= u);
                    assert(u[0] != '{');
                    assert(name_len(r) == 0);
                    assert(expand_from(r, false, true, env) =~= Seq::<char>::empty());
                    assert(seq!['$'] + Seq::<char>::empty() =~= seq!['$']);
                    assert(expand_from(t, false, true, env) =~= seq!['$']);
                    assert(expand_from(s, false, true, env) == seq!['$'] + expand_from(
                        u,
                        false,
                        true,
                        env,
                    ));
                } else {
                    assert((r + u)[0] == r[0]);
                    if k > 0 {
                        assert((r + u).take(k as int) =~= r.take(k as int));
                        assert((r + u).skip(k as int) =~= r.skip(k as int) + u);
                        lemma_quote_free_skip(t, (k + 1) as int);
                        assert(t.skip((k + 1) as int) =~= r.skip(k as int));
                        lemma_expand_then_quote(r.skip(k as int), env);
                    } else {
                        lemma_expand_then_quote(r, env);
                    }
                }
            }
        } else {
            lemma_expand_then_quote(r, env);
        }
    }
}

/// Text without quotes or backslashes, whose `${` are all closed, expands
/// between double quotes as it does without them, the quotes kept.
pub proof fn law_expansion_inside_double_quotes(t: Seq<char>, env: Map<Seq<char>, Seq<char>>)
    requires
        quote_free(t),
        braces_closed(t),
    ensures
        expand_from(seq!['"'] + t + seq!['"'], false, false, env) == seq!['"'] + expand_from(
            t,
            false,
            false,
            env,
        ) + seq!['"'],
{
    let s = seq!['"'] + t + seq!['"'];
    assert(s[0] == '"');
    assert(s.drop_first() =~= t + seq!['"']);
    lemma_expand_then_quote(t, env);
    law_double_quotes_allow_expansion(t, env);
}

/// `${NAME}` is replaced by the value of `NAME` (nothing when it is not set),
/// inside double quotes as well as outside them.
pub proof fn law_braced_variable(
    name: Seq<char>,
    rest: Seq<char>,
    dq: bool,
    env: Map<Seq<char>, Seq<char>>,
)
    requires
        !name.contains('}'),
    ensures
        expand_from(seq!['$', '{'] + name + seq!['}'] + rest, false, dq, env) == lookup(env, name)
            + expand_from(rest, false, dq, env),
{
    let s = seq!['$', '{'] + name + seq!['}'] + rest;
    let b = name + seq!['}'] + rest;
    assert(s[0] == '$');
    assert(s.drop_first()[0] == '{');
    assert(s.drop_first().drop_first() =~= b);
    lemma_first_index_prefix(name, rest, '}');
    assert(b.take(name.len() as int) =~= name);
    assert(b.skip((name.len() + 1) as int) =~= rest);
}

} // verus!
