//! Aliases: the `alias` and `unalias` built-ins and the expansion of aliases
//! in commands.
use vstd::prelude::*;

use crate::parsing::{CommandView, Operator, ParsedCommand, SegmentsView, segments_view};
use crate::state::ShellState;
use crate::text::{
    byte_len, byte_length, char_index_at_byte, char_index_of_byte, chars_of, copy_range,
    find_char, first_index_of, is_boundary, is_ws, lemma_ws_tokens_single, lemma_byte_len_bound, lemma_first_index_of,
    lemma_byte_len_take_step, lemma_byte_len_take_strict, lemma_ws_tokens_first_word,
    push_char, push_chars, split_whitespace, string_from, ws_tokens,
};
use crate::varmap::{NameSet, lemma_var_map_finite};

verus! {

/// `s` without its surrounding double quotes, when it has a leading and a
/// trailing `"` (and at least two characters).
pub open spec fn unquoted(s: Seq<char>) -> Seq<char> {
    if s.len() >= 2 && s[0] == '"' && s.last() == '"' {
        s.subrange(1, s.len() - 1)
    } else {
        s
    }
}

/// Removes a surrounding pair of double quotes from `string`.
pub fn unquote(string: &mut String)
    ensures
        final(string)@ == unquoted(old(string)@),
{
    let s = chars_of(string.as_str());
    let n = s.len();
    if n >= 2 && s[0] == '"' && s[n - 1] == '"' {
        let inner = copy_range(s.as_slice(), 1, n - 1);
        *string = string_from(inner.as_slice());
    }
}

pub proof fn lemma_dom_shrinks(dom: Set<Seq<char>>, visited: Set<Seq<char>>, key: Seq<char>)
    requires
        dom.finite(),
        dom.contains(key),
        !visited.contains(key),
    ensures
        dom.difference(visited.insert(key)).len() < dom.difference(visited).len(),
{
    let d = dom.difference(visited);
    assert(dom.difference(visited.insert(key)) =~= d.remove(key));
    assert(d.contains(key));
}

/// What `get_alias` returns for `key` when the names in `visited` were
/// already looked up, with the names looked up afterwards; `None` where the
/// lookup would fail.
///
/// A name already looked up, or not an alias, stands for itself; an alias
/// whose value is empty or the name itself stands for its value; any other
/// alias stands for its value with its first word expanded in turn.
pub open spec fn alias_get(
    aliases: Map<Seq<char>, Seq<char>>,
    key: Seq<char>,
    visited: Set<Seq<char>>,
) -> Option<(Seq<char>, Set<Seq<char>>)>
    decreases aliases.dom().difference(visited).len(), 0int,
    when aliases.dom().finite()
{
    if visited.contains(key) {
        Some((key, visited))
    } else {
        let v1 = visited.insert(key);
        if aliases.contains_key(key) {
            let val = aliases[key];
            if val.len() == 0 || val == key {
                Some((val, v1))
            } else {
                proof {
                    lemma_dom_shrinks(aliases.dom(), visited, key);
                }
                alias_check(aliases, val, v1)
            }
        } else {
            Some((key, v1))
        }
    }
}

/// What `check_alias` returns for `cmd`: the first word of `cmd` replaced by
/// what it stands for, joined by a space to the text that follows the byte
/// after the first word's length; `None` where `cmd` has no word, or where
/// that byte offset is not at a character boundary.
pub open spec fn alias_check(
    aliases: Map<Seq<char>, Seq<char>>,
    cmd: Seq<char>,
    visited: Set<Seq<char>>,
) -> Option<(Seq<char>, Set<Seq<char>>)>
    decreases aliases.dom().difference(visited).len(), 1int,
    when aliases.dom().finite()
{
    let toks = ws_tokens(cmd);
    if toks.len() == 0 {
        None
    } else {
        let tok = toks[0];
        let l = byte_len(tok);
        match alias_get(aliases, tok, visited) {
            None => None,
            Some((r, v2)) => if l < byte_len(cmd) {
                if is_boundary(cmd, l + 1int) {
                    Some((r + seq![' '] + cmd.skip(char_index_of_byte(cmd, l + 1int)), v2))
                } else {
                    None
                }
            } else {
                Some((r, v2))
            },
        }
    }
}

fn try_get_alias(key: &[char], shell: &ShellState, visited: &mut NameSet) -> (r: Option<String>)
    ensures
        match alias_get(shell.alias_map(), key@, old(visited)@) {
            Some((res, v)) => r matches Some(x) && x@ == res && final(visited)@ == v,
            Option::None => r is None,
        },
    decreases shell.alias_map().dom().difference(old(visited)@).len(), 0int,
{
    proof {
        lemma_var_map_finite(&shell.aliases);
        assert(shell.alias_map().dom() =~= shell.aliases@.dom());
    }
    if visited.contains(key) {
        return Some(string_from(key));
    }
    let key_vec = copy_range(key, 0, key.len());
    assert(key_vec@ =~= key@);
    visited.insert(key_vec);
    match shell.aliases.get(key) {
        Some(val) => {
            let v = chars_of(val.as_str());
            if v.len() == 0 {
                return Some(val.clone());
            }
            if crate::text::chars_eq(v.as_slice(), key) {
                return Some(val.clone());
            }
            proof {
                lemma_dom_shrinks(shell.alias_map().dom(), old(visited)@, key@);
            }
            try_check_alias(v.as_slice(), shell, visited)
        },
        None => Some(string_from(key)),
    }
}

fn try_check_alias(cmd: &[char], shell: &ShellState, visited: &mut NameSet) -> (r: Option<String>)
    ensures
        match alias_check(shell.alias_map(), cmd@, old(visited)@) {
            Some((res, v)) => r matches Some(x) && x@ == res && final(visited)@ == v,
            Option::None => r is None,
        },
    decreases shell.alias_map().dom().difference(old(visited)@).len(), 1int,
{
    proof {
        lemma_var_map_finite(&shell.aliases);
        assert(shell.alias_map().dom() =~= shell.aliases@.dom());
    }
    let toks = split_whitespace(cmd);
    if toks.len() == 0 {
        return None;
    }
    assert(toks[0].deep_view() =~= toks[0]@);
    let l = byte_length(toks[0].as_slice());
    let r = try_get_alias(toks[0].as_slice(), shell, visited);
    match r {
        None => None,
        Some(mut res) => {
            let total = byte_length(cmd);
            if l < total {
                proof {
                    lemma_byte_len_bound(cmd@);
                }
                match char_index_at_byte(cmd, l + 1) {
                    None => None,
                    Some(i) => {
                        push_char(&mut res, ' ');
                        let rest = copy_range(cmd, i, cmd.len());
                        assert(rest@ =~= cmd@.skip(i as int));
                        push_chars(&mut res, rest.as_slice());
                        Some(res)
                    },
                }
            } else {
                Some(res)
            }
        },
    }
}

/// What `key` stands for as an alias (see `alias_get`); `visited` holds the
/// names already looked up, which stand for themselves, and gains the names
/// looked up now.
pub fn get_alias(key: &str, shell: &ShellState, visited: &mut NameSet) -> (r: String)
    requires
        alias_get(shell.alias_map(), key@, old(visited)@) is Some,
    ensures
        r@ == alias_get(shell.alias_map(), key@, old(visited)@).unwrap().0,
        final(visited)@ == alias_get(shell.alias_map(), key@, old(visited)@).unwrap().1,
{
    let k = chars_of(key);
    match try_get_alias(k.as_slice(), shell, visited) {
        Some(r) => r,
        None => String::new(),
    }
}

/// `cmd` with its first word replaced by what it stands for as an alias
/// (see `alias_check`).
pub fn check_alias(cmd: &str, shell: &ShellState, visited: &mut NameSet) -> (r: String)
    requires
        alias_check(shell.alias_map(), cmd@, old(visited)@) is Some,
    ensures
        r@ == alias_check(shell.alias_map(), cmd@, old(visited)@).unwrap().0,
        final(visited)@ == alias_check(shell.alias_map(), cmd@, old(visited)@).unwrap().1,
{
    let c = chars_of(cmd);
    match try_check_alias(c.as_slice(), shell, visited) {
        Some(r) => r,
        None => String::new(),
    }
}

/// Whether `check_alias` with no names looked up yet can expand `cmd`.
pub fn alias_expands(cmd: &str, shell: &ShellState) -> (r: bool)
    ensures
        r == alias_check(shell.alias_map(), cmd@, Set::empty()) is Some,
{
    let mut visited = NameSet::new();
    let c = chars_of(cmd);
    try_check_alias(c.as_slice(), shell, &mut visited).is_some()
}

/// A command after alias expansion: the words of the expanded name give the
/// new name and further arguments that come before the old ones; `None` where
/// the name cannot be expanded (see `alias_check`) or expands to no word.
pub open spec fn expand_command(aliases: Map<Seq<char>, Seq<char>>, cmd: CommandView) -> Option<
    CommandView,
> {
    match alias_check(aliases, cmd.0, Set::empty()) {
        Option::None => Option::None,
        Some((value, _)) => {
            let toks = ws_tokens(value);
            if toks.len() == 0 {
                Option::None
            } else if toks.len() > 1 {
                Some((toks[0], toks.skip(1) + cmd.1))
            } else {
                Some((toks[0], cmd.1))
            }
        },
    }
}

/// Every command of `cmds` can be expanded.
pub open spec fn all_expandable(aliases: Map<Seq<char>, Seq<char>>, cmds: SegmentsView) -> bool {
    forall|i: int| 0 <= i < cmds.len() ==> (#[trigger] expand_command(aliases, cmds[i].0)) is Some
}

/// The commands after alias expansion, with their operators.
pub open spec fn expand_all(aliases: Map<Seq<char>, Seq<char>>, cmds: SegmentsView) -> SegmentsView {
    cmds.map_values(|p: (CommandView, Operator)| (expand_command(aliases, p.0)->0, p.1))
}

fn try_expand_command(cmd: &ParsedCommand, shell: &ShellState) -> (r: Option<ParsedCommand>)
    ensures
        match expand_command(shell.alias_map(), cmd@) {
            Some(v) => r matches Some(x) && x@ == v,
            Option::None => r is None,
        },
{
    let mut visited = NameSet::new();
    let c = chars_of(cmd.command.as_str());
    let value = match try_check_alias(c.as_slice(), shell, &mut visited) {
        Some(v) => v,
        None => {
            return None;
        },
    };
    let vc = chars_of(value.as_str());
    let words = split_whitespace(vc.as_slice());
    if words.len() == 0 {
        return None;
    }
    let mut out = ParsedCommand::new();
    out.command = string_from(words[0].as_slice());
    assert(words[0].deep_view() =~= words[0]@);
    let n = words.len();
    for i in 1..n
        invariant
            n == words@.len(),
            n > 0,
            out.command@ == words.deep_view()[0],
            out.arguments.deep_view() =~= words.deep_view().subrange(1, i as int),
    {
        let w = string_from(words[i].as_slice());
        let ghost before = out.arguments.deep_view();
        out.arguments.push(w);
        assert(words[i as int].deep_view() =~= words[i as int]@);
        assert(out.arguments.deep_view() =~= before.push(words.deep_view()[i as int]));
        assert(words.deep_view().subrange(1, i + 1) =~= words.deep_view().subrange(
            1,
            i as int,
        ).push(words.deep_view()[i as int]));
    }
    assert(words.deep_view().subrange(1, n as int) =~= words.deep_view().skip(1));
    let m = cmd.arguments.len();
    for j in 0..m
        invariant
            m == cmd@.1.len(),
            n == words@.len(),
            n > 0,
            out.command@ == words.deep_view()[0],
            out.arguments.deep_view() =~= words.deep_view().skip(1) + cmd@.1.take(j as int),
    {
        let a = cmd.arguments[j].clone();
        let ghost before = out.arguments.deep_view();
        out.arguments.push(a);
        assert(out.arguments.deep_view() =~= before.push(cmd@.1[j as int]));
        assert(cmd@.1.take(j + 1) =~= cmd@.1.take(j as int).push(cmd@.1[j as int]));
    }
    assert(cmd@.1.take(m as int) =~= cmd@.1);
    if n == 1 {
        assert(words.deep_view().skip(1) + cmd@.1 =~= cmd@.1);
    }
    Some(out)
}

/// Whether `check_aliases` can expand every command of `cmds`.
pub fn aliases_expandable(cmds: &Vec<(ParsedCommand, Operator)>, shell: &ShellState) -> (r: bool)
    ensures
        r == all_expandable(shell.alias_map(), segments_view(cmds@)),
{
    let n = cmds.len();
    for i in 0..n
        invariant
            n == cmds@.len(),
            forall|j: int|
                0 <= j < i ==> (#[trigger] expand_command(
                    shell.alias_map(),
                    segments_view(cmds@)[j].0,
                )) is Some,
    {
        if try_expand_command(&cmds[i].0, shell).is_none() {
            assert(segments_view(cmds@)[i as int].0 == cmds@[i as int].0@);
            return false;
        }
    }
    true
}

/// Expands aliases in the name of each command.
pub fn check_aliases(cmd: Vec<(ParsedCommand, Operator)>, shell: &ShellState) -> (r: Vec<
    (ParsedCommand, Operator),
>)
    requires
        all_expandable(shell.alias_map(), segments_view(cmd@)),
    ensures
        segments_view(r@) == expand_all(shell.alias_map(), segments_view(cmd@)),
{
    let ghost src = segments_view(cmd@);
    let mut expanded: Vec<(ParsedCommand, Operator)> = Vec::new();
    let n = cmd.len();
    for i in 0..n
        invariant
            n == cmd@.len(),
            src == segments_view(cmd@),
            all_expandable(shell.alias_map(), src),
            segments_view(expanded@) =~= expand_all(shell.alias_map(), src).take(i as int),
    {
        assert(src[i as int] == (cmd@[i as int].0@, cmd@[i as int].1));
        assert(expand_command(shell.alias_map(), src[i as int].0) is Some);
        let e = try_expand_command(&cmd[i].0, shell);
        let x = match e {
            Some(x) => x,
            None => ParsedCommand::new(),
        };
        let ghost before = segments_view(expanded@);
        expanded.push((x, cmd[i].1));
        assert(segments_view(expanded@) =~= before.push((x@, cmd@[i as int].1)));
    }
    expanded
}

/// The aliases after `alias` with argument `arg`: `NAME=VALUE` defines
/// `NAME` (both without surrounding double quotes); `None` when `arg` has no
/// `=` (nothing changes, a notice is printed).
pub open spec fn alias_define(aliases: Map<Seq<char>, Seq<char>>, arg: Seq<char>) -> Option<
    Map<Seq<char>, Seq<char>>,
> {
    let k = first_index_of(arg, '=');
    if k < arg.len() {
        Some(aliases.insert(unquoted(arg.take(k)), unquoted(arg.skip(k + 1))))
    } else {
        Option::None
    }
}

/// The `alias` built-in with at least one argument. Returns `false`, with
/// nothing changed, when the first argument has no `=`; the caller then
/// prints that it is not a valid alias.
pub fn alias(cmd: &ParsedCommand, shell: &mut ShellState) -> (defined: bool)
    requires
        cmd@.1.len() > 0,
    ensures
        defined == alias_define(old(shell).alias_map(), cmd@.1[0]) is Some,
        defined ==> final(shell).alias_map() == alias_define(old(shell).alias_map(), cmd@.1[0])->0,
        *final(shell) == (ShellState { aliases: final(shell).aliases, ..*old(shell) }),
        !defined ==> *final(shell) == *old(shell),
{
    let arg = chars_of(cmd.arguments[0].as_str());
    assert(arg@ == cmd@.1[0]);
    let k = find_char(arg.as_slice(), '=');
    proof {
        lemma_first_index_of(arg@, '=');
    }
    if k >= arg.len() {
        return false;
    }
    let mut key = string_from(copy_range(arg.as_slice(), 0, k).as_slice());
    let mut val = string_from(copy_range(arg.as_slice(), k + 1, arg.len()).as_slice());
    assert(key@ =~= arg@.take(k as int));
    assert(val@ =~= arg@.skip(k + 1));
    unquote(&mut key);
    unquote(&mut val);
    let ghost before = shell.alias_map();
    let ghost vv = val@;
    let kc = chars_of(key.as_str());
    shell.aliases.insert(kc, val);
    assert(shell.alias_map() =~= before.insert(key@, vv));
    true
}

/// The aliases after `unalias NAME`: `-a` removes every alias, a defined
/// name is removed; `None` for another name (nothing changes, a notice is
/// printed).
pub open spec fn alias_remove(aliases: Map<Seq<char>, Seq<char>>, key: Seq<char>) -> Option<
    Map<Seq<char>, Seq<char>>,
> {
    if key == seq!['-', 'a'] {
        Some(Map::empty())
    } else if aliases.contains_key(key) {
        Some(aliases.remove(key))
    } else {
        Option::None
    }
}

/// The `unalias` built-in with at least one argument. Returns `false`, with
/// nothing changed, when the name is not an alias; the caller then prints
/// that the alias was not found.
pub fn unalias(cmd: &ParsedCommand, shell: &mut ShellState) -> (removed: bool)
    requires
        cmd@.1.len() > 0,
    ensures
        removed == alias_remove(old(shell).alias_map(), cmd@.1[0]) is Some,
        removed ==> final(shell).alias_map() == alias_remove(old(shell).alias_map(), cmd@.1[0])->0,
        *final(shell) == (ShellState { aliases: final(shell).aliases, ..*old(shell) }),
        !removed ==> *final(shell) == *old(shell),
{
    let key = chars_of(cmd.arguments[0].as_str());
    assert(key@ == cmd@.1[0]);
    if key.len() == 2 && key[0] == '-' && key[1] == 'a' {
        assert(key@ =~= seq!['-', 'a']);
        shell.aliases.clear();
        assert(shell.alias_map() =~= Map::<Seq<char>, Seq<char>>::empty());
        true
    } else if shell.aliases.contains_key(key.as_slice()) {
        assert(key@ != seq!['-', 'a']);
        let ghost before = shell.alias_map();
        shell.aliases.remove(key.as_slice());
        assert(shell.alias_map() =~= before.remove(key@));
        true
    } else {
        assert(key@ != seq!['-', 'a']);
        false
    }
}

/// `unalias NAME` undoes `alias NAME=VALUE`: the aliases are those before,
/// without `NAME` (for a name other than `-a`).
pub proof fn law_unalias_undoes_alias(aliases: Map<Seq<char>, Seq<char>>, arg: Seq<char>)
    requires
        alias_define(aliases, arg) is Some,
        unquoted(arg.take(first_index_of(arg, '='))) != seq!['-', 'a'],
    ensures
        alias_remove(
            alias_define(aliases, arg).unwrap(),
            unquoted(arg.take(first_index_of(arg, '='))),
        ) == Some(aliases.remove(unquoted(arg.take(first_index_of(arg, '='))))),
{
    let k = first_index_of(arg, '=');
    let key = unquoted(arg.take(k));
    let m = aliases.insert(key, unquoted(arg.skip(k + 1)));
    assert(m.contains_key(key));
    assert(m.remove(key) =~= aliases.remove(key));
}

/// Without aliases, expansion leaves a command whose name is one word
/// unchanged.
pub proof fn law_no_aliases_identity(cmd: CommandView)
    requires
        cmd.0.len() > 0,
        forall|i: int| 0 <= i < cmd.0.len() ==> !is_ws(#[trigger] cmd.0[i]),
    ensures
        expand_command(Map::empty(), cmd) == Some(cmd),
{
    let m = Map::<Seq<char>, Seq<char>>::empty();
    assert(m.dom() =~= Set::<Seq<char>>::empty());
    lemma_ws_tokens_single(cmd.0);
    let visited = Set::<Seq<char>>::empty();
    assert(alias_get(m, cmd.0, visited) == Some((cmd.0, visited.insert(cmd.0))));
    assert(alias_check(m, cmd.0, visited) == Some((cmd.0, visited.insert(cmd.0))));
}

/// A line made of the word `w`, followed by a space and `rest` when there is
/// a rest.
pub open spec fn word_line(w: Seq<char>, rest: Option<Seq<char>>) -> Seq<char> {
    match rest {
        Some(r) => w + seq![' '] + r,
        None => w,
    }
}

/// `w` is one word: not empty, without whitespace.
pub open spec fn one_word(w: Seq<char>) -> bool {
    w.len() > 0 && forall|i: int| 0 <= i < w.len() ==> !is_ws(#[trigger] w[i])
}

/// Expanding the aliases of a line that starts with a word replaces that
/// word by what it stands for and keeps the rest of the line.
pub proof fn lemma_alias_check_word_line(
    aliases: Map<Seq<char>, Seq<char>>,
    w: Seq<char>,
    rest: Option<Seq<char>>,
    visited: Set<Seq<char>>,
)
    requires
        aliases.dom().finite(),
        one_word(w),
    ensures
        alias_check(aliases, word_line(w, rest), visited) == match alias_get(aliases, w, visited) {
            Some((r, v)) => Some((word_line(r, rest), v)),
            None => None,
        },
{
    let cmd = word_line(w, rest);
    match rest {
        None => {
            lemma_ws_tokens_single(w);
        },
        Some(x) => {
            lemma_ws_tokens_first_word(w, x);
            let n = w.len() as int;
            assert(cmd.take(n) =~= w);
            assert(cmd.take(cmd.len() as int) =~= cmd);
            assert(cmd[n] == ' ');
            lemma_byte_len_take_step(cmd, n);
            lemma_byte_len_take_strict(cmd, n, cmd.len() as int);
            let l: int = byte_len(w) as int;
            assert(byte_len(cmd.take(n + 1)) == l + 1);
            assert(is_boundary(cmd, l + 1));
            let i = char_index_of_byte(cmd, l + 1);
            assert(0 <= i <= cmd.len() && byte_len(cmd.take(i)) == l + 1);
            if i < n + 1 {
                lemma_byte_len_take_strict(cmd, i, n + 1);
            } else if i > n + 1 {
                lemma_byte_len_take_strict(cmd, n + 1, i);
            }
            assert(i == n + 1);
            assert(cmd.skip(n + 1) =~= x);
        },
    }
}

/// An alias whose value starts with a word that is no alias stands for that
/// value: expanding a line whose first word `w` is such an alias replaces
/// `w` by its value and keeps the rest of the line.
pub proof fn law_alias_replaces_first_word(
    aliases: Map<Seq<char>, Seq<char>>,
    w: Seq<char>,
    rest: Option<Seq<char>>,
    u: Seq<char>,
    x: Option<Seq<char>>,
)
    requires
        aliases.dom().finite(),
        one_word(w),
        one_word(u),
        aliases.contains_key(w),
        aliases[w] == word_line(u, x),
        !aliases.contains_key(u),
    ensures
        alias_check(aliases, word_line(w, rest), Set::empty()) matches Some((r, _)) && r
            == word_line(word_line(u, x), rest),
{
    let val = word_line(u, x);
    let e = Set::<Seq<char>>::empty();
    let v1 = e.insert(w);
    assert(u != w);
    assert(val != w) by {
        if x is Some && val.len() == w.len() {
            assert(val[u.len() as int] == ' ');
            assert(!is_ws(w[u.len() as int]));
        }
    }
    assert(val.len() > 0);
    assert(!v1.contains(u));
    lemma_alias_check_word_line(aliases, u, x, v1);
    assert(alias_get(aliases, u, v1) == Some((u, v1.insert(u))));
    assert(alias_check(aliases, val, v1) == Some((val, v1.insert(u))));
    assert(alias_get(aliases, w, e) == alias_check(aliases, val, v1));
    lemma_alias_check_word_line(aliases, w, rest, e);
}

} // verus!
