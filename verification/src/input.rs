//! Turning an entered line into commands.
use vstd::prelude::*;

use crate::builtin::alias::{alias_check, alias_expands, check_alias};
use crate::builtin::{expand_env_chars, expand_from};
use crate::parsing::{Operator, ParseError, ParsedCommand, segments_view, split_by_operators, split_spec};
use crate::state::ShellState;
use crate::text::{chars_of, string_from, trim, trim_chars};
use crate::varmap::NameSet;

verus! {

/// The lines `read_input` and `read_command_line` can take: blank lines,
/// and lines whose first word can be alias-expanded once trimmed.
pub open spec fn input_readable(shell: ShellState, input: Seq<char>) -> bool {
    trim(input).len() == 0 || alias_check(shell.alias_map(), trim(input), Set::empty()) is Some
}

/// Whether `read_input` and `read_command_line` can take `input`.
pub fn input_expandable(shell: &ShellState, input: &str) -> (r: bool)
    ensures
        r == input_readable(*shell, input@),
{
    let s = chars_of(input);
    let t = trim_chars(s.as_slice());
    if t.len() == 0 {
        return true;
    }
    let line = string_from(t.as_slice());
    alias_expands(line.as_str(), shell)
}

/// A non-blank entered line once trimmed and with the alias of its first
/// word expanded.
pub open spec fn aliased_input(shell: ShellState, input: Seq<char>) -> Seq<char> {
    alias_check(shell.alias_map(), trim(input), Set::empty()).unwrap().0
}

/// The text of a non-blank entered line once aliases and then variables are
/// expanded: the trimmed line with its first word expanded as an alias, then
/// with variables expanded.
pub open spec fn expanded_input(shell: ShellState, input: Seq<char>) -> Seq<char> {
    expand_from(aliased_input(shell, input), false, false, shell.env())
}

/// Reads the commands of a line: `None` for a blank line; else the line,
/// trimmed, with the alias of its first word expanded, split at its
/// operators. Variables are left as they are.
pub fn read_input(shell: &ShellState, input: &str) -> (r: Option<
    Result<Vec<(ParsedCommand, Operator)>, ParseError>,
>)
    requires
        input_readable(*shell, input@),
    ensures
        trim(input@).len() == 0 <==> r is None,
        r matches Some(res) ==> match split_spec(aliased_input(*shell, input@)) {
            Ok(w) => res matches Ok(v) && segments_view(v@) == w,
            Err(f) => res matches Err(e) && e@ == f,
        },
{
    let s = chars_of(input);
    let t = trim_chars(s.as_slice());
    if t.len() == 0 {
        return None;
    }
    let line = string_from(t.as_slice());
    let mut visited = NameSet::new();
    let aliased = check_alias(line.as_str(), shell, &mut visited);
    Some(split_by_operators(aliased.as_str()))
}

/// Reads the commands of a line entered at the prompt: `None` for a blank
/// line; else the line, trimmed, with the alias of its first word expanded
/// and then its variables expanded, split at its operators.
pub fn read_command_line(shell: &ShellState, input: &str) -> (r: Option<
    Result<Vec<(ParsedCommand, Operator)>, ParseError>,
>)
    requires
        input_readable(*shell, input@),
    ensures
        trim(input@).len() == 0 <==> r is None,
        r matches Some(res) ==> match split_spec(expanded_input(*shell, input@)) {
            Ok(w) => res matches Ok(v) && segments_view(v@) == w,
            Err(f) => res matches Err(e) && e@ == f,
        },
{
    let s = chars_of(input);
    let t = trim_chars(s.as_slice());
    if t.len() == 0 {
        return None;
    }
    let line = string_from(t.as_slice());
    let mut visited = NameSet::new();
    let aliased = check_alias(line.as_str(), shell, &mut visited);
    let a = chars_of(aliased.as_str());
    let expanded = expand_env_chars(a.as_slice(), shell);
    Some(split_by_operators(expanded.as_str()))
}

} // verus!
