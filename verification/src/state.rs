//! The state of the shell and its command history.
use vstd::prelude::*;

use crate::text::{chars_of, trim, trim_chars, string_from, chars_eq};
use crate::varmap::VarMap;

verus! {

/// The number of history entries kept by default.
pub const MAX_HISTORY_SIZE: usize = 1000;

/// Everything the shell remembers between commands.
pub struct ShellState {
    /// Set when `exit` was run.
    pub should_exit: bool,
    /// Set while the configuration file is being read.
    pub reading_config: bool,
    /// The exit code of the last command.
    pub exit_code: Option<i8>,
    pub working_directory: String,
    pub home: String,
    /// The shell's variables.
    pub env_vars: VarMap<String>,
    pub aliases: VarMap<String>,
    /// Functions defined in the configuration file: name to body lines.
    pub functions: VarMap<Vec<String>>,
    pub history: Vec<String>,
    pub history_max: usize,
}

impl ShellState {
    /// The shell's variables, by name.
    pub open spec fn env(&self) -> Map<Seq<char>, Seq<char>> {
        self.env_vars@.map_values(|v: String| v@)
    }

    /// The aliases, by name.
    pub open spec fn alias_map(&self) -> Map<Seq<char>, Seq<char>> {
        self.aliases@.map_values(|v: String| v@)
    }

    /// The functions, by name: their body lines.
    pub open spec fn function_map(&self) -> Map<Seq<char>, Seq<Seq<char>>> {
        self.functions@.map_values(|v: Vec<String>| v.deep_view())
    }

    /// The history, oldest first.
    pub open spec fn history_view(&self) -> Seq<Seq<char>> {
        self.history.deep_view()
    }

    /// A fresh state: home and working directory as given, no variables,
    /// aliases, functions or history, exit code 0.
    pub fn new(home: String, working_directory: String) -> (s: Self)
        ensures
            s.home@ == home@,
            s.working_directory@ == working_directory@,
            !s.should_exit,
            !s.reading_config,
            s.exit_code == Some(0i8),
            s.env() == Map::<Seq<char>, Seq<char>>::empty(),
            s.alias_map() == Map::<Seq<char>, Seq<char>>::empty(),
            s.functions@ == Map::<Seq<char>, Vec<String>>::empty(),
            s.history_view() == Seq::<Seq<char>>::empty(),
            s.history_max == MAX_HISTORY_SIZE,
    {
        let s = ShellState {
            should_exit: false,
            reading_config: false,
            exit_code: Some(0),
            working_directory,
            home,
            env_vars: VarMap::new(),
            aliases: VarMap::new(),
            functions: VarMap::new(),
            history: Vec::new(),
            history_max: MAX_HISTORY_SIZE,
        };
        assert(s.env() =~= Map::<Seq<char>, Seq<char>>::empty());
        assert(s.alias_map() =~= Map::<Seq<char>, Seq<char>>::empty());
        assert(s.history_view() =~= Seq::<Seq<char>>::empty());
        s
    }

    /// Sets the variable `name` to `value`.
    pub fn set_env_var(&mut self, name: &str, value: &str)
        ensures
            final(self).env() == old(self).env().insert(name@, value@),
            *final(self) == (ShellState { env_vars: final(self).env_vars, ..*old(self) }),
    {
        let k = chars_of(name);
        let v = string_from(chars_of(value).as_slice());
        self.env_vars.insert(k, v);
        assert(self.env() =~= old(self).env().insert(name@, value@));
    }

    /// The value of the variable `name`, if it is set.
    pub fn env_var(&self, name: &str) -> (r: Option<String>)
        ensures
            match r {
                Some(v) => self.env().contains_key(name@) && v@ == self.env()[name@],
                None => !self.env().contains_key(name@),
            },
    {
        let k = chars_of(name);
        match self.env_vars.get(k.as_slice()) {
            Some(v) => Some(v.clone()),
            None => None,
        }
    }

    /// The value of the alias `name`, if it is defined.
    pub fn alias_value(&self, name: &str) -> (r: Option<String>)
        ensures
            match r {
                Some(v) => self.alias_map().contains_key(name@) && v@ == self.alias_map()[name@],
                None => !self.alias_map().contains_key(name@),
            },
    {
        let k = chars_of(name);
        match self.aliases.get(k.as_slice()) {
            Some(v) => Some(v.clone()),
            None => None,
        }
    }
}

/// The history after the line whose trimmed text is `t` was entered: `t` is
/// added unless it is empty or equal to the latest entry, then the oldest
/// entry goes when there are more than `max`.
pub open spec fn recorded(h: Seq<Seq<char>>, t: Seq<char>, max: nat) -> Seq<Seq<char>> {
    let h1 = if t.len() > 0 && (h.len() == 0 || h.last() != t) {
        h.push(t)
    } else {
        h
    };
    if h1.len() > max {
        h1.drop_first()
    } else {
        h1
    }
}

/// Records an entered line in the history.
pub fn record_history(shell: &mut ShellState, input: &str)
    ensures
        final(shell).history_view() == recorded(
            old(shell).history_view(),
            trim(input@),
            old(shell).history_max as nat,
        ),
        *final(shell) == (ShellState { history: final(shell).history, ..*old(shell) }),
{
    let s = chars_of(input);
    let t = trim_chars(s.as_slice());
    let n = shell.history.len();
    if t.len() > 0 {
        let differs = if n == 0 {
            true
        } else {
            let last = chars_of(shell.history[n - 1].as_str());
            !chars_eq(last.as_slice(), t.as_slice())
        };
        if differs {
            let line = string_from(t.as_slice());
            let ghost before = shell.history_view();
            shell.history.push(line);
            assert(shell.history_view() =~= before.push(t@));
        }
    }
    if shell.history.len() > shell.history_max {
        let ghost before = shell.history_view();
        shell.history.remove(0);
        assert(shell.history_view() =~= before.drop_first());
    }
}

/// The history after loading the lines of a history file: the trimmed
/// non-empty lines are added, then only the latest `max` entries are kept.
pub open spec fn loaded(h: Seq<Seq<char>>, lines: Seq<Seq<char>>, max: nat) -> Seq<Seq<char>> {
    let h1 = h + lines.map_values(|l: Seq<char>| trim(l)).filter(|t: Seq<char>| t.len() > 0);
    if h1.len() > max {
        h1.skip(h1.len() - max)
    } else {
        h1
    }
}

/// Adds the lines read from a history file to the history, keeping only the
/// latest `history_max` entries; the exit code becomes 0.
pub fn load_history(shell: &mut ShellState, lines: &Vec<String>)
    ensures
        final(shell).history_view() == loaded(
            old(shell).history_view(),
            lines.deep_view(),
            old(shell).history_max as nat,
        ),
        *final(shell) == (ShellState {
            history: final(shell).history,
            exit_code: Some(0i8),
            ..*old(shell)
        }),
{
    let ghost h0 = shell.history_view();
    let ghost ls = lines.deep_view();
    let ghost trimmed = ls.map_values(|l: Seq<char>| trim(l));
    let n = lines.len();
    for i in 0..n
        invariant
            n == ls.len(),
            ls == lines.deep_view(),
            trimmed == ls.map_values(|l: Seq<char>| trim(l)),
            shell.history_view() == h0 + trimmed.take(i as int).filter(|t: Seq<char>| t.len() > 0),
            *shell == (ShellState { history: shell.history, ..*old(shell) }),
    {
        let s = chars_of(lines[i].as_str());
        let t = trim_chars(s.as_slice());
        assert(trimmed[i as int] == trim(lines[i as int]@));
        assert(trimmed.take(i + 1) =~= trimmed.take(i as int).push(trimmed[i as int]));
        assert(trimmed.take(i + 1).drop_last() =~= trimmed.take(i as int));
        reveal_with_fuel(Seq::<_>::filter, 1);
        if t.len() > 0 {
            let line = string_from(t.as_slice());
            let ghost before = shell.history_view();
            shell.history.push(line);
            assert(shell.history_view() =~= before.push(t@));
        }
    }
    assert(trimmed.take(n as int) =~= trimmed);
    let len = shell.history.len();
    if len > shell.history_max {
        let start = len - shell.history_max;
        let ghost before = shell.history_view();
        let kept = shell.history.split_off(start);
        shell.history = kept;
        assert(shell.history_view() =~= before.skip(start as int));
    }
    shell.exit_code = Some(0);
}

/// The history never holds more than its limit: recording a line keeps a
/// history within the limit within it, and loading a history file always
/// leaves at most the limit.
pub proof fn law_history_bounded(
    h: Seq<Seq<char>>,
    t: Seq<char>,
    lines: Seq<Seq<char>>,
    max: nat,
)
    ensures
        h.len() <= max ==> recorded(h, t, max).len() <= max,
        loaded(h, lines, max).len() <= max,
{
}

/// A line entered twice in a row is recorded once: recording the same line
/// again changes nothing (for a history within its limit).
pub proof fn law_history_no_consecutive_duplicates(h: Seq<Seq<char>>, t: Seq<char>, max: nat)
    requires
        h.len() <= max,
    ensures
        recorded(recorded(h, t, max), t, max) == recorded(h, t, max),
{
    let h1 = recorded(h, t, max);
    if t.len() > 0 && (h.len() == 0 || h.last() != t) {
        if h.len() + 1 > max {
            if max > 0 {
                assert(h1.last() == t);
            } else {
                assert(h1 =~= Seq::<Seq<char>>::empty());
            }
        } else {
            assert(h1.last() == t);
        }
    }
}

/// Loading a history file that holds the entries of a history (non-empty,
/// trimmed, at most the limit), one per line, into an empty history gives
/// those entries back.
pub proof fn law_load_saved_history(entries: Seq<Seq<char>>, max: nat)
    requires
        entries.len() <= max,
        forall|i: int|
            0 <= i < entries.len() ==> (#[trigger] entries[i]).len() > 0 && trim(entries[i])
                == entries[i],
    ensures
        loaded(Seq::empty(), entries, max) == entries,
{
    let trimmed = entries.map_values(|l: Seq<char>| trim(l));
    assert(trimmed =~= entries);
    lemma_filter_keeps_non_empty(entries);
    assert(Seq::<Seq<char>>::empty() + entries =~= entries);
}

proof fn lemma_filter_keeps_non_empty(entries: Seq<Seq<char>>)
    requires
        forall|i: int| 0 <= i < entries.len() ==> (#[trigger] entries[i]).len() > 0,
    ensures
        entries.filter(|t: Seq<char>| t.len() > 0) == entries,
    decreases entries.len(),
{
    reveal_with_fuel(Seq::<_>::filter, 1);
    if entries.len() > 0 {
        let r = entries.drop_last();
        assert forall|i: int| 0 <= i < r.len() implies (#[trigger] r[i]).len() > 0 by {
            assert(r[i] == entries[i]);
        }
        lemma_filter_keeps_non_empty(r);
        assert(entries.last() == entries[entries.len() - 1]);
        assert(r.push(entries.last()) =~= entries);
    }
}

} // verus!
