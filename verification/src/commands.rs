//! Dispatching a command to a built-in, and the decisions of running a chain
//! of commands joined by operators.
use vstd::prelude::*;

use crate::builtin::alias::{alias, alias_define, alias_remove, unalias};
use crate::builtin::{
    cd_target, change_directory_target, echo, echo_line, exit_code_of, export, export_assignments,
    export_env, history_listing, pairs_view, show_history, unset, unset_env,
};
use crate::config::{
    conf_function_runnable, config_entry, config_line, execute_conf_function, function_commands,
    function_runnable,
};
use crate::parsing::{CommandView, Operator, ParsedCommand, copy_strings};
use crate::state::ShellState;
use crate::text::{chars_eq, chars_of, push_chars};

verus! {

/// What the caller does after a built-in ran.
pub enum Effect {
    /// Nothing more.
    Nothing,
    /// Change the working directory to this target.
    ChangeDirectory(String),
    /// Print this line.
    Print(String),
    /// Set these variables in the process environment, and append the line,
    /// if any, to the configuration file.
    Export(Vec<(String, String)>, Option<String>),
    /// Remove these variables from the process environment and the
    /// configuration file.
    Unset(Vec<String>),
    /// Print these lines, one per line.
    PrintLines(Vec<String>),
    /// Read the configuration file at this path (with `ConfigReader`),
    /// running its commands.
    Source(String),
}

/// How a command is run.
pub enum Action {
    /// A built-in ran; the caller completes it.
    Builtin(Effect),
    /// `exit` ran; the caller saves the history and stops.
    Exit,
    /// A configuration function: the caller runs these commands in order,
    /// each with the `Background` operator, then calls `finish_function`.
    Function(Vec<ParsedCommand>),
    /// Not a built-in: the caller runs it as a program.
    External,
}

/// Whether `s` is the word `w`.
fn is_word(s: &[char], w: &str) -> (r: bool)
    ensures
        r == (s@ == w@),
{
    let wc = chars_of(w);
    chars_eq(s, wc.as_slice())
}

/// The commands that are built-ins needing an argument.
pub open spec fn needs_argument(c: Seq<char>) -> bool {
    c == "alias"@ || c == "unalias"@ || c == "source"@
}

/// The commands that `execute_command` can take: a configuration function
/// whose body can be alias-expanded, or another command with the argument
/// its built-in needs.
pub open spec fn command_runnable(cmd: CommandView, shell: ShellState) -> bool {
    if shell.function_map().contains_key(cmd.0) {
        function_runnable(shell.alias_map(), shell.function_map(), cmd.0)
    } else {
        needs_argument(cmd.0) ==> cmd.1.len() > 0
    }
}

/// Whether `execute_command` can take `cli`.
pub fn is_runnable(cli: &ParsedCommand, shell: &ShellState) -> (r: bool)
    ensures
        r == command_runnable(cli@, *shell),
{
    let c = chars_of(cli.command.as_str());
    if shell.functions.contains_key(c.as_slice()) {
        return conf_function_runnable(cli.command.as_str(), shell);
    }
    if is_word(c.as_slice(), "alias") || is_word(c.as_slice(), "unalias") || is_word(
        c.as_slice(),
        "source",
    ) {
        cli.arguments.len() > 0
    } else {
        true
    }
}

/// Runs the built-in part of `cli`, or tells the caller to run a program.
///
/// A configuration function of that name yields the commands of its body
/// and sets the exit code to 0. Otherwise: `cd` yields its target; `exit`
/// sets the exit code and the stop flag; `pwd` and `echo` yield the line to
/// print and set the exit code to 0; `export` and `unset` change the
/// variables; `alias` and `unalias` change the aliases or yield the notice to
/// print; `history` yields the numbered history and sets the exit code to 0;
/// `source` yields the file to read. `alias`, `unalias` and `source` need an
/// argument.
pub fn execute_command(cli: &ParsedCommand, operator: &Operator, shell: &mut ShellState) -> (a:
    Action)
    requires
        command_runnable(cli@, *old(shell)),
    ensures
        ({
            let c = cli@.0;
            let args = cli@.1;
            let s0 = *old(shell);
            if s0.function_map().contains_key(c) {
                &&& a matches Action::Function(cmds) && cmds@.map_values(|x: ParsedCommand| x@)
                    == function_commands(s0.alias_map(), s0.function_map(), c).unwrap()
                &&& *final(shell) == (ShellState { exit_code: Some(0i8), ..s0 })
            } else if c == "cd"@ {
                &&& a matches Action::Builtin(Effect::ChangeDirectory(t)) && t@ == cd_target(
                    args,
                    s0.home@,
                )
                &&& *final(shell) == s0
            } else if c == "exit"@ {
                &&& a is Exit
                &&& *final(shell) == (ShellState {
                    exit_code: Some(exit_code_of(args)),
                    should_exit: true,
                    ..s0
                })
            } else if c == "pwd"@ {
                &&& a matches Action::Builtin(Effect::Print(t)) && t@ == s0.working_directory@
                &&& *final(shell) == (ShellState { exit_code: Some(0i8), ..s0 })
            } else if c == "echo"@ {
                &&& a matches Action::Builtin(Effect::Print(t)) && t@ == echo_line(args, s0.env())
                &&& *final(shell) == (ShellState { exit_code: Some(0i8), ..s0 })
            } else if c == "export"@ {
                &&& a matches Action::Builtin(Effect::Export(vars, entry)) && pairs_view(vars@)
                    == export_assignments(s0.env(), args) && (entry is Some <==> !s0.reading_config)
                    && (entry matches Some(e) ==> e@ == config_line(cli@))
                &&& final(shell).env() == export_env(s0.env(), args)
                &&& *final(shell) == (ShellState {
                    env_vars: final(shell).env_vars,
                    exit_code: Some(0i8),
                    ..s0
                })
            } else if c == "unset"@ {
                &&& a matches Action::Builtin(Effect::Unset(names)) && names.deep_view() == args
                &&& final(shell).env() == unset_env(s0.env(), args)
                &&& *final(shell) == (ShellState {
                    env_vars: final(shell).env_vars,
                    exit_code: Some(0i8),
                    ..s0
                })
            } else if c == "alias"@ {
                &&& match alias_define(s0.alias_map(), args[0]) {
                    Some(m) => a matches Action::Builtin(Effect::Nothing)
                        && final(shell).alias_map() == m,
                    None => a matches Action::Builtin(Effect::Print(t)) && t@ == args[0]
                        + " is not a valid alias"@ && *final(shell) == s0,
                }
                &&& *final(shell) == (ShellState { aliases: final(shell).aliases, ..s0 })
            } else if c == "unalias"@ {
                &&& match alias_remove(s0.alias_map(), args[0]) {
                    Some(m) => a matches Action::Builtin(Effect::Nothing)
                        && final(shell).alias_map() == m,
                    None => a matches Action::Builtin(Effect::Print(t)) && t@ == args[0]
                        + " alias not found"@ && *final(shell) == s0,
                }
                &&& *final(shell) == (ShellState { aliases: final(shell).aliases, ..s0 })
            } else if c == "history"@ {
                &&& a matches Action::Builtin(Effect::PrintLines(lines)) && lines.deep_view()
                    == history_listing(s0.history_view())
                &&& *final(shell) == (ShellState { exit_code: Some(0i8), ..s0 })
            } else if c == "source"@ {
                &&& a matches Action::Builtin(Effect::Source(path)) && path@ == args[0]
                &&& *final(shell) == s0
            } else {
                &&& a is External
                &&& *final(shell) == s0
            }
        }),
{
    let c = chars_of(cli.command.as_str());
    if shell.functions.contains_key(c.as_slice()) {
        let cmds = execute_conf_function(cli.command.as_str(), shell);
        return match cmds {
            Some(v) => Action::Function(v),
            None => Action::Function(Vec::new()),
        };
    }
    if is_word(c.as_slice(), "cd") {
        Action::Builtin(Effect::ChangeDirectory(change_directory_target(cli, shell)))
    } else if is_word(c.as_slice(), "exit") {
        crate::builtin::exit_shell(cli, shell);
        Action::Exit
    } else if is_word(c.as_slice(), "pwd") {
        let line = shell.working_directory.clone();
        shell.exit_code = Some(0);
        Action::Builtin(Effect::Print(line))
    } else if is_word(c.as_slice(), "echo") {
        Action::Builtin(Effect::Print(echo(cli, shell)))
    } else if is_word(c.as_slice(), "export") {
        let record = !shell.reading_config;
        let vars = export(cli, shell);
        let entry = if record {
            Some(config_entry(cli))
        } else {
            None
        };
        Action::Builtin(Effect::Export(vars, entry))
    } else if is_word(c.as_slice(), "unset") {
        unset(cli, shell);
        Action::Builtin(Effect::Unset(copy_strings(&cli.arguments)))
    } else if is_word(c.as_slice(), "alias") {
        if alias(cli, shell) {
            Action::Builtin(Effect::Nothing)
        } else {
            let mut msg = cli.arguments[0].clone();
            let tail = chars_of(" is not a valid alias");
            push_chars(&mut msg, tail.as_slice());
            Action::Builtin(Effect::Print(msg))
        }
    } else if is_word(c.as_slice(), "unalias") {
        if unalias(cli, shell) {
            Action::Builtin(Effect::Nothing)
        } else {
            let mut msg = cli.arguments[0].clone();
            let tail = chars_of(" alias not found");
            push_chars(&mut msg, tail.as_slice());
            Action::Builtin(Effect::Print(msg))
        }
    } else if is_word(c.as_slice(), "history") {
        Action::Builtin(Effect::PrintLines(show_history(shell)))
    } else if is_word(c.as_slice(), "source") {
        Action::Builtin(Effect::Source(cli.arguments[0].clone()))
    } else {
        Action::External
    }
}

/// The state of running a chain of commands: the operator that joined the
/// last command run (or skipped) to its successor, and the commands of a
/// pipeline gathered so far.
pub struct CommandChain {
    pub last_operator: Operator,
    pub pipeline: Vec<ParsedCommand>,
}

impl View for CommandChain {
    type V = (Operator, Seq<CommandView>);

    open spec fn view(&self) -> (Operator, Seq<CommandView>) {
        (self.last_operator, self.pipeline@.map_values(|c: ParsedCommand| c@))
    }
}

/// What to do with the next command of a chain.
pub enum ChainStep {
    /// Skip it.
    Skip,
    /// Keep it for the pipeline that continues after it.
    Queue,
    /// Run it alone, with its operator.
    Run(ParsedCommand),
    /// Run these commands as a pipeline, with the operator of the last.
    RunPipeline(Vec<ParsedCommand>),
}

/// A command is skipped after `&&` when the previous one failed, and after
/// `||` when it succeeded.
pub open spec fn skips(last: Operator, exit_code: Option<i8>) -> bool {
    (last == Operator::And && exit_code != Some(0i8)) || (last == Operator::Or && exit_code == Some(
        0i8,
    ))
}

/// The kinds of chain steps.
pub enum StepKind {
    Skip,
    Queue,
    Run,
    RunPipeline,
}

/// The chain after a command joined by `op` is handled with exit code
/// `exit_code` of the previous command, and the kind of step taken.
///
/// A skipped command is dropped. Otherwise it joins the pipeline; the
/// pipeline waits when `op` is `|`, else it runs (alone when it has one
/// command) and is emptied. The operator is remembered unless it is `|`.
pub open spec fn chain_step(
    st: (Operator, Seq<CommandView>),
    cmd: CommandView,
    op: Operator,
    exit_code: Option<i8>,
) -> ((Operator, Seq<CommandView>), StepKind) {
    let last = if op != Operator::Pipe {
        op
    } else {
        st.0
    };
    if skips(st.0, exit_code) {
        ((last, st.1), StepKind::Skip)
    } else if op == Operator::Pipe {
        ((last, st.1.push(cmd)), StepKind::Queue)
    } else if st.1.len() > 0 {
        ((last, Seq::empty()), StepKind::RunPipeline)
    } else {
        ((last, Seq::empty()), StepKind::Run)
    }
}

impl CommandChain {
    /// A chain with nothing run yet.
    pub fn new() -> (c: Self)
        ensures
            c@ == (Operator::NoOp, Seq::<CommandView>::empty()),
    {
        let c = CommandChain { last_operator: Operator::NoOp, pipeline: Vec::new() };
        assert(c@.1 =~= Seq::<CommandView>::empty());
        c
    }
}

/// Decides what to do with the next command `parsed_command`, joined to its
/// successor by `operator`, given the exit code of the previous command (see
/// `chain_step`).
pub fn execute_full_command(
    chain: &mut CommandChain,
    parsed_command: &ParsedCommand,
    operator: &Operator,
    shell: &ShellState,
) -> (step: ChainStep)
    ensures
        ({
            let (st, kind) = chain_step(old(chain)@, parsed_command@, *operator, shell.exit_code);
            &&& final(chain)@ == st
            &&& match kind {
                StepKind::Skip => step is Skip,
                StepKind::Queue => step is Queue,
                StepKind::Run => step matches ChainStep::Run(c) && c@ == parsed_command@,
                StepKind::RunPipeline => step matches ChainStep::RunPipeline(p) && p@.map_values(
                    |c: ParsedCommand| c@,
                ) == old(chain)@.1.push(parsed_command@),
            }
        }),
{
    let op = *operator;
    let skip = (chain.last_operator == Operator::And && chain_failed(shell.exit_code)) || (
    chain.last_operator == Operator::Or && !chain_failed(shell.exit_code));
    if op != Operator::Pipe {
        chain.last_operator = op;
    }
    if skip {
        return ChainStep::Skip;
    }
    let ghost before = chain@.1;
    chain.pipeline.push(parsed_command.duplicate());
    assert(chain@.1 =~= before.push(parsed_command@));
    if op == Operator::Pipe {
        return ChainStep::Queue;
    }
    let mut pipeline = Vec::new();
    std::mem::swap(&mut pipeline, &mut chain.pipeline);
    assert(chain@.1 =~= Seq::<CommandView>::empty());
    if pipeline.len() > 1 {
        ChainStep::RunPipeline(pipeline)
    } else {
        ChainStep::Run(parsed_command.duplicate())
    }
}

/// Whether the exit code is other than 0.
fn chain_failed(exit_code: Option<i8>) -> (r: bool)
    ensures
        r == (exit_code != Some(0i8)),
{
    match exit_code {
        Some(c) => c != 0,
        None => true,
    }
}

/// The names of the commands joined by ` | `.
pub open spec fn pipeline_text(p: Seq<CommandView>) -> Seq<char>
    decreases p.len(),
{
    if p.len() == 0 {
        Seq::empty()
    } else if p.len() == 1 {
        p[0].0
    } else {
        pipeline_text(p.drop_last()) + seq![' ', '|', ' '] + p.last().0
    }
}

/// The status of the last process of a pipeline that ran in the
/// foreground: its exit code, 1 where it has none (it was ended by a
/// signal), 0 for an empty pipeline.
pub open spec fn last_status(codes: Seq<Option<i32>>) -> i32 {
    if codes.len() == 0 {
        0
    } else {
        match codes.last() {
            Some(c) => c,
            None => 1,
        }
    }
}

/// The exit code a pipeline leaves: 0 when it runs in the background, else
/// the status of its last process (`codes` holds the exit codes of its
/// processes in order) cut to 8 bits.
pub fn pipeline_exit_code(background: bool, codes: &Vec<Option<i32>>) -> (r: i8)
    ensures
        r == (if background {
            0i8
        } else {
            last_status(codes@) as i8
        }),
{
    if background {
        return 0;
    }
    let mut last: i32 = 0;
    let mut i: usize = 0;
    while i < codes.len()
        invariant
            i <= codes.len(),
            last == last_status(codes@.take(i as int)),
        decreases codes.len() - i,
    {
        last = match codes[i] {
            Some(c) => c,
            None => 1,
        };
        i = i + 1;
        assert(codes@.take(i as int).last() == codes@[i - 1]);
    }
    assert(codes@.take(codes.len() as int) =~= codes@);
    #[verifier::truncate]
    (last as i8)
}

/// The text shown for a pipeline: its command names joined by ` | `.
pub fn pipeline_display(pipeline: &Vec<ParsedCommand>) -> (s: String)
    ensures
        s@ == pipeline_text(pipeline@.map_values(|c: ParsedCommand| c@)),
{
    let ghost p = pipeline@.map_values(|c: ParsedCommand| c@);
    let mut s = String::new();
    let n = pipeline.len();
    for i in 0..n
        invariant
            n == p.len(),
            p == pipeline@.map_values(|c: ParsedCommand| c@),
            s@ == pipeline_text(p.take(i as int)),
    {
        assert(p.take(i + 1).drop_last() =~= p.take(i as int));
        assert(p[i as int].0 == pipeline[i as int].command@);
        if i > 0 {
            let sep = [' ', '|', ' '];
            assert(sep@ =~= seq![' ', '|', ' ']);
            push_chars(&mut s, &sep);
        }
        let name = chars_of(pipeline[i].command.as_str());
        push_chars(&mut s, name.as_slice());
        assert(s@ =~= pipeline_text(p.take(i + 1)));
    }
    assert(p.take(n as int) =~= p);
    s
}

/// `&&` runs the next command only when the previous one succeeded, and
/// `||` only when it failed: after a command joined by `&&` (or `||`), the
/// next command is skipped exactly when the exit code is not 0 (or is 0).
pub proof fn law_and_or(
    st: (Operator, Seq<CommandView>),
    c1: CommandView,
    e1: Option<i8>,
    c2: CommandView,
    op2: Operator,
    e2: Option<i8>,
)
    ensures
        (chain_step(chain_step(st, c1, Operator::And, e1).0, c2, op2, e2).1 is Skip) <==> e2
            != Some(0i8),
        (chain_step(chain_step(st, c1, Operator::Or, e1).0, c2, op2, e2).1 is Skip) <==> e2
            == Some(0i8),
{
}

/// Commands joined by `|` run together: after a command joined by `|` was
/// queued, the next command that is not skipped and not joined by `|` runs
/// the whole pipeline.
pub proof fn law_pipe_runs_pipeline(
    st: (Operator, Seq<CommandView>),
    c1: CommandView,
    e1: Option<i8>,
    c2: CommandView,
    op2: Operator,
    e2: Option<i8>,
)
    requires
        chain_step(st, c1, Operator::Pipe, e1).1 is Queue,
        op2 != Operator::Pipe,
        !(chain_step(chain_step(st, c1, Operator::Pipe, e1).0, c2, op2, e2).1 is Skip),
    ensures
        chain_step(chain_step(st, c1, Operator::Pipe, e1).0, c2, op2, e2).1 is RunPipeline,
{
}

/// The kinds of steps taken for the commands `cmds` (each with the operator
/// that joins it to its successor) from state `st`, while the exit code stays
/// `e` (it does while commands are skipped or queued).
pub open spec fn chain_kinds(
    st: (Operator, Seq<CommandView>),
    cmds: Seq<(CommandView, Operator)>,
    e: Option<i8>,
) -> Seq<StepKind>
    decreases cmds.len(),
{
    if cmds.len() == 0 {
        Seq::empty()
    } else {
        let (next, kind) = chain_step(st, cmds[0].0, cmds[0].1, e);
        seq![kind] + chain_kinds(next, cmds.drop_first(), e)
    }
}

/// A skipped command leaves the pipeline as it was, and a skipped command
/// joined by `|` leaves the remembered operator as it was: after a failed
/// `&&` (or a successful `||`) the next command is skipped, and the operator
/// remembered afterwards is the skipped command's own, unless that command
/// is joined by `|`, in which case the `&&` (or `||`) stays.
pub proof fn law_skip_keeps_operator_through_pipe(
    st: (Operator, Seq<CommandView>),
    cmd: CommandView,
    op: Operator,
    e: Option<i8>,
)
    requires
        (st.0 == Operator::And && e != Some(0i8)) || (st.0 == Operator::Or && e == Some(0i8)),
    ensures
        chain_step(st, cmd, op, e).1 is Skip,
        chain_step(st, cmd, op, e).0.1 == st.1,
        op == Operator::Pipe ==> chain_step(st, cmd, op, e).0.0 == st.0,
        op != Operator::Pipe ==> chain_step(st, cmd, op, e).0.0 == op,
{
}

/// A pipeline is skipped as one command: after a failed `&&` (or a
/// successful `||`), every command up to and including the next one not
/// joined by `|` is skipped.
pub proof fn law_skipped_pipeline(
    st: (Operator, Seq<CommandView>),
    cmds: Seq<(CommandView, Operator)>,
    e: Option<i8>,
)
    requires
        (st.0 == Operator::And && e != Some(0i8)) || (st.0 == Operator::Or && e == Some(0i8)),
        forall|i: int| 0 <= i < cmds.len() - 1 ==> (#[trigger] cmds[i]).1 == Operator::Pipe,
    ensures
        chain_kinds(st, cmds, e).len() == cmds.len(),
        forall|i: int| 0 <= i < cmds.len() ==> #[trigger] chain_kinds(st, cmds, e)[i] is Skip,
    decreases cmds.len(),
{
    if cmds.len() > 0 {
        let next = chain_step(st, cmds[0].0, cmds[0].1, e).0;
        let rest = cmds.drop_first();
        if cmds.len() > 1 {
            assert(cmds[0].1 == Operator::Pipe);
            assert forall|i: int| 0 <= i < rest.len() - 1 implies (#[trigger] rest[i]).1
                == Operator::Pipe by {
                assert(rest[i] == cmds[i + 1]);
            }
            law_skipped_pipeline(next, rest, e);
        } else {
            assert(rest.len() == 0);
            assert(chain_kinds(next, rest, e) =~= Seq::<StepKind>::empty());
        }
        let ks = chain_kinds(st, cmds, e);
        assert(ks.len() == 1 + chain_kinds(next, rest, e).len());
        assert forall|i: int| 0 <= i < cmds.len() implies #[trigger] ks[i] is Skip by {
            if i > 0 {
                assert(ks[i] == chain_kinds(next, rest, e)[i - 1]);
            }
        }
    }
}

} // verus!
