# ash

A small Unix shell. The library (`src/`) holds the shell's logic, verified
with Verus: command-line tokenising (plain and quote-aware), splitting a line
at `&&`, `||`, `|` and `&`, variable expansion, alias expansion, the built-in
commands' effect on the shell state, the configuration file reader, the
decisions of running a chain of commands, and the history. The program
(`app/`) reads input, prints, runs processes and reads and writes files.

Layout of `src/`:

- `text.rs` — whitespace, trimming, tokens, UTF-8 byte lengths, string helpers
- `varmap.rs` — maps and sets keyed by names
- `state.rs` — the shell state and the history
- `input_parsing.rs`, `parsing.rs` — the two command readers and operator splitting
- `builtin/` — variable expansion, `exit`, `echo`, `export`, `unset`, `cd`, aliases
- `config.rs` — configuration file lines, functions, recorded `export` lines
- `commands.rs` — built-in dispatch and command chains
- `interface.rs`, `input.rs` — the prompt and reading an entered line
