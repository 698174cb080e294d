//! The plain whitespace tokeniser that sorts the words after the command into
//! options (words that start with `-`) and arguments.
use vstd::prelude::*;

use crate::parsing::{command_of, lex_scan, lex_tokens, parse_view};
use crate::text::{
    chars_of, is_ws, lemma_ws_tokens_trim, split_whitespace, starts_with_char, string_from, trim, trim_end,
    trim_start, trim_chars, ws_scan, ws_tokens,
};

verus! {

/// A command name with its options and its other arguments.
pub struct ParsedCommand {
    pub command: String,
    pub options: Vec<String>,
    pub arguments: Vec<String>,
}

impl View for ParsedCommand {
    type V = (Seq<char>, Seq<Seq<char>>, Seq<Seq<char>>);

    open spec fn view(&self) -> (Seq<char>, Seq<Seq<char>>, Seq<Seq<char>>) {
        (self.command@, self.options.deep_view(), self.arguments.deep_view())
    }
}

/// An option is a word that starts with `-`.
pub open spec fn is_option(t: Seq<char>) -> bool {
    starts_with_char(t, '-')
}

/// The options among `words`, in order.
pub open spec fn options_of(words: Seq<Seq<char>>) -> Seq<Seq<char>> {
    words.filter(|t: Seq<char>| is_option(t))
}

/// The words among `words` that are not options, in order.
pub open spec fn arguments_of(words: Seq<Seq<char>>) -> Seq<Seq<char>> {
    words.filter(|t: Seq<char>| !is_option(t))
}

/// The command read from `s` by `simple_parse`.
pub open spec fn simple_view(s: Seq<char>) -> (Seq<char>, Seq<Seq<char>>, Seq<Seq<char>>) {
    let toks = ws_tokens(trim(s));
    if toks.len() == 0 {
        (Seq::empty(), Seq::empty(), Seq::empty())
    } else {
        (toks[0], options_of(toks.skip(1)), arguments_of(toks.skip(1)))
    }
}

impl ParsedCommand {
    /// An empty command.
    pub fn new() -> (r: Self)
        ensures
            r@ == (Seq::<char>::empty(), Seq::<Seq<char>>::empty(), Seq::<Seq<char>>::empty()),
    {
        let r = ParsedCommand { command: String::new(), options: Vec::new(), arguments: Vec::new() };
        assert(r.options.deep_view() =~= Seq::<Seq<char>>::empty());
        assert(r.arguments.deep_view() =~= Seq::<Seq<char>>::empty());
        r
    }
}

/// Splits a line into words: the first is the command, later words that
/// start with `-` are options, the others arguments.
pub fn simple_parse(input: &str) -> (result: ParsedCommand)
    ensures
        result@ == simple_view(input@),
{
    let s = chars_of(input);
    let t = trim_chars(s.as_slice());
    let parts = split_whitespace(t.as_slice());
    let mut result = ParsedCommand::new();
    let n = parts.len();
    if n == 0 {
        return result;
    }
    result.command = string_from(parts[0].as_slice());
    assert(parts[0].deep_view() =~= parts[0]@);
    let ghost words = parts.deep_view().skip(1);
    for i in 1..n
        invariant
            n == parts@.len(),
            n > 0,
            words == parts.deep_view().skip(1),
            result.command@ == parts.deep_view()[0],
            result.options.deep_view() == options_of(words.take(i - 1)),
            result.arguments.deep_view() == arguments_of(words.take(i - 1)),
    {
        let part = string_from(parts[i].as_slice());
        let ghost w = parts[i as int]@;
        assert(parts[i as int].deep_view() =~= w);
        assert(words.take(i as int) =~= words.take(i - 1).push(w));
        assert(words.take(i as int).drop_last() =~= words.take(i - 1));
        reveal_with_fuel(Seq::<_>::filter, 1);
        if parts[i].len() > 0 && parts[i][0] == '-' {
            let ghost before = result.options.deep_view();
            result.options.push(part);
            assert(result.options.deep_view() =~= before.push(w));
        } else {
            let ghost before = result.arguments.deep_view();
            result.arguments.push(part);
            assert(result.arguments.deep_view() =~= before.push(w));
        }
    }
    assert(words.take(n - 1) =~= words);
    result
}

/// No quote or backslash in `s`.
pub open spec fn unquoted_text(s: Seq<char>) -> bool {
    forall|i: int| 0 <= i < s.len() ==> #[trigger] s[i] != '\'' && s[i] != '"' && s[i] != '\\'
}

proof fn lemma_trim_keeps_unquoted(s: Seq<char>)
    requires
        unquoted_text(s),
    ensures
        unquoted_text(trim_start(s)),
        unquoted_text(trim(s)),
    decreases s.len(),
{
    if s.len() > 0 && is_ws(s[0]) {
        assert(unquoted_text(s.drop_first())) by {
            assert forall|i: int| 0 <= i < s.drop_first().len() implies #[trigger] s.drop_first()[i]
                != '\'' && s.drop_first()[i] != '"' && s.drop_first()[i] != '\\' by {
                assert(s.drop_first()[i] == s[i + 1]);
            }
        }
        lemma_trim_keeps_unquoted(s.drop_first());
    }
    lemma_trim_end_keeps_unquoted(trim_start(s));
}

proof fn lemma_trim_end_keeps_unquoted(s: Seq<char>)
    requires
        unquoted_text(s),
    ensures
        unquoted_text(trim_end(s)),
    decreases s.len(),
{
    if s.len() > 0 && is_ws(s.last()) {
        assert(unquoted_text(s.drop_last())) by {
            assert forall|i: int| 0 <= i < s.drop_last().len() implies #[trigger] s.drop_last()[i]
                != '\'' && s.drop_last()[i] != '"' && s.drop_last()[i] != '\\' by {
                assert(s.drop_last()[i] == s[i]);
            }
        }
        lemma_trim_end_keeps_unquoted(s.drop_last());
    }
}

proof fn lemma_lex_scan_plain(s: Seq<char>)
    requires
        unquoted_text(s),
    ensures
        lex_scan(s) == (ws_scan(s).0, ws_scan(s).1, Option::<crate::parsing::QuoteMode>::None, false),
    decreases s.len(),
{
    if s.len() > 0 {
        assert(unquoted_text(s.drop_last())) by {
            assert forall|i: int| 0 <= i < s.drop_last().len() implies #[trigger] s.drop_last()[i]
                != '\'' && s.drop_last()[i] != '"' && s.drop_last()[i] != '\\' by {
                assert(s.drop_last()[i] == s[i]);
            }
        }
        lemma_lex_scan_plain(s.drop_last());
        let c = s.last();
        assert(c == s[s.len() - 1]);
    }
}

/// On text without quotes or backslashes the two command readers agree: the
/// same command name, and the quote-aware reader's arguments are the
/// options and the arguments of the plain one.
pub proof fn law_tokenizers_agree(s: Seq<char>)
    requires
        unquoted_text(s),
    ensures
        parse_view(s).0 == simple_view(s).0,
        options_of(parse_view(s).1) == simple_view(s).1,
        arguments_of(parse_view(s).1) == simple_view(s).2,
{
    lemma_trim_keeps_unquoted(s);
    lemma_lex_scan_plain(trim(s));
    assert(lex_tokens(trim(s)) == ws_tokens(trim(s)));
    let e = Seq::<Seq<char>>::empty();
    assert(e.filter(|t: Seq<char>| is_option(t)) =~= e) by {
        reveal_with_fuel(Seq::<_>::filter, 1);
    }
    assert(e.filter(|t: Seq<char>| !is_option(t)) =~= e) by {
        reveal_with_fuel(Seq::<_>::filter, 1);
    }
}

/// Without quotes or backslashes, the quote-aware reader splits on
/// whitespace: the command is the first whitespace-separated word and the
/// arguments are the others.
pub proof fn law_quote_free_parse_splits_on_whitespace(s: Seq<char>)
    requires
        unquoted_text(s),
    ensures
        parse_view(s) == command_of(ws_tokens(s)),
{
    lemma_trim_keeps_unquoted(s);
    lemma_lex_scan_plain(trim(s));
    lemma_ws_tokens_trim(s);
}

} // verus!
