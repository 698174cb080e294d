//! The prompt.
use vstd::prelude::*;

use crate::config::{has_prefix, starts_with};
use crate::text::{chars_of, copy_range, push_chars, starts_with_char, string_from};

verus! {

/// The working directory as the prompt shows it: `~` for the home
/// directory, `~/...` below it, the full path elsewhere (a directory whose
/// name merely begins with the home's, such as `/home/user2` for
/// `/home/user`, is shown in full).
pub open spec fn prompt_dir(wd: Seq<char>, home: Seq<char>) -> Seq<char> {
    if has_prefix(wd, home) {
        if wd.len() == home.len() {
            seq!['~']
        } else if starts_with_char(wd.skip(home.len() as int), '/') {
            seq!['~'] + wd.skip(home.len() as int)
        } else {
            wd
        }
    } else {
        wd
    }
}

/// The working directory as the prompt `user@host:DIR$ ` shows it.
pub fn prompt_path(working_directory: &str, home: &str) -> (p: String)
    ensures
        p@ == prompt_dir(working_directory@, home@),
{
    let wd = chars_of(working_directory);
    let h = chars_of(home);
    if starts_with(wd.as_slice(), h.as_slice()) {
        if wd.len() == h.len() {
            let tilde = ['~'];
            assert(tilde@ =~= seq!['~']);
            string_from(&tilde)
        } else {
            let after = copy_range(wd.as_slice(), h.len(), wd.len());
            assert(after@ =~= wd@.skip(h@.len() as int));
            if after.len() > 0 && after[0] == '/' {
                let tilde = ['~'];
                let mut p = string_from(&tilde);
                push_chars(&mut p, after.as_slice());
                p
            } else {
                string_from(wd.as_slice())
            }
        }
    } else {
        string_from(wd.as_slice())
    }
}

/// The home directory shows as `~`, and a directory below it as `~`
/// followed by the rest of its path.
pub proof fn law_prompt_home(home: Seq<char>, rest: Seq<char>)
    requires
        starts_with_char(rest, '/'),
    ensures
        prompt_dir(home, home) == seq!['~'],
        prompt_dir(home + rest, home) == seq!['~'] + rest,
{
    assert(home.take(home.len() as int) =~= home);
    assert((home + rest).take(home.len() as int) =~= home);
    assert((home + rest).skip(home.len() as int) =~= rest);
}

} // verus!
