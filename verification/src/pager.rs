//! Choosing the pager command and its exit code.
//!
//! The environment names the pager as a single shell-style string; it is
//! split into a program name plus arguments. When the variable is unset,
//! cannot be tokenised, or yields no words at all, a single-word default
//! pager is used instead, so the command returned is never empty.

use vstd::prelude::*;

verus! {

/// Size of the chunks in which the remainder of the source is streamed
/// to the pager once the decision to page is made.
pub const STREAM_CHUNK_LEN: usize = 16384;

/// The name of the pager used when the environment offers none.
pub open spec fn default_pager_name() -> Seq<char> {
    "less"@
}

/// What shell-splitting yields for a string: its words, or nothing when
/// the string cannot be tokenised (an unclosed quote, a trailing escape).
pub uninterp spec fn shell_words_of(s: Seq<char>) -> Option<Seq<Seq<char>>>;

/// Relies on shlex::split: tokenises a string by shell word rules and
/// returns `None` for erroneous input; the result is a function of the
/// characters of the string alone.
#[verifier::external_body]
fn shell_split(s: &str) -> (r: Option<Vec<String>>)
    ensures
        r is Some <==> shell_words_of(s@) is Some,
        r matches Some(words) ==> Some(words@.map_values(|w: String| w@)) == shell_words_of(s@),
{
    shlex::split(s)
}

/// The single-word fallback command.
fn default_pager_command() -> (cmd: Vec<String>)
    ensures
        cmd@.len() == 1,
        cmd@[0]@ == default_pager_name(),
{
    let mut cmd: Vec<String> = Vec::new();
    cmd.push("less".to_owned());
    cmd
}

/// The pager command line: the environment's choice split into shell
/// words, or the single-word default when the variable is unset, cannot
/// be tokenised, or holds no words at all. Never empty: the first element
/// is always a program name.
pub fn resolve_pager(pager_env: Option<String>) -> (cmd: Vec<String>)
    ensures
        cmd@.len() >= 1,
        match pager_env {
            Some(s) => match shell_words_of(s@) {
                Some(words) => if words.len() == 0 {
                    cmd@.len() == 1 && cmd@[0]@ == default_pager_name()
                } else {
                    cmd@.map_values(|w: String| w@) == words
                },
                None => cmd@.len() == 1 && cmd@[0]@ == default_pager_name(),
            },
            None => cmd@.len() == 1 && cmd@[0]@ == default_pager_name(),
        },
{
    match pager_env {
        Some(s) => match shell_split(s.as_str()) {
            Some(words) => if words.len() == 0 {
                default_pager_command()
            } else {
                words
            },
            None => default_pager_command(),
        },
        None => default_pager_command(),
    }
}

/// The wrapper's exit status once the pager has exited: the pager's own
/// exit code, or 1 when the pager ended without one (killed by a signal).
pub fn pager_exit_code(code: Option<i32>) -> (status: i32)
    ensures
        code matches Some(c) ==> status == c,
        code is None ==> status == 1,
{
    match code {
        Some(c) => c,
        None => 1,
    }
}

} // verus!
