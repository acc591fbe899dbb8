use vstd::prelude::*;

use crate::error::Error;
use crate::task::str_views;
use crate::task::Task;
use crate::text::{push_all, signed_decimal, signed_decimal_spec, str_eq};

verus! {

/// The error type of `shell_words::split`.
#[verifier::external_type_specification]
#[verifier::external_body]
pub struct ExParseError(shell_words::ParseError);

/// What `shell_words::split` makes of a command line: its words after POSIX
/// quote removal, or `None` for an unmatched quote.
pub uninterp spec fn shell_split(s: Seq<char>) -> Option<Seq<Seq<char>>>;

/// `shell_words::split`: the words of `s` as named by `shell_split`, or its
/// error exactly when `shell_split` has none.
#[verifier::external_body]
fn split_words(s: &str) -> (r: Result<Vec<String>, shell_words::ParseError>)
    ensures
        match r {
            Ok(v) => shell_split(s@) == Some(str_views(v@)),
            Err(_) => shell_split(s@).is_none(),
        },
{
    shell_words::split(s)
}

/// The executable and extra arguments of an editor command, given its
/// words: the first word and the rest, or `vi` with none when there are no
/// words or the command could not be split.
pub open spec fn editor_command_spec(words: Option<Seq<Seq<char>>>) -> (Seq<char>, Seq<Seq<char>>) {
    match words {
        Some(w) => if w.len() > 0 {
            (w[0], w.drop_first())
        } else {
            ("vi"@, Seq::<Seq<char>>::empty())
        },
        None => ("vi"@, Seq::<Seq<char>>::empty()),
    }
}

/// The executable and extra arguments, given the words of an editor
/// command (see `editor_command_spec`).
pub fn editor_command_of(words: Option<Vec<String>>) -> (r: (String, Vec<String>))
    ensures
        (r.0@, str_views(r.1@)) == editor_command_spec(match words {
            Some(w) => Some(str_views(w@)),
            None => None,
        }),
{
    match words {
        Some(w) => {
            if w.len() > 0 {
                let ghost wv = str_views(w@);
                let mut rest: Vec<String> = Vec::new();
                for i in 1..w.len()
                    invariant
                        wv == str_views(w@),
                        w@.len() > 0,
                        rest@.len() == i - 1,
                        forall|k: int| 0 <= k < rest@.len() ==> #[trigger] rest@[k]@ == wv[k + 1],
                {
                    rest.push(w[i].clone());
                }
                assert(str_views(rest@) =~= wv.drop_first());
                (w[0].clone(), rest)
            } else {
                let r = ("vi".to_string(), Vec::new());
                assert(str_views(r.1@) =~= Seq::<Seq<char>>::empty());
                r
            }
        },
        None => {
            let r = ("vi".to_string(), Vec::new());
            assert(str_views(r.1@) =~= Seq::<Seq<char>>::empty());
            r
        },
    }
}

/// Splits an editor command into executable and extra arguments, with POSIX
/// shell-word rules so that quoted paths with spaces stay one word; an empty
/// or unsplittable command falls back to `vi`.
pub fn parse_editor_command(editor: &str) -> (r: (String, Vec<String>))
    ensures
        (r.0@, str_views(r.1@)) == editor_command_spec(shell_split(editor@)),
{
    let words = match split_words(editor) {
        Ok(v) => Some(v),
        Err(_) => None,
    };
    editor_command_of(words)
}

/// How an editor process ended: successfully or not, with its exit code
/// when it had one (none when a signal ended it).
pub struct ExitOutcome {
    pub success: bool,
    pub code: Option<i32>,
}

/// The reason given when the editor `exe` ended unsuccessfully.
pub open spec fn editor_failure(exe: Seq<char>, code: Option<i32>) -> Seq<char> {
    exe + " exited with "@ + match code {
        Some(c) => signed_decimal_spec(c as int),
        None => "signal"@,
    }
}

/// The verdict on an editor session: fine when the editor `exe` ended
/// successfully, else `EditorFailed` naming it and its exit code (or
/// `signal`).
pub fn open_in_editor(exe: &str, exit: ExitOutcome) -> (r: Result<(), Error>)
    ensures
        r is Ok <==> exit.success,
        r is Err ==> (r matches Err(Error::EditorFailed { reason }) && reason@ == editor_failure(exe@, exit.code)),
{
    if exit.success {
        return Ok(());
    }
    let mut reason = String::new();
    push_all(&mut reason, exe);
    push_all(&mut reason, " exited with ");
    match exit.code {
        Some(c) => {
            let d = signed_decimal(c as i64);
            push_all(&mut reason, d.as_str());
        },
        None => {
            push_all(&mut reason, "signal");
        },
    }
    Err(Error::EditorFailed { reason })
}

/// The message refusing an edit that changed the task's ID from `before`
/// to `after`.
pub open spec fn id_change_message(before: Seq<char>, after: Seq<char>) -> Seq<char> {
    "changing the id field is not allowed ("@ + before + " -> "@ + after
        + "); the edit was discarded"@
}

/// The verdict on a task as the editor left it: `None` when it keeps the ID
/// it had before the edit, else the message refusing the edit (saving it
/// would file the task under a new ID beside the old file).
pub fn id_change_rejection(before: &Task, edited: &Task) -> (r: Option<String>)
    ensures
        r is None <==> edited@.id == before@.id,
        r matches Some(m) ==> m@ == id_change_message(before@.id, edited@.id),
{
    if str_eq(before.id.as_str(), edited.id.as_str()) {
        return None;
    }
    let mut m = String::new();
    push_all(&mut m, "changing the id field is not allowed (");
    push_all(&mut m, before.id.as_str());
    push_all(&mut m, " -> ");
    push_all(&mut m, edited.id.as_str());
    push_all(&mut m, "); the edit was discarded");
    Some(m)
}

} // verus!
