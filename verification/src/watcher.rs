//! The input watcher decision.
//!
//! On every edit event the current line is tokenized shell-style. A line
//! that tokenizes becomes an argument vector to forward on the queue —
//! always, even when it repeats the previous one, since de-duplication
//! belongs to the execution loop. A line that does not tokenize is never
//! forwarded; it yields a short non-empty inline hint instead, and the
//! previously rendered output stays untouched.

use crate::model::strings_view;
use vstd::prelude::*;
use vstd::string::StringExecFns;

verus! {

/// What `shell_words::split` returns for the given line: the tokenized
/// argument vector, or nothing when the line has no shell-style reading.
pub uninterp spec fn split_of(line: Seq<char>) -> Option<Seq<Seq<char>>>;

/// Relies on `shell_words::split`: tokenizes a line by POSIX shell rules,
/// as a function of its characters alone; it fails exactly on an unmatched
/// quote, and its error displays as a fixed message.
#[verifier::external_body]
fn split_words(line: &str) -> (r: Result<Vec<String>, String>)
    ensures
        r is Ok <==> split_of(line@) is Some,
        r matches Ok(v) ==> split_of(line@) == Some(strings_view(v@)),
        r matches Err(m) ==> m@ == "missing closing quote"@,
{
    match shell_words::split(line) {
        Ok(v) => Ok(v),
        Err(e) => Err(e.to_string()),
    }
}

/// What one edit event leads to: an argument vector to forward on the
/// queue, or an inline hint to show beside the cursor.
pub enum EditOutcome {
    Forward(Vec<String>),
    Hint(String),
}

/// The hint text for a line that does not tokenize: the tokenizer's message
/// in parentheses, indented to sit beside the cursor.
pub open spec fn hint_view(msg: Seq<char>) -> Seq<char> {
    "  ("@ + msg + ")"@
}

/// Decides one edit event. A line that tokenizes is forwarded as exactly
/// its argument vector; a line that does not is never forwarded and yields
/// a non-empty hint instead.
pub fn process_edit(line: &str) -> (r: EditOutcome)
    ensures
        split_of(line@) matches Some(args) ==> (r matches EditOutcome::Forward(v)
            && strings_view(v@) == args),
        split_of(line@) is None ==> (r matches EditOutcome::Hint(h) && h@ == hint_view(
            "missing closing quote"@,
        ) && h@.len() > 0),
{
    match split_words(line) {
        Ok(v) => EditOutcome::Forward(v),
        Err(m) => {
            let mut h = "  (".to_owned();
            h.append(m.as_str());
            h.append(")");
            proof {
                reveal_strlit("  (");
                assert(h@.len() > 0);
            }
            EditOutcome::Hint(h)
        },
    }
}

} // verus!
