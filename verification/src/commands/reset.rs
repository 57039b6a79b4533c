//! `reset`: deleting a session after confirmation.
use vstd::prelude::*;
use vstd::string::*;

verus! {

/// The arguments of `reset`.
pub struct ResetArgs {
    pub session: String,
    pub force: bool,
}

/// The question that `reset` asks before deleting without `--force`.
pub open spec fn prompt_text(session_id: Seq<char>) -> Seq<char> {
    "Delete session '"@ + session_id + "'? [y/N] "@
}

/// The question that `reset` asks (see `prompt_text`).
pub fn reset_prompt(session_id: &str) -> (r: String)
    ensures
        r@ == prompt_text(session_id@),
{
    let mut s = "Delete session '".to_owned();
    s.append(session_id);
    s.append("'? [y/N] ");
    s
}

/// What `reset` reports once it has run: whether the session existed.
pub open spec fn outcome_text(session_id: Seq<char>, existed: bool) -> Seq<char> {
    if existed {
        "Session '"@ + session_id + "' deleted.\n"@
    } else {
        "Session '"@ + session_id + "' did not exist.\n"@
    }
}

/// What `reset` reports (see `outcome_text`).
pub fn reset_report(session_id: &str, existed: bool) -> (r: String)
    ensures
        r@ == outcome_text(session_id@, existed),
{
    let mut s = "Session '".to_owned();
    s.append(session_id);
    if existed {
        s.append("' deleted.\n");
    } else {
        s.append("' did not exist.\n");
    }
    s
}

} // verus!
