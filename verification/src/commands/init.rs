//! `init`: creating a session from a schema file.
use vstd::prelude::*;
use vstd::string::*;

verus! {

/// The arguments of `init`.
pub struct InitArgs {
    pub session: String,
    pub schema: String,
    pub force: bool,
}

/// The confirmation that `init` prints.
pub open spec fn init_text(session_id: Seq<char>, hash: Seq<char>) -> Seq<char> {
    "Initialized session '"@ + session_id + "' with schema hash "@ + hash + "\n"@
}

/// The confirmation that `init` prints (see `init_text`).
pub fn init_report(session_id: &str, hash: &str) -> (r: String)
    ensures
        r@ == init_text(session_id@, hash@),
{
    let mut s = "Initialized session '".to_owned();
    s.append(session_id);
    s.append("' with schema hash ");
    s.append(hash);
    s.append("\n");
    s
}

} // verus!
