//! What an agent's harness tells its hooks.

use vstd::prelude::*;

verus! {

/// What a hook is told. Every field beyond `hook_event_name` is optional, since several
/// events (`PostToolUseFailure`, `StopFailure`, `SessionEnd`) carry undocumented payload
/// shapes that are not needed here.
#[derive(Debug, PartialEq, Eq)]
pub struct HookPayload {
    pub hook_event_name: String,
    pub session_id: Option<String>,
}

} // verus!
