//! The state-root boundary of the daemon: authority data (baselines,
//! aliases, declarations) is written only in global mode, and the sandbox
//! root is ephemeral.
use crate::text::{decimal, decimal_chars, owned, push_chars, push_str, string_of};
use vstd::prelude::*;
use vstd::string::*;

verus! {

/// The sandbox state root of a user: `/private/tmp/repo-graph-agent/{uid}`.
pub fn sandbox_root(uid: u32) -> (r: String)
    ensures
        r@ == "/private/tmp/repo-graph-agent/"@ + decimal(uid as nat),
{
    let mut m: Vec<char> = Vec::new();
    push_str(&mut m, "/private/tmp/repo-graph-agent/");
    push_chars(&mut m, &decimal_chars(uid as u64));
    string_of(&m)
}

pub open spec fn authority_refusal(operation: Seq<char>, state_root: Seq<char>) -> Seq<char> {
    "cannot modify authority data in sandbox mode: "@ + operation + " (state root: "@ + state_root
        + ", mode: sandbox-local). Authority data (baselines, aliases, declarations) must be written via the socket daemon for durability."@
}

/// The authority-write guard: in sandbox-local mode the write is refused
/// with a message naming the operation and the state root; in global mode it
/// may proceed.
pub fn authority_write_check(sandbox_mode: bool, operation: &str, state_root: &str) -> (r: Result<(), String>)
    ensures
        match r {
            Ok(()) => !sandbox_mode,
            Err(msg) => sandbox_mode && msg@ == authority_refusal(operation@, state_root@),
        },
{
    if sandbox_mode {
        let mut m: Vec<char> = Vec::new();
        push_str(&mut m, "cannot modify authority data in sandbox mode: ");
        push_str(&mut m, operation);
        push_str(&mut m, " (state root: ");
        push_str(&mut m, state_root);
        push_str(
            &mut m,
            ", mode: sandbox-local). Authority data (baselines, aliases, declarations) must be written via the socket daemon for durability.",
        );
        Err(string_of(&m))
    } else {
        Ok(())
    }
}

/// The startup mode: `warm` with an existing registry, else `cold`.
pub fn startup_mode(registry_exists: bool) -> (r: &'static str)
    ensures
        r@ == if registry_exists {
            "warm"@
        } else {
            "cold"@
        },
{
    if registry_exists {
        "warm"
    } else {
        "cold"
    }
}

} // verus!
