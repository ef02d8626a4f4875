//! Process-wide protocol selection.
//!
//! The server speaks exactly one protocol for its whole lifetime, chosen
//! once from a single startup token before the listener binds: the literal
//! `--resp` selects the RESP front end; any other token, or none, selects
//! HTTP. The choice never changes afterwards; binding, accepting and the
//! per-connection loops live with the caller.

use vstd::prelude::*;
use vstd::string::StringExecFns;

verus! {

/// Which wire protocol the process serves.
#[derive(Clone, Copy, PartialEq, Eq, Structural, Debug)]
pub enum ServerMode {
    HTTP,
    RESP,
}

/// Resolves the protocol mode from the startup token: `--resp` selects
/// RESP; anything else, or an absent token, defaults to HTTP.
pub fn mode_from_arg(arg: Option<&String>) -> (r: ServerMode)
    ensures
        r == ServerMode::RESP <==> (arg matches Some(a) && a@ == "--resp"@),
{
    match arg {
        None => ServerMode::HTTP,
        Some(a) => {
            let flag: String = String::from_str("--resp");
            if a.eq(&flag) {
                ServerMode::RESP
            } else {
                ServerMode::HTTP
            }
        },
    }
}

} // verus!
