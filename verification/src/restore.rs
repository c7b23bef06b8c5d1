//! Restore advisor: decides, when a window closes, whether the daemon
//! should ask the compositor to switch back to the workspace the window
//! was opened on.
//!
//! A window that closes quickly after opening (a launcher, a transient
//! dialog) did not claim the workspace the user was redirected to, so the
//! daemon returns there; a window that stayed open longer did.

use vstd::prelude::*;

use crate::config::{applies, filter_applies, FilterMode};
use crate::state::{Window, WindowView};

verus! {

/// The advisor's rule: return to the origin workspace iff the window
/// lived no longer than `timeout` seconds and its class passes the
/// restore filter.
pub open spec fn spec_should_return_to_origin(
    w: WindowView,
    now: i64,
    timeout: i64,
    list: Seq<Seq<char>>,
    mode: FilterMode,
) -> bool {
    now - w.timestamp <= timeout && filter_applies(w.class, list, mode)
}

/// Decides whether closing this window should send the user back to the
/// window's origin workspace: true iff the window was open for at most
/// `timeout` seconds and its class passes the restore filter.  The call
/// never touches the store; the caller issues the resulting command.
pub fn should_return_to_origin(
    w: &Window,
    now: i64,
    timeout: i64,
    list: &Vec<String>,
    mode: FilterMode,
) -> (r: bool)
    ensures
        r == spec_should_return_to_origin(w@, now, timeout, list.deep_view(), mode),
{
    let within = (now as i128) - (w.timestamp as i128) <= (timeout as i128);
    within && applies(&w.class, list, mode)
}

} // verus!
