//! Affinity store and decision engine for a window-placement daemon.
//!
//! The library learns, per application class, which workspace its windows
//! belong to and remembers the screen geometry of floating windows.  It holds
//! the placement history, the time-decay scoring that turns history into a
//! placement decision, the filter policy that scopes which classes take part,
//! and the suppression flags that keep the daemon's own moves from being
//! recorded as user intent.  Everything that talks to the compositor or to
//! the file system lives outside this crate; the library only decides.

pub mod codec;
pub mod config;
pub mod restore;
pub mod score;
pub mod state;
