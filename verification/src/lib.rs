//! Track index, fuzzy name resolution and per-group playback coordination
//! for a chat-controlled audio cache player.
//!
//! The library holds the verified core: building an immutable track snapshot
//! from a directory listing, resolving free-text queries against it with a
//! prefix-then-substring policy, and sequencing per-group playback state
//! (loop flag, current track handle) against an external voice session.
//! All I/O — the directory walk, the chat gateway and the voice transport —
//! stays outside and hands this crate plain values.

pub mod coordinator;
pub mod index;
pub mod matcher;
pub mod text;

pub use text::normalize_name;
