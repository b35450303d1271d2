//! Verified core of a minimal Wayland menu launcher: colour parsing and
//! formatting, the filtered and ranked item list, key handling decisions,
//! key repeat timing, output and buffer geometry, and global registry
//! bookkeeping.

pub mod text;
pub mod color;
pub mod input;
pub mod output;
pub mod wayland_globals;
pub mod repeat;
pub mod keys;
pub mod buffer;
pub mod lines;
pub mod path;
pub mod layout;
