//! Tail the newest game client log and print new lines that carry a marker.
//!
//! The crate has three parts: selecting the newest log file in a directory by
//! the timestamp embedded in its name, deciding what to do with each change
//! notification from a filesystem watcher, and the incremental re-read that
//! emits exactly the new matching lines while keeping a consumed-line count.

pub mod events;
pub mod selector;
pub mod tailer;
pub mod timestamp;
