//! Classification of change notifications from the filesystem watcher.
//!
//! The watch loop itself performs I/O and lives outside this crate; it hands
//! each notification over as a [`WatchEvent`] and acts on the returned
//! [`Action`]. Only a debounced write notice triggers a re-read; an error
//! event is fatal; every other kind is ignored.

use vstd::prelude::*;

verus! {

/// The kinds of change notification the watch source can deliver.
#[derive(Clone, Copy, Debug, PartialEq, Eq, Structural)]
pub enum WatchEvent {
    Chmod,
    Create,
    Error,
    NoticeRemove,
    NoticeWrite,
    Remove,
    Rename,
    Rescan,
    Write,
}

/// What the tailer's event loop must do with one notification.
#[derive(Clone, Copy, Debug, PartialEq, Eq, Structural)]
pub enum Action {
    /// Re-read the watched file and emit the new matching lines.
    ReRead,
    /// Do nothing and wait for the next notification.
    Ignore,
    /// Terminate: the watch source reported an error.
    Fatal,
}

/// The decision rule of the event loop as a mathematical function.
pub open spec fn spec_classify(e: WatchEvent) -> Action {
    match e {
        WatchEvent::NoticeWrite => Action::ReRead,
        WatchEvent::Error => Action::Fatal,
        _ => Action::Ignore,
    }
}

/// Decide what one change notification demands of the tailer.
pub fn classify(e: WatchEvent) -> (a: Action)
    ensures
        a == spec_classify(e),
{
    match e {
        WatchEvent::NoticeWrite => Action::ReRead,
        WatchEvent::Error => Action::Fatal,
        _ => Action::Ignore,
    }
}

} // verus!
