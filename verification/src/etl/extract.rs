//! The decisions of the extract stage: which files to follow, which lines become events,
//! and what to do when a followed file changes.
use vstd::prelude::*;
use crate::etl::LogEvent;
use crate::text::{trim, trimmed, owned};

verus! {

/// The event that a line read from `file` becomes: none for a blank line, else the file
/// and the trimmed line.
pub open spec fn line_event_view(file: Seq<char>, raw: Seq<char>) -> Option<(Seq<char>, Seq<char>)> {
    let t = trimmed(raw);
    if t.len() == 0 {
        None
    } else {
        Some((file, t))
    }
}

/// Turns a line read from `file` into an event: blank lines are dropped, others are
/// trimmed.
pub fn line_event(file: &str, raw: &str) -> (r: Option<LogEvent>)
    ensures
        match line_event_view(file@, raw@) {
            None => r is None,
            Some(p) => r matches Some(e) && e.file_view() == p.0 && e.line_view() == p.1,
        },
{
    let line = trim(raw);
    if line.as_str().is_empty() {
        None
    } else {
        Some(LogEvent { file: owned(file), line })
    }
}

/// The files to follow: every file found in the directory when a directory is given,
/// else the configured list.
pub fn sources(dir_path: &str, dir_files: Vec<String>, file_paths: Vec<String>) -> (r: Vec<String>)
    ensures
        r@ == (if dir_path@.len() > 0 { dir_files@ } else { file_paths@ }),
{
    if !dir_path.is_empty() {
        dir_files
    } else {
        file_paths
    }
}

/// What was learnt about a followed file after a change was reported.
pub enum FileProbe {
    /// The change was neither a modification nor a removal, so the file was not examined.
    NotProbed,
    /// The file could not be examined (it was removed or renamed away).
    Missing,
    /// The file's length, the position up to which it has been read, and whether the
    /// path now names another file than the one being read (it was renamed away and a
    /// new file took its name, or it was replaced).
    Present { len: u64, pos: u64, replaced: bool },
}

/// What to do with a followed file after a change.
#[derive(Clone, Copy, Debug, PartialEq, Eq, Structural)]
pub enum TailAction {
    /// Nothing to read.
    Ignore,
    /// Read the lines appended since the last read.
    ReadNew,
    /// The file was replaced or truncated: open it again and read it from the start.
    ReopenAndRead,
    /// The file is missing: wait a moment and try to open it again.
    RetryOpen,
}

/// The action after a change of a followed file: a modification reads new lines; a
/// modification or removal also examines the file, which is reopened and read from the
/// start when the path names another file than the one being read or when it became
/// shorter than what was read, and opened again after a pause when it is missing.
pub fn tail_action(is_modify: bool, is_remove: bool, probe: FileProbe) -> (r: TailAction)
    requires
        (is_modify || is_remove) <==> !(probe is NotProbed),
    ensures
        r == (match probe {
            FileProbe::NotProbed => TailAction::Ignore,
            FileProbe::Missing => TailAction::RetryOpen,
            FileProbe::Present { len, pos, replaced } => if replaced || len < pos {
                TailAction::ReopenAndRead
            } else if is_modify {
                TailAction::ReadNew
            } else {
                TailAction::Ignore
            },
        }),
{
    match probe {
        FileProbe::NotProbed => TailAction::Ignore,
        FileProbe::Missing => TailAction::RetryOpen,
        FileProbe::Present { len, pos, replaced } => {
            if replaced || len < pos {
                TailAction::ReopenAndRead
            } else if is_modify {
                TailAction::ReadNew
            } else {
                TailAction::Ignore
            }
        },
    }
}

/// The action after trying to open a missing file again: read it from the start when it
/// opened, else read on from the old handle only if the change was a modification.
pub fn after_reopen_attempt(is_modify: bool, opened: bool) -> (r: TailAction)
    ensures
        r == (if opened {
            TailAction::ReopenAndRead
        } else if is_modify {
            TailAction::ReadNew
        } else {
            TailAction::Ignore
        }),
{
    if opened {
        TailAction::ReopenAndRead
    } else if is_modify {
        TailAction::ReadNew
    } else {
        TailAction::Ignore
    }
}

} // verus!
