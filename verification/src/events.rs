//! Filesystem notifications as plain values: the kind of change and the
//! paths it concerns.

use vstd::prelude::*;

verus! {

/// The kind of a filesystem notification.
#[derive(Clone, Copy, PartialEq, Eq, Structural, Debug)]
pub enum FsEventKind {
    Create,
    Modify,
    Remove,
    Access,
    Other,
}

/// One filesystem notification: a kind and the affected paths.
#[derive(Clone, Debug)]
pub struct FsEvent {
    pub kind: FsEventKind,
    pub paths: Vec<String>,
}

/// The wording used for each event kind.
pub open spec fn event_description_spec(kind: FsEventKind) -> Seq<char> {
    match kind {
        FsEventKind::Create => "Created"@,
        FsEventKind::Modify => "Modified"@,
        FsEventKind::Remove => "Removed"@,
        FsEventKind::Access => "Accessed"@,
        FsEventKind::Other => "Other"@,
    }
}

/// Converts an event's kind to its human-readable description.
pub fn get_event_description(event: &FsEvent) -> (r: String)
    ensures
        r@ == event_description_spec(event.kind),
{
    match event.kind {
        FsEventKind::Create => String::from_str("Created"),
        FsEventKind::Modify => String::from_str("Modified"),
        FsEventKind::Remove => String::from_str("Removed"),
        FsEventKind::Access => String::from_str("Accessed"),
        FsEventKind::Other => String::from_str("Other"),
    }
}

} // verus!
