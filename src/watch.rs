//! What a live watcher reports for one path of a file-system notification.
//!
//! Only changes to plain files are reported. A path reported removed, or one
//! that no longer exists, is a removal without a size; a path created or
//! modified that is a plain file (not a link) is reported with its current
//! size; directories and links are passed over.
use vstd::prelude::*;

verus! {

/// The kinds of notification a watcher reports on.
#[derive(PartialEq, Eq, Structural, Clone, Copy)]
pub enum ChangeKind {
    Create,
    Modify,
    Remove,
}

impl ChangeKind {
    /// The name a change of this kind is published under.
    pub fn name(&self) -> (r: &'static str)
        ensures
            *self == ChangeKind::Create ==> r@ == "create"@,
            *self == ChangeKind::Modify ==> r@ == "modify"@,
            *self == ChangeKind::Remove ==> r@ == "remove"@,
    {
        match self {
            ChangeKind::Create => "create",
            ChangeKind::Modify => "modify",
            ChangeKind::Remove => "remove",
        }
    }
}

/// What the file system says of a path when its notification is handled.
pub enum PathState {
    /// Nothing is there any more.
    Missing,
    /// A regular file, not a link; its size if that could be read.
    PlainFile(Option<u64>),
    /// A directory, a link, or anything else.
    Other,
}

/// One reported change of a plain file, for the scan whose watcher saw it.
pub struct FsChangePayload {
    pub scan_id: u64,
    pub path: String,
    pub kind: ChangeKind,
    pub size: Option<u64>,
}

/// The change, if any, that the watcher of scan `scan_id` reports for `path`
/// under a notification of `kind`, given what is at `path` now.
pub fn classify_change(scan_id: u64, kind: ChangeKind, path: String, state: PathState) -> (r:
    Option<FsChangePayload>)
    ensures
        (kind == ChangeKind::Remove || state is Missing) ==> r is Some && r->0.kind
            == ChangeKind::Remove && r->0.size is None,
        kind != ChangeKind::Remove && state is PlainFile ==> r is Some && r->0.kind == kind
            && r->0.size == state->PlainFile_0,
        kind != ChangeKind::Remove && state is Other ==> r is None,
        r is Some ==> r->0.scan_id == scan_id && r->0.path@ == path@,
{
    if kind == ChangeKind::Remove {
        return Some(FsChangePayload { scan_id, path, kind: ChangeKind::Remove, size: None });
    }
    match state {
        PathState::Missing => Some(
            FsChangePayload { scan_id, path, kind: ChangeKind::Remove, size: None },
        ),
        PathState::PlainFile(size) => Some(FsChangePayload { scan_id, path, kind, size }),
        PathState::Other => None,
    }
}

} // verus!
