//! User-facing notifications.
//!
//! The engine classifies each notification by the semantic nature of the
//! operation that caused it; the presentation layer only renders title and
//! body around the classification.

use vstd::prelude::*;
use vstd::string::StringExecFns;

verus! {

/// The kind of operation a notification reports.
#[derive(PartialEq, Eq, Structural, Clone, Copy, Debug)]
pub enum NotificationKind {
    /// A generation was captured.
    Backup,
    /// A subfolder was restored from a generation.
    Restore,
    /// A generation or a subfolder's history was deleted.
    Delete,
    /// Anything else that went well.
    Success,
}

/// The wire name of a notification kind.
pub open spec fn spec_kind_name(k: NotificationKind) -> Seq<char> {
    match k {
        NotificationKind::Backup => "backup"@,
        NotificationKind::Restore => "restore"@,
        NotificationKind::Delete => "delete"@,
        NotificationKind::Success => "success"@,
    }
}

/// The wire name of a notification kind, for the presentation payload.
pub fn kind_name(k: NotificationKind) -> (r: String)
    ensures
        r@ == spec_kind_name(k),
{
    match k {
        NotificationKind::Backup => String::from_str("backup"),
        NotificationKind::Restore => String::from_str("restore"),
        NotificationKind::Delete => String::from_str("delete"),
        NotificationKind::Success => String::from_str("success"),
    }
}

} // verus!
