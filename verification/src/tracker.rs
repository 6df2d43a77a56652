//! Deletion tracker: short-lived memory of recent deletions per subfolder.
//!
//! A deletion of files under a subfolder is followed by directory-metadata
//! update notifications for the same subfolder; without care those echoes
//! would trigger a phantom capture.  The tracker records the time of the
//! last deletion per subfolder, and a change is suppressed while it falls
//! inside the grace window after that deletion.  Entries are never swept:
//! a stale entry is harmless because every check is time-relative.

use crate::namemap::NameMap;
use vstd::prelude::*;

verus! {

/// Width of the suppression window after a deletion, in milliseconds: a
/// change strictly less than this long after a deletion is suppressed.
pub const DELETION_GRACE_MS: i64 = 500;

/// Memory of the last deletion time per subfolder, in milliseconds.
pub struct DeletionTracker {
    pub marks: NameMap<i64>,
}

/// Whether a change for `name` at time `now` is suppressed by the deletion
/// record `m`: a deletion is on record and lies less than the grace window
/// in the past.
pub open spec fn spec_suppressed(m: Map<Seq<char>, i64>, name: Seq<char>, now: int) -> bool {
    m.contains_key(name) && now - m[name] < DELETION_GRACE_MS
}

impl View for DeletionTracker {
    type V = Map<Seq<char>, i64>;

    open spec fn view(&self) -> Map<Seq<char>, i64> {
        self.marks@
    }
}

impl DeletionTracker {
    /// Keys distinct, and no recorded time lies before the epoch.
    pub open spec fn wf(&self) -> bool {
        &&& self.marks.wf()
        &&& forall|k: Seq<char>|
            self.marks@.contains_key(k) ==> 0 <= #[trigger] self.marks@[k]
    }

    /// An empty record: nothing is suppressed.
    pub fn new() -> (r: DeletionTracker)
        ensures
            r.wf(),
            r@ == Map::<Seq<char>, i64>::empty(),
    {
        DeletionTracker { marks: NameMap::new() }
    }

    /// Records a deletion for a subfolder, overwriting any earlier entry.
    pub fn record(&mut self, name: &String, now: i64)
        requires
            old(self).wf(),
            now >= 0,
        ensures
            final(self).wf(),
            final(self)@ == old(self)@.insert(name@, now),
    {
        self.marks.set(name, now);
    }

    /// Whether a change for the subfolder at time `now` falls inside the
    /// grace window of a recorded deletion.
    pub fn is_recently_suppressed(&self, name: &String, now: i64) -> (r: bool)
        requires
            self.wf(),
            now >= 0,
        ensures
            r == spec_suppressed(self@, name@, now as int),
    {
        match self.marks.get(name) {
            Some(t) => now - t < DELETION_GRACE_MS,
            None => false,
        }
    }
}

/// Deletion-window law: once a deletion for a subfolder is on record at
/// time `t`, a change at time `now` is suppressed exactly when it comes
/// strictly less than the grace window after the deletion — suppressed at
/// `t + 499`, no longer suppressed at `t + 500` or later.
pub proof fn lemma_deletion_window(
    m: Map<Seq<char>, i64>,
    name: Seq<char>,
    t: i64,
    now: int,
)
    ensures
        spec_suppressed(m.insert(name, t), name, now) == (now - t < DELETION_GRACE_MS),
{
}

} // verus!
