//! Debounce scheduler: collapses a burst of change events per subfolder
//! into at most one capture per quiet period.
//!
//! Each qualifying change records a fresh token for its subfolder and
//! schedules a deferred check for after the quiet window.  When the check
//! fires it compares its token with the one on record: only a check whose
//! token is still current — no newer change arrived meanwhile — triggers
//! the capture.  A stale check detects its own obsolescence by value
//! comparison, so no timer ever needs cancelling.

use crate::namemap::NameMap;
use vstd::prelude::*;

verus! {

/// Length of the quiet window, in milliseconds: the deferred check fires
/// this long after the change that scheduled it.
pub const QUIET_WINDOW_MS: u64 = 300;

/// Per-subfolder debounce marks: the token of the last change, and the
/// counter the next token is drawn from.
pub struct DebounceTable {
    pub next: u64,
    pub marks: NameMap<u64>,
}

impl View for DebounceTable {
    type V = Map<Seq<char>, u64>;

    open spec fn view(&self) -> Map<Seq<char>, u64> {
        self.marks@
    }
}

impl DebounceTable {
    /// Keys distinct, and every issued token lies below the counter.
    pub open spec fn wf(&self) -> bool {
        &&& self.marks.wf()
        &&& forall|k: Seq<char>|
            self.marks@.contains_key(k) ==> #[trigger] self.marks@[k] < self.next
    }

    /// An empty table.
    pub fn new() -> (r: DebounceTable)
        ensures
            r.wf(),
            r@ == Map::<Seq<char>, u64>::empty(),
            r.next == 0,
    {
        DebounceTable { next: 0, marks: NameMap::new() }
    }

    /// Records a change for a subfolder and returns the fresh token that a
    /// deferred check must present: strictly newer than every token issued
    /// before it.
    pub fn note_change(&mut self, name: &String) -> (t: u64)
        requires
            old(self).wf(),
            old(self).next < u64::MAX,
        ensures
            final(self).wf(),
            t == old(self).next,
            final(self).next == old(self).next + 1,
            final(self)@ == old(self)@.insert(name@, t),
    {
        let t = self.next;
        self.next = self.next + 1;
        self.marks.set(name, t);
        t
    }

    /// Whether the token is still the subfolder's current mark: exactly the
    /// condition under which a deferred check may capture.
    pub fn is_current(&self, name: &String, token: u64) -> (r: bool)
        requires
            self.wf(),
        ensures
            r == (self@.contains_key(name@) && self@[name@] == token),
    {
        match self.marks.get(name) {
            Some(t) => t == token,
            None => false,
        }
    }
}

/// The table after a run of recorded changes, one per entry of `names`,
/// starting from counter `next0` and marks `marks0`: the pair of the final
/// counter and the final marks.
pub open spec fn apply_notes(
    next0: int,
    marks0: Map<Seq<char>, int>,
    names: Seq<Seq<char>>,
) -> (int, Map<Seq<char>, int>)
    decreases names.len(),
{
    if names.len() == 0 {
        (next0, marks0)
    } else {
        let prior = apply_notes(next0, marks0, names.drop_last());
        (prior.0 + 1, prior.1.insert(names.last(), prior.0))
    }
}

/// The token issued to the change at position `i` of the run.
pub open spec fn token_at(
    next0: int,
    marks0: Map<Seq<char>, int>,
    names: Seq<Seq<char>>,
    i: int,
) -> int {
    apply_notes(next0, marks0, names.take(i)).0
}

/// Each recorded change advances the counter by exactly one.
proof fn lemma_apply_notes_next(next0: int, marks0: Map<Seq<char>, int>, names: Seq<Seq<char>>)
    ensures
        apply_notes(next0, marks0, names).0 == next0 + names.len(),
    decreases names.len(),
{
    if names.len() > 0 {
        lemma_apply_notes_next(next0, marks0, names.drop_last());
    }
}

/// Last-writer law: after any run of changes, the deferred check of the
/// change at position `i` finds its token still current exactly when no
/// later change in the run names the same subfolder.  In particular, of
/// all the checks belonging to one subfolder's burst, exactly the last
/// one's token survives, so exactly one capture fires.
pub proof fn lemma_debounce_last_writer(
    next0: int,
    marks0: Map<Seq<char>, int>,
    names: Seq<Seq<char>>,
    i: int,
)
    requires
        0 <= i < names.len(),
    ensures
        ({
            let fin = apply_notes(next0, marks0, names);
            &&& fin.1.contains_key(names[i])
            &&& (fin.1[names[i]] == token_at(next0, marks0, names, i) <==> (forall|j: int|
                i < j < names.len() ==> names[j] != names[i]))
        }),
    decreases names.len(),
{
    let fin = apply_notes(next0, marks0, names);
    let pre = names.drop_last();
    let prior = apply_notes(next0, marks0, pre);
    if i == names.len() - 1 {
        assert(names.take(i) =~= pre);
        assert(fin.1 == prior.1.insert(names.last(), prior.0));
        assert(names[i] == names.last());
        assert(fin.1[names[i]] == prior.0);
    } else {
        // An earlier change for the same subfolder left a smaller token
        // than the one now on record.
        assert(forall|k: int| 0 <= k < pre.len() ==> pre[k] == names[k]);
        assert(names.take(i) =~= pre.take(i));
        lemma_debounce_last_writer(next0, marks0, pre, i);
        assert(fin.1 == prior.1.insert(names.last(), prior.0));
        lemma_apply_notes_next(next0, marks0, names.take(i));
        assert(token_at(next0, marks0, names, i) == next0 + i);
        lemma_apply_notes_next(next0, marks0, pre);
        assert(prior.0 == next0 + names.len() - 1);
        if names.last() == names[i] {
            assert(fin.1[names[i]] == prior.0);
            assert(next0 + i < next0 + names.len() - 1);
            assert(names[names.len() - 1] == names[i]);
        } else {
            assert(fin.1[names[i]] == prior.1[names[i]]);
            assert((forall|j: int| i < j < pre.len() ==> pre[j] != pre[i]) <==> (forall|j: int|
                i < j < names.len() ==> names[j] != names[i])) by {
                if forall|j: int| i < j < pre.len() ==> pre[j] != pre[i] {
                    assert forall|j: int| i < j < names.len() implies names[j] != names[i] by {
                        if j < names.len() - 1 {
                            assert(pre[j] != pre[i]);
                        }
                    }
                }
            }
        }
    }
}


/// Exactly-one corollary: within one burst, the deferred check of every
/// change but the subfolder's last finds a newer token on record and does
/// nothing, while the last change's check always finds its own token — so
/// one capture fires per subfolder and burst, however long the burst.
pub proof fn lemma_debounce_exactly_one(
    next0: int,
    marks0: Map<Seq<char>, int>,
    names: Seq<Seq<char>>,
    i: int,
)
    requires
        0 <= i < names.len(),
    ensures
        ({
            let fin = apply_notes(next0, marks0, names);
            &&& (exists|j: int| i < j < names.len() && names[j] == names[i]) ==> fin.1[names[i]]
                != token_at(next0, marks0, names, i)
            &&& (forall|j: int| i < j < names.len() ==> names[j] != names[i]) ==> fin.1[names[i]]
                == token_at(next0, marks0, names, i)
        }),
{
    lemma_debounce_last_writer(next0, marks0, names, i);
}

} // verus!
