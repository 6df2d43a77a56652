//! The backup engine: event routing and the restore state machine.
//!
//! The engine owns the shared mutable state of the watcher — the current
//! settings, the restore phase, the deletion marks and the debounce marks —
//! and decides, for each filesystem notification, what is to be done:
//! publish the reconciled state, schedule a debounced capture, or nothing.
//! It performs no filesystem work itself; the surrounding process carries
//! out the returned actions and runs the timers.

use crate::debounce::DebounceTable;
use crate::order::{lemma_filter_take_step, view_seq};
use crate::paths::spec_subfolder_of;
use crate::settings::AppSettings;
use crate::tracker::{spec_suppressed, DeletionTracker};
use vstd::prelude::*;

verus! {

/// The classification of a filesystem notification.
#[derive(PartialEq, Eq, Structural, Clone, Copy, Debug)]
pub enum FsEventKind {
    /// A folder was removed at some level under the watched root.
    RemoveFolder,
    /// A file or other object was removed.
    RemoveOther,
    /// Anything else: creation, modification, renaming.
    Change,
}

/// One path of a notification, with whether it still exists on disk at the
/// time the notification is handled.
pub struct PathInfo {
    pub path: String,
    pub exists: bool,
}

/// A filesystem notification, reduced to what routing reads.
pub struct FsEvent {
    pub kind: FsEventKind,
    pub paths: Vec<PathInfo>,
}

/// What the engine asks its surroundings to do.
pub enum EngineAction {
    /// Rescan both roots and publish the reconciled state list.
    PublishState,
    /// Wait out the quiet window, then present the token to
    /// `debounce_check`; capture the subfolder if it is still current.
    Schedule { subfolder: String, token: u64 },
}

/// The restore coordinator's phase.  Any phase but `Idle` suppresses event
/// routing.
#[derive(PartialEq, Eq, Structural, Clone, Copy, Debug)]
pub enum RestorePhase {
    Idle,
    /// The generation's contents are being copied over the live subfolder.
    Restoring,
    /// The copy is done; in-flight notifications for it are draining.
    Settling,
}

#[verifier::ext_equal]
pub struct PathInfoV {
    pub path: Seq<char>,
    pub exists: bool,
}

impl View for PathInfo {
    type V = PathInfoV;

    open spec fn view(&self) -> PathInfoV {
        PathInfoV { path: self.path@, exists: self.exists }
    }
}

#[verifier::ext_equal]
pub enum EngineActionV {
    PublishState,
    Schedule { subfolder: Seq<char>, token: int },
}

impl View for EngineAction {
    type V = EngineActionV;

    open spec fn view(&self) -> EngineActionV {
        match self {
            EngineAction::PublishState => EngineActionV::PublishState,
            EngineAction::Schedule { subfolder, token } => EngineActionV::Schedule {
                subfolder: subfolder@,
                token: *token as int,
            },
        }
    }
}

/// The views of a path list.
pub open spec fn paths_view(s: Seq<PathInfo>) -> Seq<PathInfoV> {
    s.map_values(|p: PathInfo| p@)
}

/// The views of an action list.
pub open spec fn actions_view(s: Seq<EngineAction>) -> Seq<EngineActionV> {
    s.map_values(|a: EngineAction| a@)
}

/// The subfolders a notification touches: the subfolder of each path under
/// the root, in order of first appearance, without repetition.
pub open spec fn spec_affected(root: Seq<char>, paths: Seq<PathInfoV>) -> Seq<Seq<char>>
    decreases paths.len(),
{
    if paths.len() == 0 {
        Seq::empty()
    } else {
        let pre = spec_affected(root, paths.drop_last());
        match spec_subfolder_of(root, paths.last().path) {
            Some(n) => if pre.contains(n) {
                pre
            } else {
                pre.push(n)
            },
            None => pre,
        }
    }
}

/// Whether any path of the notification still exists on disk.
pub open spec fn spec_any_exists(paths: Seq<PathInfoV>) -> bool {
    exists|i: int| 0 <= i < paths.len() && #[trigger] paths[i].exists
}

/// Deletion marks after recording time `now` for each of the names.
pub open spec fn record_all(
    dels: Map<Seq<char>, i64>,
    names: Seq<Seq<char>>,
    now: i64,
) -> Map<Seq<char>, i64>
    decreases names.len(),
{
    if names.len() == 0 {
        dels
    } else {
        record_all(dels, names.drop_last(), now).insert(names.last(), now)
    }
}

/// A subfolder qualifies for scheduling when no recorded deletion
/// suppresses it at time `now`.
pub open spec fn sched_pred(dels: Map<Seq<char>, i64>, now: int) -> spec_fn(Seq<char>) -> bool {
    |n: Seq<char>| !spec_suppressed(dels, n, now)
}

/// The schedule actions for a run of subfolders, with consecutive tokens
/// starting at `next0`.
pub open spec fn spec_schedule_actions(names: Seq<Seq<char>>, next0: int) -> Seq<EngineActionV> {
    Seq::new(
        names.len(),
        |i: int| EngineActionV::Schedule { subfolder: names[i], token: next0 + i },
    )
}

/// Debounce marks after the same run: each name maps to its token.
pub open spec fn spec_insert_tokens(
    marks: Map<Seq<char>, u64>,
    names: Seq<Seq<char>>,
    next0: int,
) -> Map<Seq<char>, u64>
    decreases names.len(),
{
    if names.len() == 0 {
        marks
    } else {
        spec_insert_tokens(marks, names.drop_last(), next0).insert(
            names.last(),
            (next0 + names.len() - 1) as u64,
        )
    }
}

/// How a removal notification at time `now` takes a pre-state to a
/// post-state: a deletion mark is recorded for every affected subfolder,
/// the debounce marks stay, and only a folder removal asks for a state
/// publish — a removal never schedules a capture.
pub open spec fn spec_routed_removal(
    pre: BackupSystem,
    e: FsEvent,
    now: i64,
    post: BackupSystem,
    acts: Seq<EngineAction>,
) -> bool {
    let names = spec_affected(pre.settings.repo_save_path@, paths_view(e.paths@));
    &&& post.deletions@ == record_all(pre.deletions@, names, now)
    &&& post.deletions.wf()
    &&& post.debounce == pre.debounce
    &&& actions_view(acts) == (if e.kind == FsEventKind::RemoveFolder {
        seq![EngineActionV::PublishState]
    } else {
        Seq::<EngineActionV>::empty()
    })
}

/// How a change notification at time `now` takes a pre-state to a
/// post-state: deletion marks stay; an event whose paths all vanished does
/// nothing; otherwise every affected subfolder outside the deletion grace
/// window gets the next free token, in order, and one schedule request
/// each.  When the token counter cannot cover the event, nothing happens.
pub open spec fn spec_routed_change(
    pre: BackupSystem,
    e: FsEvent,
    now: int,
    post: BackupSystem,
    acts: Seq<EngineAction>,
) -> bool {
    let pv = paths_view(e.paths@);
    let names = spec_affected(pre.settings.repo_save_path@, pv);
    &&& post.deletions == pre.deletions
    &&& (!spec_any_exists(pv) ==> post == pre && acts.len() == 0)
    &&& (spec_any_exists(pv) ==> ({
        let sched = names.filter(sched_pred(pre.deletions@, now));
        let next0 = pre.debounce.next as int;
        &&& (!(next0 + names.len() <= u64::MAX) ==> post == pre && acts.len() == 0)
        &&& (next0 + names.len() <= u64::MAX ==> {
            &&& actions_view(acts) == spec_schedule_actions(sched, next0)
            &&& post.debounce.next == next0 + sched.len()
            &&& post.debounce@ == spec_insert_tokens(pre.debounce@, sched, next0)
        })
    }))
}

/// The engine's state: configuration, restore phase, and the two
/// per-subfolder records.
pub struct BackupSystem {
    pub settings: AppSettings,
    pub phase: RestorePhase,
    pub deletions: DeletionTracker,
    pub debounce: DebounceTable,
}

impl BackupSystem {
    /// Both records well formed.
    pub open spec fn wf(&self) -> bool {
        &&& self.deletions.wf()
        &&& self.debounce.wf()
    }

    /// Whether event routing is suppressed: during a restore's copy and its
    /// settle delay.
    pub open spec fn suppressing(&self) -> bool {
        self.phase != RestorePhase::Idle
    }

    /// A fresh engine: idle, with empty records.
    pub fn new(settings: AppSettings) -> (r: BackupSystem)
        ensures
            r.wf(),
            r.settings == settings,
            r.phase == RestorePhase::Idle,
            r.deletions@ == Map::<Seq<char>, i64>::empty(),
            r.debounce@ == Map::<Seq<char>, u64>::empty(),
            r.debounce.next == 0,
    {
        BackupSystem {
            settings,
            phase: RestorePhase::Idle,
            deletions: DeletionTracker::new(),
            debounce: DebounceTable::new(),
        }
    }

    /// Replaces the settings; the caller re-registers the watcher on the
    /// new root.
    pub fn update_settings(&mut self, new_settings: AppSettings)
        requires
            old(self).wf(),
        ensures
            final(self).wf(),
            final(self).settings == new_settings,
            final(self).phase == old(self).phase,
            final(self).deletions == old(self).deletions,
            final(self).debounce == old(self).debounce,
    {
        self.settings = new_settings;
    }

    /// A copy of the current settings.
    pub fn get_settings(&self) -> (r: AppSettings)
        ensures
            r.repo_save_path@ == self.settings.repo_save_path@,
            r.theme@ == self.settings.theme@,
            r.max_generations == self.settings.max_generations,
    {
        AppSettings {
            repo_save_path: self.settings.repo_save_path.clone(),
            theme: self.settings.theme.clone(),
            max_generations: self.settings.max_generations,
        }
    }

    /// Whether routing currently discards every event.
    pub fn is_suppressing(&self) -> (r: bool)
        ensures
            r == self.suppressing(),
    {
        self.phase != RestorePhase::Idle
    }

    /// Idle to Restoring: set before any filesystem mutation of a restore,
    /// so the watcher discards the restore's own events.
    pub fn begin_restore(&mut self)
        requires
            old(self).wf(),
            old(self).phase == RestorePhase::Idle,
        ensures
            final(self).wf(),
            final(self).phase == RestorePhase::Restoring,
            final(self).suppressing(),
            final(self).settings == old(self).settings,
            final(self).deletions == old(self).deletions,
            final(self).debounce == old(self).debounce,
    {
        self.phase = RestorePhase::Restoring;
    }

    /// Restoring to Settling: the copy attempt has finished, successfully
    /// or not; the settle delay begins.
    pub fn finish_restore_copy(&mut self)
        requires
            old(self).wf(),
            old(self).phase == RestorePhase::Restoring,
        ensures
            final(self).wf(),
            final(self).phase == RestorePhase::Settling,
            final(self).suppressing(),
            final(self).settings == old(self).settings,
            final(self).deletions == old(self).deletions,
            final(self).debounce == old(self).debounce,
    {
        self.phase = RestorePhase::Settling;
    }

    /// Settling to Idle: the settle delay has elapsed; routing resumes with
    /// the records it had before the restore.
    pub fn settle_complete(&mut self)
        requires
            old(self).wf(),
            old(self).phase == RestorePhase::Settling,
        ensures
            final(self).wf(),
            final(self).phase == RestorePhase::Idle,
            !final(self).suppressing(),
            final(self).settings == old(self).settings,
            final(self).deletions == old(self).deletions,
            final(self).debounce == old(self).debounce,
    {
        self.phase = RestorePhase::Idle;
    }

    /// The deferred check at the end of a quiet window: true exactly when
    /// the token is still the subfolder's current mark, in which case the
    /// caller captures the subfolder.
    pub fn debounce_check(&self, subfolder: &String, token: u64) -> (r: bool)
        requires
            self.wf(),
        ensures
            r == (self.debounce@.contains_key(subfolder@) && self.debounce@[subfolder@]
                == token),
    {
        self.debounce.is_current(subfolder, token)
    }

    /// Routes one filesystem notification, at time `now`.
    ///
    /// While a restore is under way nothing happens.  A folder removal
    /// records deletion marks and asks for a state publish; any other
    /// removal records the marks silently.  A change whose paths all
    /// vanished is dropped; otherwise each affected subfolder outside the
    /// deletion grace window gets a fresh debounce token and a schedule
    /// request.
    pub fn handle_fs_event(&mut self, e: &FsEvent, now: i64) -> (acts: Vec<EngineAction>)
        requires
            old(self).wf(),
            now >= 0,
        ensures
            final(self).wf(),
            final(self).settings == old(self).settings,
            final(self).phase == old(self).phase,
            old(self).suppressing() ==> *final(self) == *old(self) && acts@.len() == 0,
            !old(self).suppressing() && (e.kind == FsEventKind::RemoveFolder || e.kind
                == FsEventKind::RemoveOther) ==> spec_routed_removal(
                *old(self),
                *e,
                now,
                *final(self),
                acts@,
            ),
            !old(self).suppressing() && e.kind == FsEventKind::Change ==> spec_routed_change(
                *old(self),
                *e,
                now as int,
                *final(self),
                acts@,
            ),
    {
        let mut acts: Vec<EngineAction> = Vec::new();
        if self.is_suppressing() {
            return acts;
        }
        let ghost root = self.settings.repo_save_path@;
        let ghost pv = paths_view(e.paths@);
        // Derive the affected subfolders, deduplicated, in order.
        let mut affected: Vec<String> = Vec::new();
        let np = e.paths.len();
        let mut i: usize = 0;
        while i < np
            invariant
                i <= np,
                np == e.paths@.len(),
                root == self.settings.repo_save_path@,
                pv == paths_view(e.paths@),
                view_seq(affected@) == spec_affected(root, pv.take(i as int)),
            decreases np - i,
        {
            let ghost pre = spec_affected(root, pv.take(i as int));
            proof {
                assert(pv.take(i + 1).drop_last() =~= pv.take(i as int));
                assert(pv.take(i + 1).last() == pv[i as int]);
                assert(pv[i as int] == e.paths@[i as int]@);
            }
            match crate::paths::subfolder_of(self.settings.repo_save_path.as_str(), e.paths[i].path.as_str()) {
                Some(name) => {
                    if !contains_name(&affected, &name) {
                        let ghost prev = affected@;
                        affected.push(name);
                        proof {
                            assert(view_seq(affected@) =~~= view_seq(prev).push(
                                spec_subfolder_of(root, pv[i as int].path)->0,
                            ));
                        }
                    }
                },
                None => {},
            }
            i += 1;
        }
        proof {
            assert(pv.take(np as int) =~= pv);
        }
        let ghost names = spec_affected(root, pv);
        match e.kind {
            FsEventKind::RemoveFolder | FsEventKind::RemoveOther => {
                let na = affected.len();
                let mut k: usize = 0;
                while k < na
                    invariant
                        k <= na,
                        na == affected@.len(),
                        now >= 0,
                        view_seq(affected@) == names,
                        self.deletions.wf(),
                        self.deletions@ == record_all(
                            old(self).deletions@,
                            names.take(k as int),
                            now,
                        ),
                        self.debounce == old(self).debounce,
                        self.settings == old(self).settings,
                        self.phase == old(self).phase,
                    decreases na - k,
                {
                    proof {
                        assert(names.take(k + 1).drop_last() =~= names.take(k as int));
                        assert(names.take(k + 1).last() == names[k as int]);
                        assert(affected@[k as int]@ == names[k as int]);
                    }
                    self.deletions.record(&affected[k], now);
                    k += 1;
                }
                proof {
                    assert(names.take(na as int) =~= names);
                }
                if e.kind == FsEventKind::RemoveFolder {
                    acts.push(EngineAction::PublishState);
                    proof {
                        assert(actions_view(acts@) =~~= seq![EngineActionV::PublishState]);
                    }
                } else {
                    proof {
                        assert(actions_view(acts@) =~~= Seq::<EngineActionV>::empty());
                    }
                }
            },
            FsEventKind::Change => {
                // Events whose paths all vanished already are discarded.
                let mut any_exists = false;
                let mut k: usize = 0;
                while k < np
                    invariant
                        k <= np,
                        np == e.paths@.len(),
                        pv == paths_view(e.paths@),
                        any_exists == spec_any_exists(pv.take(k as int)),
                    decreases np - k,
                {
                    proof {
                        assert(pv[k as int] == e.paths@[k as int]@);
                    }
                    if e.paths[k].exists {
                        any_exists = true;
                        proof {
                            assert(pv.take(k + 1)[k as int].exists);
                        }
                    }
                    proof {
                        if spec_any_exists(pv.take(k + 1)) && !spec_any_exists(pv.take(k as int))
                            && !pv[k as int].exists {
                            let w = choose|j: int|
                                0 <= j < pv.take(k + 1).len() && #[trigger] pv.take(
                                    k + 1,
                                )[j].exists;
                            assert(pv.take(k as int)[w].exists);
                        }
                    }
                    k += 1;
                }
                proof {
                    assert(pv.take(np as int) =~= pv);
                }
                if !any_exists {
                    return acts;
                }
                // Tokens for every affected subfolder must be available.
                let navail = affected.len() as u64;
                if u64::MAX - self.debounce.next < navail {
                    return acts;
                }
                let ghost dels = self.deletions@;
                let ghost next0 = self.debounce.next as int;
                let na = affected.len();
                let mut k: usize = 0;
                while k < na
                    invariant
                        k <= na,
                        na == affected@.len(),
                        now >= 0,
                        view_seq(affected@) == names,
                        names.len() == na,
                        dels == self.deletions@,
                        next0 + na <= u64::MAX,
                        self.deletions == old(self).deletions,
                        self.settings == old(self).settings,
                        self.phase == old(self).phase,
                        self.deletions.wf(),
                        self.debounce.wf(),
                        ({
                            let sched = names.take(k as int).filter(
                                sched_pred(dels, now as int),
                            );
                            &&& sched.len() <= k
                            &&& self.debounce.next == next0 + sched.len()
                            &&& self.debounce@ == spec_insert_tokens(
                                old(self).debounce@,
                                sched,
                                next0,
                            )
                            &&& actions_view(acts@) == spec_schedule_actions(sched, next0)
                        }),
                    decreases na - k,
                {
                    let ghost sched = names.take(k as int).filter(sched_pred(dels, now as int));
                    proof {
                        lemma_filter_take_step(names, sched_pred(dels, now as int), k as int);
                        assert(affected@[k as int]@ == names[k as int]);
                        names.take(k as int).lemma_filter_len(sched_pred(dels, now as int));
                        assert(names.take(k as int).len() == k);
                    }
                    if !self.deletions.is_recently_suppressed(&affected[k], now) {
                        proof {
                            assert(sched_pred(dels, now as int)(names[k as int]));
                        }
                        let t = self.debounce.note_change(&affected[k]);
                        let ghost preva = acts@;
                        acts.push(
                            EngineAction::Schedule { subfolder: affected[k].clone(), token: t },
                        );
                        proof {
                            let sched1 = names.take(k + 1).filter(sched_pred(dels, now as int));
                            assert(sched1 == sched.push(names[k as int]));
                            assert(sched1.drop_last() =~= sched);
                            assert(sched1.last() == names[k as int]);
                            assert(self.debounce@ =~= spec_insert_tokens(
                                old(self).debounce@,
                                sched1,
                                next0,
                            ));
                            assert(actions_view(acts@) =~~= actions_view(preva).push(
                                EngineActionV::Schedule {
                                    subfolder: names[k as int],
                                    token: next0 + sched.len(),
                                },
                            ));
                            assert(actions_view(acts@) =~~= spec_schedule_actions(
                                sched1,
                                next0,
                            ));
                        }
                    } else {
                        proof {
                            assert(!sched_pred(dels, now as int)(names[k as int]));
                        }
                    }
                    k += 1;
                }
                proof {
                    assert(names.take(na as int) =~= names);
                }
            },
        }
        acts
    }

    /// Routes one notification at the time the clock reads now.
    ///
    /// Whatever the clock returned: suppression discards the event whole,
    /// removals never schedule a capture, and a change leaves the deletion
    /// marks alone.
    pub fn handle_fs_event_now(&mut self, e: &FsEvent) -> (acts: Vec<EngineAction>)
        requires
            old(self).wf(),
        ensures
            final(self).wf(),
            final(self).settings == old(self).settings,
            final(self).phase == old(self).phase,
            old(self).suppressing() ==> *final(self) == *old(self) && acts@.len() == 0,
            !old(self).suppressing() && (e.kind == FsEventKind::RemoveFolder || e.kind
                == FsEventKind::RemoveOther) ==> exists|t: i64|
                0 <= t && #[trigger] spec_routed_removal(*old(self), *e, t, *final(self), acts@),
            !old(self).suppressing() && e.kind == FsEventKind::Change ==> exists|t: int|
                0 <= t && #[trigger] spec_routed_change(*old(self), *e, t, *final(self), acts@),
    {
        let mut now = crate::clock::now_millis();
        if now < 0 {
            now = 0;
        }
        let acts = self.handle_fs_event(e, now);
        proof {
            if !old(self).suppressing() {
                if e.kind == FsEventKind::RemoveFolder || e.kind == FsEventKind::RemoveOther {
                    assert(spec_routed_removal(*old(self), *e, now, *self, acts@));
                } else if e.kind == FsEventKind::Change {
                    assert(spec_routed_change(*old(self), *e, now as int, *self, acts@));
                }
            }
        }
        acts
    }
}

/// What a capture writes: the generation directory for the subfolder,
/// named by the timestamp the clock gave when the capture began.
pub struct CapturePlan {
    pub subfolder: String,
    pub timestamp: String,
}

/// Plans a capture of the subfolder, stamped with the current time.  The
/// timestamp comes from the clock; whatever it reads, it is wide enough to
/// hold every zero-padded component.
pub fn new_capture_plan(subfolder: &String) -> (p: CapturePlan)
    ensures
        p.subfolder@ == subfolder@,
        p.timestamp@.len() >= 15,
{
    CapturePlan { subfolder: subfolder.clone(), timestamp: crate::clock::now_timestamp() }
}

/// Deletion-echo law at the router: once a deletion for a subfolder is on
/// record at time `t`, a change event for it at time `now` schedules no
/// capture when it comes strictly less than the grace window later, and
/// schedules exactly one when it comes at or after the window's edge.
pub proof fn lemma_deletion_echo(
    dels: Map<Seq<char>, i64>,
    name: Seq<char>,
    t: i64,
    now: int,
)
    ensures
        ({
            let dels1 = record_all(dels, seq![name], t);
            let sched = seq![name].filter(sched_pred(dels1, now));
            &&& now - t < crate::tracker::DELETION_GRACE_MS ==> sched =~= Seq::<Seq<char>>::empty()
            &&& now - t >= crate::tracker::DELETION_GRACE_MS ==> sched =~= seq![name]
        }),
{
    reveal(Seq::filter);
    let dels1 = record_all(dels, seq![name], t);
    assert(seq![name].drop_last() =~= Seq::<Seq<char>>::empty());
    assert(record_all(dels, Seq::<Seq<char>>::empty(), t) == dels);
    assert(seq![name].last() == name);
    assert(dels1 == dels.insert(name, t));
    assert(dels1[name] == t);
    let pred = sched_pred(dels1, now);
    let sched = seq![name].filter(pred);
    assert(Seq::<Seq<char>>::empty().filter(pred) =~= Seq::<Seq<char>>::empty());
    assert(seq![name].drop_last().filter(pred) == Seq::<Seq<char>>::empty());
    assert(sched == (if pred(name) {
        Seq::<Seq<char>>::empty().push(name)
    } else {
        Seq::<Seq<char>>::empty()
    }));
    if now - t < crate::tracker::DELETION_GRACE_MS {
        assert(!pred(name));
    } else {
        assert(pred(name));
        assert(sched =~= Seq::<Seq<char>>::empty().push(name));
        assert(Seq::<Seq<char>>::empty().push(name) =~= seq![name]);
    }
}

/// Whether the list already carries this name.
fn contains_name(v: &Vec<String>, name: &String) -> (r: bool)
    ensures
        r == view_seq(v@).contains(name@),
{
    let n = v.len();
    let mut i: usize = 0;
    while i < n
        invariant
            i <= n,
            n == v@.len(),
            forall|k: int| 0 <= k < i ==> #[trigger] view_seq(v@)[k] != name@,
        decreases n - i,
    {
        if v[i] == *name {
            proof {
                assert(view_seq(v@)[i as int] == name@);
            }
            return true;
        }
        proof {
            assert(view_seq(v@)[i as int] == v@[i as int]@);
        }
        i += 1;
    }
    proof {
        if view_seq(v@).contains(name@) {
            let k = choose|k: int|
                0 <= k < view_seq(v@).len() && #[trigger] view_seq(v@)[k] == name@;
        }
    }
    false
}


/// After routing one change, every scheduled subfolder's mark is exactly
/// the token its schedule request carries, so the deferred check of an
/// undisturbed schedule always finds its token current and captures.
pub proof fn lemma_tokens_current_after_route(
    marks: Map<Seq<char>, u64>,
    names: Seq<Seq<char>>,
    next0: int,
    i: int,
)
    requires
        0 <= i < names.len(),
        forall|a: int, b: int| 0 <= a < b < names.len() ==> names[a] != names[b],
        0 <= next0,
        next0 + names.len() <= u64::MAX,
    ensures
        spec_insert_tokens(marks, names, next0).contains_key(names[i]),
        spec_insert_tokens(marks, names, next0)[names[i]] == (next0 + i) as u64,
    decreases names.len(),
{
    let out = spec_insert_tokens(marks, names, next0);
    let pre = names.drop_last();
    assert(forall|k: int| 0 <= k < pre.len() ==> pre[k] == names[k]);
    if i == names.len() - 1 {
        assert(out[names.last()] == (next0 + names.len() - 1) as u64);
        assert(names[i] == names.last());
    } else {
        lemma_tokens_current_after_route(marks, pre, next0, i);
        assert(names.last() == names[names.len() - 1]);
        assert(names[i] != names.last());
        assert(out[names[i]] == spec_insert_tokens(marks, pre, next0)[names[i]]);
    }
}

/// A token issued before the run began can never match a mark the run
/// wrote: a newer change always leaves a strictly larger token on record,
/// so the older change's deferred check finds itself stale and does
/// nothing.
pub proof fn lemma_stale_token_differs(
    marks: Map<Seq<char>, u64>,
    names: Seq<Seq<char>>,
    next0: int,
    i: int,
    t: u64,
)
    requires
        0 <= i < names.len(),
        forall|a: int, b: int| 0 <= a < b < names.len() ==> names[a] != names[b],
        0 <= next0,
        next0 + names.len() <= u64::MAX,
        (t as int) < next0,
    ensures
        spec_insert_tokens(marks, names, next0)[names[i]] != t,
{
    lemma_tokens_current_after_route(marks, names, next0, i);
    assert(next0 + i <= u64::MAX);
    assert(((next0 + i) as u64) as int == next0 + i);
}

} // verus!
