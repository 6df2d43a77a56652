use reposaver::engine::{BackupSystem, EngineAction, FsEvent, FsEventKind, PathInfo, RestorePhase};
use reposaver::settings::AppSettings;

fn test_settings() -> AppSettings {
    AppSettings {
        repo_save_path: "C:/root".to_string(),
        theme: "system".to_string(),
        max_generations: 10,
    }
}

fn change_event(path: &str, exists: bool) -> FsEvent {
    FsEvent {
        kind: FsEventKind::Change,
        paths: vec![PathInfo { path: path.to_string(), exists }],
    }
}

fn schedules(acts: &[EngineAction]) -> Vec<(String, u64)> {
    acts.iter()
        .filter_map(|a| match a {
            EngineAction::Schedule { subfolder, token } => Some((subfolder.clone(), *token)),
            _ => None,
        })
        .collect()
}

#[test]
fn burst_of_changes_schedules_one_surviving_check() {
    // Two change events for the same subfolder inside one burst: both get a
    // deferred check, but only the last one's token survives, so exactly
    // one capture fires.
    let mut sys = BackupSystem::new(test_settings());
    let a1 = sys.handle_fs_event(&change_event("C:/root/Save1/a.dat", true), 1_000);
    let a2 = sys.handle_fs_event(&change_event("C:/root/Save1/b.dat", true), 1_100);
    let s1 = schedules(&a1);
    let s2 = schedules(&a2);
    assert_eq!(s1.len(), 1);
    assert_eq!(s2.len(), 1);
    assert_eq!(s1[0].0, "Save1");
    assert_eq!(s2[0].0, "Save1");
    assert!(!sys.debounce_check(&"Save1".to_string(), s1[0].1));
    assert!(sys.debounce_check(&"Save1".to_string(), s2[0].1));
}

#[test]
fn independent_subfolders_keep_their_own_tokens() {
    let mut sys = BackupSystem::new(test_settings());
    let a1 = sys.handle_fs_event(&change_event("C:/root/Save1/a.dat", true), 1_000);
    let a2 = sys.handle_fs_event(&change_event("C:/root/Save2/b.dat", true), 1_050);
    let s1 = schedules(&a1);
    let s2 = schedules(&a2);
    assert!(sys.debounce_check(&"Save1".to_string(), s1[0].1));
    assert!(sys.debounce_check(&"Save2".to_string(), s2[0].1));
}

#[test]
fn one_event_with_many_paths_dedups_subfolders() {
    let mut sys = BackupSystem::new(test_settings());
    let e = FsEvent {
        kind: FsEventKind::Change,
        paths: vec![
            PathInfo { path: "C:/root/Save1/a.dat".to_string(), exists: true },
            PathInfo { path: "C:/root/Save1/b.dat".to_string(), exists: true },
            PathInfo { path: "C:/root/Save2/c.dat".to_string(), exists: true },
        ],
    };
    let acts = sys.handle_fs_event(&e, 1_000);
    let s = schedules(&acts);
    assert_eq!(s.len(), 2);
    assert_eq!(s[0].0, "Save1");
    assert_eq!(s[1].0, "Save2");
}

#[test]
fn deletion_suppresses_changes_inside_grace_window() {
    // A deletion for Save1 at t, then a modify echo: suppressed strictly
    // inside the 500 ms window, captured from the window's edge on.
    let mut sys = BackupSystem::new(test_settings());
    let del = FsEvent {
        kind: FsEventKind::RemoveOther,
        paths: vec![PathInfo { path: "C:/root/Save1/a.dat".to_string(), exists: false }],
    };
    let acts = sys.handle_fs_event(&del, 1_000);
    assert!(acts.is_empty());
    let echo = sys.handle_fs_event(&change_event("C:/root/Save1/a.dat", true), 1_499);
    assert!(schedules(&echo).is_empty());
    let late = sys.handle_fs_event(&change_event("C:/root/Save1/a.dat", true), 1_501);
    assert_eq!(schedules(&late).len(), 1);
}

#[test]
fn deletion_window_boundary_at_exactly_500() {
    let mut sys = BackupSystem::new(test_settings());
    let del = FsEvent {
        kind: FsEventKind::RemoveOther,
        paths: vec![PathInfo { path: "C:/root/Save1/a.dat".to_string(), exists: false }],
    };
    sys.handle_fs_event(&del, 1_000);
    let edge = sys.handle_fs_event(&change_event("C:/root/Save1/a.dat", true), 1_500);
    assert_eq!(schedules(&edge).len(), 1);
}

#[test]
fn folder_removal_publishes_state_and_never_captures() {
    let mut sys = BackupSystem::new(test_settings());
    let e = FsEvent {
        kind: FsEventKind::RemoveFolder,
        paths: vec![PathInfo { path: "C:/root/Save1".to_string(), exists: false }],
    };
    let acts = sys.handle_fs_event(&e, 1_000);
    assert_eq!(acts.len(), 1);
    assert!(matches!(acts[0], EngineAction::PublishState));
}

#[test]
fn vanished_paths_are_discarded() {
    let mut sys = BackupSystem::new(test_settings());
    let acts = sys.handle_fs_event(&change_event("C:/root/Save1/a.dat", false), 1_000);
    assert!(acts.is_empty());
}

#[test]
fn restore_suppresses_all_events_until_settled() {
    let mut sys = BackupSystem::new(test_settings());
    sys.begin_restore();
    assert!(sys.is_suppressing());
    let during_copy = sys.handle_fs_event(&change_event("C:/root/Save1/a.dat", true), 1_000);
    assert!(during_copy.is_empty());
    sys.finish_restore_copy();
    let during_settle = sys.handle_fs_event(&change_event("C:/root/Save1/a.dat", true), 1_500);
    assert!(during_settle.is_empty());
    sys.settle_complete();
    assert!(!sys.is_suppressing());
    let after = sys.handle_fs_event(&change_event("C:/root/Save1/a.dat", true), 2_600);
    assert_eq!(schedules(&after).len(), 1);
}

#[test]
fn restore_phases_advance_in_order() {
    let mut sys = BackupSystem::new(test_settings());
    assert_eq!(sys.phase, RestorePhase::Idle);
    sys.begin_restore();
    assert_eq!(sys.phase, RestorePhase::Restoring);
    sys.finish_restore_copy();
    assert_eq!(sys.phase, RestorePhase::Settling);
    sys.settle_complete();
    assert_eq!(sys.phase, RestorePhase::Idle);
}

#[test]
fn update_settings_replaces_the_configuration() {
    let mut sys = BackupSystem::new(test_settings());
    let mut s = test_settings();
    s.repo_save_path = "D:/elsewhere".to_string();
    s.max_generations = 3;
    sys.update_settings(s);
    let got = sys.get_settings();
    assert_eq!(got.repo_save_path, "D:/elsewhere");
    assert_eq!(got.max_generations, 3);
    assert_eq!(got.theme, "system");
}

#[test]
fn events_outside_the_root_are_ignored() {
    let mut sys = BackupSystem::new(test_settings());
    let acts = sys.handle_fs_event(&change_event("D:/other/Save1/a.dat", true), 1_000);
    assert!(acts.is_empty());
}

#[test]
fn capture_plan_keeps_the_subfolder_and_stamps_wide_enough() {
    let p = reposaver::engine::new_capture_plan(&"Save1".to_string());
    assert_eq!(p.subfolder, "Save1");
    assert!(p.timestamp.chars().count() >= 15);
}
