use reposaver::memo::encode_memo;
use reposaver::reconcile::{
    get_all_state, has_remaining_generations, DirEntryInfo, StoreFolderScan,
};
use reposaver::retention::enforce_generation_limit;

fn dir(name: &str) -> DirEntryInfo {
    DirEntryInfo { name: name.to_string(), is_dir: true }
}

fn file(name: &str) -> DirEntryInfo {
    DirEntryInfo { name: name.to_string(), is_dir: false }
}

fn strings(v: &[&str]) -> Vec<String> {
    v.iter().map(|s| s.to_string()).collect()
}

#[test]
fn retention_removes_exactly_the_oldest_excess() {
    let gens = strings(&[
        "20240101_000002",
        "20240101_000000",
        "20240101_000003",
        "20240101_000001",
    ]);
    let plan = enforce_generation_limit(gens, 2);
    assert_eq!(plan.remove, strings(&["20240101_000000", "20240101_000001"]));
    assert_eq!(plan.keep, strings(&["20240101_000002", "20240101_000003"]));
}

#[test]
fn retention_with_limit_one_keeps_only_the_newest() {
    let gens = strings(&["20240101_000000", "20240101_000001", "20240101_000002"]);
    let plan = enforce_generation_limit(gens, 1);
    assert_eq!(plan.remove, strings(&["20240101_000000", "20240101_000001"]));
    assert_eq!(plan.keep, strings(&["20240101_000002"]));
}

#[test]
fn retention_under_the_limit_removes_nothing() {
    let gens = strings(&["20240101_000001", "20240101_000000"]);
    let plan = enforce_generation_limit(gens, 100);
    assert!(plan.remove.is_empty());
    assert_eq!(plan.keep, strings(&["20240101_000000", "20240101_000001"]));
}

#[test]
fn retention_at_the_limit_removes_nothing() {
    let gens = strings(&["20240101_000001", "20240101_000000"]);
    let plan = enforce_generation_limit(gens, 2);
    assert!(plan.remove.is_empty());
    assert_eq!(plan.keep.len(), 2);
}

#[test]
fn capture_with_retention_two_leaves_the_two_newest() {
    // The watched root holds SaveData1 with three generations and limit 2;
    // a manual capture adds a fourth, and pruning must leave exactly the
    // two newest on disk.
    let after_capture = strings(&[
        "20240101_000000",
        "20240101_000001",
        "20240101_000002",
        "20240101_000003",
    ]);
    let plan = enforce_generation_limit(after_capture, 2);
    assert_eq!(plan.keep, strings(&["20240101_000002", "20240101_000003"]));
    assert_eq!(plan.remove, strings(&["20240101_000000", "20240101_000001"]));

    // Reconciling the store afterwards reports the two survivors, newest
    // first, with the source still present.
    let store = vec![StoreFolderScan {
        name: "SaveData1".to_string(),
        sidecar: None,
        entries: vec![dir("20240101_000002"), dir("20240101_000003")],
    }];
    let live = vec![dir("SaveData1")];
    let state = get_all_state(&store, &live);
    assert_eq!(state.len(), 1);
    assert_eq!(state[0].name, "SaveData1");
    let stamps: Vec<&str> = state[0].backups.iter().map(|b| b.timestamp.as_str()).collect();
    assert_eq!(stamps, vec!["20240101_000003", "20240101_000002"]);
    assert!(state[0].source_exists);
    assert_eq!(state[0].memo, "");
}

#[test]
fn reconcile_is_idempotent_on_the_same_scan() {
    let store = vec![
        StoreFolderScan {
            name: "Beta".to_string(),
            sidecar: Some(encode_memo("note b")),
            entries: vec![dir("20240101_120000"), file("meta.json")],
        },
        StoreFolderScan {
            name: "Alpha".to_string(),
            sidecar: None,
            entries: vec![dir("20240102_000000"), dir("20240101_000000")],
        },
    ];
    let live = vec![dir("Gamma"), dir("Alpha"), file("stray.txt")];
    let first = get_all_state(&store, &live);
    let second = get_all_state(&store, &live);
    assert_eq!(first.len(), second.len());
    for (a, b) in first.iter().zip(second.iter()) {
        assert_eq!(a.name, b.name);
        assert_eq!(a.memo, b.memo);
        assert_eq!(a.source_exists, b.source_exists);
        let sa: Vec<&str> = a.backups.iter().map(|x| x.timestamp.as_str()).collect();
        let sb: Vec<&str> = b.backups.iter().map(|x| x.timestamp.as_str()).collect();
        assert_eq!(sa, sb);
    }
}

#[test]
fn reconcile_sorts_by_name_and_merges_both_roots() {
    let store = vec![StoreFolderScan {
        name: "Beta".to_string(),
        sidecar: None,
        entries: vec![dir("20240101_000000")],
    }];
    let live = vec![dir("Gamma"), dir("Alpha")];
    let state = get_all_state(&store, &live);
    let names: Vec<&str> = state.iter().map(|s| s.name.as_str()).collect();
    assert_eq!(names, vec!["Alpha", "Beta", "Gamma"]);
    // Beta lives only in the store: history kept, source gone.
    assert!(!state[1].source_exists);
    // Alpha and Gamma are live-only: present, no history yet.
    assert!(state[0].source_exists);
    assert!(state[0].backups.is_empty());
    assert!(state[2].source_exists);
    assert!(state[2].backups.is_empty());
}

#[test]
fn reconcile_excludes_the_sidecar_from_generations() {
    let store = vec![StoreFolderScan {
        name: "Save1".to_string(),
        sidecar: Some(encode_memo("hello")),
        entries: vec![file("meta.json"), dir("20240101_000000")],
    }];
    let state = get_all_state(&store, &vec![]);
    assert_eq!(state[0].backups.len(), 1);
    assert_eq!(state[0].backups[0].timestamp, "20240101_000000");
    assert_eq!(state[0].backups[0].timestamp_raw, 0);
    assert_eq!(state[0].memo, "hello");
    assert!(!state[0].source_exists);
}

#[test]
fn memo_survives_with_zero_generations() {
    // setMemo then reconcile: the memo reads back even though the
    // subfolder has no generation at all.
    let store = vec![StoreFolderScan {
        name: "Save1".to_string(),
        sidecar: Some(encode_memo("note")),
        entries: vec![file("meta.json")],
    }];
    let state = get_all_state(&store, &vec![]);
    assert_eq!(state.len(), 1);
    assert_eq!(state[0].memo, "note");
    assert!(state[0].backups.is_empty());
}

#[test]
fn live_file_counts_for_source_exists_but_not_as_subfolder() {
    let store = vec![StoreFolderScan {
        name: "Save1".to_string(),
        sidecar: None,
        entries: vec![dir("20240101_000000")],
    }];
    // The live root holds a plain file named Save1: the source "exists",
    // and a stray file elsewhere never becomes a subfolder.
    let live = vec![file("Save1"), file("notes.txt")];
    let state = get_all_state(&store, &live);
    assert_eq!(state.len(), 1);
    assert!(state[0].source_exists);
}

#[test]
fn last_generation_decision_ignores_the_sidecar() {
    // After deleting the only generation, just the sidecar remains: the
    // subfolder directory goes, and the memo with it.
    let only_meta = vec![file("meta.json")];
    assert!(!has_remaining_generations(&only_meta));
    let with_gen = vec![file("meta.json"), dir("20240101_000000")];
    assert!(has_remaining_generations(&with_gen));
    let meta_dir = vec![DirEntryInfo { name: "meta.json".to_string(), is_dir: true }];
    assert!(!has_remaining_generations(&meta_dir));
    assert!(!has_remaining_generations(&vec![]));
}
