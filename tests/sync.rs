use treesync::{
    classify, compare_listing, copy_action, find_by_name, follow_up, names_equal, preflight,
    ActivityTracker, CopyAction, Entry, EntryKind, FollowUp, PathState, PreflightError, Step,
    TokioSettings,
};

fn file(name: &str) -> Entry {
    Entry::new(name.as_bytes().to_vec(), EntryKind::File)
}

fn dir(name: &str) -> Entry {
    Entry::new(name.as_bytes().to_vec(), EntryKind::Dir)
}

fn is_copy(s: &Step) -> bool {
    matches!(s, Step::Copy { .. })
}

fn is_conflict(s: &Step) -> bool {
    matches!(s, Step::Conflict { .. })
}

#[test]
fn tracker_starts_at_given_value() {
    let t = ActivityTracker::new(1);
    assert_eq!(t.outstanding(), 1);
    let t = ActivityTracker::new(7);
    assert_eq!(t.outstanding(), 7);
}

#[test]
fn tracker_pop_from_one_reports_quiescence() {
    let mut t = ActivityTracker::new(1);
    assert!(t.pop());
    assert_eq!(t.outstanding(), 0);
}

#[test]
fn tracker_pop_above_one_does_not_report() {
    let mut t = ActivityTracker::new(1);
    t.push();
    t.push();
    assert_eq!(t.outstanding(), 3);
    assert!(!t.pop());
    assert!(!t.pop());
    assert!(t.pop());
    assert_eq!(t.outstanding(), 0);
}

#[test]
fn tracker_exactly_one_pop_observes_zero() {
    // Root pass discovers two directories; each of those discovers one more.
    let mut t = ActivityTracker::new(1);
    let mut observed = 0;
    t.push();
    t.push();
    if t.pop() {
        observed += 1;
    }
    t.push();
    if t.pop() {
        observed += 1;
    }
    t.push();
    if t.pop() {
        observed += 1;
    }
    if t.pop() {
        observed += 1;
    }
    if t.pop() {
        observed += 1;
    }
    assert_eq!(observed, 1);
    assert_eq!(t.outstanding(), 0);
}

#[test]
fn settings_recursive() {
    let s = TokioSettings::new(true);
    assert_eq!(s.compare_workers_count, 16);
    assert_eq!(s.copy_queue_size, 1024);
    assert_eq!(s.copy_workers_count, 16);
}

#[test]
fn settings_shallow() {
    let s = TokioSettings::new(false);
    assert_eq!(s.compare_workers_count, 1);
    assert_eq!(s.copy_queue_size, 1024);
    assert_eq!(s.copy_workers_count, 16);
}

#[test]
fn names_compare_bytewise() {
    assert!(names_equal(&b"a.txt".to_vec(), &b"a.txt".to_vec()));
    assert!(!names_equal(&b"a.txt".to_vec(), &b"a.txT".to_vec()));
    assert!(!names_equal(&b"a".to_vec(), &b"ab".to_vec()));
    assert!(names_equal(&Vec::new(), &Vec::new()));
}

#[test]
fn lookup_finds_last_of_a_name() {
    let tgt = vec![file("x"), dir("y"), file("y")];
    assert_eq!(find_by_name(&tgt, &b"y".to_vec()), Some(2));
    assert_eq!(find_by_name(&tgt, &b"x".to_vec()), Some(0));
    assert_eq!(find_by_name(&tgt, &b"z".to_vec()), None);
    assert_eq!(find_by_name(&Vec::new(), &b"x".to_vec()), None);
}

#[test]
fn classify_missing_file_is_copied_untracked() {
    assert_eq!(classify(&file("a"), &vec![], true), Step::Copy { track: false });
    assert_eq!(classify(&file("a"), &vec![file("b")], false), Step::Copy { track: false });
}

#[test]
fn classify_missing_dir_is_tracked_only_when_recursing() {
    assert_eq!(classify(&dir("d"), &vec![], true), Step::Copy { track: true });
    assert_eq!(classify(&dir("d"), &vec![], false), Step::Copy { track: false });
}

#[test]
fn classify_existing_dir_descends_only_when_recursing() {
    let tgt = vec![file("a"), dir("d")];
    assert_eq!(classify(&dir("d"), &tgt, true), Step::Descend { target: 1 });
    assert_eq!(classify(&dir("d"), &tgt, false), Step::Skip);
}

#[test]
fn classify_kind_mismatch_is_a_conflict_both_ways() {
    assert_eq!(classify(&dir("c"), &vec![file("c")], true), Step::Conflict { target: 0 });
    assert_eq!(classify(&file("c"), &vec![dir("x"), dir("c")], false), Step::Conflict { target: 1 });
}

#[test]
fn classify_existing_file_is_skipped() {
    assert_eq!(classify(&file("a"), &vec![file("a")], true), Step::Skip);
}

#[test]
fn copy_action_for_each_kind() {
    assert_eq!(copy_action(EntryKind::File, true), CopyAction::CopyFile);
    assert_eq!(copy_action(EntryKind::File, false), CopyAction::CopyFile);
    assert_eq!(copy_action(EntryKind::Dir, true), CopyAction::CreateDir { then_compare: true });
    assert_eq!(copy_action(EntryKind::Dir, false), CopyAction::CreateDir { then_compare: false });
}

#[test]
fn empty_source_listing_yields_nothing() {
    assert!(compare_listing(&vec![], &vec![file("a")], true).is_empty());
}

#[test]
fn recursive_copy_into_empty_target() {
    // Root pass: a.txt and sub/ are both missing.
    let root = compare_listing(&vec![file("a.txt"), dir("sub")], &vec![], true);
    assert_eq!(root, vec![Step::Copy { track: false }, Step::Copy { track: true }]);
    assert_eq!(copy_action(EntryKind::File, true), CopyAction::CopyFile);
    assert_eq!(copy_action(EntryKind::Dir, true), CopyAction::CreateDir { then_compare: true });
    // The pass queued for the new sub/ finds b.txt missing.
    let sub = compare_listing(&vec![file("b.txt")], &vec![], true);
    assert_eq!(sub, vec![Step::Copy { track: false }]);
    // Counter: root, plus sub/ counted by the root pass; both passes pop.
    let mut t = ActivityTracker::new(1);
    t.push();
    assert!(!t.pop());
    assert!(t.pop());
}

#[test]
fn existing_file_is_not_overwritten() {
    let steps = compare_listing(&vec![file("a.txt")], &vec![file("a.txt")], true);
    assert_eq!(steps, vec![Step::Skip]);
}

#[test]
fn directory_over_file_is_one_conflict() {
    let steps = compare_listing(&vec![dir("conflict")], &vec![file("conflict")], true);
    assert_eq!(steps, vec![Step::Conflict { target: 0 }]);
    assert_eq!(steps.iter().filter(|s| is_conflict(s)).count(), 1);
}

#[test]
fn conflict_does_not_stop_other_entries() {
    let steps = compare_listing(
        &vec![file("x"), dir("conflict"), file("y")],
        &vec![file("conflict"), file("x")],
        true,
    );
    assert_eq!(steps, vec![Step::Skip, Step::Conflict { target: 0 }, Step::Copy { track: false }]);
}

#[test]
fn shallow_run_creates_empty_directory_only() {
    let steps = compare_listing(&vec![dir("empty")], &vec![], false);
    assert_eq!(steps, vec![Step::Copy { track: false }]);
    assert_eq!(copy_action(EntryKind::Dir, false), CopyAction::CreateDir { then_compare: false });
    // Nothing was counted, so the root pass alone drains the run.
    let mut t = ActivityTracker::new(1);
    assert!(t.pop());
}

#[test]
fn second_run_copies_nothing() {
    let root = compare_listing(&vec![file("a.txt"), dir("sub")], &vec![file("a.txt"), dir("sub")], true);
    assert_eq!(root, vec![Step::Skip, Step::Descend { target: 1 }]);
    let sub = compare_listing(&vec![file("b.txt")], &vec![file("b.txt")], true);
    assert_eq!(sub, vec![Step::Skip]);
    assert_eq!(root.iter().chain(sub.iter()).filter(|s| is_copy(s)).count(), 0);
    assert_eq!(root.iter().chain(sub.iter()).filter(|s| is_conflict(s)).count(), 0);
}

#[test]
fn second_run_after_partial_target() {
    // First pass copies b and c; after the copies the same pass copies nothing.
    let src = vec![file("a"), file("b"), dir("c")];
    let first = compare_listing(&src, &vec![file("a")], true);
    assert_eq!(first, vec![Step::Skip, Step::Copy { track: false }, Step::Copy { track: true }]);
    let second = compare_listing(&src, &vec![file("a"), file("b"), dir("c")], true);
    assert_eq!(second, vec![Step::Skip, Step::Skip, Step::Descend { target: 2 }]);
}

#[test]
fn preflight_existing_target() {
    assert_eq!(preflight(PathState::Dir, &vec![PathState::Dir, PathState::Dir], false), Ok(0));
    assert_eq!(preflight(PathState::Dir, &vec![PathState::Dir, PathState::Dir], true), Ok(0));
}

#[test]
fn preflight_missing_leaf() {
    let states = vec![PathState::Missing, PathState::Dir, PathState::Dir];
    assert_eq!(preflight(PathState::Dir, &states, false), Ok(1));
    assert_eq!(preflight(PathState::Dir, &vec![PathState::Missing], false), Ok(1));
}

#[test]
fn preflight_missing_ancestors() {
    let states = vec![PathState::Missing, PathState::Missing, PathState::Missing, PathState::Dir];
    assert_eq!(preflight(PathState::Dir, &states, false), Err(PreflightError::ParentMissing));
    assert_eq!(preflight(PathState::Dir, &states, true), Ok(3));
}

#[test]
fn preflight_file_in_path() {
    assert_eq!(
        preflight(PathState::Dir, &vec![PathState::File, PathState::Dir], true),
        Err(PreflightError::NotADirectory { index: 0 })
    );
    assert_eq!(
        preflight(PathState::Dir, &vec![PathState::Missing, PathState::Missing, PathState::File, PathState::Dir], true),
        Err(PreflightError::NotADirectory { index: 2 })
    );
    assert_eq!(
        preflight(PathState::Dir, &vec![PathState::Missing, PathState::File], false),
        Err(PreflightError::NotADirectory { index: 1 })
    );
}

#[test]
fn preflight_source_missing() {
    assert_eq!(
        preflight(PathState::Missing, &vec![PathState::Dir], true),
        Err(PreflightError::SourceMissing)
    );
}

#[test]
fn follow_up_after_copy() {
    assert_eq!(follow_up(CopyAction::CreateDir { then_compare: true }, true), FollowUp::QueueCompare);
    assert_eq!(follow_up(CopyAction::CreateDir { then_compare: true }, false), FollowUp::Release);
    assert_eq!(follow_up(CopyAction::CreateDir { then_compare: false }, true), FollowUp::Done);
    assert_eq!(follow_up(CopyAction::CreateDir { then_compare: false }, false), FollowUp::Done);
    assert_eq!(follow_up(CopyAction::CopyFile, false), FollowUp::Done);
}

#[test]
fn counted_steps() {
    assert!(Step::Copy { track: true }.counts_pass());
    assert!(!Step::Copy { track: false }.counts_pass());
    assert!(Step::Descend { target: 0 }.counts_pass());
    assert!(!Step::Conflict { target: 0 }.counts_pass());
    assert!(!Step::Skip.counts_pass());
}
