//! One-way directory-tree synchronisation: the decisions of the compare and
//! copy stages, the quiescence counter that ends a run, and the laws they obey.

mod compare;
mod copy;
mod entry;
mod pass;
mod preflight;
mod settings;
mod tracker;
mod tree;

pub use compare::{classify, compare_listing, find_by_name, last_match, step_of, Step};
pub use copy::{
    copy_action, copy_action_of, follow_up, follow_up_of, lemma_counted_copy_is_settled, CopyAction,
    FollowUp,
};
pub use entry::{names_equal, views, Entry, EntryKind, EntryView};
pub use pass::{
    after_pass, copied, lemma_conflict_is_local, lemma_empty_target_mirrors, lemma_no_overwrite,
    lemma_second_pass_copies_nothing, unique_names,
};
pub use preflight::{first_existing, preflight, preflight_of, PathState, PreflightError};
pub use settings::TokioSettings;
pub use tracker::{
    apply, count_of, counter_after, disciplined, lemma_quiescence_observed_once,
    lemma_tracker_quiescence, observes_quiescence, quiescence_observations, ActivityTracker,
    TrackerOp,
};
pub use tree::{
    copy_node, kept, kept_node, lemma_conflict_skipped, lemma_mirror, lemma_run_idempotent,
    lemma_run_preserves_target, listing, node_preserved, placed, preserved, sync_dir, tree_wf, Node,
};
