//! Process trees of one user, read from the Linux process table: parsing
//! status files, arranging processes under their parents, searching and
//! cutting the forest, and drawing it as text.
use vstd::prelude::*;

pub mod cli;
pub mod ordered;
pub mod procfs;
pub mod render;
pub mod text;
pub mod tree;
pub mod user;

pub use cli::{
    is_live_mode, live_step, plan_for_target, plan_run, render_report, render_report_checked,
    select_target, should_use_color, validate_find,
    validate_interval, version_text, version_text_with_hash, Args, LiveAction, RunPlan, RunRequest,
    ViewOptions, AUTHOR, LIVE_POLL_MILLIS, DEFAULT_INTERVAL_SECONDS, MAX_INTERVAL_SECONDS, MIN_INTERVAL_SECONDS,
    REPOSITORY, VERSION,
};
pub use procfs::{parse_status, pid_of_entry, report_from_statuses, Process, ScanReport};
pub use render::{
    paint, render_forest, render_live_footer, render_summary, render_unreadable_note,
    RenderOptions, Tone,
};
pub use tree::{
    build_forest, limit_depth, matching_process_ids, prune_for_matches, walk_ends_at_root,
    ProcessForest,
};
pub use user::{current_user, resolve_user_or_uid, target_for_uid, target_from_lookup, TargetUser, UserEntry};

verus! {
} // verus!
