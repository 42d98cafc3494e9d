//! The decisions of the command line: version text, the checks of the
//! options, which user to show, and the whole text of one view of the
//! process table.
use vstd::prelude::*;
use vstd::string::StringExecFns;

use crate::ordered::sorted_elements;
use crate::procfs::Process;
use crate::procfs::ScanReport;
use crate::procfs::text_view;
use crate::render::RenderOptions;
use crate::render::forest_text;
use crate::render::live_footer_text;
use crate::render::render_forest;
use crate::render::render_live_footer;
use crate::render::render_summary;
use crate::render::render_unreadable_note;
use crate::render::summary_text;
use crate::render::unreadable_note_text;
use crate::text::append_decimal;
use crate::text::chars_of;
use crate::text::decimal;
use crate::text::parse_u32;
use crate::text::string_from_range;
use crate::text::trim;
use crate::text::trim_range;
use crate::tree::build_forest;
use crate::tree::walk_ends_at_root;
use crate::tree::by_pid;
use crate::tree::family_of;
use crate::tree::forest_of;
use crate::tree::limit_depth;
use crate::tree::lemma_family_top_levels;
use crate::tree::lemma_wf_roots_acyclic;
use crate::tree::matched_pids;
use crate::tree::matching_process_ids;
use crate::tree::name_matches;
use crate::tree::prune_for_matches;
use crate::tree::reaches_root;
use crate::tree::top_levels;
use crate::user::TargetUser;
use crate::user::current_user;
use crate::user::is_number;
use crate::user::has_nul;
use crate::user::lookup_failure_text;
use crate::user::errno_description;
use crate::user::label_text;
use crate::user::resolve_user_or_uid;

verus! {

broadcast use vstd::std_specs::btree::group_btree_axioms, vstd::laws_cmp::group_laws_cmp;

/// The version of this program.
pub const VERSION: &'static str = "1.0.0";

/// Who wrote it.
pub const AUTHOR: &'static str = "rezky_nightky";

/// Where it is kept.
pub const REPOSITORY: &'static str = "github.com/oxyzenQ/pidnest";

/// The refresh interval of the live view when none is given.
pub const DEFAULT_INTERVAL_SECONDS: u64 = 6;

/// The shortest refresh interval allowed.
pub const MIN_INTERVAL_SECONDS: u64 = 3;

/// The longest refresh interval allowed.
pub const MAX_INTERVAL_SECONDS: u64 = 60;

/// The options of the command line.
#[derive(Debug)]
pub struct Args {
    /// Username or numeric UID to inspect
    pub user_or_uid: Option<String>,
    /// Show processes owned by the current user
    pub me: bool,
    /// Continuously refresh the process tree
    pub live: bool,
    /// Alias for --live
    pub watch: bool,
    /// Live refresh interval in seconds
    pub interval: Option<u64>,
    /// Limit rendered tree depth, where 0 shows only header and summary
    pub depth: Option<usize>,
    /// Show process families matching a case-insensitive name substring
    pub find: Option<String>,
    /// Hide pid=<PID> labels
    pub no_pid: bool,
    /// Disable ANSI color output
    pub no_color: bool,
    /// Print version information
    pub version: bool,
}

/// Which part of the process table is shown: down to a depth, and only the
/// families of processes whose names contain a pattern.
#[derive(Debug, Clone, PartialEq, Eq)]
pub struct ViewOptions {
    pub max_depth: Option<usize>,
    pub find: Option<String>,
}

/// The version text for a build with commit `hash`: `unknown` stands for a
/// hash that is empty or only whitespace, and the hash is shown trimmed.
pub open spec fn version_text_for(hash: Seq<char>) -> Seq<char> {
    let h = if trim(hash).len() == 0 {
        "unknown"@
    } else {
        trim(hash)
    };
    "pidnest v"@ + VERSION@ + " ("@ + h + ")\n© 2026 "@ + AUTHOR@ + "\nMIT · "@ + REPOSITORY@
}

/// The version, commit, author, licence and home of this program, for a
/// build whose commit hash is `build_hash`, or `unknown` where the build
/// recorded none.
pub fn version_text(build_hash: Option<&str>) -> (r: String)
    ensures
        r@ == version_text_for(
            match build_hash {
                Some(h) => h@,
                None => "unknown"@,
            },
        ),
{
    match build_hash {
        Some(h) => version_text_with_hash(h),
        None => version_text_with_hash("unknown"),
    }
}

/// The version text with the commit `git_hash`, trimmed; `unknown` where it
/// is empty or only whitespace.
pub fn version_text_with_hash(git_hash: &str) -> (r: String)
    ensures
        r@ == version_text_for(git_hash@),
{
    let s = chars_of(git_hash);
    let (a, b) = trim_range(&s, 0, s.len());
    assert(s@.subrange(0, s@.len() as int) =~= git_hash@);
    let hash = if a == b {
        String::from_str("unknown")
    } else {
        string_from_range(&s, a, b)
    };
    let mut out = String::from_str("pidnest v");
    out.append(VERSION);
    out.append(" (");
    out.append(hash.as_str());
    out.append(")\n© 2026 ");
    out.append(AUTHOR);
    out.append("\nMIT · ");
    out.append(REPOSITORY);
    out
}

/// The message for an interval out of bounds.
pub open spec fn interval_range_text() -> Seq<char> {
    "--interval must be between "@ + decimal(MIN_INTERVAL_SECONDS as nat) + " and "@ + decimal(
        MAX_INTERVAL_SECONDS as nat,
    ) + " seconds"@
}

/// The refresh interval that the options give: the default where none is
/// given; an interval only with the live view, and only within the bounds.
pub open spec fn interval_check(live: bool, interval: Option<u64>) -> Result<u64, Seq<char>> {
    match interval {
        Some(seconds) => if !live {
            Err("--interval requires --live"@)
        } else if seconds < MIN_INTERVAL_SECONDS || seconds > MAX_INTERVAL_SECONDS {
            Err(interval_range_text())
        } else {
            Ok(seconds)
        },
        None => Ok(DEFAULT_INTERVAL_SECONDS),
    }
}

/// Checks the refresh interval against the live view and the bounds.
pub fn validate_interval(live: bool, interval: Option<u64>) -> (r: Result<u64, String>)
    ensures
        match interval_check(live, interval) {
            Ok(s) => r == Ok::<u64, String>(s),
            Err(msg) => r matches Err(e) && e@ == msg,
        },
{
    match interval {
        Some(seconds) => {
            if !live {
                Err(String::from_str("--interval requires --live"))
            } else if seconds < MIN_INTERVAL_SECONDS || seconds > MAX_INTERVAL_SECONDS {
                let mut e = String::from_str("--interval must be between ");
                append_decimal(&mut e, MIN_INTERVAL_SECONDS);
                e.append(" and ");
                append_decimal(&mut e, MAX_INTERVAL_SECONDS);
                e.append(" seconds");
                Err(e)
            } else {
                Ok(seconds)
            }
        },
        None => Ok(DEFAULT_INTERVAL_SECONDS),
    }
}

/// Whether the live view is asked for, by `--live` or its alias `--watch`.
pub fn is_live_mode(live: bool, watch: bool) -> (r: bool)
    ensures
        r == (live || watch),
{
    live || watch
}

/// Refuses a search pattern that is empty or only whitespace.
pub fn validate_find(find: Option<String>) -> (r: Result<Option<String>, String>)
    ensures
        match find {
            Some(p) => if trim(p@).len() == 0 {
                r matches Err(e) && e@ == "--find requires a non-empty pattern"@
            } else {
                r matches Ok(Some(q)) && q@ == p@
            },
            None => r matches Ok(None),
        },
{
    match find {
        Some(pattern) => {
            let s = chars_of(pattern.as_str());
            let (a, b) = trim_range(&s, 0, s.len());
            assert(s@.subrange(0, s@.len() as int) =~= pattern@);
            if a == b {
                Err(String::from_str("--find requires a non-empty pattern"))
            } else {
                Ok(Some(pattern))
            }
        },
        None => Ok(None),
    }
}

/// Whether colour is used: not turned off by `--no-color` nor by the
/// `NO_COLOR` environment variable, and standard output is a terminal.
pub fn should_use_color(no_color: bool, no_color_env: bool, stdout_is_terminal: bool) -> (r: bool)
    ensures
        r == (!no_color && !no_color_env && stdout_is_terminal),
{
    !no_color && !no_color_env && stdout_is_terminal
}

/// The user to show: the user running the program for `--me`, the user
/// named on the command line otherwise; exactly one of the two is required.
pub fn select_target(me: bool, user_or_uid: Option<String>) -> (r: Result<TargetUser, String>)
    ensures
        me && user_or_uid is None ==> r is Ok,
        me && user_or_uid is Some ==> (r matches Err(e) && e@
            == "use either --me or USER_OR_UID, not both"@),
        !me && user_or_uid is None ==> (r matches Err(e) && e@ == "expected USER_OR_UID or --me"@),
        !me ==> (user_or_uid matches Some(v) ==> {
            &&& v@.len() == 0 ==> (r matches Err(e) && e@ == "empty user or UID"@)
            &&& is_number(v@) && parse_u32(v@) is None ==> (r matches Err(e) && e@
                == "invalid UID: "@ + v@)
            &&& is_number(v@) ==> (parse_u32(v@) matches Some(uid) ==> (r matches Ok(t) && t.uid
                == uid))
            &&& v@.len() > 0 && !is_number(v@) ==> match r {
                Ok(_) => true,
                Err(e) => e@ == "unknown user: "@ + v@ || exists|c: i32|
                    e@ == #[trigger] lookup_failure_text(v@, errno_description(c)),
            }
            &&& v@.len() > 0 && !is_number(v@) && has_nul(v@) ==> (r matches Err(e) && e@
                == "unknown user: "@ + v@)
        }),
{
    match (me, user_or_uid) {
        (true, None) => current_user(),
        (false, Some(value)) => resolve_user_or_uid(value.as_str()),
        (true, Some(_)) => Err(String::from_str("use either --me or USER_OR_UID, not both")),
        (false, None) => Err(String::from_str("expected USER_OR_UID or --me")),
    }
}

/// What one run is to show, once the options have been checked.
#[derive(Debug)]
pub struct RunPlan {
    pub live: bool,
    pub interval_seconds: u64,
    pub target: TargetUser,
    pub options: RenderOptions,
    pub view: ViewOptions,
}

/// What a run does: print the version, or show the process tree.
#[derive(Debug)]
pub enum RunRequest {
    PrintVersion,
    Show(RunPlan),
}

/// The run that shows the processes of the user found, `target`, as the
/// checked options ask; or the error met in finding the user.
pub fn plan_for_target(
    target: Result<TargetUser, String>,
    live: bool,
    interval_seconds: u64,
    options: RenderOptions,
    view: ViewOptions,
) -> (r: Result<RunRequest, String>)
    ensures
        match target {
            Ok(t) => (r matches Ok(RunRequest::Show(plan)) && plan == (RunPlan {
                live,
                interval_seconds,
                target: t,
                options,
                view,
            })),
            Err(e) => (r matches Err(f) && f == e),
        },
{
    match target {
        Ok(target) => Ok(RunRequest::Show(RunPlan { live, interval_seconds, target, options, view })),
        Err(e) => Err(e),
    }
}

/// Whether the options pass the checks that come before the choice of the
/// user: no `--version`, an interval that fits the live view, and a search
/// pattern that is not blank.
pub open spec fn options_pass(args: Args) -> bool {
    &&& !args.version
    &&& interval_check(args.live || args.watch, args.interval) is Ok
    &&& !(args.find matches Some(p) && trim(p@).len() == 0)
}

/// Checks the options of the command line in the order the program does:
/// `--version` first and alone; then the live view and its interval, the
/// search pattern, and the user; and settles how the tree is drawn.
pub fn plan_run(args: Args, no_color_env: bool, stdout_is_terminal: bool) -> (r: Result<
    RunRequest,
    String,
>)
    ensures
        args.version ==> r matches Ok(RunRequest::PrintVersion),
        !args.version ==> (interval_check(args.live || args.watch, args.interval) matches Err(msg)
            ==> (r matches Err(e) && e@ == msg)),
        !args.version && interval_check(args.live || args.watch, args.interval) is Ok ==> (
        args.find matches Some(p) ==> (trim(p@).len() == 0 ==> (r matches Err(e) && e@
            == "--find requires a non-empty pattern"@))),
        options_pass(args) && args.me && args.user_or_uid is None ==> r matches Ok(
            RunRequest::Show(_),
        ),
        options_pass(args) && args.me && args.user_or_uid is Some ==> (r matches Err(e) && e@
            == "use either --me or USER_OR_UID, not both"@),
        options_pass(args) && !args.me && args.user_or_uid is None ==> (r matches Err(e) && e@
            == "expected USER_OR_UID or --me"@),
        options_pass(args) && !args.me ==> (args.user_or_uid matches Some(v) ==> {
            &&& v@.len() == 0 ==> (r matches Err(e) && e@ == "empty user or UID"@)
            &&& is_number(v@) && parse_u32(v@) is None ==> (r matches Err(e) && e@
                == "invalid UID: "@ + v@)
            &&& is_number(v@) ==> (parse_u32(v@) matches Some(uid) ==> (r matches Ok(
                RunRequest::Show(plan),
            ) && plan.target.uid == uid))
            &&& v@.len() > 0 && !is_number(v@) ==> match r {
                Ok(req) => req is Show,
                Err(e) => e@ == "unknown user: "@ + v@ || exists|c: i32|
                    e@ == #[trigger] lookup_failure_text(v@, errno_description(c)),
            }
            &&& v@.len() > 0 && !is_number(v@) && has_nul(v@) ==> (r matches Err(e) && e@
                == "unknown user: "@ + v@)
        }),
        !options_pass(args) && !args.version ==> r is Err,
        r matches Ok(RunRequest::Show(plan)) ==> {
            &&& options_pass(args)
            &&& plan.live == (args.live || args.watch)
            &&& interval_check(args.live || args.watch, args.interval) == Ok::<u64, Seq<char>>(
                plan.interval_seconds,
            )
            &&& plan.options.show_pid == !args.no_pid
            &&& plan.options.color == (!args.no_color && !no_color_env && stdout_is_terminal)
            &&& plan.view.max_depth == args.depth
            &&& text_view(plan.view.find) == text_view(args.find)
            &&& (args.me <==> args.user_or_uid is None)
            &&& !args.me ==> (args.user_or_uid matches Some(v) && (is_number(v@) ==> parse_u32(v@)
                == Some(plan.target.uid)))
        },
{
    if args.version {
        return Ok(RunRequest::PrintVersion);
    }
    let live = is_live_mode(args.live, args.watch);
    let interval_seconds = match validate_interval(live, args.interval) {
        Ok(seconds) => seconds,
        Err(e) => {
            return Err(e);
        },
    };
    let find = match validate_find(args.find) {
        Ok(find) => find,
        Err(e) => {
            return Err(e);
        },
    };
    let target = select_target(args.me, args.user_or_uid);
    let options = RenderOptions {
        show_pid: !args.no_pid,
        color: should_use_color(args.no_color, no_color_env, stdout_is_terminal),
    };
    let view = ViewOptions { max_depth: args.depth, find };
    plan_for_target(target, live, interval_seconds, options, view)
}

/// What the live view does next: draw a new frame, wait the given number of
/// milliseconds, or stop.
#[derive(Debug, Clone, Copy, PartialEq, Eq)]
pub enum LiveAction {
    Redraw,
    Sleep(u64),
    Stop,
}

/// The longest single wait of the live view, in milliseconds, so that
/// Ctrl+C is noticed soon.
pub const LIVE_POLL_MILLIS: u64 = 200;

/// One decision of the live view, from whether it is still running (Ctrl+C
/// not pressed), the milliseconds since the last frame was drawn (`None`
/// before the first), and the refresh interval: stop once Ctrl+C was
/// pressed; draw a frame first and then whenever the interval has passed;
/// otherwise wait for the rest of the interval, but no longer than
/// `LIVE_POLL_MILLIS` at a time.
pub open spec fn live_action(running: bool, since_frame_ms: Option<u64>, interval_seconds: u64) -> LiveAction {
    if !running {
        LiveAction::Stop
    } else {
        match since_frame_ms {
            None => LiveAction::Redraw,
            Some(ms) => if ms >= interval_seconds * 1000 {
                LiveAction::Redraw
            } else {
                LiveAction::Sleep(
                    if interval_seconds * 1000 - ms < LIVE_POLL_MILLIS {
                        (interval_seconds * 1000 - ms) as u64
                    } else {
                        LIVE_POLL_MILLIS
                    },
                )
            },
        }
    }
}

/// One decision of the live view, as `live_action` describes it.
pub fn live_step(running: bool, since_frame_ms: Option<u64>, interval_seconds: u64) -> (a:
    LiveAction)
    ensures
        a == live_action(running, since_frame_ms, interval_seconds),
{
    if !running {
        return LiveAction::Stop;
    }
    match since_frame_ms {
        None => LiveAction::Redraw,
        Some(ms) => {
            let interval_ms: u128 = interval_seconds as u128 * 1000;
            let elapsed: u128 = ms as u128;
            if elapsed >= interval_ms {
                LiveAction::Redraw
            } else {
                let remaining: u128 = interval_ms - elapsed;
                if remaining < LIVE_POLL_MILLIS as u128 {
                    LiveAction::Sleep(remaining as u64)
                } else {
                    LiveAction::Sleep(LIVE_POLL_MILLIS)
                }
            }
        },
    }
}

/// The milliseconds from the clock reading `drawn`, when the last frame was
/// written, to the clock reading `now`; `None` before the first frame.
pub open spec fn since_frame(drawn: Option<u64>, now: u64) -> Option<u64> {
    match drawn {
        Some(t) => Some((now - t) as u64),
        None => None,
    }
}

/// A run of the live view, step by step: step `j` reads the clock at
/// `clock[j]` milliseconds, finds the view still running where
/// `running[j]`, takes its decision, and has carried it out (a frame
/// written, or a wait over) at the clock reading `done[j]`. This is the
/// clock reading at which the last frame before step `k` was written.
pub open spec fn last_frame_at(
    running: Seq<bool>,
    clock: Seq<u64>,
    done: Seq<u64>,
    interval_seconds: u64,
    k: nat,
) -> Option<u64>
    decreases k, 0nat,
{
    if k == 0 {
        None
    } else {
        let j = (k - 1) as nat;
        if run_action(running, clock, done, interval_seconds, j) is Redraw {
            Some(done[j as int])
        } else {
            last_frame_at(running, clock, done, interval_seconds, j)
        }
    }
}

/// What step `k` of such a run does.
pub open spec fn run_action(
    running: Seq<bool>,
    clock: Seq<u64>,
    done: Seq<u64>,
    interval_seconds: u64,
    k: nat,
) -> LiveAction
    decreases k, 1nat,
{
    live_action(
        running[k as int],
        since_frame(last_frame_at(running, clock, done, interval_seconds, k), clock[k as int]),
        interval_seconds,
    )
}

/// Whether the clock readings of a run of `n` steps go forward: each step
/// ends no earlier than it begins, and the next begins no earlier.
pub open spec fn clock_goes_forward(clock: Seq<u64>, done: Seq<u64>, n: nat) -> bool {
    &&& clock.len() == n
    &&& done.len() == n
    &&& forall|a: int| 0 <= a < n ==> clock[a] <= #[trigger] done[a]
    &&& forall|a: int, b: int| 0 <= a < b < n ==> #[trigger] done[a] <= #[trigger] clock[b]
}

/// After a frame at step `j`, the last frame before any later step was
/// written no earlier than that one, and before the later step began.
proof fn lemma_last_frame_after(
    running: Seq<bool>,
    clock: Seq<u64>,
    done: Seq<u64>,
    interval_seconds: u64,
    j: nat,
    k: nat,
)
    requires
        clock_goes_forward(clock, done, running.len()),
        j < k <= running.len(),
        run_action(running, clock, done, interval_seconds, j) is Redraw,
    ensures
        last_frame_at(running, clock, done, interval_seconds, k) matches Some(t) && done[j as int]
            <= t && (k < running.len() ==> t <= clock[k as int]),
    decreases k,
{
    let i = (k - 1) as nat;
    if i > j {
        lemma_last_frame_after(running, clock, done, interval_seconds, j, i);
    }
    if k < running.len() {
        assert(done[i as int] <= clock[k as int]);
    }
}

/// The last frame before a step was written before that step began.
proof fn lemma_last_frame_before(
    running: Seq<bool>,
    clock: Seq<u64>,
    done: Seq<u64>,
    interval_seconds: u64,
    k: nat,
)
    requires
        clock_goes_forward(clock, done, running.len()),
        k < running.len(),
    ensures
        last_frame_at(running, clock, done, interval_seconds, k) matches Some(t) ==> t <= clock[k as int],
    decreases k,
{
    if k > 0 {
        let i = (k - 1) as nat;
        lemma_last_frame_before(running, clock, done, interval_seconds, i);
        assert(clock[i as int] <= done[i as int]);
        assert(done[i as int] <= clock[k as int]);
    }
}

/// The live view over a whole run: a step that finds Ctrl+C pressed stops
/// and draws nothing; a running view draws its first frame at once; each
/// wait lasts at least one and at most `LIVE_POLL_MILLIS` milliseconds and
/// ends no later than the next frame is due, so the step after Ctrl+C comes
/// soon; and each frame begins at least the refresh interval after the
/// previous frame was written.
pub proof fn lemma_live_run(
    running: Seq<bool>,
    clock: Seq<u64>,
    done: Seq<u64>,
    interval_seconds: u64,
    j: nat,
    k: nat,
)
    requires
        clock_goes_forward(clock, done, running.len()),
        k < running.len(),
    ensures
        !running[k as int] <==> run_action(running, clock, done, interval_seconds, k)
            == LiveAction::Stop,
        k == 0 && running[0] ==> run_action(running, clock, done, interval_seconds, k)
            == LiveAction::Redraw,
        run_action(running, clock, done, interval_seconds, k) matches LiveAction::Sleep(ms) ==> (
        0 < ms <= LIVE_POLL_MILLIS && (last_frame_at(running, clock, done, interval_seconds, k)
            matches Some(t) && clock[k as int] + ms <= t + interval_seconds * 1000)),
        j < k && run_action(running, clock, done, interval_seconds, j) is Redraw && run_action(
            running,
            clock,
            done,
            interval_seconds,
            k,
        ) is Redraw ==> clock[k as int] >= done[j as int] + interval_seconds * 1000,
{
    lemma_last_frame_before(running, clock, done, interval_seconds, k);
    if j < k && run_action(running, clock, done, interval_seconds, j) is Redraw {
        lemma_last_frame_after(running, clock, done, interval_seconds, j, k);
    }
}

/// The processes left to show: the families of the matches of the search
/// pattern, where there is one, then cut at the depth limit, where there is
/// one.
pub open spec fn shown_processes(
    m: Map<u32, Process>,
    find: Option<Seq<char>>,
    max_depth: Option<usize>,
) -> Map<u32, Process> {
    let found = match find {
        Some(p) => m.restrict(family_of(m, matched_pids(m, p))),
        None => m,
    };
    match max_depth {
        Some(d) => found.restrict(top_levels(found, d as nat)),
        None => found,
    }
}

/// What one view shows: exactly the processes of the table that belong to
/// the family of a match, where a search pattern is given, and that lie
/// fewer levels below a root of the whole table than the depth limit, where
/// one is given; the limit applies with or without a pattern.
pub proof fn lemma_shown_processes(
    m: Map<u32, Process>,
    find: Option<Seq<char>>,
    max_depth: Option<usize>,
    p: u32,
)
    ensures
        shown_processes(m, find, max_depth).contains_key(p) <==> {
            &&& m.contains_key(p)
            &&& find matches Some(pat) ==> family_of(m, matched_pids(m, pat)).contains(p)
            &&& max_depth matches Some(d) ==> top_levels(m, d as nat).contains(p)
        },
        shown_processes(m, find, max_depth).contains_key(p) ==> shown_processes(
            m,
            find,
            max_depth,
        )[p] == m[p],
{
    if let Some(pat) = find {
        if m.contains_key(p) && family_of(m, matched_pids(m, pat)).contains(p) {
            if let Some(d) = max_depth {
                lemma_family_top_levels(m, matched_pids(m, pat), p, d as nat);
            }
        }
    }
}

/// A blank line and the live footer after a message, in the live view.
pub open spec fn message_footer(live: Option<u64>, o: RenderOptions) -> Seq<char> {
    match live {
        Some(seconds) => "\n"@ + live_footer_text(seconds, o) + "\n"@,
        None => Seq::empty(),
    }
}

/// The whole text of one view of the processes `m` of the user labelled
/// `label` with UID `uid`: a message where there is no process or no match;
/// otherwise the drawn forest, a blank line, the note on unreadable status
/// files where there were any, the summary, and in the live view its footer.
pub open spec fn report_text(
    label: Seq<char>,
    uid: u32,
    m: Map<u32, Process>,
    unreadable: usize,
    o: RenderOptions,
    max_depth: Option<usize>,
    find: Option<Seq<char>>,
    live: Option<u64>,
) -> Seq<char> {
    if m.dom().is_empty() {
        (if uid == 0 {
            "No readable processes found for uid=0. Try: sudo pidnest root\n"@
        } else {
            "No readable processes found for "@ + label + ".\n"@
        }) + message_footer(live, o)
    } else if find matches Some(p) && matched_pids(m, p).is_empty() {
        "No processes matched '"@ + find->0 + "'.\n"@ + message_footer(live, o)
    } else {
        let v = forest_of(shown_processes(m, find, max_depth));
        forest_text(v, label, o) + "\n"@ + (if unreadable > 0 {
            unreadable_note_text(o) + "\n"@
        } else {
            Seq::empty()
        }) + summary_text(v, o) + "\n"@ + (match live {
            Some(seconds) => live_footer_text(seconds, o) + "\n"@,
            None => Seq::empty(),
        })
    }
}

/// Whether the walk up from each match of the search pattern ends at a
/// root, as pruning needs.
pub open spec fn search_ends(m: Map<u32, Process>, find: Option<Seq<char>>) -> bool {
    find matches Some(p) ==> forall|k: u32|
        #![trigger m[k]]
        m.contains_key(k) && name_matches(m[k].name@, p) ==> reaches_root(m, k)
}

/// Whether the walk up from each process of `processes` whose name matches
/// the search pattern `find` ends at a root, found by walking it.
fn search_ends_check(processes: &Vec<Process>, find: &Option<String>) -> (r: bool)
    ensures
        r == search_ends(by_pid(processes@), text_view(*find)),
{
    let ghost m = by_pid(processes@);
    match find {
        None => true,
        Some(pattern) => {
            let copy = processes.clone();
            assert(copy@ =~= processes@) by {
                assert forall|i: int| 0 <= i < copy@.len() implies copy@[i] == processes@[i] by {
                    assert(cloned::<Process>(processes@[i], copy@[i]));
                }
            }
            let forest = build_forest(copy);
            let matches = matching_process_ids(&forest, pattern.as_str());
            assert(matches@ =~= matched_pids(m, pattern@));
            let list = sorted_elements(&matches);
            assert(text_view(*find) == Some(pattern@));
            let mut i: usize = 0;
            while i < list.len()
                invariant
                    text_view(*find) == Some(pattern@),
                    m == by_pid(processes@),
                    forest.wf(),
                    forest.processes@ == m,
                    forall|x: u32| list@.contains(x) <==> matched_pids(m, pattern@).contains(x),
                    0 <= i <= list@.len(),
                    forall|u: int| 0 <= u < i ==> reaches_root(m, #[trigger] list@[u]),
                decreases list@.len() - i,
            {
                if !walk_ends_at_root(&forest, list[i]) {
                    proof {
                        assert(list@.contains(list@[i as int]));
                        let k = choose|k: u32|
                            #![trigger m[k]]
                            m.contains_key(k) && m[k].pid == list@[i as int] && name_matches(
                                m[k].name@,
                                pattern@,
                            );
                        assert(m[k].pid == k);
                        assert(!reaches_root(m, k));
                        assert(!search_ends(m, text_view(*find)));
                    }
                    return false;
                }
                i = i + 1;
            }
            proof {
                assert forall|k: u32|
                    #![trigger m[k]]
                    m.contains_key(k) && name_matches(m[k].name@, pattern@) implies reaches_root(m, k) by {
                    assert(m[k].pid == k);
                    assert(matched_pids(m, pattern@).contains(k));
                    assert(list@.contains(k));
                    let u = choose|u: int| 0 <= u < list@.len() && list@[u] == k;
                }
            }
            true
        },
    }
}

/// One view of the processes in `report`, as `render_report` draws it,
/// where the walk up from each match of the search pattern ends at a root;
/// `None` where one runs around a cycle of parents, so that pruning for it
/// would never end.
pub fn render_report_checked(
    target: &TargetUser,
    report: ScanReport,
    options: RenderOptions,
    view: &ViewOptions,
    live_interval_seconds: Option<u64>,
) -> (r: Option<String>)
    ensures
        r is Some <==> search_ends(by_pid(report.processes@), text_view(view.find)),
        r matches Some(s) ==> s@ == report_text(
            label_text(target.name@, target.uid),
            target.uid,
            by_pid(report.processes@),
            report.unreadable_statuses,
            options,
            view.max_depth,
            text_view(view.find),
            live_interval_seconds,
        ),
{
    if search_ends_check(&report.processes, &view.find) {
        Some(render_report(target, report, options, view, live_interval_seconds))
    } else {
        None
    }
}

/// One view of the processes in `report`, as text: the forest of the
/// processes, searched and cut as `view` asks, drawn under a header naming
/// `target`, with the notes, the summary and, where `live_interval_seconds`
/// is given, the live footer.
pub fn render_report(
    target: &TargetUser,
    report: ScanReport,
    options: RenderOptions,
    view: &ViewOptions,
    live_interval_seconds: Option<u64>,
) -> (r: String)
    requires
        search_ends(by_pid(report.processes@), text_view(view.find)),
    ensures
        r@ == report_text(
            label_text(target.name@, target.uid),
            target.uid,
            by_pid(report.processes@),
            report.unreadable_statuses,
            options,
            view.max_depth,
            text_view(view.find),
            live_interval_seconds,
        ),
{
    let ghost m = by_pid(report.processes@);
    let unreadable = report.unreadable_statuses;
    let forest = build_forest(report.processes);
    if forest.processes.is_empty() {
        let mut output = if target.uid == 0 {
            String::from_str("No readable processes found for uid=0. Try: sudo pidnest root\n")
        } else {
            let mut o = String::from_str("No readable processes found for ");
            o.append(target.label().as_str());
            o.append(".\n");
            o
        };
        match live_interval_seconds {
            Some(seconds) => {
                output.append("\n");
                output.append(render_live_footer(seconds, options).as_str());
                output.append("\n");
            },
            None => {},
        }
        return output;
    }
    let searched = match &view.find {
        Some(pattern) => {
            let matches = matching_process_ids(&forest, pattern.as_str());
            assert(matches@ =~= matched_pids(m, pattern@));
            if matches.is_empty() {
                let mut output = String::from_str("No processes matched '");
                output.append(pattern.as_str());
                output.append("'.\n");
                match live_interval_seconds {
                    Some(seconds) => {
                        output.append("\n");
                        output.append(render_live_footer(seconds, options).as_str());
                        output.append("\n");
                    },
                    None => {},
                }
                return output;
            }
            assert forall|mt: u32| matches@.contains(mt) && m.contains_key(mt) implies reaches_root(m, mt) by {
                let k = choose|k: u32| #![trigger m[k]] m.contains_key(k) && m[k].pid == mt
                    && name_matches(m[k].name@, pattern@);
                assert(m[k].pid == k);
            }
            prune_for_matches(&forest, &matches)
        },
        None => forest,
    };
    let shown = limit_depth(&searched, view.max_depth);
    assert(shown@ == forest_of(shown_processes(m, text_view(view.find), view.max_depth)));
    proof {
        lemma_wf_roots_acyclic(&shown);
    }
    let mut output = render_forest(target, &shown, options);
    output.append("\n");
    if unreadable > 0 {
        output.append(render_unreadable_note(options).as_str());
        output.append("\n");
    }
    output.append(render_summary(&shown, options).as_str());
    output.append("\n");
    match live_interval_seconds {
        Some(seconds) => {
            output.append(render_live_footer(seconds, options).as_str());
            output.append("\n");
        },
        None => {},
    }
    output
}

} // verus!
