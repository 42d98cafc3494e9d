use pidnest::{
    is_live_mode, live_step, plan_for_target, plan_run, render_report, render_report_checked,
    select_target, validate_find, validate_interval, version_text, version_text_with_hash, Args,
    LiveAction, Process, RenderOptions, RunRequest, ScanReport, TargetUser, ViewOptions,
    DEFAULT_INTERVAL_SECONDS, LIVE_POLL_MILLIS, MAX_INTERVAL_SECONDS, MIN_INTERVAL_SECONDS,
    VERSION,
};

fn target() -> TargetUser {
    TargetUser {
        name: "rezky".to_string(),
        uid: 1000,
    }
}

fn process(name: &str, pid: u32, ppid: u32) -> Process {
    Process {
        name: name.to_string(),
        pid,
        ppid,
        uid: 1000,
    }
}

fn report() -> ScanReport {
    ScanReport {
        processes: vec![
            process("bash", 20, 1),
            process("python3", 30, 20),
            process("codex", 40, 30),
            process("worker", 50, 40),
        ],
        unreadable_statuses: 0,
    }
}

fn options(show_pid: bool) -> RenderOptions {
    RenderOptions {
        show_pid,
        color: false,
    }
}

fn view(max_depth: Option<usize>, find: Option<&str>) -> ViewOptions {
    ViewOptions {
        max_depth,
        find: find.map(str::to_string),
    }
}

#[test]
fn accepts_default_interval_for_live_mode() {
    assert_eq!(validate_interval(true, None), Ok(DEFAULT_INTERVAL_SECONDS));
}

#[test]
fn accepts_interval_bounds_for_live_mode() {
    assert_eq!(validate_interval(true, Some(MIN_INTERVAL_SECONDS)), Ok(3));
    assert_eq!(validate_interval(true, Some(MAX_INTERVAL_SECONDS)), Ok(60));
}

#[test]
fn rejects_interval_outside_bounds() {
    assert_eq!(
        validate_interval(true, Some(2)),
        Err("--interval must be between 3 and 60 seconds".to_string())
    );
    assert_eq!(
        validate_interval(true, Some(61)),
        Err("--interval must be between 3 and 60 seconds".to_string())
    );
}

#[test]
fn rejects_interval_without_live_mode() {
    assert_eq!(
        validate_interval(false, Some(6)),
        Err("--interval requires --live".to_string())
    );
}

#[test]
fn watch_behaves_like_live_for_interval_validation() {
    assert!(is_live_mode(false, true));
    assert_eq!(validate_interval(is_live_mode(false, true), Some(3)), Ok(3));
}

#[test]
fn depth_zero_renders_header_and_summary_only() {
    let output = render_report(
        &target(),
        report(),
        options(true),
        &view(Some(0), None),
        None,
    );

    assert_eq!(output, "rezky uid=1000\n\n0 roots · 0 processes\n");
}

#[test]
fn depth_combines_with_no_pid() {
    let output = render_report(
        &target(),
        report(),
        options(false),
        &view(Some(2), None),
        None,
    );

    assert_eq!(
        output,
        "rezky uid=1000\n└── bash\n    └── python3\n\n1 roots · 2 processes\n"
    );
    assert!(!output.contains(" pid="));
    assert!(!output.contains("\u{1b}["));
}

#[test]
fn find_no_match_returns_clean_message() {
    let output = render_report(
        &target(),
        report(),
        options(true),
        &view(None, Some("missing")),
        None,
    );

    assert_eq!(output, "No processes matched 'missing'.\n");
}

#[test]
fn formats_version_metadata_with_hash() {
    let output = version_text_with_hash("abc1234");
    let expected_version = format!("v{}", "1.0.0");

    assert!(output.contains("pidnest"));
    assert!(output.contains(&expected_version));
    assert!(output.contains("(abc1234)"));
    assert!(output.contains("rezky_nightky"));
    assert!(output.contains("MIT"));
    assert!(output.contains("github.com/oxyzenQ/pidnest"));
}

#[test]
fn formats_version_metadata_with_unknown_fallback() {
    let output = version_text_with_hash("");
    let expected_version = format!("v{}", "1.0.0");

    assert!(output.contains("pidnest"));
    assert!(output.contains(&expected_version));
    assert!(output.contains("(unknown)"));
    assert!(output.contains("rezky_nightky"));
    assert!(output.contains("MIT"));
    assert!(output.contains("github.com/oxyzenQ/pidnest"));
}

#[test]
fn version_text_is_exact_and_trims_the_hash() {
    assert_eq!(VERSION, "1.0.0");
    assert_eq!(
        version_text_with_hash("  abc1234\n"),
        "pidnest v1.0.0 (abc1234)\n© 2026 rezky_nightky\nMIT · github.com/oxyzenQ/pidnest"
    );
    assert_eq!(version_text_with_hash(" \t "), version_text_with_hash("unknown"));
    assert_eq!(version_text(None), version_text_with_hash(""));
    assert_eq!(version_text(Some("f00d")), version_text_with_hash("f00d"));
}

#[test]
fn find_requires_a_pattern() {
    assert_eq!(
        validate_find(Some("  ".to_string())),
        Err("--find requires a non-empty pattern".to_string())
    );
    assert_eq!(
        validate_find(Some(" x ".to_string())),
        Ok(Some(" x ".to_string()))
    );
    assert_eq!(validate_find(None), Ok(None));
}

#[test]
fn find_shows_the_family_of_the_match() {
    let output = render_report(
        &target(),
        report(),
        options(true),
        &view(None, Some("CODEX")),
        None,
    );

    assert_eq!(
        output,
        "rezky uid=1000\n└── bash pid=20\n    └── python3 pid=30\n        └── codex pid=40\n            └── worker pid=50\n\n1 roots · 4 processes\n"
    );
}

#[test]
fn empty_report_gives_a_message_with_footer_in_live_mode() {
    let empty = ScanReport {
        processes: Vec::new(),
        unreadable_statuses: 3,
    };
    assert_eq!(
        render_report(&target(), empty.clone(), options(true), &view(None, None), None),
        "No readable processes found for rezky uid=1000.\n"
    );
    assert_eq!(
        render_report(
            &TargetUser { name: "root".to_string(), uid: 0 },
            empty.clone(),
            options(true),
            &view(None, None),
            Some(6)
        ),
        "No readable processes found for uid=0. Try: sudo pidnest root\n\nlive mode · refresh 6s · press Ctrl+C to quit\n"
    );
    assert_eq!(
        render_report(&target(), report(), options(true), &view(None, Some("zzz")), Some(3)),
        "No processes matched 'zzz'.\n\nlive mode · refresh 3s · press Ctrl+C to quit\n"
    );
}

#[test]
fn unreadable_note_and_live_footer_follow_the_tree() {
    let mut with_unreadable = report();
    with_unreadable.unreadable_statuses = 2;
    let output = render_report(
        &target(),
        with_unreadable,
        options(false),
        &view(Some(1), None),
        Some(10),
    );

    assert_eq!(
        output,
        "rezky uid=1000\n└── bash\n\nnote: some processes were not readable; try sudo for a complete tree\n1 roots · 1 processes\nlive mode · refresh 10s · press Ctrl+C to quit\n"
    );
}

fn args() -> Args {
    Args {
        user_or_uid: Some("0".to_string()),
        me: false,
        live: false,
        watch: false,
        interval: None,
        depth: None,
        find: None,
        no_pid: false,
        no_color: false,
        version: false,
    }
}

#[test]
fn plan_checks_options_in_order() {
    let mut a = args();
    a.version = true;
    a.interval = Some(1);
    assert!(matches!(plan_run(a, false, true), Ok(RunRequest::PrintVersion)));

    let mut a = args();
    a.interval = Some(5);
    a.find = Some(" ".to_string());
    assert_eq!(
        plan_run(a, false, true).unwrap_err(),
        "--interval requires --live"
    );

    let mut a = args();
    a.watch = true;
    a.find = Some(" ".to_string());
    a.me = true;
    assert_eq!(
        plan_run(a, false, true).unwrap_err(),
        "--find requires a non-empty pattern"
    );

    let mut a = args();
    a.me = true;
    assert_eq!(
        plan_run(a, false, true).unwrap_err(),
        "use either --me or USER_OR_UID, not both"
    );

    let mut a = args();
    a.user_or_uid = None;
    assert_eq!(
        plan_run(a, false, true).unwrap_err(),
        "expected USER_OR_UID or --me"
    );
}

#[test]
fn plan_settles_the_view() {
    let mut a = args();
    a.live = true;
    a.interval = Some(9);
    a.depth = Some(2);
    a.find = Some("bash".to_string());
    a.no_pid = true;
    match plan_run(a, false, true) {
        Ok(RunRequest::Show(plan)) => {
            assert!(plan.live);
            assert_eq!(plan.interval_seconds, 9);
            assert_eq!(plan.target.uid, 0);
            assert!(!plan.options.show_pid);
            assert!(plan.options.color);
            assert_eq!(plan.view, view(Some(2), Some("bash")));
        }
        _ => panic!("the plan should be shown"),
    }

    let mut a = args();
    a.no_color = false;
    match plan_run(a, true, true) {
        Ok(RunRequest::Show(plan)) => {
            assert!(!plan.options.color);
            assert_eq!(plan.interval_seconds, DEFAULT_INTERVAL_SECONDS);
        }
        _ => panic!("the plan should be shown"),
    }
}

#[test]
fn target_needs_exactly_one_source() {
    assert!(select_target(true, None).is_ok());
    assert_eq!(
        select_target(false, Some(String::new())).unwrap_err(),
        "empty user or UID"
    );
    assert_eq!(
        select_target(false, Some("4294967296".to_string())).unwrap_err(),
        "invalid UID: 4294967296"
    );
    assert_eq!(select_target(false, Some("4294967295".to_string())).unwrap().uid, u32::MAX);
}

#[test]
fn plan_shows_the_uid_given() {
    let mut a = args();
    a.user_or_uid = Some("1000".to_string());
    match plan_run(a, false, false) {
        Ok(RunRequest::Show(plan)) => {
            assert_eq!(plan.target.uid, 1000);
            assert!(!plan.live);
            assert!(!plan.options.color);
        }
        _ => panic!("the plan should be shown"),
    }
}

#[test]
fn plan_carries_the_target_found() {
    let view = view(Some(1), None);
    match plan_for_target(Ok(target()), true, 7, options(true), view.clone()) {
        Ok(RunRequest::Show(plan)) => {
            assert_eq!(plan.target, target());
            assert!(plan.live);
            assert_eq!(plan.interval_seconds, 7);
            assert_eq!(plan.options, options(true));
            assert_eq!(plan.view, view);
        }
        _ => panic!("the plan should be shown"),
    }
    assert_eq!(
        plan_for_target(Err("unknown user: nobody".to_string()), false, 6, options(false), view)
            .unwrap_err(),
        "unknown user: nobody"
    );
}

#[test]
fn live_view_stops_once_ctrl_c_is_pressed() {
    assert_eq!(live_step(false, None, 6), LiveAction::Stop);
    assert_eq!(live_step(false, Some(100), 6), LiveAction::Stop);
    assert_eq!(live_step(false, Some(9000), 6), LiveAction::Stop);
}

#[test]
fn live_view_draws_first_and_after_each_interval() {
    assert_eq!(live_step(true, None, 6), LiveAction::Redraw);
    assert_eq!(live_step(true, Some(6000), 6), LiveAction::Redraw);
    assert_eq!(live_step(true, Some(7250), 3), LiveAction::Redraw);
}

#[test]
fn live_view_waits_in_short_steps() {
    assert_eq!(live_step(true, Some(0), 6), LiveAction::Sleep(LIVE_POLL_MILLIS));
    assert_eq!(LIVE_POLL_MILLIS, 200);
    assert_eq!(live_step(true, Some(5900), 6), LiveAction::Sleep(100));
    assert_eq!(live_step(true, Some(5999), 6), LiveAction::Sleep(1));
    assert_eq!(live_step(true, Some(5800), 6), LiveAction::Sleep(200));
    assert_eq!(live_step(true, Some(0), u64::MAX), LiveAction::Sleep(200));
}

#[test]
fn checked_report_is_the_report_where_the_search_ends() {
    let checked = render_report_checked(
        &target(),
        report(),
        options(true),
        &view(None, Some("codex")),
        None,
    );
    let plain = render_report(&target(), report(), options(true), &view(None, Some("codex")), None);
    assert_eq!(checked, Some(plain));

    let checked = render_report_checked(&target(), report(), options(false), &view(Some(1), None), Some(6));
    let plain = render_report(&target(), report(), options(false), &view(Some(1), None), Some(6));
    assert_eq!(checked, Some(plain));
}

#[test]
fn checked_report_refuses_a_match_on_a_cycle_of_parents() {
    let looped = ScanReport {
        processes: vec![
            process("bash", 20, 1),
            process("codex", 40, 41),
            process("worker", 41, 40),
        ],
        unreadable_statuses: 0,
    };
    assert_eq!(
        render_report_checked(&target(), looped.clone(), options(true), &view(None, Some("codex")), None),
        None
    );
    assert_eq!(
        render_report_checked(&target(), looped, options(true), &view(None, Some("bash")), None),
        Some("rezky uid=1000\n└── bash pid=20\n\n1 roots · 1 processes\n".to_string())
    );
}

#[test]
fn live_run_draws_frames_an_interval_apart_and_stops_on_ctrl_c() {
    // Each step reads the clock; a frame takes 30 ms to write; Ctrl+C comes at 9100 ms.
    let interval = 3;
    let mut now: u64 = 0;
    let mut last_frame: Option<u64> = None;
    let mut frames: Vec<u64> = Vec::new();
    let mut waits: Vec<u64> = Vec::new();
    loop {
        let running = now < 9100;
        let since = last_frame.map(|t| now - t);
        match live_step(running, since, interval) {
            LiveAction::Stop => break,
            LiveAction::Redraw => {
                frames.push(now);
                now += 30;
                last_frame = Some(now);
            }
            LiveAction::Sleep(ms) => {
                assert!(ms > 0 && ms <= LIVE_POLL_MILLIS);
                waits.push(ms);
                now += ms;
            }
        }
    }
    assert_eq!(frames, vec![0, 3030, 6060, 9090]);
    for pair in frames.windows(2) {
        assert!(pair[1] >= pair[0] + 30 + interval * 1000);
    }
    assert!(now >= 9100 && now <= 9100 + LIVE_POLL_MILLIS);
    assert_eq!(waits.len(), 45);
}
