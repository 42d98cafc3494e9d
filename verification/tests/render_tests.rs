use pidnest::{
    build_forest, paint, render_forest, render_live_footer, render_summary,
    render_unreadable_note, Process, ProcessForest, RenderOptions, TargetUser, Tone,
};

fn target() -> TargetUser {
    TargetUser {
        name: "rezky".to_string(),
        uid: 1000,
    }
}

fn forest() -> ProcessForest {
    build_forest(vec![
        Process {
            name: "bash".to_string(),
            pid: 20,
            ppid: 1,
            uid: 1000,
        },
        Process {
            name: "python3".to_string(),
            pid: 30,
            ppid: 20,
            uid: 1000,
        },
        Process {
            name: "cargo".to_string(),
            pid: 25,
            ppid: 20,
            uid: 1000,
        },
    ])
}

#[test]
fn renders_tree_with_pid() {
    let output = render_forest(
        &target(),
        &forest(),
        RenderOptions {
            show_pid: true,
            color: false,
        },
    );

    assert_eq!(
        output,
        "rezky uid=1000\n└── bash pid=20\n    ├── cargo pid=25\n    └── python3 pid=30\n"
    );
}

#[test]
fn renders_tree_without_pid() {
    let output = render_forest(
        &target(),
        &forest(),
        RenderOptions {
            show_pid: false,
            color: false,
        },
    );

    assert_eq!(
        output,
        "rezky uid=1000\n└── bash\n    ├── cargo\n    └── python3\n"
    );
}

#[test]
fn disabled_color_has_no_ansi_escape_codes() {
    let output = render_forest(
        &target(),
        &forest(),
        RenderOptions {
            show_pid: true,
            color: false,
        },
    );

    assert!(!output.contains("\u{1b}["));
}

#[test]
fn renders_stable_summary() {
    assert_eq!(
        render_summary(
            &forest(),
            RenderOptions {
                show_pid: true,
                color: false,
            }
        ),
        "1 roots · 3 processes"
    );
}

#[test]
fn paints_with_owo_colors_styles() {
    assert_eq!(paint("x", Tone::Bold, true), "\u{1b}[1mx\u{1b}[0m");
    assert_eq!(paint("x", Tone::Dimmed, true), "\u{1b}[2mx\u{1b}[0m");
    assert_eq!(paint("x", Tone::Bold, false), "x");
}

#[test]
fn renders_colored_tree() {
    let output = render_forest(
        &target(),
        &build_forest(vec![Process {
            name: "bash".to_string(),
            pid: 20,
            ppid: 1,
            uid: 1000,
        }]),
        RenderOptions {
            show_pid: true,
            color: true,
        },
    );

    assert_eq!(
        output,
        "\u{1b}[1mrezky uid=1000\u{1b}[0m\n\u{1b}[2m└── \u{1b}[0mbash\u{1b}[2m pid=20\u{1b}[0m\n"
    );
}

#[test]
fn renders_deeper_branches_with_bars() {
    let forest = build_forest(vec![
        Process { name: "a".to_string(), pid: 1, ppid: 0, uid: 0 },
        Process { name: "b".to_string(), pid: 2, ppid: 1, uid: 0 },
        Process { name: "c".to_string(), pid: 3, ppid: 2, uid: 0 },
        Process { name: "d".to_string(), pid: 4, ppid: 1, uid: 0 },
        Process { name: "e".to_string(), pid: 5, ppid: 9, uid: 0 },
    ]);
    let output = render_forest(
        &TargetUser { name: "uid=0".to_string(), uid: 0 },
        &forest,
        RenderOptions { show_pid: false, color: false },
    );

    assert_eq!(
        output,
        "uid=0\n├── a\n│   ├── b\n│   │   └── c\n│   └── d\n└── e\n"
    );
}

#[test]
fn renders_notes_and_footer() {
    let plain = RenderOptions { show_pid: true, color: false };
    assert_eq!(
        render_unreadable_note(plain),
        "note: some processes were not readable; try sudo for a complete tree"
    );
    assert_eq!(
        render_live_footer(6, plain),
        "live mode · refresh 6s · press Ctrl+C to quit"
    );
    assert_eq!(
        render_live_footer(60, RenderOptions { show_pid: true, color: true }),
        "\u{1b}[2mlive mode · refresh 60s · press Ctrl+C to quit\u{1b}[0m"
    );
}

#[test]
fn children_missing_from_the_processes_draw_nothing() {
    let mut f = forest();
    f.children.insert(20, vec![25, 30, 99]);
    let output = render_forest(
        &target(),
        &f,
        RenderOptions {
            show_pid: true,
            color: false,
        },
    );

    assert_eq!(
        output,
        "rezky uid=1000\n└── bash pid=20\n    ├── cargo pid=25\n    ├── python3 pid=30\n"
    );
}
