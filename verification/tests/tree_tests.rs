use std::collections::BTreeSet;

use pidnest::{
    build_forest, limit_depth, matching_process_ids, prune_for_matches, walk_ends_at_root, Process,
};

fn process(name: &str, pid: u32, ppid: u32) -> Process {
    Process {
        name: name.to_string(),
        pid,
        ppid,
        uid: 1000,
    }
}

#[test]
fn treats_process_as_root_when_parent_is_not_in_filtered_set() {
    let forest = build_forest(vec![
        process("bash", 20, 1),
        process("python3", 30, 20),
        process("cargo", 25, 20),
    ]);

    assert_eq!(forest.roots, vec![20]);
    assert_eq!(forest.children.get(&20), Some(&vec![25, 30]));
}

#[test]
fn treats_self_parent_as_root() {
    let forest = build_forest(vec![process("initlike", 1, 1)]);

    assert_eq!(forest.roots, vec![1]);
    assert!(forest.children.is_empty());
}

#[test]
fn finds_process_names_case_insensitively() {
    let forest = build_forest(vec![
        process("bash", 20, 1),
        process("Codex", 30, 20),
        process("cargo", 40, 20),
    ]);

    assert_eq!(matching_process_ids(&forest, "codex"), BTreeSet::from([30]));
}

#[test]
fn pruning_keeps_ancestors_of_matches() {
    let forest = build_forest(vec![
        process("bash", 20, 1),
        process("python3", 30, 20),
        process("codex", 40, 30),
    ]);
    let pruned = prune_for_matches(&forest, &BTreeSet::from([40]));

    assert_eq!(pruned.roots, vec![20]);
    assert!(pruned.processes.contains_key(&20));
    assert!(pruned.processes.contains_key(&30));
    assert!(pruned.processes.contains_key(&40));
}

#[test]
fn pruning_keeps_descendants_of_matches() {
    let forest = build_forest(vec![
        process("bash", 20, 1),
        process("codex", 30, 20),
        process("worker", 40, 30),
    ]);
    let pruned = prune_for_matches(&forest, &BTreeSet::from([30]));

    assert_eq!(pruned.roots, vec![20]);
    assert!(pruned.processes.contains_key(&20));
    assert!(pruned.processes.contains_key(&30));
    assert!(pruned.processes.contains_key(&40));
}

#[test]
fn limits_depth_zero_to_no_processes() {
    let forest = build_forest(vec![process("bash", 20, 1)]);
    let limited = limit_depth(&forest, Some(0));

    assert!(limited.roots.is_empty());
    assert!(limited.processes.is_empty());
}

#[test]
fn limits_depth_one_to_roots_only() {
    let forest = build_forest(vec![process("bash", 20, 1), process("python3", 30, 20)]);
    let limited = limit_depth(&forest, Some(1));

    assert_eq!(limited.roots, vec![20]);
    assert_eq!(limited.processes.len(), 1);
    assert!(limited.processes.contains_key(&20));
}

#[test]
fn limits_depth_two_to_roots_and_direct_children() {
    let forest = build_forest(vec![
        process("bash", 20, 1),
        process("python3", 30, 20),
        process("worker", 40, 30),
    ]);
    let limited = limit_depth(&forest, Some(2));

    assert_eq!(limited.roots, vec![20]);
    assert_eq!(limited.processes.len(), 2);
    assert!(limited.processes.contains_key(&20));
    assert!(limited.processes.contains_key(&30));
    assert!(!limited.processes.contains_key(&40));
}

#[test]
fn later_process_of_the_same_pid_replaces_earlier_one() {
    let forest = build_forest(vec![process("old", 20, 1), process("new", 20, 1)]);

    assert_eq!(forest.processes.len(), 1);
    assert_eq!(forest.processes.get(&20).unwrap().name, "new");
    assert_eq!(forest.roots, vec![20]);
}

#[test]
fn children_and_roots_come_in_increasing_pid_order() {
    let forest = build_forest(vec![
        process("c", 50, 10),
        process("root-b", 30, 2),
        process("a", 40, 10),
        process("root-a", 10, 1),
        process("b", 45, 10),
    ]);

    assert_eq!(forest.roots, vec![10, 30]);
    assert_eq!(forest.children.get(&10), Some(&vec![40, 45, 50]));
    assert_eq!(forest.children.len(), 1);
}

#[test]
fn parents_cycle_leaves_no_root() {
    let forest = build_forest(vec![process("a", 10, 11), process("b", 11, 10)]);

    assert!(forest.roots.is_empty());
    assert_eq!(forest.children.get(&10), Some(&vec![11]));
    assert_eq!(forest.children.get(&11), Some(&vec![10]));
}

#[test]
fn rebuilding_a_forest_from_its_processes_gives_it_back() {
    let forest = build_forest(vec![
        process("bash", 20, 1),
        process("python3", 30, 20),
        process("cargo", 25, 20),
    ]);
    let again = build_forest(forest.processes.values().cloned().collect());

    assert_eq!(again, forest);
}

#[test]
fn matching_ignores_case_of_the_pattern() {
    let forest = build_forest(vec![
        process("bash", 20, 1),
        process("Codex", 30, 20),
        process("CODEX-worker", 40, 30),
    ]);

    assert_eq!(matching_process_ids(&forest, "CoDeX"), BTreeSet::from([30, 40]));
    assert_eq!(
        matching_process_ids(&forest, "codex"),
        matching_process_ids(&forest, "CODEX")
    );
    assert!(matching_process_ids(&forest, "zsh").is_empty());
    assert_eq!(matching_process_ids(&forest, "").len(), 3);
}

#[test]
fn pruning_drops_unrelated_branches_and_keeps_parents() {
    let forest = build_forest(vec![
        process("bash", 20, 1),
        process("codex", 30, 20),
        process("other", 35, 20),
        process("worker", 40, 30),
        process("zsh", 50, 1),
    ]);
    let pruned = prune_for_matches(&forest, &BTreeSet::from([30]));

    assert_eq!(pruned.roots, vec![20]);
    assert_eq!(pruned.processes.len(), 3);
    assert!(!pruned.processes.contains_key(&35));
    assert!(!pruned.processes.contains_key(&50));
    for process in pruned.processes.values() {
        if process.ppid != process.pid && forest.processes.contains_key(&process.ppid) {
            assert!(pruned.processes.contains_key(&process.ppid));
        }
    }
}

#[test]
fn pruning_for_a_pid_outside_the_forest_keeps_nothing() {
    let forest = build_forest(vec![process("bash", 20, 1)]);
    let pruned = prune_for_matches(&forest, &BTreeSet::from([99]));

    assert!(pruned.processes.is_empty());
    assert!(pruned.roots.is_empty());
}

#[test]
fn no_depth_limit_keeps_the_forest() {
    let forest = build_forest(vec![
        process("bash", 20, 1),
        process("python3", 30, 20),
        process("worker", 40, 30),
    ]);

    assert_eq!(limit_depth(&forest, None), forest);
    assert_eq!(limit_depth(&forest, Some(3)), forest);
    assert_eq!(limit_depth(&forest, Some(usize::MAX)), forest);
}

#[test]
fn deeper_limits_keep_more() {
    let forest = build_forest(vec![
        process("bash", 20, 1),
        process("python3", 30, 20),
        process("worker", 40, 30),
        process("zsh", 50, 1),
    ]);
    let mut previous = 0;
    for depth in 0..5 {
        let limited = limit_depth(&forest, Some(depth));
        assert!(limited.processes.len() >= previous);
        for pid in limited.processes.keys() {
            assert!(forest.processes.contains_key(pid));
        }
        previous = limited.processes.len();
    }
    assert_eq!(limit_depth(&forest, Some(1)).roots, forest.roots);
    assert_eq!(limit_depth(&forest, Some(1)).processes.len(), 2);
}

#[test]
fn walk_up_ends_at_a_root_unless_parents_cycle() {
    let forest = build_forest(vec![
        process("bash", 20, 1),
        process("python3", 30, 20),
        process("codex", 40, 30),
        process("a", 10, 11),
        process("b", 11, 10),
        process("c", 12, 11),
    ]);

    assert!(walk_ends_at_root(&forest, 40));
    assert!(walk_ends_at_root(&forest, 20));
    assert!(!walk_ends_at_root(&forest, 12));
    assert!(!walk_ends_at_root(&forest, 10));
    assert!(!walk_ends_at_root(&forest, 99));
}
