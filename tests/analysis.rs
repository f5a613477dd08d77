use memon::summary::{average_memory, top_three_memory, Analysis, TreeSummary, NAME_COLUMN_WIDTH};
use memon::tree::{ProcessInfo, ProcessTable};

fn table(procs: &[(u32, &str, u64, Option<u32>)]) -> ProcessTable {
    let mut t = ProcessTable::new();
    for &(pid, name, rss, parent) in procs {
        t.insert(ProcessInfo::new(pid, name.to_string(), rss, parent));
    }
    t
}

fn info(t: &ProcessTable, pid: u32) -> &ProcessInfo {
    t.get(t.index_of(pid).unwrap())
}

fn marks(t: &ProcessTable, pid: u32) -> (bool, bool, bool) {
    let p = info(t, pid);
    (p.is_max_memory, p.is_second_max_memory, p.is_third_max_memory)
}

#[test]
fn new_process_has_no_children_or_marks() {
    let p = ProcessInfo::new(7, "init".to_string(), 42, None);
    assert_eq!(p.pid, 7);
    assert_eq!(p.name, "init");
    assert_eq!(p.rss, 42);
    assert_eq!(p.parent_pid, None);
    assert!(p.children.is_empty());
    assert!(!p.is_max_memory && !p.is_second_max_memory && !p.is_third_max_memory);
    assert!(p.args.is_none());
}

#[test]
fn add_child_appends() {
    let mut p = ProcessInfo::new(7, "init".to_string(), 42, None);
    p.add_child(9);
    p.add_child(3);
    assert_eq!(p.children, vec![9, 3]);
}

#[test]
fn insert_replaces_same_pid_and_remove_drops_it() {
    let mut t = table(&[(1, "a", 1, None), (2, "b", 2, Some(1))]);
    t.insert(ProcessInfo::new(2, "c".to_string(), 5, Some(1)));
    assert_eq!(t.len(), 2);
    assert_eq!(info(&t, 2).name, "c");
    let gone = t.remove(1).unwrap();
    assert_eq!(gone.name, "a");
    assert_eq!(t.len(), 1);
    assert!(!t.contains_pid(1));
    assert!(t.remove(1).is_none());
}

#[test]
fn children_are_the_processes_naming_the_parent() {
    let mut t = table(&[
        (10, "root", 1, None),
        (11, "a", 1, Some(10)),
        (12, "b", 1, Some(99)),
        (13, "c", 1, Some(10)),
        (14, "d", 1, Some(11)),
    ]);
    t.build_children();
    assert_eq!(info(&t, 10).children, vec![11, 13]);
    assert_eq!(info(&t, 11).children, vec![14]);
    assert!(info(&t, 12).children.is_empty());
    assert!(info(&t, 13).children.is_empty());
}

#[test]
fn build_process_tree_needs_the_root() {
    let mut t = table(&[(10, "root", 1, None), (11, "a", 1, Some(10))]);
    assert!(t.build_process_tree(99).is_none());
    let root = t.build_process_tree(10).unwrap();
    assert_eq!(root.pid, 10);
    assert_eq!(root.children, vec![11]);
}

#[test]
fn roots_are_matches_without_a_matching_parent() {
    let t = table(&[
        (1, "launchd", 0, None),
        (5, "app", 0, Some(1)),
        (6, "app", 0, Some(5)),
        (7, "app", 0, Some(40)),
        (8, "app", 0, Some(30)),
        (9, "app", 0, None),
        (30, "shell", 0, Some(1)),
    ]);
    let matching = vec![5, 6, 7, 8, 9];
    assert_eq!(t.find_root_processes(&matching), vec![5, 7, 8, 9]);
    // A match under the supervisor is a root even when the supervisor matches.
    assert_eq!(t.find_root_processes(&vec![1, 5, 6]), vec![1, 5]);
    // A pid missing from the table is no root.
    assert_eq!(t.find_root_processes(&vec![77]), Vec::<u32>::new());
}

#[test]
fn subtree_takes_every_descendant() {
    let t = table(&[
        (10, "app", 1, None),
        (11, "helper", 2, Some(10)),
        (12, "other", 3, Some(11)),
        (13, "elsewhere", 4, None),
    ]);
    assert!(t.is_in_subtree(10, 10));
    assert!(t.is_in_subtree(10, 12));
    assert!(!t.is_in_subtree(10, 13));
    assert!(!t.is_in_subtree(12, 10));
    assert_eq!(t.collect_process_ids_in_tree(10), vec![10, 11, 12]);
    assert_eq!(t.collect_all_rss_in_tree(11), vec![2, 3]);
    assert_eq!(t.count_processes(10), 3);
    assert_eq!(t.calculate_total_memory(10), 6);
}

#[test]
fn parent_cycle_ends_the_walk() {
    let t = table(&[(20, "a", 1, Some(21)), (21, "b", 1, Some(20)), (22, "c", 1, Some(20))]);
    assert!(t.is_in_subtree(20, 22));
    assert!(t.is_in_subtree(21, 22));
    assert!(!t.is_in_subtree(22, 20));
    assert_eq!(t.count_processes(20), 3);
}

#[test]
fn top_three_distinct_values() {
    assert_eq!(top_three_memory(&vec![10, 10, 7, 3]), (10, 7, 3));
    assert_eq!(top_three_memory(&vec![3, 10, 7, 10, 1]), (10, 7, 3));
    assert_eq!(top_three_memory(&vec![5]), (5, 0, 0));
    assert_eq!(top_three_memory(&vec![4, 4]), (4, 0, 0));
    assert_eq!(top_three_memory(&Vec::new()), (0, 0, 0));
}

#[test]
fn ranks_broadcast_to_equal_values() {
    let mut t = table(&[
        (1, "app", 10, None),
        (2, "app", 10, Some(1)),
        (3, "app", 7, Some(1)),
        (4, "app", 3, Some(2)),
        (5, "other", 99, None),
    ]);
    let s = t.extract_tree(1).unwrap();
    assert_eq!((s.max_memory, s.second_max_memory, s.third_max_memory), (10, 7, 3));
    assert_eq!(marks(&t, 1), (true, false, false));
    assert_eq!(marks(&t, 2), (true, false, false));
    assert_eq!(marks(&t, 3), (false, true, false));
    assert_eq!(marks(&t, 4), (false, false, true));
    assert_eq!(marks(&t, 5), (false, false, false));
}

#[test]
fn single_node_gets_only_first() {
    let mut t = table(&[(1, "solo", 5, None)]);
    let s = t.extract_tree(1).unwrap();
    assert_eq!((s.max_memory, s.second_max_memory, s.third_max_memory), (5, 0, 0));
    assert_eq!(marks(&t, 1), (true, false, false));
    assert_eq!(s.process_count, 1);
}

#[test]
fn zero_values_are_never_second_or_third() {
    let mut t = table(&[(1, "a", 8, None), (2, "a", 0, Some(1))]);
    let s = t.extract_tree(1).unwrap();
    assert_eq!((s.max_memory, s.second_max_memory), (8, 0));
    assert_eq!(marks(&t, 2), (false, false, false));
}

#[test]
fn average_truncates() {
    assert_eq!(average_memory(300, 3), 100);
    assert_eq!(average_memory(301, 3), 100);
    assert_eq!(average_memory(0, 0), 0);
    let mut t = table(&[(1, "a", 100, None), (2, "a", 150, Some(1)), (3, "a", 51, Some(1))]);
    let s = t.extract_tree(1).unwrap();
    assert_eq!(s.total_memory, 301);
    assert_eq!(s.process_count, 3);
    assert_eq!(s.average_memory, 100);
}

#[test]
fn totals_beyond_u64_are_kept() {
    let mut t = table(&[(1, "a", u64::MAX, None), (2, "a", u64::MAX, Some(1))]);
    let s = t.extract_tree(1).unwrap();
    assert_eq!(s.total_memory, 2 * (u64::MAX as u128));
    assert_eq!(s.average_memory, u64::MAX as u128);
}

#[test]
fn column_widths() {
    let t = table(&[(7, "a", 1, None), (12345, "a-very-long-name", 1, Some(7)), (99, "b", 1, None)]);
    assert_eq!(t.calculate_column_widths(7), (5, NAME_COLUMN_WIDTH));
    assert_eq!(t.calculate_column_widths(99), (2, 40));
}

#[test]
fn missing_root_is_reported_and_others_go_on() {
    let mut t = table(&[
        (10, "app", 4, None),
        (11, "app", 2, Some(10)),
        (20, "app", 6, None),
        (30, "app", 1, None),
    ]);
    let matching = t.find_matching_pids("app");
    let roots = t.find_root_processes(&matching);
    assert_eq!(roots, vec![10, 20, 30]);
    t.remove(20);
    let reports = t.summarize_roots(&roots);
    assert_eq!(reports.len(), 3);
    let first: &TreeSummary = reports[0].as_ref().unwrap();
    assert_eq!((first.root_pid, first.process_count, first.total_memory), (10, 2, 6));
    assert!(reports[1].is_none());
    let third = reports[2].as_ref().unwrap();
    assert_eq!((third.root_pid, third.total_memory), (30, 1));
}

#[test]
fn analysis_without_matches() {
    let mut t = table(&[(1, "init", 1, None)]);
    assert!(matches!(t.analyze_process_tree("nginx"), Analysis::NoMatch));
}

#[test]
fn analysis_of_a_matching_cycle_has_no_root() {
    let mut t = table(&[(1, "init", 1, None), (20, "app", 1, Some(21)), (21, "app", 1, Some(20))]);
    match t.analyze_process_tree("app") {
        Analysis::NoRoot { matching } => assert_eq!(matching, vec![20, 21]),
        _ => panic!("expected no root"),
    }
}

#[test]
fn analysis_reports_each_tree() {
    let mut t = table(&[
        (1, "launchd", 1, None),
        (100, "Chrome", 300, Some(1)),
        (101, "chrome-helper", 200, Some(100)),
        (102, "crashpad", 100, Some(100)),
        (200, "chrome", 50, Some(1)),
        (300, "bash", 10, Some(1)),
    ]);
    match t.analyze_process_tree("chrome") {
        Analysis::Trees { matching, roots, reports } => {
            assert_eq!(matching, vec![100, 101, 200]);
            assert_eq!(roots, vec![100, 200]);
            let a = reports[0].as_ref().unwrap();
            assert_eq!((a.process_count, a.total_memory, a.average_memory), (3, 600, 200));
            assert_eq!((a.max_memory, a.second_max_memory, a.third_max_memory), (300, 200, 100));
            let b = reports[1].as_ref().unwrap();
            assert_eq!((b.process_count, b.total_memory), (1, 50));
        }
        _ => panic!("expected trees"),
    }
    assert_eq!(marks(&t, 102), (false, false, true));
    assert_eq!(info(&t, 100).children, vec![101, 102]);
}

#[test]
fn each_match_lies_under_one_root() {
    let t = table(&[
        (1, "launchd", 1, None),
        (10, "app", 1, Some(1)),
        (11, "app", 1, Some(10)),
        (12, "app", 1, Some(11)),
        (20, "app", 1, Some(99)),
        (21, "app", 1, Some(20)),
        (30, "app", 1, None),
    ]);
    let matching = t.find_matching_pids("app");
    let roots = t.find_root_processes(&matching);
    assert_eq!(roots, vec![10, 20, 30]);
    for m in matching {
        let owners = roots.iter().filter(|&&r| t.is_in_subtree(r, m)).count();
        assert_eq!(owners, 1, "pid {}", m);
    }
}

#[test]
fn match_below_a_non_matching_process_starts_its_own_tree() {
    // 12 is a root of its own (its parent does not match) and, since trees
    // take every descendant, it also lies in the tree under 10.
    let t = table(&[(10, "app", 1, None), (11, "shell", 1, Some(10)), (12, "app", 1, Some(11))]);
    let matching = t.find_matching_pids("app");
    assert_eq!(t.find_root_processes(&matching), vec![10, 12]);
    assert!(t.is_in_subtree(10, 12));
    assert!(t.is_in_subtree(12, 12));
}
