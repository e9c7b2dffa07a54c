use oracle::monitor::{child_index, subtree, tree_totals, Histories, HISTORY};

fn index(pairs: &[(u32, u32)]) -> Vec<(u32, Vec<u32>)> {
    let rows: Vec<(u32, Option<u32>)> = pairs.iter().map(|&(parent, child)| (child, Some(parent))).collect();
    child_index(&rows)
}

#[test]
fn a_tree_walk_visits_every_descendant_once() {
    // 1 → 2 → 4, 1 → 3. Every node reachable, none counted twice.
    let children = index(&[(1, 2), (1, 3), (2, 4)]);
    let mut tree = subtree(1, &children);
    assert_eq!(tree[0], 1);
    tree.sort_unstable();
    assert_eq!(tree, vec![1, 2, 3, 4]);
}

#[test]
fn a_cycle_in_the_parent_chain_does_not_hang() {
    let children = index(&[(1, 2), (2, 1)]);

    // Completing at all is the assertion; each process still counts once.
    let tree = subtree(1, &children);
    assert_eq!(tree, vec![1, 2]);
}

#[test]
fn unrelated_processes_are_left_out() {
    let rows = vec![(10, None), (11, Some(10)), (20, Some(99)), (12, Some(11)), (13, Some(10))];
    let children = child_index(&rows);
    assert_eq!(subtree(10, &children), vec![10, 11, 13, 12]);
    assert_eq!(subtree(20, &children), vec![20]);
    assert_eq!(subtree(7, &children), vec![7]);
}

#[test]
fn history_is_capped_and_keeps_the_newest_samples() {
    let mut histories: Histories<u64> = Histories::new();
    for i in 0..(HISTORY as u64 + 5) {
        histories.record("p", i);
    }

    let history = histories.history("p").unwrap();
    assert_eq!(history.len(), HISTORY);
    assert_eq!(history[0], 5);
    assert_eq!(*history.last().unwrap(), HISTORY as u64 + 4);
}

#[test]
fn a_project_that_stops_loses_its_history() {
    let mut histories: Histories<u64> = Histories::new();
    histories.record("a", 1);
    histories.record("b", 2);
    assert!(histories.history("a").is_some());
    assert!(histories.history("b").is_some());

    // Only "a" is still running on the next tick.
    histories.retain_live(&vec!["a".to_string()]);
    assert!(histories.history("a").is_some());
    assert!(histories.history("b").is_none());

    histories.forget("a");
    assert!(histories.history("a").is_none());
}

#[test]
fn a_tree_adds_up_the_processes_still_there() {
    assert_eq!(tree_totals(&vec![Some(100), None, Some(50)]), (150, 2));
    assert_eq!(tree_totals(&vec![]), (0, 0));
    assert_eq!(tree_totals(&vec![Some(u64::MAX), Some(1)]), (u64::MAX, 2));
}
