use runstack_lib::tree::ancestors_of;
use runstack_lib::tree::descendants;
use runstack_lib::tree::kill_order;
use runstack_lib::tree::lookup_ppid;
use runstack_lib::tree::should_verify_root;
use runstack_lib::tree::ProcEntry;

fn table(rows: &[(u32, u32)]) -> Vec<ProcEntry> {
    rows.iter().map(|&(pid, ppid)| ProcEntry::new(pid, ppid)).collect()
}

#[test]
fn test_descendants_no_children_is_singleton() {
    // A root with no children in the table comes back alone
    let t = table(&[(50, 1), (60, 50)]);
    let d = descendants(&t, 1234, 4);
    assert_eq!(d, vec![1234]);
}

#[test]
fn test_descendants_finds_shell_wrapper_child() {
    // A root that spawned one child through a shell wrapper: both PIDs
    // appear in the discovered tree, root first
    let t = table(&[(1001, 1000)]);
    let d = descendants(&t, 1000, 4);
    assert_eq!(d, vec![1000, 1001]);
}

#[test]
fn test_descendants_multiple_levels_and_dedup() {
    // shell -> package manager -> dev server -> watcher
    let t = table(&[(11, 10), (12, 11), (13, 12), (13, 12), (99, 98)]);
    let d = descendants(&t, 10, 4);
    assert_eq!(d, vec![10, 11, 12, 13]);
}

#[test]
fn test_descendants_depth_limit() {
    let t = table(&[(11, 10), (12, 11), (13, 12)]);
    let d = descendants(&t, 10, 1);
    assert_eq!(d, vec![10, 11]);
}

#[test]
fn test_kill_order_reverses_and_filters() {
    // Child is killed before its parent; the supervisor and its
    // ancestors never appear even if discovered in the tree
    let tree = vec![1000, 1001, 77, 88];
    let ancestors = vec![88, 2];
    let order = kill_order(&tree, 77, &ancestors);
    assert_eq!(order, vec![1001, 1000]);
}

#[test]
fn test_kill_order_never_names_supervisor() {
    // Asking to kill the supervisor's own tree touches neither the
    // supervisor nor any ancestor
    let tree = vec![77, 88, 2];
    let ancestors = vec![88, 2];
    let order = kill_order(&tree, 77, &ancestors);
    assert!(order.is_empty());
}

#[test]
fn test_ancestors_of_walks_parent_chain() {
    let t = table(&[(400, 300), (300, 1), (500, 400)]);
    let a = ancestors_of(&t, 400);
    assert_eq!(a, vec![400, 300]);
}

#[test]
fn test_ancestors_of_stops_on_cycle() {
    // A cyclic parent chain terminates instead of looping
    let t = table(&[(400, 300), (300, 400)]);
    let a = ancestors_of(&t, 400);
    assert_eq!(a, vec![400, 300]);
}

#[test]
fn test_ancestors_of_init_is_empty() {
    let t = table(&[(400, 300)]);
    assert!(ancestors_of(&t, 1).is_empty());
    assert!(ancestors_of(&t, 0).is_empty());
}

#[test]
fn test_should_verify_root_skips_supervisor_and_ancestors() {
    let ancestors = vec![88, 2];
    assert!(!should_verify_root(77, 77, &ancestors));
    assert!(!should_verify_root(88, 77, &ancestors));
    assert!(should_verify_root(1000, 77, &ancestors));
}

#[test]
fn test_lookup_ppid_first_match() {
    let t = table(&[(10, 1), (20, 10), (20, 99)]);
    assert_eq!(lookup_ppid(&t, 20), Some(10));
    assert_eq!(lookup_ppid(&t, 30), None);
}
