use server::triggers::{cron_fresh, vfs_target, VfsChangeConfig, VfsTarget};

#[test]
fn rejects_empty_config() {
    assert!(vfs_target(None).is_err());
    let empty = VfsChangeConfig { global: false, node: None, workspace: None };
    assert_eq!(
        vfs_target(Some(empty)).unwrap_err(),
        "vfs_change trigger_config needs 'global', 'node', or 'workspace'"
    );
}

#[test]
fn a_node_wins_over_a_workspace_and_the_global_area() {
    let all = VfsChangeConfig { global: true, node: Some(7), workspace: Some(9) };
    assert_eq!(vfs_target(Some(all)).unwrap(), VfsTarget::Node(7));
    let ws = VfsChangeConfig { global: true, node: None, workspace: Some(9) };
    assert_eq!(vfs_target(Some(ws)).unwrap(), VfsTarget::Workspace(9));
    let global = VfsChangeConfig { global: true, node: None, workspace: None };
    assert_eq!(vfs_target(Some(global)).unwrap(), VfsTarget::Global);
}

#[test]
fn cron_fires_once_per_minute() {
    let now = 1_609_459_200;
    assert!(cron_fresh(now, None));
    assert!(!cron_fresh(now, Some(now)));
    assert!(!cron_fresh(now + 59, Some(now)));
    assert!(cron_fresh(now + 60, Some(now)));
    assert!(!cron_fresh(-30, Some(30)));
    assert!(cron_fresh(-61, Some(0)));
}
