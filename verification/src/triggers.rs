//! Automation triggers: what a file-change trigger watches, and when a
//! polled trigger may fire again.
use vstd::prelude::*;

verus! {

/// The fields of a file-change trigger's configuration.
#[derive(Clone, Copy, Debug)]
pub struct VfsChangeConfig {
    pub global: bool,
    pub node: Option<u128>,
    pub workspace: Option<u128>,
}

/// What a file-change trigger watches: the owner's whole global area, a
/// node and everything under it, or a workspace.
#[derive(Clone, Copy, Debug, PartialEq, Eq, Structural)]
pub enum VfsTarget {
    Global,
    Node(u128),
    Workspace(u128),
}

pub open spec fn spec_vfs_target(config: Option<VfsChangeConfig>) -> Result<VfsTarget, Seq<char>> {
    match config {
        None => Err("vfs_change trigger requires trigger_config"@),
        Some(c) => if c.node is Some {
            Ok(VfsTarget::Node(c.node->0))
        } else if c.workspace is Some {
            Ok(VfsTarget::Workspace(c.workspace->0))
        } else if c.global {
            Ok(VfsTarget::Global)
        } else {
            Err("vfs_change trigger_config needs 'global', 'node', or 'workspace'"@)
        },
    }
}

/// The target of a file-change trigger from its configuration (`None` when
/// it has none): a node first, then a workspace, then the global area.
pub fn vfs_target(config: Option<VfsChangeConfig>) -> (r: Result<VfsTarget, String>)
    ensures
        match (r, spec_vfs_target(config)) {
            (Ok(t), Ok(u)) => t == u,
            (Err(m), Err(n)) => m@ == n,
            _ => false,
        },
{
    let c = match config {
        None => {
            return Err("vfs_change trigger requires trigger_config".to_owned());
        },
        Some(c) => c,
    };
    if let Some(node) = c.node {
        Ok(VfsTarget::Node(node))
    } else if let Some(workspace) = c.workspace {
        Ok(VfsTarget::Workspace(workspace))
    } else if c.global {
        Ok(VfsTarget::Global)
    } else {
        Err("vfs_change trigger_config needs 'global', 'node', or 'workspace'".to_owned())
    }
}

/// The minute of unix time `t` (seconds), counted as Rust's integer
/// division does, toward zero.
pub open spec fn minute_of(t: i64) -> int {
    if t >= 0 {
        t as int / 60
    } else {
        -((-(t as int)) / 60)
    }
}

/// A cron trigger fires at most once in a wall-clock minute: it is fresh
/// at `now` unless it last ran in the same minute.
pub fn cron_fresh(now: i64, last_run: Option<i64>) -> (r: bool)
    ensures
        r == match last_run {
            None => true,
            Some(last) => minute_of(last) != minute_of(now),
        },
{
    match last_run {
        None => true,
        Some(last) => {
            let a = last / 60;
            let b = now / 60;
            assert(a == minute_of(last) && b == minute_of(now));
            a != b
        },
    }
}

} // verus!
