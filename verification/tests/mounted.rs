use server::vfs::mounted::{
    gid_name, project_dir_name, project_dir_prefix, uid_name, Location, MountTable, StatMeta,
    VfsError, WriteTarget, GID_AGENT, GID_ROOT, GID_STRIDE, GID_USER, UID_AGENT, UID_ROOT,
    UID_USER,
};
use uuid::Uuid;

fn table(workspace: Option<Uuid>, grant: Option<&str>, extra: &[&str]) -> MountTable {
    MountTable {
        workspace,
        project_grant: grant.map(str::to_string),
        extra: extra.iter().map(|s| s.to_string()).collect(),
    }
}

fn meta(t: &MountTable, path: &str, is_dir: bool) -> StatMeta {
    t.stat_meta(path, is_dir)
}

#[test]
fn project_dir_name_sanitizes_separators() {
    assert_eq!(project_dir_name("Acme"), "Acme");
    assert_eq!(project_dir_name("a/b\\c"), "a-b-c");
    assert_eq!(project_dir_name("  spaced  "), "spaced");
}

#[test]
fn project_dir_name_falls_back_when_empty() {
    assert_eq!(project_dir_name("   "), "Untitled");
    assert_eq!(project_dir_name("..."), "Untitled");
    assert_eq!(project_dir_name(". . ."), "Untitled");
    assert_eq!(project_dir_name(". .. ."), "Untitled");
    assert_eq!(project_dir_name(".a."), "a");
}

#[test]
fn project_dir_prefix_is_under_projects_root() {
    assert_eq!(project_dir_prefix("Acme"), "Projects/Acme");
}

#[test]
fn stat_meta_agent_subtree_is_agent_owned() {
    let t = table(Some(Uuid::nil()), None, &[]);
    assert_eq!(
        meta(&t, "/home/agent/notes", true),
        StatMeta {
            uid: UID_AGENT,
            gid: GID_AGENT,
            mode: 0o755,
        }
    );
    assert_eq!(
        meta(&t, "/home/agent/notes/a.txt", false),
        StatMeta {
            uid: UID_AGENT,
            gid: GID_AGENT,
            mode: 0o644,
        }
    );
}

#[test]
fn stat_meta_user_default_is_read_only_user_owned() {
    let t = table(Some(Uuid::nil()), None, &[]);
    assert_eq!(
        meta(&t, "/home/user/Documents", true),
        StatMeta {
            uid: UID_USER,
            gid: GID_USER,
            mode: 0o755,
        }
    );
    assert_eq!(
        meta(&t, "/home/user/Documents/a.txt", false),
        StatMeta {
            uid: UID_USER,
            gid: GID_USER,
            mode: 0o644,
        }
    );
}

#[test]
fn stat_meta_granted_subtree_is_group_writable() {
    let t = table(Some(Uuid::nil()), Some("Projects/Acme"), &["Documents"]);
    assert_eq!(
        meta(&t, "/home/user/Projects/Acme", true),
        StatMeta {
            uid: UID_USER,
            gid: GID_STRIDE,
            mode: 0o775,
        }
    );
    assert_eq!(
        meta(&t, "/home/user/Projects/Acme/out.txt", false),
        StatMeta {
            uid: UID_USER,
            gid: GID_STRIDE,
            mode: 0o664,
        }
    );
    assert_eq!(meta(&t, "/home/user/Documents/x", false).gid, GID_STRIDE);
    assert_eq!(meta(&t, "/home/user/Projects/Other", true).gid, GID_USER);
}

#[test]
fn stat_meta_synthetic_and_outside_are_root() {
    let t = table(Some(Uuid::nil()), None, &[]);
    for path in ["/", "/home", "/tmp/scratch", "/usr/share/fonts"] {
        let m = meta(&t, path, true);
        assert_eq!(m.uid, UID_ROOT);
        assert_eq!(m.gid, GID_ROOT);
    }
}

#[test]
fn resolve_agent_without_workspace_is_outside() {
    let t = table(None, Some("Projects/Acme"), &[]);
    assert!(matches!(t.resolve("/home/agent/x.txt"), Location::Outside));
    assert!(matches!(
        t.resolve("/home/user/Projects/Acme/out.txt"),
        Location::Global { writable: true, .. }
    ));
}

#[test]
fn identity_names_map_to_stable_labels() {
    assert_eq!(uid_name(UID_AGENT), "agent");
    assert_eq!(uid_name(UID_USER), "user");
    assert_eq!(uid_name(UID_ROOT), "root");
    assert_eq!(gid_name(GID_STRIDE), "stride");
    assert_eq!(gid_name(GID_ROOT), "root");
}

#[test]
fn resolution_ignores_dot_segments_and_repeated_slashes() {
    let t = table(Some(Uuid::nil()), None, &[]);
    match t.resolve("/home//agent/./a/../b.txt") {
        Location::Workspace(rel) => assert_eq!(rel, "a/b.txt"),
        other => panic!("unexpected {other:?}"),
    }
    assert!(matches!(t.resolve(""), Location::Root));
    assert!(matches!(t.resolve("/home/"), Location::Home));
}

#[test]
fn writes_land_only_in_the_workspace_or_grants() {
    let id = Uuid::nil();
    let t = table(Some(id), Some("Projects/Acme"), &[]);
    match t.writable("/home/agent/out.md") {
        Ok(WriteTarget::Workspace(w, rel)) => {
            assert_eq!(w, id);
            assert_eq!(rel, "out.md");
        }
        _ => panic!("workspace write refused"),
    }
    assert!(matches!(
        t.writable("/home/user/Projects/Acme/a.txt"),
        Ok(WriteTarget::Global(rel)) if rel == "Projects/Acme/a.txt"
    ));
    assert!(matches!(t.writable("/home/user/Projects/AcmeX/a.txt"), Err(VfsError::ReadOnly)));
    assert!(matches!(t.writable("/home"), Err(VfsError::ReadOnly)));
    assert!(matches!(t.writable("/tmp/x"), Err(VfsError::NotFound)));
}

#[test]
fn storage_errors_are_classified_by_message() {
    assert!(matches!(VfsError::from_storage("file not found".to_string()), VfsError::NotFound));
    assert!(matches!(
        VfsError::from_storage("x is not a directory".to_string()),
        VfsError::NotADirectory
    ));
    assert!(matches!(
        VfsError::from_storage("x is a directory".to_string()),
        VfsError::IsADirectory
    ));
    assert!(matches!(
        VfsError::from_storage("disk full".to_string()),
        VfsError::Storage(m) if m == "disk full"
    ));
    assert_eq!(VfsError::ReadOnly.message(), "read-only file system");
}
