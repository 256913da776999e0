use std::collections::{BTreeMap, BTreeSet};

use server::shell::eval::Listed;
use server::skill_store::{LegacyRow, Replay, SkillStore, StoreOp, StoreReply};
use server::skills::{
    finish_skill, split_skill_file, validate_manifest, Skill, SkillManifest, SkillOrigin,
    SkillStoreError, UserSkillView,
};

const OWNER: u128 = 0x0191_0000_0000_7000_8000_0000_0000_0001;
const OTHER: u128 = 0x0191_0000_0000_7000_8000_0000_0000_0002;

/// Users' file trees, the legacy table, and a small stand-in for the
/// `SKILL.md` codec.
struct World {
    files: BTreeMap<(u128, String), Vec<u8>>,
    dirs: BTreeSet<(u128, String)>,
    legacy: Vec<LegacyRow>,
}

fn parent(path: &str) -> &str {
    match path.rfind('/') {
        Some(i) => &path[..i],
        None => "",
    }
}

fn render(manifest: &SkillManifest, content: &str, check: bool) -> Result<String, SkillStoreError> {
    if check {
        validate_manifest(manifest, &manifest.name)?;
    }
    let mut out = format!("---\nname: {}\ndescription: {}\n", manifest.name, manifest.description);
    if let Some(l) = &manifest.license {
        out.push_str(&format!("license: {l}\n"));
    }
    if let Some(c) = &manifest.compatibility {
        out.push_str(&format!("compatibility: {c}\n"));
    }
    if let Some(m) = &manifest.metadata {
        out.push_str("metadata:\n");
        for (k, v) in m {
            out.push_str(&format!("  {k}: {v}\n"));
        }
    }
    if let Some(t) = &manifest.allowed_tools {
        out.push_str(&format!("allowed-tools: {t}\n"));
    }
    out.push_str("---\n");
    out.push_str(content);
    Ok(out)
}

fn parse(raw: &str, name: &str, path: &str) -> Result<Skill, SkillStoreError> {
    let (front, body) = split_skill_file(raw)?;
    let mut manifest = SkillManifest {
        name: String::new(),
        description: String::new(),
        license: None,
        compatibility: None,
        metadata: None,
        allowed_tools: None,
    };
    for line in front.lines() {
        if let Some(kv) = line.strip_prefix("  ") {
            let (k, v) = kv.split_once(": ").unwrap();
            manifest.metadata.get_or_insert_with(Vec::new).push((k.to_string(), v.to_string()));
            continue;
        }
        let (k, v) = match line.split_once(':') {
            Some((k, v)) => (k, v.trim().to_string()),
            None => continue,
        };
        match k {
            "name" => manifest.name = v,
            "description" => manifest.description = v,
            "license" => manifest.license = Some(v),
            "compatibility" => manifest.compatibility = Some(v),
            "allowed-tools" => manifest.allowed_tools = Some(v),
            "metadata" => {},
            _ => return Err(SkillStoreError::Invalid("invalid SKILL.md frontmatter".to_string())),
        }
    }
    finish_skill(manifest, body, name, SkillOrigin::User, path)
}

impl World {
    fn new() -> Self {
        World { files: BTreeMap::new(), dirs: BTreeSet::new(), legacy: Vec::new() }
    }

    fn add_dirs(&mut self, owner: u128, path: &str) {
        let mut p = path.to_string();
        while !p.is_empty() {
            self.dirs.insert((owner, p.clone()));
            p = parent(&p).to_string();
        }
    }

    fn put(&mut self, owner: u128, path: &str, bytes: &[u8]) {
        self.add_dirs(owner, parent(path));
        self.files.insert((owner, path.to_string()), bytes.to_vec());
    }

    fn text(&self, owner: u128, path: &str) -> Option<String> {
        self.files.get(&(owner, path.to_string())).map(|b| String::from_utf8(b.clone()).unwrap())
    }

    fn rename(&mut self, owner: u128, from: &str, to: &str) {
        let files: Vec<_> = self.files.keys().cloned().collect();
        for (o, p) in files {
            if o == owner && p.starts_with(&format!("{from}/")) {
                let bytes = self.files.remove(&(o, p.clone())).unwrap();
                self.files.insert((o, format!("{to}{}", &p[from.len()..])), bytes);
            }
        }
        let dirs: Vec<_> = self.dirs.iter().cloned().collect();
        for (o, p) in dirs {
            if o == owner && (p == from || p.starts_with(&format!("{from}/"))) {
                self.dirs.remove(&(o, p.clone()));
                self.dirs.insert((o, format!("{to}{}", &p[from.len()..])));
            }
        }
    }

    fn perform(&mut self, op: &StoreOp) -> StoreReply {
        match op {
            StoreOp::CreateDir { owner, path } => {
                self.add_dirs(*owner, path);
                StoreReply::Done(Ok(()))
            },
            StoreOp::List { owner, path } => {
                if !self.dirs.contains(&(*owner, path.clone())) {
                    return StoreReply::Entries(Err(format!("{path}: not found")));
                }
                let mut out = Vec::new();
                for (o, d) in &self.dirs {
                    if o == owner && parent(d) == path {
                        out.push(Listed { name: d.rsplit('/').next().unwrap().to_string(), is_dir: true });
                    }
                }
                for (o, f) in self.files.keys() {
                    if o == owner && parent(f) == path {
                        out.push(Listed { name: f.rsplit('/').next().unwrap().to_string(), is_dir: false });
                    }
                }
                StoreReply::Entries(Ok(out))
            },
            StoreOp::Read { owner, path } => match self.files.get(&(*owner, path.clone())) {
                Some(b) => StoreReply::Text(Ok(String::from_utf8_lossy(b).into_owned())),
                None => StoreReply::Text(Err(format!("{path}: not found"))),
            },
            StoreOp::ReadBytes { owner, path } => match self.files.get(&(*owner, path.clone())) {
                Some(b) => StoreReply::Bytes(Ok(b.clone())),
                None => StoreReply::Bytes(Err(format!("{path}: not found"))),
            },
            StoreOp::Write { owner, path, content } => {
                self.put(*owner, path, content.as_bytes());
                StoreReply::Done(Ok(()))
            },
            StoreOp::Delete { owner, path } => {
                if !self.dirs.remove(&(*owner, path.clone())) {
                    return StoreReply::Done(Err(format!("{path}: not found")));
                }
                let prefix = format!("{path}/");
                self.files.retain(|(o, p), _| !(o == owner && p.starts_with(&prefix)));
                self.dirs.retain(|(o, p)| !(o == owner && p.starts_with(&prefix)));
                StoreReply::Done(Ok(()))
            },
            StoreOp::Parse { raw, name, path } => StoreReply::Parsed(parse(raw, name, path)),
            StoreOp::Render { manifest, content } => StoreReply::Rendered(render(manifest, content, true)),
            StoreOp::RenderBackup { manifest, content } => {
                StoreReply::Rendered(render(manifest, content, false))
            },
            StoreOp::DeleteLegacy(id) => {
                self.legacy.retain(|r| r.id != *id);
                StoreReply::Done(Ok(()))
            },
        }
    }

    /// Runs `f` to the end, answering each request it makes and running it
    /// again with the answers so far.
    fn drive<T>(&mut self, mut f: impl FnMut(&mut Replay) -> Result<T, StoreOp>) -> T {
        let mut replies: Vec<StoreReply> = Vec::new();
        loop {
            let step = {
                let mut rp = Replay::new(&replies);
                f(&mut rp)
            };
            match step {
                Ok(v) => return v,
                Err(op) => {
                    let reply = self.perform(&op);
                    replies.push(reply);
                },
            }
        }
    }
}

fn store(storage: bool) -> SkillStore {
    let manifest = SkillManifest {
        name: "pdf-report".to_string(),
        description: "Build PDF reports.".to_string(),
        license: None,
        compatibility: None,
        metadata: None,
        allowed_tools: None,
    };
    let system = vec![Skill {
        manifest,
        content: "System body".to_string(),
        path: "/usr/share/skills/pdf-report".to_string(),
        origin: SkillOrigin::System,
    }];
    SkillStore { storage, system }
}

fn views(w: &mut World, st: &SkillStore, owner: u128) -> Vec<UserSkillView> {
    w.drive(|rp| st.user_views(rp, owner)).unwrap()
}

fn legacy(id: u128, owner: Option<u128>, name: &str, description: &str, content: &str) -> LegacyRow {
    LegacyRow {
        id,
        owner,
        name: name.to_string(),
        description: description.to_string(),
        content: content.to_string(),
    }
}

#[test]
fn user_bundles_are_discovered_and_optional_fields_survive_updates() {
    let mut w = World::new();
    let st = store(true);
    w.drive(|rp| st.create(rp, OWNER, "demo", "Use for demos.", "Original")).unwrap();
    w.put(OWNER, "skills/demo/scripts/run.py", b"print('ok')");
    w.put(
        OWNER,
        "skills/manual/SKILL.md",
        b"---\nname: manual\ndescription: Use manually.\nlicense: MIT\nmetadata:\n  author: stride\n---\n\nBefore",
    );

    let available = w.drive(|rp| st.available(rp, OWNER, &[])).unwrap();
    assert!(available.iter().any(|skill| skill.manifest.name == "demo"));
    assert!(available.iter().any(|skill| skill.manifest.name == "manual"));
    w.drive(|rp| st.update(rp, OWNER, "manual", "Updated description.", "After")).unwrap();
    let updated = w.drive(|rp| st.load(rp, OWNER, "manual", &[])).unwrap();
    assert_eq!(updated.manifest.license.as_deref(), Some("MIT"));
    assert_eq!(updated.manifest.description, "Updated description.");
    assert_eq!(updated.content, "After");
    assert_eq!(w.text(OWNER, "skills/demo/scripts/run.py").unwrap(), "print('ok')");
    w.drive(|rp| st.delete(rp, OWNER, "demo")).unwrap();
    assert!(w.text(OWNER, "skills/demo/scripts/run.py").is_none());
}

#[test]
fn invalid_manual_bundles_are_diagnostics_not_catalog_entries() {
    let mut w = World::new();
    let st = store(true);
    w.put(OWNER, "skills/broken/SKILL.md", b"---\nname: another-name\ndescription: Broken.\n---\n\nNo");
    w.put(OWNER, "skills/Bad Name/SKILL.md", b"---\nname: bad-name\ndescription: Broken directory.\n---\nNo");
    w.put(OWNER, "skills/binary/SKILL.md", &[0xff, 0xfe]);

    let vs = views(&mut w, &st, OWNER);
    let broken = vs.iter().find(|view| view.name == "broken").unwrap();
    assert!(!broken.valid);
    assert!(broken.error.as_deref().unwrap().contains("must match directory"));
    let available = w.drive(|rp| st.available(rp, OWNER, &[])).unwrap();
    assert!(available.iter().all(|skill| skill.manifest.name != "broken"));
    let binary = vs.iter().find(|view| view.name == "binary").unwrap();
    assert!(binary.error.as_deref().unwrap().contains("not valid UTF-8"));
    w.drive(|rp| st.delete(rp, OWNER, "Bad Name")).unwrap();
    assert!(views(&mut w, &st, OWNER).iter().all(|view| view.name != "Bad Name"));
}

#[test]
fn built_in_names_are_reserved_and_cannot_be_shadowed() {
    let mut w = World::new();
    let st = store(true);
    w.put(OWNER, "skills/pdf-report/SKILL.md", b"---\nname: pdf-report\ndescription: User collision.\n---\nUser body");

    let view = views(&mut w, &st, OWNER).into_iter().find(|view| view.name == "pdf-report").unwrap();
    assert!(!view.valid);
    assert!(view.error.unwrap().contains("built-in"));
    assert_eq!(w.drive(|rp| st.load(rp, OWNER, "pdf-report", &[])).unwrap().origin, SkillOrigin::System);
    let excluded = vec!["pdf-report".to_string()];
    assert!(matches!(
        w.drive(|rp| st.load(rp, OWNER, "pdf-report", &excluded)),
        Err(SkillStoreError::NotFound(_))
    ));
    assert!(matches!(
        w.drive(|rp| st.update(rp, OWNER, "pdf-report", "Changed", "Changed")),
        Err(SkillStoreError::Conflict(_))
    ));
}

#[test]
fn discovery_is_live_isolated_and_reports_directory_renames() {
    let mut w = World::new();
    let st = store(true);
    w.drive(|rp| st.create(rp, OWNER, "live", "First description", "Body")).unwrap();
    let others = w.drive(|rp| st.available(rp, OTHER, &[])).unwrap();
    assert!(others.iter().all(|skill| skill.manifest.name != "live"));

    w.put(OWNER, "skills/live/SKILL.md", b"---\nname: live\ndescription: Changed through Files.\n---\nNew body");
    let refreshed = w.drive(|rp| st.load(rp, OWNER, "live", &[])).unwrap();
    assert_eq!(refreshed.manifest.description, "Changed through Files.");
    assert_eq!(refreshed.content, "New body");

    w.rename(OWNER, "skills/live", "skills/renamed");
    let renamed = views(&mut w, &st, OWNER).into_iter().find(|view| view.name == "renamed").unwrap();
    assert!(!renamed.valid);
    assert!(renamed.error.unwrap().contains("must match directory"));
}

#[test]
fn legacy_rows_migrate_once_without_overwriting_filesystem_bundles() {
    let mut w = World::new();
    let st = store(true);
    let migrated_id: u128 = 0x0191_aaaa_0000_7000_8000_0000_0000_0011;
    let conflict_id: u128 = 0x0191_aaaa_0000_7000_8000_0000_0000_0012;
    let reserved_id: u128 = 0x0191_aaaa_0000_7000_8000_0000_0000_0013;
    w.legacy.push(legacy(migrated_id, Some(OWNER), "legacy", "Legacy description", "Legacy body"));
    w.legacy.push(legacy(conflict_id, Some(OWNER), "existing", "Database description", "Database body"));
    w.legacy.push(legacy(reserved_id, Some(OWNER), "pdf-report", "Database built-in collision", "Database PDF body"));
    w.drive(|rp| st.create(rp, OWNER, "existing", "Filesystem description", "Filesystem body")).unwrap();

    for _ in 0..2 {
        let rows = w.legacy.clone();
        w.drive(|rp| st.migrate_legacy(rp, &rows)).unwrap();
    }

    assert_eq!(w.drive(|rp| st.load(rp, OWNER, "legacy", &[])).unwrap().content, "Legacy body");
    assert_eq!(w.drive(|rp| st.load(rp, OWNER, "existing", &[])).unwrap().content, "Filesystem body");
    let conflict = w
        .text(OWNER, &format!("skill-migration-conflicts/{conflict_id:032x}-existing/SKILL.md"))
        .unwrap();
    assert!(conflict.contains("Database body"));
    let reserved = w
        .text(OWNER, &format!("skill-migration-conflicts/{reserved_id:032x}-pdf-report/SKILL.md"))
        .unwrap();
    assert!(reserved.contains("Database PDF body"));
    assert!(views(&mut w, &st, OWNER).iter().all(|view| view.name != "pdf-report"));
    assert!(w.legacy.is_empty());
}

#[test]
fn migration_defers_without_vfs_and_rejects_ownerless_rows() {
    let mut w = World::new();
    let st = store(false);
    w.legacy.push(legacy(0x21, Some(OWNER), "deferred", "Deferred description", "Deferred body"));
    let rows = w.legacy.clone();
    w.drive(|rp| st.migrate_legacy(rp, &rows)).unwrap();
    assert_eq!(w.legacy.len(), 1);

    w.legacy.push(legacy(0x22, None, "ownerless", "Ownerless description", "Ownerless body"));
    let rows = w.legacy.clone();
    let error = w.drive(|rp| st.migrate_legacy(rp, &rows)).unwrap_err();
    assert!(error.message().contains("ownerless"));
    assert_eq!(w.legacy.len(), 2);
}

#[test]
fn invalid_legacy_names_are_backed_up_under_a_safe_path() {
    let mut w = World::new();
    let st = store(true);
    let id: u128 = 0x0191_bbbb_0000_7000_8000_0000_0000_0031;
    w.legacy.push(legacy(id, Some(OWNER), "../bad", "Legacy description", "Legacy body"));
    let rows = w.legacy.clone();
    w.drive(|rp| st.migrate_legacy(rp, &rows)).unwrap();

    let backup = w.text(OWNER, &format!("skill-migration-conflicts/{id:032x}/SKILL.md")).unwrap();
    assert!(backup.contains("name: ../bad"));
    assert!(backup.contains("Legacy body"));
    assert!(w.legacy.is_empty());
}

#[test]
fn store_errors_name_what_went_wrong() {
    let mut w = World::new();
    let st = store(true);
    assert!(matches!(
        w.drive(|rp| st.load(rp, OWNER, "Bad", &[])),
        Err(SkillStoreError::Invalid(_))
    ));
    match w.drive(|rp| st.load(rp, OWNER, "ghost", &[])) {
        Err(SkillStoreError::NotFound(m)) => assert_eq!(m, "skill 'ghost' not found"),
        other => panic!("unexpected {other:?}"),
    }
    match w.drive(|rp| st.create(rp, OWNER, "pdf-report", "x", "y")) {
        Err(SkillStoreError::Conflict(m)) => {
            assert_eq!(m, "'pdf-report' is a built-in skill and cannot be overwritten")
        },
        other => panic!("unexpected {other:?}"),
    }
    w.drive(|rp| st.create(rp, OWNER, "twice", "  spaced  ", "body")).unwrap();
    match w.drive(|rp| st.create(rp, OWNER, "twice", "x", "y")) {
        Err(SkillStoreError::Conflict(m)) => assert_eq!(m, "a skill directory named 'twice' already exists"),
        other => panic!("unexpected {other:?}"),
    }
    assert_eq!(w.drive(|rp| st.load(rp, OWNER, "twice", &[])).unwrap().manifest.description, "spaced");
    assert!(matches!(w.drive(|rp| st.delete(rp, OWNER, "..")), Err(SkillStoreError::Invalid(_))));
    assert!(matches!(w.drive(|rp| st.delete(rp, OWNER, "nope")), Err(SkillStoreError::NotFound(_))));
    let no_storage = store(false);
    assert!(matches!(
        w.drive(|rp| no_storage.user_views(rp, OWNER)),
        Err(SkillStoreError::StorageUnavailable)
    ));
    let names: Vec<String> =
        w.drive(|rp| no_storage.available(rp, OWNER, &[])).unwrap().into_iter().map(|s| s.manifest.name).collect();
    assert_eq!(names, vec!["pdf-report".to_string()]);
}

#[test]
fn user_views_come_in_name_order() {
    let mut w = World::new();
    let st = store(true);
    for name in ["zeta", "alpha", "mid"] {
        w.drive(|rp| st.create(rp, OWNER, name, "d", "b")).unwrap();
    }
    w.put(OWNER, "skills/loose.txt", b"not a skill");
    let names: Vec<String> = views(&mut w, &st, OWNER).into_iter().map(|v| v.name).collect();
    assert_eq!(names, vec!["alpha", "mid", "zeta"]);
}
