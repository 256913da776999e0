use server::embedded::{mime_for, system_list, system_read, EmbeddedDir, EmbeddedFile};
use server::skills::{system_skill_source, SkillStoreError};
use server::vfs::EntryKind;

fn tree() -> EmbeddedDir {
    EmbeddedDir {
        path: String::new(),
        dirs: vec![EmbeddedDir {
            path: "pdf".to_string(),
            dirs: vec![EmbeddedDir {
                path: "pdf/scripts".to_string(),
                dirs: vec![],
                files: vec![EmbeddedFile {
                    path: "pdf/scripts/merge.py".to_string(),
                    contents: b"print(1)".to_vec(),
                }],
            }],
            files: vec![
                EmbeddedFile {
                    path: "pdf/SKILL.md".to_string(),
                    contents: b"---\n".to_vec(),
                },
                EmbeddedFile {
                    path: "pdf/LICENSE".to_string(),
                    contents: vec![],
                },
            ],
        }],
        files: vec![],
    }
}

#[test]
fn mime_types_follow_extensions() {
    assert_eq!(mime_for("a/SKILL.md"), Some("text/markdown"));
    assert_eq!(mime_for("run.sh"), Some("text/x-shellscript"));
    assert_eq!(mime_for("c.yml"), Some("application/yaml"));
    assert_eq!(mime_for(".md"), None);
    assert_eq!(mime_for("LICENSE"), None);
    assert_eq!(mime_for("docs/notes.txt/"), Some("text/plain"));
    assert_eq!(mime_for("docs/./a.json/."), Some("application/json"));
    assert_eq!(mime_for("docs/a.md/.."), None);
}

#[test]
fn listings_are_sorted_by_name() {
    let root = tree();
    let entries = system_list(&root, "pdf").unwrap();
    let names: Vec<&str> = entries.iter().map(|e| e.name.as_str()).collect();
    assert_eq!(names, vec!["LICENSE", "SKILL.md", "scripts"]);
    assert_eq!(entries[2].kind, EntryKind::Directory);
    assert_eq!(entries[1].size, Some(4));
    assert_eq!(entries[1].mime_type.as_deref(), Some("text/markdown"));
    assert_eq!(system_list(&root, "").unwrap().len(), 1);
    assert!(matches!(system_list(&root, "nope"), Err(SkillStoreError::NotFound(p)) if p == "nope"));
}

#[test]
fn files_are_read_with_their_type() {
    let root = tree();
    let (bytes, mime) = system_read(&root, "pdf/scripts/merge.py").unwrap();
    assert_eq!(bytes, b"print(1)".to_vec());
    assert_eq!(mime.as_deref(), Some("text/x-python"));
    assert!(matches!(system_read(&root, "pdf/none"), Err(SkillStoreError::NotFound(_))));
}

#[test]
fn system_skill_sources_need_a_utf8_skill_file() {
    let root = tree();
    let (name, raw, home) = system_skill_source(&root.dirs[0]).unwrap();
    assert_eq!(name, "pdf");
    assert_eq!(raw, "---\n");
    assert_eq!(home, "/usr/share/skills/pdf");
    let empty = EmbeddedDir {
        path: "docs".to_string(),
        dirs: vec![],
        files: vec![],
    };
    assert_eq!(
        system_skill_source(&empty).unwrap_err(),
        "server/skills/docs is missing SKILL.md"
    );
    let bad = EmbeddedDir {
        path: "bin".to_string(),
        dirs: vec![],
        files: vec![EmbeddedFile {
            path: "bin/SKILL.md".to_string(),
            contents: vec![0xff, 0xfe],
        }],
    };
    assert_eq!(
        system_skill_source(&bad).unwrap_err(),
        "server/skills/bin/SKILL.md is not UTF-8"
    );
}

#[test]
fn listed_files_read_back_with_their_size_and_type() {
    let root = tree();
    for dir in ["pdf", "pdf/scripts"] {
        for e in system_list(&root, dir).unwrap() {
            if e.kind == EntryKind::File {
                let (bytes, mime) = system_read(&root, &format!("{dir}/{}", e.name)).unwrap();
                assert_eq!(Some(bytes.len() as i64), e.size);
                assert_eq!(mime, e.mime_type);
            }
        }
    }
}
