use server::skills::{
    split_skill_file, user_manifest_path, user_skill_rel, validate_directory_name,
    validate_manifest, validate_name, SkillManifest, SkillStoreError,
};

#[test]
fn validates_agent_skill_names() {
    for name in ["a", "pdf-processing", "data2"] {
        validate_name(name).unwrap();
    }
    for name in ["", "-bad", "bad-", "bad--name", "Bad", "has_space"] {
        assert!(validate_name(name).is_err(), "{name}");
    }
}

fn invalid_message(r: Result<(), SkillStoreError>) -> String {
    match r {
        Err(SkillStoreError::Invalid(m)) => m,
        other => panic!("expected an invalid-skill error, got {other:?}"),
    }
}

#[test]
fn name_errors_name_the_first_broken_rule() {
    assert_eq!(invalid_message(validate_name("")), "name must be 1-64 characters");
    assert_eq!(
        invalid_message(validate_name(&"a".repeat(65))),
        "name must be 1-64 characters"
    );
    assert!(validate_name(&"a".repeat(64)).is_ok());
    assert_eq!(
        invalid_message(validate_name("a--b")),
        "name must not start or end with a hyphen or contain consecutive hyphens"
    );
    assert_eq!(
        invalid_message(validate_name("dé")),
        "name may only contain lowercase letters, numbers, and hyphens"
    );
}

fn manifest(name: &str, description: &str, compatibility: Option<&str>) -> SkillManifest {
    SkillManifest {
        name: name.to_string(),
        description: description.to_string(),
        license: None,
        compatibility: compatibility.map(str::to_string),
        metadata: None,
        allowed_tools: None,
    }
}

#[test]
fn manifest_must_match_its_directory_and_describe_itself() {
    assert!(validate_manifest(&manifest("demo", "Use for demos.", None), "demo").is_ok());
    assert_eq!(
        invalid_message(validate_manifest(&manifest("demo", "x", None), "other")),
        "skill name 'demo' must match directory 'other'"
    );
    assert_eq!(
        invalid_message(validate_manifest(&manifest("demo", "   ", None), "demo")),
        "description must be 1-1024 characters"
    );
    assert_eq!(
        invalid_message(validate_manifest(&manifest("demo", &"d".repeat(1025), None), "demo")),
        "description must be 1-1024 characters"
    );
    assert_eq!(
        invalid_message(validate_manifest(&manifest("demo", "ok", Some(" ")), "demo")),
        "compatibility must be 1-500 characters"
    );
}

#[test]
fn directory_names_are_single_segments() {
    assert!(validate_directory_name("pdf").is_ok());
    for name in ["", ".", "..", "a/b", "tab\there"] {
        assert!(validate_directory_name(name).is_err(), "{name:?}");
    }
}

#[test]
fn skill_files_split_into_frontmatter_and_body() {
    let (front, body) = split_skill_file("---\nname: demo\n---\n\nDo it.").unwrap();
    assert_eq!(front, "name: demo\n");
    assert_eq!(body, "Do it.");
    let (front, body) = split_skill_file("\u{feff}---\r\nname: x\r\n---\r\nbody").unwrap();
    assert_eq!(front, "name: x\r\n");
    assert_eq!(body, "body");
    let (front, body) = split_skill_file("---\nname: y\n---").unwrap();
    assert_eq!(front, "name: y\n");
    assert_eq!(body, "");
    assert!(matches!(
        split_skill_file("# no frontmatter"),
        Err(SkillStoreError::Invalid(m)) if m == "SKILL.md must start with YAML frontmatter"
    ));
    assert!(matches!(
        split_skill_file("---\nname: z\n"),
        Err(SkillStoreError::Invalid(m)) if m == "SKILL.md frontmatter is not terminated"
    ));
}

#[test]
fn user_skill_paths_live_under_the_skills_root() {
    assert_eq!(user_skill_rel("demo"), "skills/demo");
    assert_eq!(user_manifest_path("demo"), "skills/demo/SKILL.md");
}

#[test]
fn store_errors_render_their_message() {
    assert_eq!(
        SkillStoreError::StorageUnavailable.message(),
        "user skill storage is unavailable"
    );
    assert_eq!(SkillStoreError::NotFound("x".to_string()).message(), "x");
}
