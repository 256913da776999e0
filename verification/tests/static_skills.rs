use server::static_skills::{
    find_static_skill, is_markdown, skill_matches_query, sort_skills, split_toml_frontmatter,
    static_skill_names, StaticSkill,
};

fn skill(name: &str, title: &str, description: &str) -> StaticSkill {
    StaticSkill {
        name: name.to_string(),
        title: title.to_string(),
        description: description.to_string(),
        content: String::new(),
    }
}

#[test]
fn parses_toml_frontmatter() {
    let raw = "+++\nname = \"demo\"\ntitle = \"Demo\"\ndescription = \"A demo skill.\"\n+++\n# Body\n\nDo the thing.";
    let (front, body) = split_toml_frontmatter(raw).unwrap();
    assert_eq!(
        front,
        "name = \"demo\"\ntitle = \"Demo\"\ndescription = \"A demo skill.\"\n"
    );
    assert_eq!(body, "# Body\n\nDo the thing.");
}

#[test]
fn rejects_missing_frontmatter() {
    assert!(split_toml_frontmatter("# Just a heading").is_none());
}

#[test]
fn rejects_unterminated_frontmatter() {
    assert!(split_toml_frontmatter("+++\nname = \"x\"\nstill going").is_none());
}

#[test]
fn queries_match_lowercased_fields() {
    let s = skill("pdf-tools", "PDF Tools", "Merge and Split documents");
    assert!(skill_matches_query(&s, "pdf"));
    assert!(skill_matches_query(&s, "split"));
    assert!(!skill_matches_query(&s, "Split"));
    assert!(!skill_matches_query(&s, "excel"));
}

#[test]
fn lookup_and_names_follow_the_list() {
    let skills = vec![skill("a", "A", "first"), skill("b", "B", "x"), skill("a", "A2", "second")];
    assert_eq!(find_static_skill(&skills, "a").unwrap().description, "first");
    assert!(find_static_skill(&skills, "c").is_none());
    assert_eq!(static_skill_names(&skills), vec!["a".to_string(), "b".to_string()]);
}

#[test]
fn embedded_skills_are_markdown_files_in_name_order() {
    assert!(is_markdown("skills/pdf.md"));
    assert!(!is_markdown("skills/.md"));
    assert!(!is_markdown("skills/run.sh"));
    let sorted = sort_skills(vec![skill("b", "1", ""), skill("a", "2", ""), skill("b", "3", "")]);
    let order: Vec<(&str, &str)> = sorted.iter().map(|s| (s.name.as_str(), s.title.as_str())).collect();
    assert_eq!(order, vec![("a", "2"), ("b", "1"), ("b", "3")]);
}
