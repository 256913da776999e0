use server::grants::{disjoint_prefixes, join_rel, under};

#[test]
fn disjoint_prefixes_drops_nested_and_duplicates() {
    let kept = disjoint_prefixes(vec![
        "Projects/Acme".to_string(),
        "Projects/Acme".to_string(),
        "Projects/Acme/sub".to_string(),
        "Documents".to_string(),
        "Documents/Notes".to_string(),
    ]);
    assert_eq!(
        kept,
        vec!["Documents".to_string(), "Projects/Acme".to_string()]
    );
}

#[test]
fn disjoint_prefixes_drops_empty() {
    let kept = disjoint_prefixes(vec!["".to_string(), "Photos".to_string()]);
    assert_eq!(kept, vec!["Photos".to_string()]);
}

#[test]
fn disjoint_prefixes_keeps_siblings_with_shared_text() {
    let kept = disjoint_prefixes(vec![
        "a/b/c".to_string(),
        "ab".to_string(),
        "a/b".to_string(),
        "a".to_string(),
    ]);
    assert_eq!(kept, vec!["a".to_string(), "ab".to_string()]);
}

#[test]
fn relative_paths_join_with_one_slash() {
    assert_eq!(under("Projects/Acme", ""), "Projects/Acme");
    assert_eq!(under("Projects/Acme", "x/y"), "Projects/Acme/x/y");
    assert_eq!(join_rel("", "child"), "child");
    assert_eq!(join_rel("p", "child"), "p/child");
}
