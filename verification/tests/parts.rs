use server::parts::{segment, PartKind, MAX_ARTIFACT_BYTES};

#[test]
fn plain_text_is_one_open_part() {
    let parts = segment("hello world", false);
    assert_eq!(parts.len(), 1);
    assert_eq!(parts[0].kind, PartKind::Text);
    assert!(!parts[0].closed);
    assert_eq!(parts[0].content, "hello world");
}

#[test]
fn prose_then_artifact_splits_and_closes_prose() {
    let parts = segment("intro\n\n```html\n<b>hi</b>\n```", true);
    assert_eq!(parts.len(), 2);
    assert_eq!(parts[0].kind, PartKind::Text);
    assert!(parts[0].closed);
    assert_eq!(parts[1].kind, PartKind::Artifact);
    assert_eq!(parts[1].content, "<b>hi</b>");
    assert!(parts[1].closed);
}

#[test]
fn open_artifact_is_not_closed_while_streaming() {
    let parts = segment("```html\n<div>partial", false);
    assert_eq!(parts.len(), 1);
    assert_eq!(parts[0].kind, PartKind::Artifact);
    assert!(!parts[0].closed);
}

#[test]
fn unterminated_artifact_downgrades_to_code_on_finalize() {
    let parts = segment("```html\n<div>partial", true);
    assert_eq!(parts.len(), 1);
    assert_eq!(parts[0].kind, PartKind::Text);
    assert!(parts[0].content.starts_with("```html\n<div>partial"));
}

#[test]
fn non_artifact_fence_stays_in_text() {
    let parts = segment("```js\nconst a = 1;\n```", true);
    assert_eq!(parts.len(), 1);
    assert_eq!(parts[0].kind, PartKind::Text);
    assert!(parts[0].content.contains("const a = 1;"));
}

#[test]
fn oversized_artifact_downgrades_to_code() {
    let big = "x".repeat(MAX_ARTIFACT_BYTES + 1);
    let parts = segment(&format!("```html\n{big}\n```"), true);
    assert_eq!(parts.len(), 1);
    assert_eq!(parts[0].kind, PartKind::Text);
    assert!(parts[0].content.starts_with("```text"));
}

#[test]
fn artifact_between_prose() {
    let parts = segment("before\n\n```html\n<i>x</i>\n```\n\nafter", true);
    assert_eq!(parts.len(), 3);
    assert_eq!(parts[0].kind, PartKind::Text);
    assert_eq!(parts[1].kind, PartKind::Artifact);
    assert_eq!(parts[2].kind, PartKind::Text);
    assert_eq!(parts[2].content, "after");
}

#[test]
fn part_kinds_have_wire_names() {
    assert_eq!(PartKind::Text.as_str(), "text");
    assert_eq!(PartKind::Artifact.as_str(), "artifact");
}

#[test]
fn finalized_parts_are_all_closed() {
    let parts = segment("a\n\n```html\n<p>x</p>\n```\n\nb\n```html\nopen", true);
    assert!(parts.iter().all(|p| p.closed));
    assert!(parts
        .iter()
        .all(|p| p.kind == PartKind::Text || p.lang.as_deref() == Some("html")));
}
