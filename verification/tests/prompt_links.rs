use server::runner::prompt_links;

const ID: u128 = 0x0123_4567_89ab_cdef_0123_4567_89ab_cdef;
const ID_TEXT: &str = "01234567-89ab-cdef-0123-456789abcdef";

#[test]
fn telegram_links_are_absolute() {
    let l = prompt_links(
        true,
        Some("https://stride.example//"),
        Some(ID),
        Some("/home/agent"),
        &["docs".to_string(), "Projects/Acme".to_string()],
    );
    assert_eq!(l.public_url.as_deref(), Some("https://stride.example"));
    assert_eq!(l.base_url, "https://stride.example");
    assert_eq!(
        l.file_link_example,
        format!("Example: `/home/agent/report.pdf` -> `[report.pdf](https://stride.example/api/threads/{ID_TEXT}/files/report.pdf)`.")
    );
    assert_eq!(l.writable_extra, "`/home/user/docs`, `/home/user/Projects/Acme`");
}

#[test]
fn web_links_are_relative_html_anchors() {
    let l = prompt_links(false, Some("https://stride.example"), Some(ID), Some("/home/agent"), &[]);
    assert_eq!(l.base_url, "");
    assert_eq!(
        l.file_link_example,
        format!("When linking to a file in a user-facing response, use an HTML anchor, not Markdown: `<a href=\"/api/threads/{ID_TEXT}/files/report.pdf\">report.pdf</a>`.")
    );
    assert_eq!(l.writable_extra, "");
}

#[test]
fn no_example_without_a_thread_or_workspace() {
    let l = prompt_links(true, None, None, Some("/home/agent"), &[]);
    assert_eq!(l.public_url, None);
    assert_eq!(l.base_url, "");
    assert_eq!(l.file_link_example, "");
    assert_eq!(prompt_links(true, None, Some(ID), None, &[]).file_link_example, "");
}
