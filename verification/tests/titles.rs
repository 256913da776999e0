use server::titles::{derive_title, DEFAULT_THREAD_TITLE, MAX_TITLE_LEN};

#[test]
fn derive_title_takes_leading_words() {
    assert_eq!(
        derive_title("Plan the launch of the new website next quarter please"),
        "Plan the launch of the new website next"
    );
}

#[test]
fn derive_title_falls_back_when_blank() {
    assert_eq!(derive_title("   \n\t "), DEFAULT_THREAD_TITLE);
}

#[test]
fn derive_title_caps_length() {
    let long = "x".repeat(500);
    assert_eq!(derive_title(&long).chars().count(), MAX_TITLE_LEN);
}

#[test]
fn derive_title_collapses_whitespace() {
    assert_eq!(derive_title("  a\t\tb \n c  "), "a b c");
}
