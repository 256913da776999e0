use server::telegram::{file_name_from_path, multipart_body, split_message, topic_fields};

#[test]
fn topic_fields_split_by_sign() {
    assert_eq!(topic_fields(None), (None, None));
    assert_eq!(topic_fields(Some(0)), (None, None));
    assert_eq!(topic_fields(Some(5)), (Some(5), None));
    assert_eq!(topic_fields(Some(-7)), (None, Some(7)));
}

#[test]
fn file_name_from_path_takes_basename() {
    assert_eq!(file_name_from_path("/~workspace/report.pdf"), "report.pdf");
    assert_eq!(file_name_from_path("plain.txt"), "plain.txt");
    assert_eq!(file_name_from_path("/~workspace/"), "file");
}

#[test]
fn file_names_drop_quotes_and_backslash_directories() {
    assert_eq!(file_name_from_path("C:\\docs\\a\"b.txt"), "ab.txt");
    assert_eq!(file_name_from_path("  "), "file");
}

#[test]
fn split_message_keeps_short_text_intact() {
    assert_eq!(split_message("hello", 4096), vec!["hello".to_string()]);
}

#[test]
fn split_message_breaks_on_newline() {
    let text = "aaa\nbbb\nccc";
    let chunks = split_message(text, 5);
    assert_eq!(
        chunks,
        vec!["aaa".to_string(), "bbb".to_string(), "ccc".to_string()]
    );
    assert!(chunks.iter().all(|c| c.chars().count() <= 5));
}

#[test]
fn split_message_breaks_on_space_when_no_newline() {
    let chunks = split_message("aaaa bbbb cccc", 6);
    assert!(chunks.iter().all(|c| c.chars().count() <= 6));
    assert_eq!(chunks.join(" "), "aaaa bbbb cccc");
}

#[test]
fn split_message_hard_splits_long_token() {
    let text = "a".repeat(25);
    let chunks = split_message(&text, 10);
    assert_eq!(chunks, vec!["aaaaaaaaaa", "aaaaaaaaaa", "aaaaa"]);
}

#[test]
fn split_message_respects_limit_on_multibyte() {
    let text = "😀".repeat(20);
    let chunks = split_message(&text, 8);
    assert!(chunks.iter().all(|c| c.chars().count() <= 8));
    assert_eq!(chunks.concat(), text);
}

#[test]
fn split_message_of_blank_text_is_empty_only_when_long() {
    assert_eq!(split_message("   ", 10), vec!["   ".to_string()]);
    assert!(split_message(&" ".repeat(30), 10).is_empty());
    assert_eq!(split_message("x", 0), vec!["x".to_string()]);
}

#[test]
fn split_message_of_empty_text_has_no_chunks() {
    assert!(split_message("", 10).is_empty());
    assert!(split_message("", 0).is_empty());
}

#[test]
fn multipart_body_includes_fields_and_file() {
    let fields = vec![("chat_id", "42".to_string())];
    let body = multipart_body("BOUND", &fields, "document", "a.txt", "text/plain", b"hi");
    let text = String::from_utf8_lossy(&body);
    assert!(text.contains("--BOUND\r\n"));
    assert!(text.contains("name=\"chat_id\"\r\n\r\n42\r\n"));
    assert!(text.contains("name=\"document\"; filename=\"a.txt\""));
    assert!(text.contains("Content-Type: text/plain\r\n\r\nhi\r\n"));
    assert!(text.ends_with("--BOUND--\r\n"));
}

#[test]
fn multipart_body_is_exact() {
    let body = multipart_body("B", &[], "f", "n", "t/p", b"x");
    assert_eq!(
        body,
        b"--B\r\nContent-Disposition: form-data; name=\"f\"; filename=\"n\"\r\nContent-Type: t/p\r\n\r\nx\r\n--B--\r\n"
            .to_vec()
    );
}
