use server::ocr::{
    assets_dir_name, classify, default_output_path, extension, extract_json, first_line,
    parent_dir, pdf_script, preview, Input,
};

#[test]
fn classify_uses_mime_then_extension() {
    assert!(matches!(
        classify("/a/b.bin", Some("image/png")),
        Input::Image(_)
    ));
    assert!(matches!(classify("/a/scan.PDF", None), Input::Pdf));
    assert!(matches!(classify("/a/photo.JPEG", None), Input::Image(_)));
    assert!(matches!(classify("/a/notes.txt", None), Input::Unsupported));
}

#[test]
fn default_output_strips_extension_under_writable_root() {
    assert_eq!(
        default_output_path("/~workspace", "/Invoices/bill.pdf"),
        "/~workspace/ocr/bill.md"
    );
    assert_eq!(
        default_output_path("/Projects/Acme/", "/x/scan.tiff"),
        "/Projects/Acme/ocr/scan.md"
    );
}

#[test]
fn helpers_cut_names_and_text() {
    assert_eq!(extension("/a/b.TAR.Gz"), Some("gz".to_string()));
    assert_eq!(extension("/a.d/noext"), None);
    assert_eq!(parent_dir("/a/b/c.md"), Some("/a/b".to_string()));
    assert_eq!(parent_dir("c.md"), None);
    assert_eq!(assets_dir_name("/out/king.md"), "king_assets");
    assert_eq!(assets_dir_name("/out/.md"), "document_assets");
    assert_eq!(extract_json("noise {\"a\": {}} tail"), Some("{\"a\": {}}".to_string()));
    assert_eq!(extract_json("} {"), None);
    assert_eq!(first_line("\n  \n  Title here \nmore"), "Title here");
    assert_eq!(first_line(" \n\t"), "unreadable PDF");
    assert_eq!(preview("  short  "), "short");
    let long = "y".repeat(1600);
    let p = preview(&long);
    assert_eq!(p.chars().count(), 1501);
    assert!(p.ends_with('…'));
}

#[test]
fn pdf_script_injects_a_valid_python_string_literal() {
    let template = "PATH = \"__OCR_PATH__\"\nMAX_PAGES = __OCR_MAX_PAGES__\n";
    let script = pdf_script(template, "/~workspace/a\"b.pdf");
    assert!(script.contains(r#"PATH = "/~workspace/a\"b.pdf""#));
    assert!(script.contains("MAX_PAGES = 25"));
    assert!(!script.contains("__OCR_PATH__"));
    assert!(!script.contains("__OCR_MAX_PAGES__"));
}

#[test]
fn pdf_script_escapes_backslashes_and_control_characters() {
    let template = "PATH = \"__OCR_PATH__\"";
    let script = pdf_script(template, "a\\b\n\u{1}é");
    assert_eq!(script, "PATH = \"a\\\\b\\n\\u0001é\"");
}
