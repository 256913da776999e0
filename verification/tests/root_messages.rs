use server::runner::MessageFormat;
use server::turn::RootMessages;

#[test]
fn root_messages_track_text_thinking_and_progress() {
    let mut r = RootMessages::new();
    assert!(r.text_delta(5, "lost".to_string(), 1).is_none());
    r.message_started(5, MessageFormat::Markdown);
    let (c, t) = r.text_delta(5, "Hel".to_string(), 1).unwrap();
    assert_eq!((c.as_str(), t), ("Hel", None));
    let (c, t) = r.thinking_delta(5, "hmm").unwrap();
    assert_eq!((c.as_str(), t.as_deref()), ("Hel", Some("hmm")));
    let (c, t) = r.text_delta(5, "Hello".to_string(), 1).unwrap();
    assert_eq!((c.as_str(), t.as_deref()), ("Hello", Some("hmm")));
    let p = r.in_progress.as_ref().unwrap();
    assert_eq!((p.message_id, p.run_id, p.content.as_str()), (5, 1, "Hello"));
    assert!(r.message_committed(6, String::new()).is_none());
    let (c, t) = r.message_committed(5, "Hello!".to_string()).unwrap();
    assert_eq!((c.as_str(), t.as_deref()), ("Hello!", Some("hmm")));
    assert_eq!(r.last, Some(5));
    assert!(r.in_progress.is_none());
    assert!(r.open.is_empty());
}

#[test]
fn a_run_ending_clears_progress() {
    let mut r = RootMessages::new();
    r.message_started(1, MessageFormat::Html);
    r.text_delta(1, "x".to_string(), 9);
    r.run_ended();
    assert!(r.in_progress.is_none());
    assert_eq!(r.open.len(), 1);
}
