use server::vfs::strip_workspace_prefix;
use server::runner::{
    agent_prompt, python_script, with_format_reminder, AgentPoolError, MessageFormat,
};
use server::vfs::{join_path, join_under, segments, split_path};

#[test]
fn reminders_follow_the_message() {
    let s = with_format_reminder("hi".to_string(), MessageFormat::Markdown);
    assert_eq!(
        s,
        "hi\n\n<system-reminder>Reply in plain Telegram-friendly Markdown. Do not use HTML tags.</system-reminder>"
    );
    assert!(with_format_reminder(String::new(), MessageFormat::Html).contains("safe HTML only"));
}

#[test]
fn pool_errors_have_messages() {
    assert_eq!(AgentPoolError::AlreadyRunning.message(), "thread is already running");
    assert_eq!(AgentPoolError::Internal("db".to_string()).message(), "db");
}

#[test]
fn vfs_paths_split_and_join() {
    assert_eq!(split_path("/a//b/"), vec!["a".to_string(), "b".to_string()]);
    assert_eq!(segments("/a/./../b"), vec!["a".to_string(), "b".to_string()]);
    assert_eq!(join_under("p", ""), "p");
    assert_eq!(join_under("p", "q"), "p/q");
    assert_eq!(join_path("/a/", "b"), "/a/b");
    assert_eq!(join_path("/a", "b"), "/a/b");
}

#[test]
fn agent_prompt_injects_payload() {
    let value: serde_json::Value = serde_json::from_str("{\"a\": 1}").unwrap();
    let pretty = serde_json::to_string_pretty(&value).unwrap_or_default();
    let prompt = agent_prompt("do it", Some(&pretty));
    assert!(prompt.contains("do it"));
    assert!(prompt.contains("Trigger payload"));
    assert!(prompt.contains("\"a\""));
    assert_eq!(agent_prompt("plain", None), "plain");
}

#[test]
fn python_script_injects_payload() {
    let value: serde_json::Value = serde_json::from_str("{\"k\": \"v\"}").unwrap();
    let json = serde_json::to_string(&value).unwrap_or_else(|_| "null".to_string());
    let script = python_script("print(PAYLOAD)", Some(&json));
    assert!(script.contains("PAYLOAD = _json.loads"));
    assert!(script.ends_with("print(PAYLOAD)"));
    assert_eq!(python_script("noop", None), "noop");
}

#[test]
fn payloads_are_base64_encoded() {
    let script = python_script("x", Some("hi?"));
    assert_eq!(
        script,
        "import json as _json, base64 as _b64\nPAYLOAD = _json.loads(_b64.b64decode(\"aGk/\").decode())\nx"
    );
    assert!(python_script("x", Some("a")).contains("\"YQ==\""));
}

#[test]
fn tool_paths_are_taken_relative_to_the_workspace() {
    assert_eq!(strip_workspace_prefix("/~workspace/a/b").as_deref(), Some("a/b"));
    assert_eq!(strip_workspace_prefix("//notes.txt").as_deref(), Some("notes.txt"));
    assert_eq!(strip_workspace_prefix("~workspace").as_deref(), Some(""));
    assert_eq!(strip_workspace_prefix("~workspacex/y").as_deref(), Some("x/y"));
    assert_eq!(strip_workspace_prefix("docs/~workspace").as_deref(), Some("docs/~workspace"));
}
