use server::skill_render::{
    append_bounded, append_command_output, parse_dynamic_segments, substitute_placeholders,
    truncate_utf8, CommandOutcome, RenderError, Segment, MAX_ERROR_OUTPUT, MAX_RENDERED_SKILL,
};
use server::skills::{Skill, SkillManifest, SkillOrigin};

fn texts(segments: &[Segment]) -> Vec<String> {
    segments
        .iter()
        .map(|s| match s {
            Segment::Text(t) => format!("T:{t}"),
            Segment::Command(c) => format!("C:{c}"),
        })
        .collect()
}

#[test]
fn command_after_non_whitespace_is_literal() {
    let segments = parse_dynamic_segments("KEY=!`first`").unwrap();
    assert!(matches!(&segments[..], [Segment::Text(text)] if text == "KEY=!`first`"));
    let segments = parse_dynamic_segments("```!bash\nfirst\n```").unwrap();
    assert!(matches!(&segments[..], [Segment::Text(text)] if text == "```!bash\nfirst\n```"));
    assert!(parse_dynamic_segments("!``").is_err());
}

#[test]
fn inline_and_fenced_commands_are_cut_out_in_order() {
    let segments = parse_dynamic_segments("a !`one` b\n```!\ntwo\nthree\n```\nc").unwrap();
    assert_eq!(
        texts(&segments),
        vec!["T:a ", "C:one", "T: b\n", "C:two\nthree", "T:c"]
    );
}

#[test]
fn unterminated_commands_are_syntax_errors() {
    for (input, message) in [
        ("x !`never", "unterminated inline dynamic command"),
        ("```!\necho", "unterminated dynamic command fence"),
        ("```!", "unterminated dynamic command fence"),
        ("```!\n  \n```", "dynamic command must not be empty"),
    ] {
        match parse_dynamic_segments(input) {
            Err(RenderError::InvalidSyntax(m)) => assert_eq!(m, message, "{input:?}"),
            other => panic!("{input:?}: {other:?}"),
        }
    }
}

#[test]
fn placeholders_are_substituted() {
    let skill = Skill {
        manifest: SkillManifest {
            name: "demo".to_string(),
            description: "d".to_string(),
            license: None,
            compatibility: None,
            metadata: None,
            allowed_tools: None,
        },
        content: "%SKILL_HOME%/run.sh %USER_HOME% %WORKSPACE% %SKILL_HOME%".to_string(),
        path: "/usr/share/skills/demo".to_string(),
        origin: SkillOrigin::System,
    };
    let out: String = substitute_placeholders(&skill).into_iter().collect();
    assert_eq!(
        out,
        "/usr/share/skills/demo/run.sh /home/user /home/agent /usr/share/skills/demo"
    );
}

#[test]
fn truncation_keeps_whole_characters() {
    let mut s = "aé😀".to_string();
    truncate_utf8(&mut s, 4);
    assert_eq!(s, "aé");
    let mut t = "abc".to_string();
    truncate_utf8(&mut t, 10);
    assert_eq!(t, "abc");
}

#[test]
fn output_is_bounded() {
    let mut rendered = "x".repeat(MAX_RENDERED_SKILL - 1);
    assert!(append_bounded(&mut rendered, "y").is_ok());
    assert!(matches!(append_bounded(&mut rendered, "z"), Err(RenderError::TooLarge)));
    assert_eq!(rendered.len(), MAX_RENDERED_SKILL);
}

#[test]
fn failed_commands_report_bounded_stderr() {
    let mut rendered = String::new();
    let result = CommandOutcome {
        success: false,
        stdout: String::new(),
        stderr: "é".repeat(MAX_ERROR_OUTPUT),
        error: Some("boom".to_string()),
        exit_code: Some(2),
    };
    match append_command_output(&mut rendered, "cmd".to_string(), result) {
        Err(RenderError::Command {
            command,
            reason,
            exit_status,
            stderr,
        }) => {
            assert_eq!(command, "cmd");
            assert_eq!(reason, "non-zero exit");
            assert_eq!(exit_status, Some(2));
            assert_eq!(stderr.len(), MAX_ERROR_OUTPUT);
        }
        other => panic!("{other:?}"),
    }
    let ok = CommandOutcome {
        success: true,
        stdout: "out".to_string(),
        stderr: String::new(),
        error: None,
        exit_code: Some(0),
    };
    assert!(append_command_output(&mut rendered, "c".to_string(), ok).is_ok());
    assert_eq!(rendered, "out");
}
