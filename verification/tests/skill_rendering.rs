use server::skill_render::{
    render_skill, CommandOutcome, RenderError, RenderStep, MAX_COMMAND_OUTPUT, MAX_ERROR_OUTPUT,
    MAX_RENDERED_SKILL,
};
use server::skills::{Skill, SkillManifest, SkillOrigin};

fn skill(content: &str) -> Skill {
    Skill {
        manifest: SkillManifest {
            name: "demo".to_string(),
            description: "Demo".to_string(),
            license: None,
            compatibility: None,
            metadata: None,
            allowed_tools: None,
        },
        content: content.to_string(),
        path: "/usr/share/skills/demo".to_string(),
        origin: SkillOrigin::System,
    }
}

fn ok(stdout: &str) -> Option<CommandOutcome> {
    Some(CommandOutcome {
        success: true,
        stdout: stdout.to_string(),
        stderr: String::new(),
        error: None,
        exit_code: Some(0),
    })
}

/// Drives the render, answering each command with `shell` (`None` when
/// there is no shell).
fn render(
    skill: &Skill,
    shell: Option<&dyn Fn(&str) -> Option<CommandOutcome>>,
) -> Result<String, RenderError> {
    let mut outcomes = Vec::new();
    loop {
        match render_skill(skill, shell.is_some(), &outcomes)? {
            RenderStep::Rendered(text) => return Ok(text),
            RenderStep::Run(command) => {
                outcomes.push((shell.unwrap())(&command));
            },
        }
    }
}

fn mock(command: &str) -> Option<CommandOutcome> {
    match command {
        "first" => ok("one"),
        "second" => ok("!`first`"),
        other => ok(other),
    }
}

#[test]
fn substitutes_paths_and_dynamic_context_once() {
    let rendered = render(
        &skill("%SKILL_HOME% %USER_HOME% %WORKSPACE% %UNKNOWN%\n!`second`"),
        Some(&mock),
    )
    .unwrap();
    assert_eq!(rendered, "/usr/share/skills/demo /home/user /home/agent %UNKNOWN%\n!`first`");
}

#[test]
fn executes_inline_and_fenced_commands_in_order() {
    let rendered = render(&skill("A !`first` B\n```!\nsecond\n```\nC"), Some(&mock)).unwrap();
    assert_eq!(rendered, "A one B\n!`first`C");
}

#[test]
fn command_failure_is_structured_and_stderr_is_bounded_utf8() {
    let fail = |_: &str| {
        Some(CommandOutcome {
            success: false,
            stdout: String::new(),
            stderr: "é".repeat(MAX_ERROR_OUTPUT),
            error: Some("failed".to_string()),
            exit_code: Some(7),
        })
    };
    match render(&skill("!`fail`"), Some(&fail)).unwrap_err() {
        RenderError::Command { command, reason, exit_status, stderr } => {
            assert_eq!(command, "fail");
            assert_eq!(reason, "non-zero exit");
            assert_eq!(exit_status, Some(7));
            assert!(stderr.len() <= MAX_ERROR_OUTPUT);
        },
        other => panic!("unexpected error {other:?}"),
    }
}

#[test]
fn command_and_rendered_output_limits_are_enforced() {
    let large = |_: &str| ok(&"x".repeat(MAX_COMMAND_OUTPUT + 1));
    match render(&skill("!`large`"), Some(&large)).unwrap_err() {
        RenderError::Command { reason, .. } => assert_eq!(reason, "stdout exceeds 256 KiB"),
        other => panic!("unexpected error {other:?}"),
    }
    assert!(matches!(
        render(&skill(&"x".repeat(MAX_RENDERED_SKILL + 1)), None),
        Err(RenderError::TooLarge)
    ));
}

#[test]
fn command_timeout_fails_the_entire_render() {
    let slow = |_: &str| None;
    match render(&skill("before !`slow` after"), Some(&slow)).unwrap_err() {
        RenderError::Command { command, reason, exit_status, .. } => {
            assert_eq!(command, "slow");
            assert_eq!(reason, "timeout");
            assert_eq!(exit_status, None);
        },
        other => panic!("unexpected error {other:?}"),
    }
}

#[test]
fn commands_need_a_shell() {
    match render(&skill("text !`ls`"), None).unwrap_err() {
        RenderError::Command { command, reason, .. } => {
            assert_eq!(command, "ls");
            assert_eq!(reason, "skill shell is unavailable");
        },
        other => panic!("unexpected error {other:?}"),
    }
    assert_eq!(render(&skill("plain text"), None).unwrap(), "plain text");
}

#[test]
fn the_next_command_is_asked_for_trimmed_until_all_have_run() {
    let s = skill("```!\n  echo hi  \n```\n!`pwd`");
    assert!(matches!(render_skill(&s, true, &[]), Ok(RenderStep::Run(c)) if c == "echo hi"));
    assert!(matches!(render_skill(&s, true, &[ok("hi")]), Ok(RenderStep::Run(c)) if c == "pwd"));
    assert!(matches!(
        render_skill(&s, true, &[ok("hi\n"), ok("/home/agent")]),
        Ok(RenderStep::Rendered(t)) if t == "hi\n/home/agent"
    ));
}
