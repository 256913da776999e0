use server::inbox::{
    build_action, required, Automation, FollowUp, InboxAction, SkillSuggestion,
    SuggestActionParams,
};

fn params(kind: &str) -> SuggestActionParams {
    SuggestActionParams {
        kind: kind.to_string(),
        title: "Title".to_string(),
        rationale: "Because".to_string(),
        message: None,
        project: None,
        name: None,
        schedule: None,
        automation_kind: None,
        task: None,
        trigger: None,
        notify: None,
        description: None,
        content: None,
    }
}

#[test]
fn follow_up_needs_a_message() {
    assert!(build_action(params("follow_up")).is_err());
    let mut with_message = params("follow_up");
    with_message.message = Some("Compare the two vendors".to_string());
    assert_eq!(
        build_action(with_message).unwrap(),
        InboxAction::FollowUp(FollowUp {
            message: "Compare the two vendors".to_string(),
            project: None,
            thread_title: None,
        })
    );
}

#[test]
fn automation_defaults_to_a_cron_agent_prompt() {
    let mut fields = params("automation");
    fields.name = Some("Weekly digest".to_string());
    fields.task = Some("Summarize the week".to_string());
    fields.schedule = Some("0 9 * * 1".to_string());
    let action = build_action(fields).unwrap();
    assert_eq!(
        action,
        InboxAction::Automation(Automation {
            name: "Weekly digest".to_string(),
            schedule: "0 9 * * 1".to_string(),
            kind: "agent".to_string(),
            task: "Summarize the week".to_string(),
            trigger: "cron".to_string(),
            notify: "none".to_string(),
        })
    );
}

#[test]
fn unknown_kinds_are_rejected() {
    assert!(build_action(params("teleport")).is_err());
}

#[test]
fn missing_fields_are_reported_in_order() {
    assert_eq!(
        build_action(params("teleport")).unwrap_err(),
        "invalid kind: teleport"
    );
    let mut skill = params("skill");
    skill.name = Some(" pdf ".to_string());
    skill.description = Some("  ".to_string());
    assert_eq!(
        build_action(skill.clone()).unwrap_err(),
        "description is required for this suggestion kind"
    );
    skill.description = Some("When merging".to_string());
    skill.content = Some("Do it".to_string());
    assert_eq!(
        build_action(skill).unwrap(),
        InboxAction::Skill(SkillSuggestion {
            name: "pdf".to_string(),
            description: "When merging".to_string(),
            content: "Do it".to_string(),
        })
    );
    assert_eq!(required(Some("  x ".to_string()), "f"), Ok("x".to_string()));
    assert_eq!(
        required(None, "f"),
        Err("f is required for this suggestion kind".to_string())
    );
}

#[test]
fn follow_up_drops_a_blank_project() {
    let mut p = params("follow_up");
    p.message = Some("m".to_string());
    p.project = Some("   ".to_string());
    assert!(matches!(build_action(p).unwrap(), InboxAction::FollowUp(f) if f.project.is_none()));
}
