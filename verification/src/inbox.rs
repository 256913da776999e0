//! Suggestions an agent parks in the user's inbox instead of acting: the
//! parameters it passes are checked and turned into an inbox action.
use vstd::prelude::*;

use crate::skills::push_str;
use crate::text::{chars_of, str_is, string_of, trim, trimmed, Strip};

verus! {

broadcast use vstd::string::group_string_axioms;

/// Explore a related topic in a new thread.
#[derive(Clone, Debug, PartialEq, Eq)]
pub struct FollowUp {
    pub message: String,
    pub project: Option<String>,
    pub thread_title: Option<String>,
}

/// Set up a recurring or triggered task.
#[derive(Clone, Debug, PartialEq, Eq)]
pub struct Automation {
    pub name: String,
    pub schedule: String,
    pub kind: String,
    pub task: String,
    pub trigger: String,
    pub notify: String,
}

/// Save reusable know-how.
#[derive(Clone, Debug, PartialEq, Eq)]
pub struct SkillSuggestion {
    pub name: String,
    pub description: String,
    pub content: String,
}

/// What a suggestion proposes.
#[derive(Clone, Debug, PartialEq, Eq)]
pub enum InboxAction {
    FollowUp(FollowUp),
    Automation(Automation),
    Skill(SkillSuggestion),
}

/// The parameters of the suggestion tool.
#[derive(Clone, Debug)]
pub struct SuggestActionParams {
    pub kind: String,
    pub title: String,
    pub rationale: String,
    pub message: Option<String>,
    pub project: Option<String>,
    pub name: Option<String>,
    pub schedule: Option<String>,
    pub automation_kind: Option<String>,
    pub task: Option<String>,
    pub trigger: Option<String>,
    pub notify: Option<String>,
    pub description: Option<String>,
    pub content: Option<String>,
}

pub open spec fn missing_message(field: Seq<char>) -> Seq<char> {
    field + " is required for this suggestion kind"@
}

/// A required field: present and not blank once trimmed.
pub open spec fn spec_required(value: Option<String>, field: Seq<char>) -> Result<Seq<char>, Seq<char>> {
    match value {
        Some(v) => if trim(v@).len() > 0 {
            Ok(trim(v@))
        } else {
            Err(missing_message(field))
        },
        None => Err(missing_message(field)),
    }
}

/// The trimmed value of a required field, or why it is missing.
pub fn required(value: Option<String>, field: &str) -> (r: Result<String, String>)
    ensures
        match (r, spec_required(value, field@)) {
            (Ok(v), Ok(s)) => v@ == s,
            (Err(e), Err(s)) => e@ == s,
            _ => false,
        },
{
    match value {
        Some(v) => {
            let t = trimmed(chars_of(v.as_str()).as_slice(), Strip::Whitespace);
            if t.len() > 0 {
                return Ok(string_of(t.as_slice()));
            }
        },
        None => {},
    }
    let mut msg = field.to_owned();
    push_str(&mut msg, " is required for this suggestion kind");
    Err(msg)
}

/// An optional field, trimmed, and absent when blank.
pub open spec fn spec_optional(value: Option<String>) -> Option<Seq<char>> {
    match value {
        Some(v) => if trim(v@).len() > 0 {
            Some(trim(v@))
        } else {
            None
        },
        None => None,
    }
}

/// A field with a default, trimmed.
pub open spec fn spec_or_default(value: Option<String>, default: Seq<char>) -> Seq<char> {
    match value {
        Some(v) => trim(v@),
        None => trim(default),
    }
}

fn trimmed_string(s: &str) -> (r: String)
    ensures
        r@ == trim(s@),
{
    let t = trimmed(chars_of(s).as_slice(), Strip::Whitespace);
    string_of(t.as_slice())
}

fn or_default(value: Option<String>, default: &str) -> (r: String)
    ensures
        r@ == spec_or_default(value, default@),
{
    match value {
        Some(v) => trimmed_string(v.as_str()),
        None => trimmed_string(default),
    }
}

fn optional(value: Option<String>) -> (r: Option<String>)
    ensures
        match (r, spec_optional(value)) {
            (Some(v), Some(s)) => v@ == s,
            (None, None) => true,
            _ => false,
        },
{
    match value {
        Some(v) => {
            let t = trimmed_string(v.as_str());
            if t.as_str().is_empty() {
                None
            } else {
                Some(t)
            }
        },
        None => None,
    }
}

/// The view of an optional string.
pub open spec fn opt_view(o: Option<String>) -> Option<Seq<char>> {
    match o {
        Some(s) => Some(s@),
        None => None,
    }
}

/// The action a suggestion describes, or why it cannot become one. Missing
/// fields are reported in the order the kind lists them.
pub open spec fn spec_build_action(p: SuggestActionParams, r: Result<InboxAction, String>) -> bool {
    if p.kind@ == "follow_up"@ {
        match spec_required(p.message, "message"@) {
            Err(e) => r matches Err(m) && m@ == e,
            Ok(msg) => r matches Ok(InboxAction::FollowUp(f)) && f.message@ == msg && opt_view(
                f.project,
            ) == spec_optional(p.project) && f.thread_title is None,
        }
    } else if p.kind@ == "automation"@ {
        match (spec_required(p.name, "name"@), spec_required(p.task, "task"@)) {
            (Err(e), _) => r matches Err(m) && m@ == e,
            (Ok(_), Err(e)) => r matches Err(m) && m@ == e,
            (Ok(name), Ok(task)) => r matches Ok(InboxAction::Automation(a)) && a.name@ == name
                && a.task@ == task && a.schedule@ == spec_or_default(p.schedule, ""@) && a.kind@
                == spec_or_default(p.automation_kind, "agent"@) && a.trigger@ == spec_or_default(
                p.trigger,
                "cron"@,
            ) && a.notify@ == spec_or_default(p.notify, "none"@),
        }
    } else if p.kind@ == "skill"@ {
        match (
            spec_required(p.name, "name"@),
            spec_required(p.description, "description"@),
            spec_required(p.content, "content"@),
        ) {
            (Err(e), _, _) => r matches Err(m) && m@ == e,
            (Ok(_), Err(e), _) => r matches Err(m) && m@ == e,
            (Ok(_), Ok(_), Err(e)) => r matches Err(m) && m@ == e,
            (Ok(name), Ok(description), Ok(content)) => r matches Ok(InboxAction::Skill(s))
                && s.name@ == name && s.description@ == description && s.content@ == content,
        }
    } else {
        r matches Err(m) && m@ == "invalid kind: "@ + p.kind@
    }
}

/// Turns the suggestion parameters into an inbox action.
pub fn build_action(params: SuggestActionParams) -> (r: Result<InboxAction, String>)
    ensures
        spec_build_action(params, r),
{
    let ghost p = params;
    let kind = chars_of(params.kind.as_str());
    if str_is("follow_up", kind.as_slice()) {
        let message = match required(params.message, "message") {
            Ok(m) => m,
            Err(e) => {
                return Err(e);
            },
        };
        let project = optional(params.project);
        return Ok(InboxAction::FollowUp(FollowUp { message, project, thread_title: None }));
    }
    if str_is("automation", kind.as_slice()) {
        let name = match required(params.name, "name") {
            Ok(m) => m,
            Err(e) => {
                return Err(e);
            },
        };
        let task = match required(params.task, "task") {
            Ok(m) => m,
            Err(e) => {
                return Err(e);
            },
        };
        return Ok(
            InboxAction::Automation(
                Automation {
                    name,
                    schedule: or_default(params.schedule, ""),
                    kind: or_default(params.automation_kind, "agent"),
                    task,
                    trigger: or_default(params.trigger, "cron"),
                    notify: or_default(params.notify, "none"),
                },
            ),
        );
    }
    if str_is("skill", kind.as_slice()) {
        let name = match required(params.name, "name") {
            Ok(m) => m,
            Err(e) => {
                return Err(e);
            },
        };
        let description = match required(params.description, "description") {
            Ok(m) => m,
            Err(e) => {
                return Err(e);
            },
        };
        let content = match required(params.content, "content") {
            Ok(m) => m,
            Err(e) => {
                return Err(e);
            },
        };
        return Ok(InboxAction::Skill(SkillSuggestion { name, description, content }));
    }
    let mut msg = "invalid kind: ".to_owned();
    push_str(&mut msg, params.kind.as_str());
    Err(msg)
}

} // verus!
