use server::runner::{RunQueue, ThreadStatus};
use server::turn::{
    calls_to_record, decode_agent_path, encode_agent_path, SubagentState, ToolCall, ToolQueue,
};

fn call(id: &str, name: &str) -> ToolCall {
    ToolCall { id: id.to_string(), name: name.to_string(), arguments: "{}".to_string() }
}

/// Records every ready result, as the turn loop does.
fn drain(q: &mut ToolQueue) -> Vec<(String, String)> {
    let mut out = Vec::new();
    while let Some(r) = q.next_ready() {
        out.push(r);
        q.mark_recorded();
    }
    out
}

#[test]
fn results_are_recorded_in_call_order() {
    let mut q = ToolQueue::new();
    let first = q.start_call(Some(7), call("a", "ls"));
    assert_eq!(first.map(|(m, v)| (m, v.len())), Some((7, 1)));
    q.start_call(Some(7), call("b", "cat"));
    let (m, calls) = q.start_call(Some(7), call("c", "grep")).unwrap();
    assert_eq!(m, 7);
    assert_eq!(calls.iter().map(|c| c.id.as_str()).collect::<Vec<_>>(), vec!["a", "b", "c"]);

    q.add_result("c".to_string(), "C".to_string());
    assert!(drain(&mut q).is_empty());
    q.add_result("a".to_string(), "A".to_string());
    assert_eq!(drain(&mut q), vec![("a".to_string(), "A".to_string())]);
    q.add_result("b".to_string(), "B".to_string());
    assert_eq!(
        drain(&mut q),
        vec![("b".to_string(), "B".to_string()), ("c".to_string(), "C".to_string())]
    );
    assert!(drain(&mut q).is_empty());
}

#[test]
fn a_new_message_starts_a_new_list_of_calls() {
    let mut q = ToolQueue::new();
    assert!(q.start_call(None, call("x", "ls")).is_none());
    q.add_result("x".to_string(), "X".to_string());
    let (m, calls) = q.start_call(Some(1), call("y", "cat")).unwrap();
    assert_eq!(m, 1);
    assert_eq!(calls.len(), 1);
    q.add_result("y".to_string(), "Y".to_string());
    assert_eq!(drain(&mut q), vec![("y".to_string(), "Y".to_string())]);
}

#[test]
fn only_named_calls_are_recorded() {
    assert!(calls_to_record(&[call("a", "")]).is_none());
    let kept = calls_to_record(&[call("a", ""), call("b", "ls"), call("c", "cat")]).unwrap();
    assert_eq!(kept.iter().map(|c| c.id.as_str()).collect::<Vec<_>>(), vec!["b", "c"]);
}

#[test]
fn a_subagent_message_collects_its_own_text_only() {
    let mut s = SubagentState::new();
    s.text_delta(1, "ignored");
    s.message_started(1);
    s.text_delta(1, "Hello");
    s.text_delta(2, " nobody");
    s.thinking_delta(1, "hmm");
    s.text_delta(1, " world");
    assert!(s.message_committed(2).is_none());
    let (content, thinking) = s.message_committed(1).unwrap();
    assert_eq!(content, "Hello world");
    assert_eq!(thinking.as_deref(), Some("hmm"));
    assert_eq!(s.last, Some(1));
    assert_eq!(s.current, None);
    assert!(s.message_committed(1).is_none());
}

#[test]
fn agent_paths_round_trip_through_their_text() {
    assert_eq!(encode_agent_path(&[]), None);
    let a: u128 = 0xa1a2a3a4_b1b2_c1c2_d1d2_d3d4d5d6d7d8;
    let b: u128 = 0x0191_0000_0000_7000_8000_0000_0000_0001;
    let text = encode_agent_path(&[a, b]).unwrap();
    assert_eq!(text, "a1a2a3a4-b1b2-c1c2-d1d2-d3d4d5d6d7d8/01910000-0000-7000-8000-000000000001");
    assert_eq!(decode_agent_path(Some(&text)), vec![a, b]);
    assert_eq!(decode_agent_path(Some("not-a-uuid/a1a2a3a4-b1b2-c1c2-d1d2-d3d4d5d6d7d8")), vec![a]);
    assert_eq!(decode_agent_path(None), Vec::<u128>::new());
}

#[test]
fn runs_start_at_once_when_idle_and_otherwise_in_arrival_order() {
    let mut q: RunQueue<&str> = RunQueue::new();
    assert_eq!(q.send(1, "first"), Some((1, "first")));
    assert_eq!(q.status, ThreadStatus::Running { run_id: 1 });
    assert_eq!(q.send(2, "second"), None);
    assert_eq!(q.send(3, "third"), None);
    assert_eq!(q.drain(), None);
    q.finish();
    assert_eq!(q.drain(), Some((2, "second")));
    assert_eq!(q.status, ThreadStatus::Running { run_id: 2 });
    q.finish();
    assert_eq!(q.drain(), Some((3, "third")));
    q.finish();
    assert_eq!(q.drain(), None);
    assert_eq!(q.status, ThreadStatus::Idle);
}

#[test]
fn agent_path_parts_are_read_in_every_uuid_form() {
    let id: u128 = 0x67e5_5044_10b1_426f_9247_bb68_0e5f_e0c8;
    let forms = [
        "67e55044-10b1-426f-9247-bb680e5fe0c8",
        "67E55044-10B1-426F-9247-BB680E5FE0C8",
        "67e5504410b1426f9247bb680e5fe0c8",
        "{67e55044-10b1-426f-9247-bb680e5fe0c8}",
        "URN:uuid:67e55044-10b1-426f-9247-bb680e5fe0c8",
    ];
    for f in forms {
        assert_eq!(decode_agent_path(Some(f)), vec![id], "{f}");
    }
    for bad in ["67e55044-10b1-426f-9247-bb680e5fe0c", "67e55044x10b1-426f-9247-bb680e5fe0c8", "urn:uuix:67e55044-10b1-426f-9247-bb680e5fe0c8", "67e5504410b1426f9247bb680e5fe0cg", "é7e5504410b1426f9247bb680e5fe0c"] {
        assert!(decode_agent_path(Some(bad)).is_empty(), "{bad}");
    }
}
