use server::runner::{resume_counters, SeqCounters};

#[test]
fn resumed_counters_continue_after_stored_seqs() {
    let c = resume_counters(&[Some(0), Some(1), Some(4)], Some(17)).unwrap();
    assert_eq!(c.next_message_seq, 5);
    assert_eq!(c.last_event_seq, 17);
    let fresh = resume_counters(&[], None).unwrap();
    assert_eq!(fresh.next_message_seq, 0);
    assert_eq!(fresh.last_event_seq, 0);
    assert_eq!(resume_counters(&[], Some(-3)).unwrap().last_event_seq, 0);
}

#[test]
fn invalid_message_seqs_are_refused() {
    assert!(resume_counters(&[Some(0), None], Some(1)).is_none());
    assert!(resume_counters(&[Some(-1)], None).is_none());
}

#[test]
fn counters_only_move_forward() {
    let mut c = SeqCounters { last_event_seq: 9, next_message_seq: 3 };
    assert_eq!(c.take_message_seq(), 3);
    assert_eq!(c.take_message_seq(), 4);
    assert_eq!(c.next_event_seq(), 10);
    assert_eq!(c.next_event_seq(), 11);
    assert_eq!(c.next_message_seq, 5);
}
