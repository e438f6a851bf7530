use cpaste::paste_queue::{
    get_paste_queue, paste_next_step, paste_queue_event, set_paste_queue, PasteQueueEvent,
    PasteQueueState, PasteSource,
};

#[test]
fn set_then_get_returns_the_ids() {
    let mut state = PasteQueueState::default();
    state.last_action_was_paste = true;
    state.last_pasted_fingerprint = Some("fp".to_string());
    set_paste_queue(&mut state, vec![3, -1, 7]);
    let shown = get_paste_queue(&state);
    let ids: Vec<i64> = shown.items.iter().map(|i| i.id).collect();
    assert_eq!(ids, vec![3, -1, 7]);
    assert!(!shown.last_action_was_paste);
    assert_eq!(shown.last_pasted_fingerprint, None);
}

#[test]
fn pastes_come_in_queue_order() {
    let mut state = PasteQueueState::default();
    set_paste_queue(&mut state, vec![5, -2, 9]);
    assert_eq!(paste_next_step(&mut state), Some(PasteSource::Database(5)));
    assert!(state.last_action_was_paste);
    assert_eq!(paste_queue_event(&state), PasteQueueEvent::Progress(2));
    assert_eq!(paste_next_step(&mut state), Some(PasteSource::Session(-2)));
    assert_eq!(paste_next_step(&mut state), Some(PasteSource::Database(9)));
    assert_eq!(paste_queue_event(&state), PasteQueueEvent::Complete);
    assert_eq!(paste_next_step(&mut state), None);
}

#[test]
fn empty_queue_is_left_alone() {
    let mut state = PasteQueueState::default();
    assert_eq!(paste_next_step(&mut state), None);
    assert!(!state.last_action_was_paste);
    assert_eq!(paste_next_step(&mut state), None);
}

#[test]
fn zero_id_is_read_from_the_session() {
    let mut state = PasteQueueState::default();
    set_paste_queue(&mut state, vec![0]);
    assert_eq!(paste_next_step(&mut state), Some(PasteSource::Session(0)));
}

#[test]
fn set_paste_get_shows_the_rest() {
    let mut state = PasteQueueState::default();
    set_paste_queue(&mut state, vec![4, -2]);
    assert_eq!(paste_next_step(&mut state), Some(PasteSource::Database(4)));
    let shown = get_paste_queue(&state);
    let ids: Vec<i64> = shown.items.iter().map(|i| i.id).collect();
    assert_eq!(ids, vec![-2]);
    assert!(shown.last_action_was_paste);
    set_paste_queue(&mut state, vec![]);
    assert_eq!(paste_next_step(&mut state), None);
    let shown = get_paste_queue(&state);
    assert!(shown.items.is_empty());
    assert!(!shown.last_action_was_paste);
}
