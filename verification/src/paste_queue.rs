//! The sequential-paste queue: ids of clipboard items pasted one after the
//! other, in the order they were queued.
use vstd::prelude::*;
use std::collections::VecDeque;

use crate::models::copy_opt_text;

verus! {

/// The queue and what was pasted last.
pub struct PasteQueueState {
    pub items: VecDeque<i64>,
    pub last_action_was_paste: bool,
    pub last_pasted_content: Option<String>,
    pub last_pasted_fingerprint: Option<String>,
    pub last_paste_timestamp_ms: u64,
}

impl Default for PasteQueueState {
    fn default() -> (s: Self)
        ensures
            s.items@.len() == 0,
            !s.last_action_was_paste,
            s.last_pasted_content is None,
            s.last_pasted_fingerprint is None,
            s.last_paste_timestamp_ms == 0,
    {
        PasteQueueState {
            items: VecDeque::new(),
            last_action_was_paste: false,
            last_pasted_content: None,
            last_pasted_fingerprint: None,
            last_paste_timestamp_ms: 0,
        }
    }
}

/// One queued item as the front end sees it.
#[derive(Debug)]
pub struct PasteQueueItem {
    pub id: i64,
}

/// The queue as the front end sees it.
#[derive(Debug)]
pub struct PasteQueueResponse {
    pub items: VecDeque<PasteQueueItem>,
    pub last_action_was_paste: bool,
    pub last_pasted_fingerprint: Option<String>,
}

/// The ids of a response's items.
pub open spec fn response_ids(items: Seq<PasteQueueItem>) -> Seq<i64> {
    items.map_values(|it: PasteQueueItem| it.id)
}

/// `r` shows the state: its queued ids in order, whether the last action was
/// a paste, and the fingerprint of the last paste.
pub open spec fn shows_state(r: PasteQueueResponse, state: PasteQueueState) -> bool {
    &&& response_ids(r.items@) == state.items@
    &&& r.last_action_was_paste == state.last_action_was_paste
    &&& r.last_pasted_fingerprint == state.last_pasted_fingerprint
}

/// The queue as the front end sees it.
pub fn get_paste_queue(state: &PasteQueueState) -> (r: PasteQueueResponse)
    ensures
        shows_state(r, *state),
{
    let mut items: VecDeque<PasteQueueItem> = VecDeque::new();
    let mut i: usize = 0;
    while i < state.items.len()
        invariant
            i <= state.items@.len(),
            response_ids(items@) == state.items@.take(i as int),
        decreases state.items@.len() - i,
    {
        let id = state.items[i];
        assert(id == state.items@[i as int]);
        let ghost before = items@;
        items.push_back(PasteQueueItem { id });
        assert(response_ids(items@) =~= response_ids(before).push(id));
        assert(state.items@.take(i + 1) =~= state.items@.take(i as int).push(id));
        i = i + 1;
    }
    assert(state.items@.take(state.items@.len() as int) =~= state.items@);
    PasteQueueResponse {
        items,
        last_action_was_paste: state.last_action_was_paste,
        last_pasted_fingerprint: copy_opt_text(&state.last_pasted_fingerprint),
    }
}

/// `after` is `before` with the queue replaced by `ids`, no paste recorded as
/// the last action and the fingerprint of the last paste forgotten.
pub open spec fn set_to(after: PasteQueueState, before: PasteQueueState, ids: Seq<i64>) -> bool {
    &&& after.items@ == ids
    &&& !after.last_action_was_paste
    &&& after.last_pasted_fingerprint is None
    &&& after.last_pasted_content == before.last_pasted_content
    &&& after.last_paste_timestamp_ms == before.last_paste_timestamp_ms
}

/// Replaces the queue with `ids`, in order, and forgets that the last action
/// was a paste.
pub fn set_paste_queue(state: &mut PasteQueueState, ids: Vec<i64>)
    ensures
        set_to(*final(state), *old(state), ids@),
{
    let mut items: VecDeque<i64> = VecDeque::new();
    let mut i: usize = 0;
    while i < ids.len()
        invariant
            i <= ids.len(),
            items@ == ids@.take(i as int),
        decreases ids.len() - i,
    {
        items.push_back(ids[i]);
        i = i + 1;
        assert(items@ =~= ids@.take(i as int));
    }
    assert(ids@.take(ids.len() as int) =~= ids@);
    state.items = items;
    state.last_action_was_paste = false;
    state.last_pasted_fingerprint = None;
}

/// Where the content of a queued item is read from: items stored in the
/// database have positive ids, items of the session history do not.
#[derive(Debug, PartialEq, Eq, Structural)]
pub enum PasteSource {
    Database(i64),
    Session(i64),
}

pub open spec fn source_of(id: i64) -> PasteSource {
    if id > 0 {
        PasteSource::Database(id)
    } else {
        PasteSource::Session(id)
    }
}

/// The queue after one item is taken from it.
pub open spec fn queue_after_take(items: Seq<i64>) -> Seq<i64> {
    if items.len() == 0 {
        items
    } else {
        items.drop_first()
    }
}

/// The item that the next paste takes, if any.
pub open spec fn next_in_queue(items: Seq<i64>) -> Option<i64> {
    if items.len() == 0 {
        None
    } else {
        Some(items[0])
    }
}

/// `after` is `before` with the front of the queue taken and the last action
/// recorded as a paste, and `r` tells where the taken item is read from; an
/// empty queue stays as it is and gives nothing.
pub open spec fn paste_step(after: PasteQueueState, before: PasteQueueState, r: Option<PasteSource>) -> bool {
    &&& after.items@ == queue_after_take(before.items@)
    &&& r == (match next_in_queue(before.items@) {
        Some(id) => Some(source_of(id)),
        None => None,
    })
    &&& after.last_action_was_paste == (before.last_action_was_paste || before.items@.len() > 0)
    &&& after.last_pasted_content == before.last_pasted_content
    &&& after.last_pasted_fingerprint == before.last_pasted_fingerprint
    &&& after.last_paste_timestamp_ms == before.last_paste_timestamp_ms
}

/// Takes the front of the queue for the next paste and records that the last
/// action was a paste; an empty queue is left as it is and gives nothing.
pub fn paste_next_step(state: &mut PasteQueueState) -> (r: Option<PasteSource>)
    ensures
        paste_step(*final(state), *old(state), r),
{
    if state.items.len() == 0 {
        return None;
    }
    let next = state.items.pop_front();
    match next {
        Some(id) => {
            assert(state.items@ =~= queue_after_take(old(state).items@));
            state.last_action_was_paste = true;
            if id > 0 {
                Some(PasteSource::Database(id))
            } else {
                Some(PasteSource::Session(id))
            }
        },
        None => None,
    }
}

/// What the front end is told after a paste.
#[derive(Debug, PartialEq, Eq, Structural)]
pub enum PasteQueueEvent {
    /// Items remain; the count is given.
    Progress(usize),
    /// The queue is empty.
    Complete,
}

/// The event that follows a paste: progress while items remain, else completion.
pub fn paste_queue_event(state: &PasteQueueState) -> (e: PasteQueueEvent)
    ensures
        e == (if state.items@.len() > 0 {
            PasteQueueEvent::Progress(state.items@.len() as usize)
        } else {
            PasteQueueEvent::Complete
        }),
{
    let remaining = state.items.len();
    if remaining > 0 {
        PasteQueueEvent::Progress(remaining)
    } else {
        PasteQueueEvent::Complete
    }
}

/// The queue after `n` pastes.
pub open spec fn after_pastes(items: Seq<i64>, n: nat) -> Seq<i64>
    decreases n,
{
    if n == 0 {
        items
    } else {
        queue_after_take(after_pastes(items, (n - 1) as nat))
    }
}

/// Sequential paste takes the queued items in the order they were queued:
/// after `k` pastes the next one takes item `k`, and once every item is
/// taken the queue is empty and gives nothing.
pub proof fn law_paste_order(ids: Seq<i64>, k: nat)
    ensures
        after_pastes(ids, k) == ids.skip(k as int) || k > ids.len(),
        k < ids.len() ==> next_in_queue(after_pastes(ids, k)) == Some(ids[k as int]),
        after_pastes(ids, ids.len()).len() == 0,
        next_in_queue(after_pastes(ids, ids.len())) is None,
    decreases k,
{
    lemma_after_pastes_skip(ids, k);
    lemma_after_pastes_skip(ids, ids.len());
    assert(ids.skip(ids.len() as int) =~= Seq::<i64>::empty());
}

proof fn lemma_after_pastes_skip(ids: Seq<i64>, k: nat)
    ensures
        k <= ids.len() ==> after_pastes(ids, k) == ids.skip(k as int),
    decreases k,
{
    if k == 0 {
        assert(ids.skip(0) =~= ids);
    } else if k <= ids.len() {
        lemma_after_pastes_skip(ids, (k - 1) as nat);
        assert(ids.skip(k - 1).drop_first() =~= ids.skip(k as int));
    }
}

/// Setting the queue and reading it back gives the ids that were set, with
/// no paste recorded.
pub proof fn law_set_then_get(
    ids: Seq<i64>,
    before: PasteQueueState,
    after: PasteQueueState,
    shown: PasteQueueResponse,
)
    requires
        set_to(after, before, ids),
        shows_state(shown, after),
    ensures
        response_ids(shown.items@) == ids,
        !shown.last_action_was_paste,
        shown.last_pasted_fingerprint is None,
{
}

/// Setting the queue, pasting once and reading it back: the paste takes the
/// first id set and the queue shows the others, with the paste recorded; a
/// queue set empty gives nothing to paste and stays empty.
pub proof fn law_set_paste_get(
    ids: Seq<i64>,
    s0: PasteQueueState,
    s1: PasteQueueState,
    s2: PasteQueueState,
    r: Option<PasteSource>,
    shown: PasteQueueResponse,
)
    requires
        set_to(s1, s0, ids),
        paste_step(s2, s1, r),
        shows_state(shown, s2),
    ensures
        ids.len() > 0 ==> r == Some(source_of(ids[0])) && response_ids(shown.items@) == ids.drop_first()
            && shown.last_action_was_paste,
        ids.len() == 0 ==> r is None && response_ids(shown.items@).len() == 0
            && !shown.last_action_was_paste,
        shown.last_pasted_fingerprint is None,
{
}

} // verus!
