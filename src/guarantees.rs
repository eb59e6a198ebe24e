//! What holds of every well-formed store, across its operations.
use vstd::prelude::*;

use crate::event::{Event, Timestamp};
use crate::in_memory_storage::{query_result, InMemoryStorage};
use crate::query::{
    in_order, lemma_pick_in_order, lemma_pick_members, lemma_pick_none_pass, pick, precedes, selects,
    MAX_QUERIED_EVENTS,
};
use crate::storage::RetrieveError;

verus! {

/// With no type and no bounds, every id is picked.
proof fn lemma_pick_everything(log: Seq<Event>, ids: Seq<usize>)
    ensures
        pick(log, ids, None, None, None) == ids,
    decreases ids.len(),
{
    if ids.len() > 0 {
        lemma_pick_everything(log, ids.drop_last());
        assert(ids.drop_last().push(ids.last()) =~= ids);
    }
}

/// After an event is stored, an unbounded query that is answered holds it
/// exactly once, at its new id, however many events were stored before.
pub proof fn lemma_stored_event_returned_once(
    before: &InMemoryStorage,
    after: &InMemoryStorage,
    e: Event,
)
    requires
        before.wf(),
        after.wf(),
        after.log() == before.log().push(e),
    ensures
        ({
            let id = before.log().len() as int;
            let full = pick(after.log(), after.timeline(), None, None, None);
            &&& after.log()[id] == e
            &&& exists|p: int| 0 <= p < full.len() && full[p] == id
            &&& forall|p: int, q: int|
                0 <= p < full.len() && 0 <= q < full.len() && full[p] == id && full[q] == id
                    ==> p == q
        }),
{
    after.lemma_wf_ordered();
    let id = before.log().len() as int;
    let tl = after.timeline();
    lemma_pick_everything(after.log(), tl);
    assert(tl.len() == id + 1);
    assert(tl.contains(id as usize));
    let k = choose|k: int| 0 <= k < tl.len() && tl[k] == id as usize;
    assert(tl[k] == id);
    assert forall|p: int, q: int|
        0 <= p < tl.len() && 0 <= q < tl.len() && tl[p] == id && tl[q] == id implies p == q by {
        if p < q {
            assert(in_order(after.log(), tl));
            assert(precedes(after.log(), tl[p], tl[q]));
        } else if q < p {
            assert(precedes(after.log(), tl[q], tl[p]));
        }
    }
}

/// A query picks exactly the stored events that pass its type filter and its
/// window, and orders them by timestamp, then by insertion.
pub proof fn lemma_query_exact_and_ordered(
    s: &InMemoryStorage,
    event_type: Option<Seq<char>>,
    start: Option<Timestamp>,
    end: Option<Timestamp>,
)
    requires
        s.wf(),
    ensures
        forall|id: usize|
            pick(s.log(), s.timeline(), event_type, start, end).contains(id) <==> (id < s.log().len()
                && selects(s.log()[id as int], event_type, start, end)),
        in_order(s.log(), pick(s.log(), s.timeline(), event_type, start, end)),
{
    s.lemma_wf_ordered();
    lemma_pick_members(s.log(), s.timeline(), event_type, start, end);
    lemma_pick_in_order(s.log(), s.timeline(), event_type, start, end);
    assert forall|id: usize| id < s.log().len() implies s.timeline().contains(id) by {}
    assert forall|id: usize|
        pick(s.log(), s.timeline(), event_type, start, end).contains(id) <==> (id < s.log().len()
            && selects(s.log()[id as int], event_type, start, end)) by {
        if s.timeline().contains(id) {
            let k = choose|k: int| 0 <= k < s.timeline().len() && s.timeline()[k] == id;
            assert(s.timeline()[k] < s.log().len());
        }
    }
}

/// The unbounded query picks exactly the ids that some bounded window picks.
pub proof fn lemma_full_is_union_of_windows(s: &InMemoryStorage, id: usize)
    requires
        s.wf(),
    ensures
        pick(s.log(), s.timeline(), None, None, None).contains(id) <==> exists|a: Timestamp, b: Timestamp|
            #[trigger] pick(s.log(), s.timeline(), None, Some(a), Some(b)).contains(id),
{
    lemma_query_exact_and_ordered(s, None, None, None);
    if pick(s.log(), s.timeline(), None, None, None).contains(id) {
        let ts = s.log()[id as int].timestamp;
        lemma_query_exact_and_ordered(s, None, Some(ts), Some(ts));
        assert(pick(s.log(), s.timeline(), None, Some(ts), Some(ts)).contains(id));
    }
    assert forall|a: Timestamp, b: Timestamp| #[trigger]
        pick(s.log(), s.timeline(), None, Some(a), Some(b)).contains(id) implies pick(
        s.log(),
        s.timeline(),
        None,
        None,
        None,
    ).contains(id) by {
        lemma_query_exact_and_ordered(s, None, Some(a), Some(b));
    }
}

/// Two events with the same timestamp come out in the order they were stored.
pub proof fn lemma_same_timestamp_keeps_insertion_order(
    s: &InMemoryStorage,
    event_type: Option<Seq<char>>,
    start: Option<Timestamp>,
    end: Option<Timestamp>,
    p: int,
    q: int,
)
    requires
        s.wf(),
        ({
            let ids = pick(s.log(), s.timeline(), event_type, start, end);
            &&& 0 <= p < ids.len()
            &&& 0 <= q < ids.len()
            &&& ids[p] < ids[q]
            &&& s.log()[ids[p] as int].timestamp == s.log()[ids[q] as int].timestamp
        }),
    ensures
        p < q,
{
    lemma_query_exact_and_ordered(s, event_type, start, end);
    let ids = pick(s.log(), s.timeline(), event_type, start, end);
    if q < p {
        assert(precedes(s.log(), ids[q], ids[p]));
    } else if p == q {
    }
}

/// A query by a type that no stored event has is answered with no events.
pub proof fn lemma_unknown_type_is_empty(
    s: &InMemoryStorage,
    t: Seq<char>,
    start: Option<Timestamp>,
    end: Option<Timestamp>,
    r: Result<Vec<Event>, RetrieveError>,
)
    requires
        s.wf(),
        forall|i: int| 0 <= i < s.log().len() ==> s.log()[i].event_type@ != t,
        query_result(s.log(), s.timeline(), Some(t), start, end, r),
    ensures
        r is Ok && r->Ok_0@.len() == 0,
{
    s.lemma_wf_ordered();
    lemma_pick_none_pass(s.log(), s.timeline(), Some(t), start, end);
}

/// A window whose start lies after its end is answered with no events.
pub proof fn lemma_inverted_window_is_empty(
    s: &InMemoryStorage,
    event_type: Option<Seq<char>>,
    start: Timestamp,
    end: Timestamp,
    r: Result<Vec<Event>, RetrieveError>,
)
    requires
        s.wf(),
        start > end,
        query_result(s.log(), s.timeline(), event_type, Some(start), Some(end), r),
    ensures
        r is Ok && r->Ok_0@.len() == 0,
{
    lemma_pick_none_pass(s.log(), s.timeline(), event_type, Some(start), Some(end));
}

/// A query is refused with the cap exactly when more events than the cap
/// match, and otherwise returns all of them.
pub proof fn lemma_size_cap(
    s: &InMemoryStorage,
    event_type: Option<Seq<char>>,
    start: Option<Timestamp>,
    end: Option<Timestamp>,
    r: Result<Vec<Event>, RetrieveError>,
)
    requires
        s.wf(),
        query_result(s.log(), s.timeline(), event_type, start, end, r),
    ensures
        ({
            let n = pick(s.log(), s.timeline(), event_type, start, end).len();
            &&& n > MAX_QUERIED_EVENTS ==> r == Err::<Vec<Event>, RetrieveError>(
                RetrieveError::ResultTooLarge(MAX_QUERIED_EVENTS as u64),
            )
            &&& n <= MAX_QUERIED_EVENTS ==> r is Ok && r->Ok_0@.len() == n
        }),
{
}

/// A store left unchanged by a rejected event answers every query as before.
pub proof fn lemma_rejection_changes_no_answer(
    before: &InMemoryStorage,
    after: &InMemoryStorage,
    event_type: Option<Seq<char>>,
    start: Option<Timestamp>,
    end: Option<Timestamp>,
    r: Result<Vec<Event>, RetrieveError>,
)
    requires
        after.log() == before.log(),
        after.timeline() == before.timeline(),
    ensures
        query_result(after.log(), after.timeline(), event_type, start, end, r) == query_result(
            before.log(),
            before.timeline(),
            event_type,
            start,
            end,
            r,
        ),
{
}

} // verus!
