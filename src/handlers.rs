use vstd::prelude::*;

use crate::app_error::AppError;
use crate::event::Event;
use crate::in_memory_storage::{is_supported_type, InMemoryStorage};
use crate::query::{events_at, pick, MAX_QUERIED_EVENTS};

verus! {

/// The optional filters of a query: an event type and an inclusive timestamp window.
#[derive(Debug)]
pub struct QueryParams {
    pub event_type: Option<String>,
    pub start: Option<u64>,
    pub end: Option<u64>,
}

/// The type filter of the parameters, as characters.
pub open spec fn params_type(params: QueryParams) -> Option<Seq<char>> {
    match params.event_type {
        Some(t) => Some(t@),
        None => None,
    }
}

/// Answers a query: the matching events in order, or `ResultTooLarge` with the cap.
pub fn get_events(store: &InMemoryStorage, params: &QueryParams) -> (r: Result<Vec<Event>, AppError>)
    requires
        store.wf(),
    ensures
        ({
            let picked = pick(
                store.log(),
                store.timeline(),
                params_type(*params),
                params.start,
                params.end,
            );
            match r {
                Ok(v) => picked.len() <= MAX_QUERIED_EVENTS && v@ == events_at(store.log(), picked),
                Err(AppError::ResultTooLarge(m)) => picked.len() > MAX_QUERIED_EVENTS && m
                    == MAX_QUERIED_EVENTS as u64,
                Err(AppError::InvalidEventType(_)) => false,
            }
        }),
{
    let found = match &params.event_type {
        Some(t) => store.get_events(Some(t.as_str()), params.start, params.end),
        None => store.get_events(None, params.start, params.end),
    };
    match found {
        Ok(events) => Ok(events),
        Err(error) => Err(AppError::from(error)),
    }
}

/// Stores one event, or reports its type as invalid and changes nothing.
pub fn post_event(store: &mut InMemoryStorage, event: Event) -> (r: Result<(), AppError>)
    requires
        old(store).wf(),
        old(store).log().len() < usize::MAX,
    ensures
        final(store).wf(),
        is_supported_type(event.event_type@) ==> r is Ok && final(store).log() == old(
            store,
        ).log().push(event),
        !is_supported_type(event.event_type@) ==> r == Err::<(), AppError>(
            AppError::InvalidEventType(event.event_type),
        ) && final(store).log() == old(store).log() && final(store).timeline() == old(
            store,
        ).timeline(),
{
    match store.store(event) {
        Ok(()) => Ok(()),
        Err(error) => Err(AppError::from(error)),
    }
}

} // verus!
