use vstd::prelude::*;

use ahash::AHashMap;

use crate::event::{Event, Timestamp};
use crate::query::{
    collect_window, events_at, ids_in_log, lemma_insert_ordered, lemma_pick_absent,
    lemma_pick_in_log, lemma_pick_in_order, lemma_pick_insert, lemma_pick_of_type, lemma_pick_push, ordered_index, pick,
    MAX_QUERIED_EVENTS,
};
use crate::storage::{RetrieveError, StoreError};
use crate::type_index::{lookup_type, new_type_index, put_type, take_type, type_lists};

verus! {

/// The event type that this store does not accept.
pub const UNSUPPORTED_EVENT_TYPE: &'static str = "winter wrap up";

/// Whether events of this type are accepted.
pub open spec fn is_supported_type(t: Seq<char>) -> bool {
    t != UNSUPPORTED_EVENT_TYPE@
}

/// The type filter of a query, as characters.
pub open spec fn type_filter(event_type: Option<&str>) -> Option<Seq<char>> {
    match event_type {
        Some(t) => Some(t@),
        None => None,
    }
}

/// What a query on a store with this log and timestamp index returns: the
/// matching events in timestamp-then-insertion order, or the size cap.
pub open spec fn query_result(
    log: Seq<Event>,
    tl: Seq<usize>,
    event_type: Option<Seq<char>>,
    start: Option<Timestamp>,
    end: Option<Timestamp>,
    r: Result<Vec<Event>, RetrieveError>,
) -> bool {
    let picked = pick(log, tl, event_type, start, end);
    match r {
        Ok(v) => picked.len() <= MAX_QUERIED_EVENTS && v@ == events_at(log, picked),
        Err(RetrieveError::ResultTooLarge(m)) => picked.len() > MAX_QUERIED_EVENTS && m
            == MAX_QUERIED_EVENTS as u64,
    }
}

/// Events under three indexes that always agree: by internal id, by
/// timestamp, and by type then timestamp. An event's internal id is its
/// position in insertion order.
pub struct InMemoryStorage {
    /// Every stored event, at the position of its id.
    event_by_id: Vec<Event>,
    /// All ids, ordered by timestamp, then by id.
    events_by_timestamp: Vec<usize>,
    /// For each stored type, its ids, ordered by timestamp, then by id.
    events_by_type_by_timestamp: AHashMap<String, Vec<usize>>,
}

impl InMemoryStorage {
    /// The stored events in insertion order; an event's id is its position.
    pub closed spec fn log(&self) -> Seq<Event> {
        self.event_by_id@
    }

    /// The ids of all stored events, by timestamp, then insertion.
    pub closed spec fn timeline(&self) -> Seq<usize> {
        self.events_by_timestamp@
    }

    /// The indexes agree with one another and with the log.
    pub closed spec fn wf(&self) -> bool {
        let lists = type_lists(self.events_by_type_by_timestamp);
        &&& ordered_index(self.log(), self.timeline())
        &&& forall|k: Seq<char>| #[trigger]
            lists.contains_key(k) ==> lists[k] == pick(
                self.log(),
                self.timeline(),
                Some(k),
                None,
                None,
            )
        &&& forall|i: int|
            0 <= i < self.log().len() ==> lists.contains_key(#[trigger] self.log()[i].event_type@)
    }

    /// Each well-formed store's timestamp index lists every id once, in order.
    pub proof fn lemma_wf_ordered(&self)
        requires
            self.wf(),
        ensures
            ordered_index(self.log(), self.timeline()),
    {
    }

    /// Creates an empty store.
    pub fn new() -> (r: Self)
        ensures
            r.wf(),
            r.log() == Seq::<Event>::empty(),
    {
        InMemoryStorage {
            event_by_id: Vec::new(),
            events_by_timestamp: Vec::new(),
            events_by_type_by_timestamp: new_type_index(),
        }
    }

    /// The number of stored events.
    pub fn len(&self) -> (r: usize)
        ensures
            r == self.log().len(),
    {
        self.event_by_id.len()
    }

    /// Stores an event under the next id, or rejects an unsupported type and
    /// leaves the store as it was.
    pub fn store(&mut self, event: Event) -> (r: Result<(), StoreError>)
        requires
            old(self).wf(),
            old(self).log().len() < usize::MAX,
        ensures
            final(self).wf(),
            is_supported_type(event.event_type@) ==> r is Ok && final(self).log() == old(
                self,
            ).log().push(event),
            !is_supported_type(event.event_type@) ==> r == Err::<(), StoreError>(
                StoreError::InvalidEventType(event.event_type),
            ) && final(self).log() == old(self).log() && final(self).timeline() == old(
                self,
            ).timeline(),
    {
        let rejected = UNSUPPORTED_EVENT_TYPE.to_owned();
        if event.event_type == rejected {
            return Err(StoreError::InvalidEventType(event.event_type));
        }
        let ghost log = self.log();
        let ghost tl = self.timeline();
        let ghost ty = event.event_type@;
        let id = self.event_by_id.len();
        // The new id goes after every id whose event is not later; those of the
        // same type tell where it goes in that type's list.
        let mut pos: usize = 0;
        let mut same_type: usize = 0;
        while pos < self.events_by_timestamp.len()
            && self.event_by_id[self.events_by_timestamp[pos]].timestamp <= event.timestamp
            invariant
                self.log() == log,
                self.timeline() == tl,
                ty == event.event_type@,
                ordered_index(log, tl),
                pos <= tl.len(),
                forall|j: int| 0 <= j < pos ==> log[tl[j] as int].timestamp <= event.timestamp,
                same_type == pick(log, tl.take(pos as int), Some(ty), None, None).len(),
                same_type <= pos,
            decreases tl.len() - pos,
        {
            let other = self.events_by_timestamp[pos];
            proof {
                lemma_pick_push(log, tl.take(pos as int), other, Some(ty), None, None);
                assert(tl.take(pos as int).push(other) =~= tl.take(pos + 1));
            }
            if self.event_by_id[other].event_type == event.event_type {
                same_type += 1;
            }
            pos += 1;
        }
        proof {
            lemma_insert_ordered(log, event, tl, pos as int);
            lemma_pick_insert(log, event, tl, pos as int, Some(ty), None, None);
        }
        let mut type_ids = match take_type(&mut self.events_by_type_by_timestamp, &event.event_type) {
            Some(ids) => ids,
            None => {
                proof {
                    assert forall|i: int| 0 <= i < tl.len() implies log[tl[i] as int].event_type@
                        != ty by {
                        assert(self.log()[tl[i] as int] == log[tl[i] as int]);
                    }
                    lemma_pick_absent(log, tl, ty, None, None);
                }
                Vec::new()
            },
        };
        proof {
            assert(type_ids@ == pick(log, tl, Some(ty), None, None));
        }
        type_ids.insert(same_type, id);
        put_type(&mut self.events_by_type_by_timestamp, event.event_type.clone(), type_ids);
        self.events_by_timestamp.insert(pos, id);
        self.event_by_id.push(event);
        proof {
            let nl = self.log();
            let nt = self.timeline();
            assert(nl == log.push(event));
            assert(nt == tl.insert(pos as int, log.len() as usize));
            let after = type_lists(self.events_by_type_by_timestamp);
            assert forall|k: Seq<char>| #[trigger] after.contains_key(k) implies after[k] == pick(
                nl,
                nt,
                Some(k),
                None,
                None,
            ) by {
                lemma_pick_insert(log, event, tl, pos as int, Some(k), None, None);
                if k == ty {
                    let front = pick(log, tl.take(pos as int), Some(ty), None, None);
                    let back = pick(log, tl.skip(pos as int), Some(ty), None, None);
                    assert(after[k] =~= front.push(log.len() as usize) + back);
                }
            }
            assert forall|i: int| 0 <= i < nl.len() implies after.contains_key(
                #[trigger] nl[i].event_type@,
            ) by {
                if i < log.len() {
                    assert(nl[i] == log[i]);
                }
            }
        }
        Ok(())
    }

    /// The stored events that have the given type (if one is given) and lie in
    /// the inclusive window, by timestamp, then insertion; `ResultTooLarge`
    /// if more than `MAX_QUERIED_EVENTS` of them match.
    pub fn get_events(
        &self,
        event_type: Option<&str>,
        start: Option<Timestamp>,
        end: Option<Timestamp>,
    ) -> (r: Result<Vec<Event>, RetrieveError>)
        requires
            self.wf(),
        ensures
            query_result(self.log(), self.timeline(), type_filter(event_type), start, end, r),
    {
        let ghost log = self.log();
        let ghost tl = self.timeline();
        match event_type {
            Some(t) => match lookup_type(&self.events_by_type_by_timestamp, t) {
                Some(ids) => {
                    proof {
                        lemma_pick_of_type(log, tl, t@, start, end);
                        lemma_pick_in_log(log, tl, Some(t@), None, None);
                        lemma_pick_in_order(log, tl, Some(t@), None, None);
                    }
                    collect_window(&self.event_by_id, ids, start, end)
                },
                None => {
                    proof {
                        assert forall|i: int| 0 <= i < tl.len() implies log[tl[i] as int].event_type@
                            != t@ by {
                            assert(log[tl[i] as int].event_type@ == log[tl[i] as int].event_type@);
                        }
                        lemma_pick_absent(log, tl, t@, start, end);
                        assert(events_at(log, Seq::<usize>::empty()) =~= Seq::<Event>::empty());
                    }
                    Ok(Vec::new())
                },
            },
            None => collect_window(&self.event_by_id, &self.events_by_timestamp, start, end),
        }
    }
}

} // verus!
