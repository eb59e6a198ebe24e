use vstd::prelude::*;

use crate::event::{Event, Timestamp};
use crate::storage::RetrieveError;

verus! {

/// The most events one query may return.
pub const MAX_QUERIED_EVENTS: usize = 4;

/// Whether `ts` lies in the inclusive window; an absent bound is unbounded.
pub open spec fn in_window(ts: Timestamp, start: Option<Timestamp>, end: Option<Timestamp>) -> bool {
    (match start {
        Some(s) => s <= ts,
        None => true,
    }) && (match end {
        Some(e) => ts <= e,
        None => true,
    })
}

/// Whether an event passes the optional type filter and the window.
pub open spec fn selects(
    e: Event,
    event_type: Option<Seq<char>>,
    start: Option<Timestamp>,
    end: Option<Timestamp>,
) -> bool {
    (match event_type {
        Some(t) => e.event_type@ == t,
        None => true,
    }) && in_window(e.timestamp, start, end)
}

/// The ids of `ids`, in their order, whose events pass the filter.
pub open spec fn pick(
    log: Seq<Event>,
    ids: Seq<usize>,
    event_type: Option<Seq<char>>,
    start: Option<Timestamp>,
    end: Option<Timestamp>,
) -> Seq<usize>
    decreases ids.len(),
{
    if ids.len() == 0 {
        Seq::empty()
    } else {
        let rest = pick(log, ids.drop_last(), event_type, start, end);
        if selects(log[ids.last() as int], event_type, start, end) {
            rest.push(ids.last())
        } else {
            rest
        }
    }
}

/// The events that the ids stand for, in the same order.
pub open spec fn events_at(log: Seq<Event>, ids: Seq<usize>) -> Seq<Event> {
    ids.map_values(|id: usize| log[id as int])
}

/// Whether event `a` comes before event `b`: by timestamp, then by insertion.
pub open spec fn precedes(log: Seq<Event>, a: usize, b: usize) -> bool {
    log[a as int].timestamp < log[b as int].timestamp || (log[a as int].timestamp
        == log[b as int].timestamp && a < b)
}

/// Whether every id refers to a stored event.
pub open spec fn ids_in_log(log: Seq<Event>, ids: Seq<usize>) -> bool {
    forall|i: int| 0 <= i < ids.len() ==> ids[i] < log.len()
}

/// Whether the ids are strictly ordered by timestamp, then insertion.
pub open spec fn in_order(log: Seq<Event>, ids: Seq<usize>) -> bool {
    forall|i: int, j: int| 0 <= i < j < ids.len() ==> precedes(log, #[trigger] ids[i], #[trigger] ids[j])
}

pub proof fn lemma_pick_push(
    log: Seq<Event>,
    ids: Seq<usize>,
    id: usize,
    event_type: Option<Seq<char>>,
    start: Option<Timestamp>,
    end: Option<Timestamp>,
)
    ensures
        pick(log, ids.push(id), event_type, start, end) == if selects(
            log[id as int],
            event_type,
            start,
            end,
        ) {
            pick(log, ids, event_type, start, end).push(id)
        } else {
            pick(log, ids, event_type, start, end)
        },
{
    assert(ids.push(id).drop_last() =~= ids);
}

/// Picking from a prefix never yields more than picking from the whole.
pub proof fn lemma_pick_prefix_len(
    log: Seq<Event>,
    ids: Seq<usize>,
    i: int,
    event_type: Option<Seq<char>>,
    start: Option<Timestamp>,
    end: Option<Timestamp>,
)
    requires
        0 <= i <= ids.len(),
    ensures
        pick(log, ids.take(i), event_type, start, end).len() <= pick(
            log,
            ids,
            event_type,
            start,
            end,
        ).len(),
    decreases ids.len(),
{
    if i < ids.len() {
        assert(ids.drop_last().take(i) =~= ids.take(i));
        lemma_pick_prefix_len(log, ids.drop_last(), i, event_type, start, end);
    } else {
        assert(ids.take(i) =~= ids);
    }
}

/// Every picked id is one of `ids` and passes the filter, and each such id is picked.
pub proof fn lemma_pick_members(
    log: Seq<Event>,
    ids: Seq<usize>,
    event_type: Option<Seq<char>>,
    start: Option<Timestamp>,
    end: Option<Timestamp>,
)
    ensures
        forall|x: usize|
            pick(log, ids, event_type, start, end).contains(x) <==> (ids.contains(x) && selects(
                log[x as int],
                event_type,
                start,
                end,
            )),
    decreases ids.len(),
{
    if ids.len() > 0 {
        lemma_pick_members(log, ids.drop_last(), event_type, start, end);
        assert(ids =~= ids.drop_last().push(ids.last()));
        assert forall|x: usize|
            pick(log, ids, event_type, start, end).contains(x) <==> (ids.contains(x) && selects(
                log[x as int],
                event_type,
                start,
                end,
            )) by {
            let rest = pick(log, ids.drop_last(), event_type, start, end);
            if ids.contains(x) && x != ids.last() {
                let k = choose|k: int| 0 <= k < ids.len() && ids[k] == x;
                assert(ids.drop_last()[k] == x);
            }
            if ids.drop_last().contains(x) {
                let k = choose|k: int| 0 <= k < ids.drop_last().len() && ids.drop_last()[k] == x;
                assert(ids[k] == x);
            }
            if selects(log[ids.last() as int], event_type, start, end) {
                assert(rest.push(ids.last())[rest.len() as int] == ids.last());
                if rest.contains(x) {
                    let k = choose|k: int| 0 <= k < rest.len() && rest[k] == x;
                    assert(rest.push(ids.last())[k] == x);
                }
                if rest.push(ids.last()).contains(x) && x != ids.last() {
                    let k = choose|k: int| 0 <= k < rest.len() + 1 && rest.push(ids.last())[k] == x;
                    assert(rest[k] == x);
                }
            }
            assert(ids[ids.len() - 1] == ids.last());
        }
    }
}

/// Picking keeps the order of `ids`: a picked sequence of ordered ids is ordered.
pub proof fn lemma_pick_in_order(
    log: Seq<Event>,
    ids: Seq<usize>,
    event_type: Option<Seq<char>>,
    start: Option<Timestamp>,
    end: Option<Timestamp>,
)
    requires
        in_order(log, ids),
    ensures
        in_order(log, pick(log, ids, event_type, start, end)),
    decreases ids.len(),
{
    if ids.len() > 0 {
        let front = ids.drop_last();
        assert(in_order(log, front)) by {
            assert forall|i: int, j: int| 0 <= i < j < front.len() implies precedes(
                log,
                #[trigger] front[i],
                #[trigger] front[j],
            ) by {
                assert(front[i] == ids[i] && front[j] == ids[j]);
            }
        }
        lemma_pick_in_order(log, front, event_type, start, end);
        lemma_pick_members(log, front, event_type, start, end);
        let rest = pick(log, front, event_type, start, end);
        if selects(log[ids.last() as int], event_type, start, end) {
            let r = rest.push(ids.last());
            assert forall|i: int, j: int| 0 <= i < j < r.len() implies precedes(
                log,
                #[trigger] r[i],
                #[trigger] r[j],
            ) by {
                if j == rest.len() {
                    assert(rest.contains(rest[i]));
                    assert(front.contains(rest[i]));
                    let k = choose|k: int| 0 <= k < front.len() && front[k] == rest[i];
                    assert(ids[k] == rest[i]);
                    assert(ids[ids.len() - 1] == ids.last());
                    assert(precedes(log, ids[k], ids[ids.len() - 1]));
                } else {
                    assert(r[i] == rest[i] && r[j] == rest[j]);
                }
            }
        }
    }
}

/// Whether `tl` lists every stored id once, ordered by timestamp, then insertion.
pub open spec fn ordered_index(log: Seq<Event>, tl: Seq<usize>) -> bool {
    &&& tl.len() == log.len()
    &&& log.len() <= usize::MAX
    &&& ids_in_log(log, tl)
    &&& in_order(log, tl)
    &&& forall|id: usize| id < log.len() ==> #[trigger] tl.contains(id)
}

/// Picking from a concatenation picks from each part.
pub proof fn lemma_pick_split(
    log: Seq<Event>,
    a: Seq<usize>,
    b: Seq<usize>,
    event_type: Option<Seq<char>>,
    start: Option<Timestamp>,
    end: Option<Timestamp>,
)
    ensures
        pick(log, a + b, event_type, start, end) == pick(log, a, event_type, start, end) + pick(
            log,
            b,
            event_type,
            start,
            end,
        ),
    decreases b.len(),
{
    if b.len() == 0 {
        assert(a + b =~= a);
        assert(pick(log, a, event_type, start, end) + pick(log, b, event_type, start, end)
            =~= pick(log, a, event_type, start, end));
    } else {
        lemma_pick_split(log, a, b.drop_last(), event_type, start, end);
        assert((a + b).drop_last() =~= a + b.drop_last());
        assert((a + b).last() == b.last());
        let pa = pick(log, a, event_type, start, end);
        let pb = pick(log, b.drop_last(), event_type, start, end);
        assert((pa + pb).push(b.last()) =~= pa + pb.push(b.last()));
    }
}

/// Appending an event to the log does not change what is picked among older ids.
pub proof fn lemma_pick_push_log(
    log: Seq<Event>,
    e: Event,
    ids: Seq<usize>,
    event_type: Option<Seq<char>>,
    start: Option<Timestamp>,
    end: Option<Timestamp>,
)
    requires
        ids_in_log(log, ids),
    ensures
        pick(log.push(e), ids, event_type, start, end) == pick(log, ids, event_type, start, end),
    decreases ids.len(),
{
    if ids.len() > 0 {
        lemma_pick_push_log(log, e, ids.drop_last(), event_type, start, end);
        assert(ids[ids.len() - 1] == ids.last());
    }
}

/// Inserting the newest id at `pos` adds it, if it passes, between the picks of both sides.
pub proof fn lemma_pick_insert(
    log: Seq<Event>,
    e: Event,
    tl: Seq<usize>,
    pos: int,
    event_type: Option<Seq<char>>,
    start: Option<Timestamp>,
    end: Option<Timestamp>,
)
    requires
        ids_in_log(log, tl),
        0 <= pos <= tl.len(),
        log.len() <= usize::MAX,
    ensures
        pick(log, tl, event_type, start, end) == pick(log, tl.take(pos), event_type, start, end)
            + pick(log, tl.skip(pos), event_type, start, end),
        pick(log.push(e), tl.insert(pos, log.len() as usize), event_type, start, end) == if selects(
            e,
            event_type,
            start,
            end,
        ) {
            pick(log, tl.take(pos), event_type, start, end).push(log.len() as usize) + pick(
                log,
                tl.skip(pos),
                event_type,
                start,
                end,
            )
        } else {
            pick(log, tl.take(pos), event_type, start, end) + pick(
                log,
                tl.skip(pos),
                event_type,
                start,
                end,
            )
        },
{
    let n = log.len() as usize;
    let front = tl.take(pos);
    let back = tl.skip(pos);
    assert(tl =~= front + back);
    lemma_pick_split(log, front, back, event_type, start, end);
    assert(tl.insert(pos, n) =~= front.push(n) + back);
    lemma_pick_split(log.push(e), front.push(n), back, event_type, start, end);
    assert(ids_in_log(log, front));
    assert(ids_in_log(log, back));
    lemma_pick_push_log(log, e, front, event_type, start, end);
    lemma_pick_push_log(log, e, back, event_type, start, end);
    lemma_pick_push(log.push(e), front, n, event_type, start, end);
    assert(log.push(e)[n as int] == e);
}

/// Picking by window from the ids of one type is picking by type and window.
pub proof fn lemma_pick_of_type(
    log: Seq<Event>,
    ids: Seq<usize>,
    t: Seq<char>,
    start: Option<Timestamp>,
    end: Option<Timestamp>,
)
    ensures
        pick(log, pick(log, ids, Some(t), None, None), None, start, end) == pick(
            log,
            ids,
            Some(t),
            start,
            end,
        ),
    decreases ids.len(),
{
    if ids.len() > 0 {
        lemma_pick_of_type(log, ids.drop_last(), t, start, end);
        lemma_pick_push(log, pick(log, ids.drop_last(), Some(t), None, None), ids.last(), None, start, end);
    }
}

/// Nothing is picked by a type that none of the ids has.
pub proof fn lemma_pick_absent(
    log: Seq<Event>,
    ids: Seq<usize>,
    t: Seq<char>,
    start: Option<Timestamp>,
    end: Option<Timestamp>,
)
    requires
        forall|i: int| 0 <= i < ids.len() ==> log[ids[i] as int].event_type@ != t,
    ensures
        pick(log, ids, Some(t), start, end) == Seq::<usize>::empty(),
    decreases ids.len(),
{
    if ids.len() > 0 {
        lemma_pick_absent(log, ids.drop_last(), t, start, end);
        assert(ids[ids.len() - 1] == ids.last());
    }
}

/// The ids picked from ids that refer to stored events refer to stored events.
pub proof fn lemma_pick_in_log(
    log: Seq<Event>,
    ids: Seq<usize>,
    event_type: Option<Seq<char>>,
    start: Option<Timestamp>,
    end: Option<Timestamp>,
)
    requires
        ids_in_log(log, ids),
    ensures
        ids_in_log(log, pick(log, ids, event_type, start, end)),
{
    let p = pick(log, ids, event_type, start, end);
    lemma_pick_members(log, ids, event_type, start, end);
    assert forall|i: int| 0 <= i < p.len() implies p[i] < log.len() by {
        assert(p.contains(p[i]));
        assert(ids.contains(p[i]));
        let k = choose|k: int| 0 <= k < ids.len() && ids[k] == p[i];
    }
}

/// Inserting the newest id just after every id of an earlier or equal timestamp
/// keeps the index ordered and complete.
pub proof fn lemma_insert_ordered(log: Seq<Event>, e: Event, tl: Seq<usize>, pos: int)
    requires
        ordered_index(log, tl),
        0 <= pos <= tl.len(),
        log.len() < usize::MAX,
        forall|j: int| 0 <= j < pos ==> log[tl[j] as int].timestamp <= e.timestamp,
        pos < tl.len() ==> log[tl[pos] as int].timestamp > e.timestamp,
    ensures
        ordered_index(log.push(e), tl.insert(pos, log.len() as usize)),
{
    let n = log.len() as usize;
    let nl = log.push(e);
    let t = tl.insert(pos, n);
    assert(t.len() == tl.len() + 1);
    assert forall|i: int| 0 <= i < t.len() implies #[trigger] t[i] == if i < pos {
        tl[i]
    } else if i == pos {
        n
    } else {
        tl[i - 1]
    } by {}
    assert forall|i: int, j: int| 0 <= i < j < t.len() implies precedes(nl, #[trigger] t[i], #[trigger] t[j]) by {
        assert(nl[n as int] == e);
        if i != pos {
            assert(nl[t[i] as int] == log[t[i] as int]);
        }
        if j != pos {
            assert(nl[t[j] as int] == log[t[j] as int]);
        }
        if j < pos {
            assert(precedes(log, tl[i], tl[j]));
        } else if j == pos {
        } else if i == pos {
            if j - 1 > pos {
                assert(precedes(log, tl[pos], tl[j - 1]));
            }
        } else if i < pos {
            assert(precedes(log, tl[i], tl[j - 1]));
        } else {
            assert(precedes(log, tl[i - 1], tl[j - 1]));
        }
    }
    assert forall|id: usize| id < nl.len() implies #[trigger] t.contains(id) by {
        if id == n {
            assert(t[pos] == id);
        } else {
            assert(tl.contains(id));
            let k = choose|k: int| 0 <= k < tl.len() && tl[k] == id;
            if k < pos {
                assert(t[k] == id);
            } else {
                assert(t[k + 1] == id);
            }
        }
    }
}

/// A pick in which no id passes the filter is empty.
pub proof fn lemma_pick_none_pass(
    log: Seq<Event>,
    ids: Seq<usize>,
    event_type: Option<Seq<char>>,
    start: Option<Timestamp>,
    end: Option<Timestamp>,
)
    requires
        forall|i: int| 0 <= i < ids.len() ==> !selects(log[ids[i] as int], event_type, start, end),
    ensures
        pick(log, ids, event_type, start, end).len() == 0,
{
    let p = pick(log, ids, event_type, start, end);
    lemma_pick_members(log, ids, event_type, start, end);
    if p.len() > 0 {
        assert(p.contains(p[0]));
        assert(ids.contains(p[0]));
    }
}

/// In ordered ids, nothing after an id past the end of the window is picked.
pub proof fn lemma_pick_past_end(
    log: Seq<Event>,
    ids: Seq<usize>,
    i: int,
    start: Option<Timestamp>,
    end: Timestamp,
)
    requires
        in_order(log, ids),
        0 <= i < ids.len(),
        log[ids[i] as int].timestamp > end,
    ensures
        pick(log, ids, None, start, Some(end)) == pick(log, ids.take(i), None, start, Some(end)),
{
    let back = ids.skip(i);
    assert forall|k: int| 0 <= k < back.len() implies !selects(
        log[back[k] as int],
        None,
        start,
        Some(end),
    ) by {
        if k > 0 {
            assert(precedes(log, ids[i], ids[i + k]));
        }
    }
    lemma_pick_none_pass(log, back, None, start, Some(end));
    assert(ids =~= ids.take(i) + back);
    lemma_pick_split(log, ids.take(i), back, None, start, Some(end));
    assert(pick(log, ids.take(i), None, start, Some(end)) + pick(log, back, None, start, Some(end))
        =~= pick(log, ids.take(i), None, start, Some(end)));
}

/// The position of the first of the ordered ids whose timestamp is at or after `start`.
pub fn first_at_or_after(log: &Vec<Event>, ids: &Vec<usize>, start: Timestamp) -> (r: usize)
    requires
        ids_in_log(log@, ids@),
        in_order(log@, ids@),
    ensures
        r <= ids.len(),
        forall|j: int| 0 <= j < r ==> log@[ids@[j] as int].timestamp < start,
        r < ids.len() ==> log@[ids@[r as int] as int].timestamp >= start,
{
    let mut lo: usize = 0;
    let mut hi: usize = ids.len();
    while lo < hi
        invariant
            ids_in_log(log@, ids@),
            in_order(log@, ids@),
            lo <= hi <= ids.len(),
            forall|j: int| 0 <= j < lo ==> log@[ids@[j] as int].timestamp < start,
            forall|j: int| hi <= j < ids.len() ==> log@[ids@[j] as int].timestamp >= start,
        decreases hi - lo,
    {
        let mid = lo + (hi - lo) / 2;
        if log[ids[mid]].timestamp < start {
            assert forall|j: int| 0 <= j <= mid implies log@[ids@[j] as int].timestamp < start by {
                if j < mid {
                    assert(precedes(log@, ids@[j], ids@[mid as int]));
                }
            }
            lo = mid + 1;
        } else {
            assert forall|j: int| mid <= j < ids.len() implies log@[ids@[j] as int].timestamp
                >= start by {
                if j > mid {
                    assert(precedes(log@, ids@[mid as int], ids@[j]));
                }
            }
            hi = mid;
        }
    }
    lo
}

/// Returns the events of `ids` that fall in the window, in order, or
/// `ResultTooLarge` once more than `MAX_QUERIED_EVENTS` of them match. The
/// scan starts at the first id in the window and stops at the first past it.
pub fn collect_window(
    log: &Vec<Event>,
    ids: &Vec<usize>,
    start: Option<Timestamp>,
    end: Option<Timestamp>,
) -> (r: Result<Vec<Event>, RetrieveError>)
    requires
        ids_in_log(log@, ids@),
        in_order(log@, ids@),
    ensures
        ({
            let picked = pick(log@, ids@, None, start, end);
            match r {
                Ok(v) => picked.len() <= MAX_QUERIED_EVENTS && v@ == events_at(log@, picked),
                Err(RetrieveError::ResultTooLarge(m)) => picked.len() > MAX_QUERIED_EVENTS && m
                    == MAX_QUERIED_EVENTS as u64,
            }
        }),
{
    let mut out: Vec<Event> = Vec::new();
    let first = match start {
        Some(s) => first_at_or_after(log, ids, s),
        None => 0,
    };
    proof {
        let skipped = ids@.take(first as int);
        assert forall|k: int| 0 <= k < skipped.len() implies !selects(
            log@[skipped[k] as int],
            None,
            start,
            end,
        ) by {
            assert(skipped[k] == ids@[k]);
        }
        lemma_pick_none_pass(log@, skipped, None, start, end);
        assert(events_at(log@, pick(log@, skipped, None, start, end)) =~= out@);
    }
    let mut i: usize = first;
    while i < ids.len()
        invariant
            ids_in_log(log@, ids@),
            in_order(log@, ids@),
            first <= i <= ids.len(),
            out.len() <= MAX_QUERIED_EVENTS,
            out@ == events_at(log@, pick(log@, ids@.take(i as int), None, start, end)),
        decreases ids.len() - i,
    {
        let id = ids[i];
        let e = &log[id ];
        assert(ids@.take(i as int).push(id) =~= ids@.take(i + 1));
        proof {
            lemma_pick_push(log@, ids@.take(i as int), id, None, start, end);
        }
        let after_start = match start {
            Some(s) => s <= e.timestamp,
            None => true,
        };
        let before_end = match end {
            Some(t) => e.timestamp <= t,
            None => true,
        };
        if after_start && before_end {
            if out.len() == MAX_QUERIED_EVENTS {
                proof {
                    lemma_pick_prefix_len(log@, ids@, i + 1, None, start, end);
                }
                return Err(RetrieveError::ResultTooLarge(MAX_QUERIED_EVENTS as u64));
            }
            let ghost before = pick(log@, ids@.take(i as int), None, start, end);
            out.push(e.clone());
            assert(events_at(log@, before.push(id)) =~= events_at(log@, before).push(log@[id as int]));
        }
        i += 1;
    }
    assert(ids@.take(i as int) =~= ids@);
    Ok(out)
}

} // verus!
