//! The query surface: from a filter and the bytes of a log to the answer
//! that a polling client receives.

use crate::rides::{
    answer, capped, is_first_not_before, lemma_bisect, numbered, records, remaining,
    seek_position, selector, sorted_by_source, RideEvent, RidesFilter, RidesReader,
};
use vstd::prelude::*;

verus! {

/// The answer to a query: the matching rides in log order, and the event id
/// of the last of them, which the client hands back as its next cursor.
#[derive(Debug)]
pub struct RidesResponse {
    pub rides: Vec<RideEvent>,
    /// The event id of the last ride returned; 0 where none was.
    pub last_event_id: usize,
}

/// The rides of a numbered sequence, without their event ids.
pub open spec fn rides_of(items: Seq<(usize, RideEvent)>) -> Seq<RideEvent> {
    items.map_values(|item: (usize, RideEvent)| item.1)
}

/// The event id of the last item, or 0 where there is none.
pub open spec fn last_id_of(items: Seq<(usize, RideEvent)>) -> usize {
    if items.len() == 0 {
        0
    } else {
        items.last().0
    }
}

/// Answers a query over the bytes of a log.
pub fn rides(filter: RidesFilter, log: &[u8]) -> (response: RidesResponse)
    ensures
        response.rides@ == rides_of(answer(records(log@), filter)),
        response.last_event_id == last_id_of(answer(records(log@), filter)),
{
    let mut reader = RidesReader::new(filter, log);
    let mut rides: Vec<RideEvent> = Vec::new();
    let mut last_event_id: usize = 0;
    let ghost all = records(log@);
    let ghost found = remaining(all, filter, seek_position(all, filter));
    proof {
        assert(found.skip(0) =~= found);
        assert(rides_of(found.take(0)) =~= rides@);
    }
    loop
        invariant_except_break
            reader@.filter == filter,
            reader@.rides == all,
            reader@.pos <= all.len(),
            reader@.yielded == rides@.len(),
            reader@.yielded <= filter.effective_limit(),
            rides@.len() <= found.len(),
            rides@ == rides_of(found.take(rides@.len() as int)),
            last_event_id == last_id_of(found.take(rides@.len() as int)),
            remaining(all, filter, reader@.pos as int) == found.skip(rides@.len() as int),
        invariant
            found == remaining(all, filter, seek_position(all, filter)),
        ensures
            rides@ == rides_of(answer(all, filter)),
            last_event_id == last_id_of(answer(all, filter)),
        decreases all.len() - reader@.pos,
    {
        let ghost taken = rides@.len() as int;
        match reader.next() {
            None => {
                proof {
                    if taken < filter.effective_limit() {
                        assert(found.skip(taken).len() == 0);
                        assert(taken == found.len());
                        assert(found.take(taken) =~= found);
                        assert(answer(all, filter) == found);
                    } else {
                        assert(taken == filter.effective_limit());
                        if found.len() <= filter.effective_limit() {
                            assert(found.take(taken) =~= found);
                        }
                        assert(answer(all, filter) == found.take(taken));
                    }
                }
                break ;
            },
            Some((event_id, ride)) => {
                proof {
                    assert(found.skip(taken)[0] == found[taken]);
                    assert(found.take(taken + 1) =~= found.take(taken).push(found[taken]));
                    assert(rides_of(found.take(taken + 1)) =~= rides_of(found.take(taken)).push(
                        ride,
                    ));
                    assert(found.skip(taken).skip(1) =~= found.skip(taken + 1));
                }
                last_event_id = event_id;
                rides.push(ride);
            },
        }
    }
    RidesResponse { rides, last_event_id }
}

/// A test that every item passes filters nothing out.
proof fn lemma_filter_keeps_all(items: Seq<(usize, RideEvent)>, filter: RidesFilter)
    requires
        forall|i: int| 0 <= i < items.len() ==> selector(filter)(#[trigger] items[i]),
    ensures
        items.filter(selector(filter)) == items,
    decreases items.len(),
{
    reveal(Seq::filter);
    if items.len() > 0 {
        lemma_filter_keeps_all(items.drop_last(), filter);
        assert(items.drop_last().push(items.last()) =~= items);
    }
}

/// A test that no item passes filters everything out.
proof fn lemma_filter_keeps_none(items: Seq<(usize, RideEvent)>, filter: RidesFilter)
    requires
        forall|i: int| 0 <= i < items.len() ==> !selector(filter)(#[trigger] items[i]),
    ensures
        items.filter(selector(filter)).len() == 0,
    decreases items.len(),
{
    reveal(Seq::filter);
    if items.len() > 0 {
        lemma_filter_keeps_none(items.drop_last(), filter);
    }
}

/// Cursor: a query that names the event id `last` seen last, and no
/// timestamp, is answered with the rides from event id `last + 1` on, in
/// log order, as many as the limit allows.
pub proof fn law_cursor_resumes_behind(rides: Seq<RideEvent>, last: usize, limit: Option<usize>)
    requires
        rides.len() <= usize::MAX,
    ensures
        ({
            let filter = RidesFilter { from: None, last_event_id: Some(last), limit };
            let start = if last < rides.len() {
                last + 1
            } else {
                rides.len() as int
            };
            answer(rides, filter) == capped(numbered(rides).skip(start), filter.effective_limit())
        }),
{
    let filter = RidesFilter { from: None, last_event_id: Some(last), limit };
    let start = seek_position(rides, filter);
    let tail = numbered(rides).skip(start);
    assert forall|i: int| 0 <= i < tail.len() implies selector(filter)(#[trigger] tail[i]) by {
        assert(tail[i] == numbered(rides)[start + i]);
    }
    lemma_filter_keeps_all(tail, filter);
}

/// Search by time: on a log whose source timestamps never decrease, a
/// query that names a timestamp `from`, and no cursor, is answered with the
/// rides from the first one that does not start before `from` on, in log
/// order, as many as the limit allows. Those are all the rides that start
/// at or after `from`. Where no ride that starts before `from` ends at or
/// after it, they are also exactly the rides with a timestamp at or after
/// `from`.
pub proof fn law_search_returns_suffix(rides: Seq<RideEvent>, from: u64, limit: Option<usize>)
    requires
        rides.len() <= usize::MAX,
        sorted_by_source(rides),
    ensures
        ({
            let filter = RidesFilter { from: Some(from), last_event_id: None, limit };
            let first = seek_position(rides, filter);
            &&& is_first_not_before(rides, from, first)
            &&& answer(rides, filter) == capped(
                numbered(rides).skip(first),
                filter.effective_limit(),
            )
            &&& (forall|i: int|
                0 <= i < rides.len() && (#[trigger] rides[i]).src.timestamp < from
                    ==> rides[i].dst.timestamp < from) ==> answer(rides, filter) == capped(
                numbered(rides).filter(selector(filter)),
                filter.effective_limit(),
            )
        }),
{
    let filter = RidesFilter { from: Some(from), last_event_id: None, limit };
    let first = seek_position(rides, filter);
    lemma_bisect(rides, from, 0, rides.len() as int);
    let all = numbered(rides);
    let tail = all.skip(first);
    assert forall|i: int| 0 <= i < tail.len() implies selector(filter)(#[trigger] tail[i]) by {
        assert(tail[i] == all[first + i]);
        assert(rides[first + i].src.timestamp >= from);
    }
    lemma_filter_keeps_all(tail, filter);
    if forall|i: int|
        0 <= i < rides.len() && (#[trigger] rides[i]).src.timestamp < from
            ==> rides[i].dst.timestamp < from {
        let head = all.take(first);
        assert forall|i: int| 0 <= i < head.len() implies !selector(filter)(#[trigger] head[i]) by {
            assert(head[i] == all[i]);
            assert(rides[i].src.timestamp < from);
        }
        lemma_filter_keeps_none(head, filter);
        assert(head + tail =~= all);
        Seq::filter_distributes_over_add(head, tail, selector(filter));
        assert(all.filter(selector(filter)) =~= tail);
    }
}

} // verus!
