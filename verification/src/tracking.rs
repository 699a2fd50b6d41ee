//! Where each bike was last seen, and the rides that new sightings reveal.

use crate::input::{is_virtual_name, BikeId, Place, StationId};
use crate::rides::{RideEvent, RideLocation};
use std::collections::HashMap;
use vstd::prelude::*;

verus! {

/// Where a bike was last seen, and when.
#[derive(Debug, Clone, Copy, PartialEq, Eq, Structural)]
pub struct StateRecord {
    pub station_uid: StationId,
    pub timestamp: u64,
}

/// A bike seen at a station.
pub struct Sighting {
    pub bike: BikeId,
    pub station: StationId,
}

/// The bikes seen at one place, in the order listed. A place that is no
/// station shows none.
pub open spec fn bikes_at(place: Place) -> Seq<Sighting> {
    if is_virtual_name(place.name@) {
        Seq::empty()
    } else {
        Seq::new(
            place.bike_list@.len(),
            |i: int| Sighting { bike: place.bike_list@[i].number, station: place.uid },
        )
    }
}

/// Every sighting that `places` hold, place by place.
pub open spec fn sightings(places: Seq<Place>) -> Seq<Sighting>
    decreases places.len(),
{
    if places.len() == 0 {
        Seq::empty()
    } else {
        sightings(places.drop_last()) + bikes_at(places.last())
    }
}

/// The ride of `bike` from where it was last seen to `station` now.
pub open spec fn ride_between(
    bike: BikeId,
    from: StateRecord,
    timestamp: u64,
    station: StationId,
) -> RideEvent {
    RideEvent {
        bike_id: bike,
        src: RideLocation { timestamp: from.timestamp, station_id: from.station_uid },
        dst: RideLocation { timestamp, station_id: station },
    }
}

/// Where each bike was last seen once `seen` is taken in: every bike in
/// `seen` is where it was seen last, at `timestamp`.
pub open spec fn track(
    bikes: Map<BikeId, StateRecord>,
    timestamp: u64,
    seen: Seq<Sighting>,
) -> Map<BikeId, StateRecord>
    decreases seen.len(),
{
    if seen.len() == 0 {
        bikes
    } else {
        track(bikes, timestamp, seen.drop_last()).insert(
            seen.last().bike,
            StateRecord { station_uid: seen.last().station, timestamp },
        )
    }
}

/// The rides that `seen` reveals: one for each sighting of a bike at
/// another station than the one where it was seen just before.
pub open spec fn revealed_rides(
    bikes: Map<BikeId, StateRecord>,
    timestamp: u64,
    seen: Seq<Sighting>,
) -> Seq<RideEvent>
    decreases seen.len(),
{
    if seen.len() == 0 {
        Seq::empty()
    } else {
        let before = track(bikes, timestamp, seen.drop_last());
        let earlier = revealed_rides(bikes, timestamp, seen.drop_last());
        let now = seen.last();
        if before.contains_key(now.bike) && before[now.bike].station_uid != now.station {
            earlier.push(ride_between(now.bike, before[now.bike], timestamp, now.station))
        } else {
            earlier
        }
    }
}

/// Taking in two runs of sightings one after the other is taking in their
/// concatenation.
pub proof fn lemma_track_concat(
    bikes: Map<BikeId, StateRecord>,
    timestamp: u64,
    first: Seq<Sighting>,
    second: Seq<Sighting>,
)
    ensures
        track(bikes, timestamp, first + second) == track(
            track(bikes, timestamp, first),
            timestamp,
            second,
        ),
        revealed_rides(bikes, timestamp, first + second) == revealed_rides(
            bikes,
            timestamp,
            first,
        ) + revealed_rides(track(bikes, timestamp, first), timestamp, second),
    decreases second.len(),
{
    if second.len() == 0 {
        assert(first + second =~= first);
        let head = revealed_rides(bikes, timestamp, first);
        assert(head + Seq::<RideEvent>::empty() =~= head);
    } else {
        lemma_track_concat(bikes, timestamp, first, second.drop_last());
        assert((first + second).drop_last() =~= first + second.drop_last());
        assert((first + second).last() == second.last());
        let mid = track(bikes, timestamp, first);
        let head = revealed_rides(bikes, timestamp, first);
        let tail = revealed_rides(mid, timestamp, second.drop_last());
        let before = track(mid, timestamp, second.drop_last());
        let now = second.last();
        if before.contains_key(now.bike) && before[now.bike].station_uid != now.station {
            let ride = ride_between(now.bike, before[now.bike], timestamp, now.station);
            assert((head + tail).push(ride) =~= head + tail.push(ride));
        }
    }
}

/// Taking in sightings at `timestamp` keeps every bike at or before
/// `timestamp`, and every ride it reveals ends at `timestamp` and does not
/// start later.
pub proof fn lemma_track_bounded(
    bikes: Map<BikeId, StateRecord>,
    timestamp: u64,
    seen: Seq<Sighting>,
)
    requires
        forall|bike: BikeId| #[trigger]
            bikes.contains_key(bike) ==> bikes[bike].timestamp <= timestamp,
    ensures
        forall|bike: BikeId| #[trigger]
            track(bikes, timestamp, seen).contains_key(bike) ==> track(
                bikes,
                timestamp,
                seen,
            )[bike].timestamp <= timestamp,
        forall|i: int|
            0 <= i < revealed_rides(bikes, timestamp, seen).len() ==> {
                let ride = #[trigger] revealed_rides(bikes, timestamp, seen)[i];
                ride.well_formed() && ride.dst.timestamp == timestamp
            },
    decreases seen.len(),
{
    if seen.len() > 0 {
        lemma_track_bounded(bikes, timestamp, seen.drop_last());
        let before = track(bikes, timestamp, seen.drop_last());
        let after = track(bikes, timestamp, seen);
        let earlier = revealed_rides(bikes, timestamp, seen.drop_last());
        let now = seen.last();
        assert forall|bike: BikeId| #[trigger] after.contains_key(bike) implies after[bike]
            .timestamp <= timestamp by {
            if bike != now.bike {
                assert(before.contains_key(bike));
            }
        }
        assert forall|i: int| 0 <= i < revealed_rides(bikes, timestamp, seen).len() implies {
            let ride = #[trigger] revealed_rides(bikes, timestamp, seen)[i];
            ride.well_formed() && ride.dst.timestamp == timestamp
        } by {
            if i < earlier.len() {
                assert(revealed_rides(bikes, timestamp, seen)[i] == earlier[i]);
            } else {
                assert(before.contains_key(now.bike));
            }
        }
    }
}

/// Takes in the bikes that stand at one station.
pub(crate) fn track_bikes(
    state: &mut HashMap<BikeId, StateRecord>,
    timestamp: u64,
    place: &Place,
) -> (rides: Vec<RideEvent>)
    requires
        !is_virtual_name(place.name@),
    ensures
        final(state)@ == track(old(state)@, timestamp, bikes_at(*place)),
        rides@ == revealed_rides(old(state)@, timestamp, bikes_at(*place)),
{
    broadcast use vstd::std_specs::hash::group_hash_axioms;

    let mut rides: Vec<RideEvent> = Vec::new();
    let ghost seen = bikes_at(*place);
    let mut i: usize = 0;
    while i < place.bike_list.len()
        invariant
            i <= place.bike_list@.len(),
            seen == bikes_at(*place),
            seen.len() == place.bike_list@.len(),
            state@ == track(old(state)@, timestamp, seen.take(i as int)),
            rides@ == revealed_rides(old(state)@, timestamp, seen.take(i as int)),
        decreases place.bike_list@.len() - i,
    {
        let bike: BikeId = place.bike_list[i].number;
        proof {
            assert(seen.take(i + 1).drop_last() =~= seen.take(i as int));
            assert(seen.take(i + 1).last() == Sighting { bike, station: place.uid });
        }
        if let Some(previous) = state.get(&bike) {
            if previous.station_uid != place.uid {
                rides.push(
                    RideEvent {
                        bike_id: bike,
                        src: RideLocation {
                            timestamp: previous.timestamp,
                            station_id: previous.station_uid,
                        },
                        dst: RideLocation { timestamp, station_id: place.uid },
                    },
                );
            }
        }
        state.insert(bike, StateRecord { station_uid: place.uid, timestamp });
        i = i + 1;
    }
    proof {
        assert(seen.take(i as int) =~= seen);
    }
    rides
}

/// The test for a sighting of `bike`.
pub open spec fn sees(bike: BikeId) -> spec_fn(Sighting) -> bool {
    |sighting: Sighting| sighting.bike == bike
}

/// The test for a ride of `bike`.
pub open spec fn is_ride_of(bike: BikeId) -> spec_fn(RideEvent) -> bool {
    |ride: RideEvent| ride.bike_id == bike
}

/// The stations at which `bike` is seen, in the order of the sightings.
pub open spec fn stops(seen: Seq<Sighting>, bike: BikeId) -> Seq<StationId> {
    seen.filter(sees(bike)).map_values(|sighting: Sighting| sighting.station)
}

/// Where a bike is remembered after it was seen at `stops`, one after the
/// other, at `timestamp`: at the last of them, or where it was known before
/// if it was not seen.
pub open spec fn whereabouts(
    known: Option<StateRecord>,
    timestamp: u64,
    stops: Seq<StationId>,
) -> Option<StateRecord> {
    if stops.len() == 0 {
        known
    } else {
        Some(StateRecord { station_uid: stops.last(), timestamp })
    }
}

/// The rides of one bike along its stops: one ride for each stop that is
/// another station than the one where the bike was just before, and none
/// for a stop where it already was, nor for the first stop of a bike that
/// was not known.
pub open spec fn moves(
    bike: BikeId,
    known: Option<StateRecord>,
    timestamp: u64,
    stops: Seq<StationId>,
) -> Seq<RideEvent>
    decreases stops.len(),
{
    if stops.len() == 0 {
        Seq::empty()
    } else {
        let earlier = moves(bike, known, timestamp, stops.drop_last());
        match whereabouts(known, timestamp, stops.drop_last()) {
            Some(from) => if from.station_uid != stops.last() {
                earlier.push(ride_between(bike, from, timestamp, stops.last()))
            } else {
                earlier
            },
            None => earlier,
        }
    }
}

/// Each bike is followed on its own. Among the rides that a run of
/// sightings reveals, those of one bike are the rides along that bike's
/// stops, from where it was known before: every change of station between
/// two consecutive sightings of the bike gives exactly one ride, from the
/// earlier sighting to the later one, and nothing else gives a ride. The
/// bike is then remembered at its last stop.
pub proof fn law_each_bike_on_its_own(
    bikes: Map<BikeId, StateRecord>,
    timestamp: u64,
    seen: Seq<Sighting>,
    bike: BikeId,
)
    ensures
        track(bikes, timestamp, seen).get(bike) == whereabouts(
            bikes.get(bike),
            timestamp,
            stops(seen, bike),
        ),
        revealed_rides(bikes, timestamp, seen).filter(is_ride_of(bike)) == moves(
            bike,
            bikes.get(bike),
            timestamp,
            stops(seen, bike),
        ),
    decreases seen.len(),
{
    reveal(Seq::filter);
    if seen.len() > 0 {
        let earlier = seen.drop_last();
        let now = seen.last();
        law_each_bike_on_its_own(bikes, timestamp, earlier, bike);
        let before = track(bikes, timestamp, earlier);
        let rides = revealed_rides(bikes, timestamp, earlier);
        let station_of = |sighting: Sighting| sighting.station;
        if now.bike == bike {
            assert(seen.filter(sees(bike)) == earlier.filter(sees(bike)).push(now));
            assert(stops(seen, bike) =~= stops(earlier, bike).push(now.station));
            assert(stops(seen, bike).drop_last() =~= stops(earlier, bike));
            if before.contains_key(bike) && before[bike].station_uid != now.station {
                let ride = ride_between(bike, before[bike], timestamp, now.station);
                rides.lemma_filter_push(ride, is_ride_of(bike));
            }
        } else {
            assert(seen.filter(sees(bike)) == earlier.filter(sees(bike)));
            if before.contains_key(now.bike) && before[now.bike].station_uid != now.station {
                let ride = ride_between(now.bike, before[now.bike], timestamp, now.station);
                rides.lemma_filter_push(ride, is_ride_of(bike));
            }
        }
    }
}

/// Along stops that are all one station, a bike that was not known, or was
/// known at that station, makes no ride.
pub proof fn lemma_no_move_no_ride(
    bike: BikeId,
    known: Option<StateRecord>,
    timestamp: u64,
    stops: Seq<StationId>,
    station: StationId,
)
    requires
        forall|i: int| 0 <= i < stops.len() ==> stops[i] == station,
        known matches Some(from) ==> from.station_uid == station,
    ensures
        moves(bike, known, timestamp, stops).len() == 0,
    decreases stops.len(),
{
    if stops.len() > 0 {
        lemma_no_move_no_ride(bike, known, timestamp, stops.drop_last(), station);
    }
}

/// A bike that is seen once, at another station than the one where it was
/// last seen, gives exactly one ride, from that earlier sighting to this
/// one. It is then remembered where it was seen.
pub proof fn lemma_station_change_gives_one_ride(
    bikes: Map<BikeId, StateRecord>,
    timestamp: u64,
    seen: Seq<Sighting>,
    bike: BikeId,
    station: StationId,
)
    requires
        stops(seen, bike) == seq![station],
        bikes.contains_key(bike),
        bikes[bike].station_uid != station,
    ensures
        revealed_rides(bikes, timestamp, seen).filter(is_ride_of(bike)) == seq![
            RideEvent {
                bike_id: bike,
                src: RideLocation {
                    timestamp: bikes[bike].timestamp,
                    station_id: bikes[bike].station_uid,
                },
                dst: RideLocation { timestamp, station_id: station },
            },
        ],
        track(bikes, timestamp, seen)[bike] == (StateRecord { station_uid: station, timestamp }),
{
    law_each_bike_on_its_own(bikes, timestamp, seen, bike);
    let only = seq![station];
    assert(only.drop_last() =~= Seq::<StationId>::empty());
    assert(moves(bike, bikes.get(bike), timestamp, only.drop_last()) =~= Seq::<RideEvent>::empty());
    assert(moves(bike, bikes.get(bike), timestamp, only) =~= seq![
        ride_between(bike, bikes[bike], timestamp, station),
    ]);
}

/// A bike whose station does not change between sightings gives no ride:
/// where every sighting of it is at one station, and it was not known
/// before or was known at that station, no ride of that bike is revealed.
pub proof fn lemma_same_station_gives_no_ride(
    bikes: Map<BikeId, StateRecord>,
    timestamp: u64,
    seen: Seq<Sighting>,
    bike: BikeId,
    station: StationId,
)
    requires
        forall|i: int| 0 <= i < seen.len() && seen[i].bike == bike ==> seen[i].station == station,
        bikes.contains_key(bike) ==> bikes[bike].station_uid == station,
    ensures
        revealed_rides(bikes, timestamp, seen).filter(is_ride_of(bike)).len() == 0,
{
    law_each_bike_on_its_own(bikes, timestamp, seen, bike);
    let visits = seen.filter(sees(bike));
    assert forall|i: int| 0 <= i < stops(seen, bike).len() implies stops(seen, bike)[i]
        == station by {
        seen.lemma_filter_contains_rev(sees(bike), visits[i]);
        assert(visits.contains(visits[i]));
        assert(seen.contains(visits[i]));
        let j = choose|j: int| 0 <= j < seen.len() && seen[j] == visits[i];
        seen.lemma_filter_pred(sees(bike), i);
    }
    lemma_no_move_no_ride(bike, bikes.get(bike), timestamp, stops(seen, bike), station);
}

/// A bike that is not seen stays remembered as it was, and gives no ride.
pub proof fn lemma_unseen_bike_is_kept(
    bikes: Map<BikeId, StateRecord>,
    timestamp: u64,
    seen: Seq<Sighting>,
    bike: BikeId,
)
    requires
        forall|i: int| 0 <= i < seen.len() ==> seen[i].bike != bike,
    ensures
        track(bikes, timestamp, seen).get(bike) == bikes.get(bike),
        revealed_rides(bikes, timestamp, seen).filter(is_ride_of(bike)).len() == 0,
{
    lemma_same_station_gives_no_ride(
        bikes,
        timestamp,
        seen,
        bike,
        if bikes.contains_key(bike) {
            bikes[bike].station_uid
        } else {
            0
        },
    );
    law_each_bike_on_its_own(bikes, timestamp, seen, bike);
    let visits = seen.filter(sees(bike));
    if visits.len() > 0 {
        seen.lemma_filter_contains_rev(sees(bike), visits[0]);
        assert(visits.contains(visits[0]));
        seen.lemma_filter_pred(sees(bike), 0);
    }
}

/// No ride starts before the bikes were remembered: where every bike is
/// remembered from `floor` on, sightings at or after `floor` keep it so,
/// and every ride they reveal starts at `floor` or later.
pub proof fn lemma_track_floor(
    bikes: Map<BikeId, StateRecord>,
    timestamp: u64,
    seen: Seq<Sighting>,
    floor: u64,
)
    requires
        floor <= timestamp,
        forall|bike: BikeId| #[trigger] bikes.contains_key(bike) ==> bikes[bike].timestamp >= floor,
    ensures
        forall|bike: BikeId| #[trigger]
            track(bikes, timestamp, seen).contains_key(bike) ==> track(
                bikes,
                timestamp,
                seen,
            )[bike].timestamp >= floor,
        forall|i: int|
            0 <= i < revealed_rides(bikes, timestamp, seen).len() ==> (#[trigger] revealed_rides(
                bikes,
                timestamp,
                seen,
            )[i]).src.timestamp >= floor,
    decreases seen.len(),
{
    if seen.len() > 0 {
        lemma_track_floor(bikes, timestamp, seen.drop_last(), floor);
        let before = track(bikes, timestamp, seen.drop_last());
        let after = track(bikes, timestamp, seen);
        let earlier = revealed_rides(bikes, timestamp, seen.drop_last());
        let now = seen.last();
        assert forall|bike: BikeId| #[trigger] after.contains_key(bike) implies after[bike]
            .timestamp >= floor by {
            if bike != now.bike {
                assert(before.contains_key(bike));
            }
        }
        assert forall|i: int| 0 <= i < revealed_rides(bikes, timestamp, seen).len() implies (
        #[trigger] revealed_rides(bikes, timestamp, seen)[i]).src.timestamp >= floor by {
            if i < earlier.len() {
                assert(revealed_rides(bikes, timestamp, seen)[i] == earlier[i]);
            } else {
                assert(before.contains_key(now.bike));
            }
        }
    }
}

} // verus!
