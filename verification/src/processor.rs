//! The derivation engine: it remembers where each bike was last seen, and
//! turns each snapshot into the rides that the snapshot reveals.

use crate::input::{is_virtual_name, BikeId, JsonResponse, Place, StationId};
use crate::rides::{sorted_by_destination, RideEvent, RideLocation};
use crate::stations::{add_station_spec, StationView, Stations};
use crate::tracking::{
    bikes_at, law_each_bike_on_its_own, lemma_same_station_gives_no_ride,
    lemma_station_change_gives_one_ride, lemma_track_bounded, lemma_track_concat,
    lemma_track_floor, lemma_unseen_bike_is_kept, is_ride_of, moves, revealed_rides, sightings,
    stops, track, track_bikes, whereabouts, StateRecord,
};
use std::collections::HashMap;
use vstd::prelude::*;

verus! {

/// The longest time, in seconds, that may pass between two snapshots before
/// what is remembered of the bikes is no longer trusted.
pub const GAP_THRESHOLD: u64 = 10 * 60;

/// How a snapshot was taken.
#[derive(Debug, Clone, Copy, PartialEq, Eq, Structural)]
pub enum Outcome {
    /// The snapshot was accepted and its bikes were taken in.
    Accepted,
    /// Too long since the snapshot before: what was remembered of the bikes
    /// is dropped, and this snapshot only sets the clock.
    GapReset { elapsed: u64 },
    /// Rejected: the snapshot does not hold exactly one country.
    CountryCount { found: usize },
    /// Rejected: the snapshot is older than the one accepted before it.
    Regression { previous: u64 },
    /// Rejected: the snapshot comes in time, but its country holds no city.
    NoCity,
}

/// What one snapshot brought.
#[derive(Debug)]
pub struct ProcessReport {
    pub outcome: Outcome,
    /// The rides that the snapshot revealed, in the order to append them.
    pub rides: Vec<RideEvent>,
    /// The stations seen for the first time, in the order they were seen.
    pub new_stations: Vec<StationId>,
}

impl ProcessReport {
    /// The number of rides that the snapshot revealed.
    pub fn ride_count(&self) -> (count: u64)
        ensures
            count == self.rides@.len(),
    {
        self.rides.len() as u64
    }
}

/// What the engine knows between two snapshots.
pub struct EngineState {
    /// The station registry.
    pub stations: Map<StationId, StationView>,
    /// Where each bike was last seen. A bike without an entry has no known
    /// place.
    pub bikes: Map<BikeId, StateRecord>,
    /// The timestamp of the last snapshot that was not rejected.
    pub last_timestamp: Option<u64>,
}

impl EngineState {
    /// No bike was seen later than the last snapshot, and none before the
    /// first.
    pub open spec fn well_formed(self) -> bool {
        match self.last_timestamp {
            Some(last) => forall|bike: BikeId| #[trigger]
                self.bikes.contains_key(bike) ==> self.bikes[bike].timestamp <= last,
            None => forall|bike: BikeId| !#[trigger] self.bikes.contains_key(bike),
        }
    }
}

/// The places of a snapshot that has the expected shape: those of the first
/// city of its only country.
pub open spec fn places_of(json: JsonResponse) -> Seq<Place>
    recommends
        json.countries@.len() == 1,
        json.countries@[0].cities@.len() >= 1,
{
    json.countries@[0].cities@[0].places@
}

/// The verdict on a snapshot whose time is in order: it is taken in if its
/// country holds a city to read.
pub open spec fn city_verdict(json: JsonResponse) -> Outcome
    recommends
        json.countries@.len() == 1,
{
    if json.countries@[0].cities@.len() == 0 {
        Outcome::NoCity
    } else {
        Outcome::Accepted
    }
}

/// The verdict on a snapshot, reached before any bike is looked at: first
/// the number of its countries, then its timestamp against the last one
/// accepted, and last, where the time is in order, its cities.
pub open spec fn guard(state: EngineState, timestamp: u64, json: JsonResponse) -> Outcome {
    if json.countries@.len() != 1 {
        Outcome::CountryCount { found: json.countries@.len() as usize }
    } else {
        match state.last_timestamp {
            None => city_verdict(json),
            Some(previous) => if timestamp < previous {
                Outcome::Regression { previous }
            } else if timestamp - previous > GAP_THRESHOLD {
                Outcome::GapReset { elapsed: (timestamp - previous) as u64 }
            } else {
                city_verdict(json)
            },
        }
    }
}

/// What the registry keeps of a place.
pub open spec fn station_of(place: Place) -> StationView {
    StationView { name: place.name@, lat_bits: place.lat_bits, lng_bits: place.lng_bits }
}

/// The registry after the stations among `places` were registered in order.
pub open spec fn register(stations: Map<StationId, StationView>, places: Seq<Place>) -> Map<
    StationId,
    StationView,
>
    decreases places.len(),
{
    if places.len() == 0 {
        stations
    } else {
        let known = register(stations, places.drop_last());
        let place = places.last();
        if is_virtual_name(place.name@) {
            known
        } else {
            add_station_spec(known, place.uid, station_of(place))
        }
    }
}

/// The ids under which `places` brought a new station, in order.
pub open spec fn discovered(stations: Map<StationId, StationView>, places: Seq<Place>) -> Seq<
    StationId,
>
    decreases places.len(),
{
    if places.len() == 0 {
        Seq::empty()
    } else {
        let known = register(stations, places.drop_last());
        let earlier = discovered(stations, places.drop_last());
        let place = places.last();
        if !is_virtual_name(place.name@) && !known.contains_key(place.uid) {
            earlier.push(place.uid)
        } else {
            earlier
        }
    }
}

/// The engine after a snapshot.
pub open spec fn step_state(state: EngineState, timestamp: u64, json: JsonResponse) -> EngineState {
    match guard(state, timestamp, json) {
        Outcome::Accepted => EngineState {
            stations: register(state.stations, places_of(json)),
            bikes: track(state.bikes, timestamp, sightings(places_of(json))),
            last_timestamp: Some(timestamp),
        },
        Outcome::GapReset { .. } => EngineState {
            stations: state.stations,
            bikes: Map::empty(),
            last_timestamp: Some(timestamp),
        },
        _ => state,
    }
}

/// The rides that a snapshot reveals to the engine.
pub open spec fn step_rides(state: EngineState, timestamp: u64, json: JsonResponse) -> Seq<
    RideEvent,
> {
    match guard(state, timestamp, json) {
        Outcome::Accepted => revealed_rides(state.bikes, timestamp, sightings(places_of(json))),
        _ => Seq::empty(),
    }
}

/// The stations that a snapshot brings to the registry.
pub open spec fn step_discovered(state: EngineState, timestamp: u64, json: JsonResponse) -> Seq<
    StationId,
> {
    match guard(state, timestamp, json) {
        Outcome::Accepted => discovered(state.stations, places_of(json)),
        _ => Seq::empty(),
    }
}

/// The engine. It owns the station registry and the memory of where each
/// bike was last seen; the memory lives as long as the engine and is kept
/// nowhere else.
pub struct RidesProcessor {
    stations: Stations,
    state: HashMap<BikeId, StateRecord>,
    last_timestamp: Option<u64>,
}

impl View for RidesProcessor {
    type V = EngineState;

    closed spec fn view(&self) -> EngineState {
        EngineState {
            stations: self.stations@,
            bikes: self.state@,
            last_timestamp: self.last_timestamp,
        }
    }
}

impl RidesProcessor {
    #[verifier::type_invariant]
    spec fn inv(self) -> bool {
        self@.well_formed()
    }

    /// An engine that has seen no snapshot, over a registry that may know
    /// stations already.
    pub fn new(stations: Stations) -> (processor: Self)
        ensures
            processor@ == (EngineState {
                stations: stations@,
                bikes: Map::empty(),
                last_timestamp: None,
            }),
            processor@.well_formed(),
    {
        RidesProcessor { stations, state: HashMap::new(), last_timestamp: None }
    }

    /// The station registry.
    pub fn stations(&self) -> (stations: &Stations)
        ensures
            stations@ == self@.stations,
    {
        &self.stations
    }

    /// Takes in one snapshot made at `timestamp`.
    ///
    /// A snapshot that does not hold exactly one country, or one older than
    /// the last accepted, is rejected: nothing changes and no ride comes
    /// out. A snapshot that comes more than ten minutes after the last one
    /// empties the memory of the bikes and sets the clock, and no ride
    /// comes out. A snapshot in time whose country holds no city is
    /// rejected like the first two. Any other snapshot registers its
    /// stations, and yields one ride for each bike seen at another station
    /// than the one remembered for it; each bike seen is then remembered
    /// where it was seen.
    pub fn process(&mut self, timestamp: u64, json: &JsonResponse) -> (report: ProcessReport)
        ensures
            report.outcome == guard(old(self)@, timestamp, *json),
            final(self)@ == step_state(old(self)@, timestamp, *json),
            report.rides@ == step_rides(old(self)@, timestamp, *json),
            report.new_stations@ == step_discovered(old(self)@, timestamp, *json),
            final(self)@.well_formed(),
            forall|i: int|
                0 <= i < report.rides@.len() ==> {
                    let ride = #[trigger] report.rides@[i];
                    ride.well_formed() && ride.dst.timestamp == timestamp
                },
            old(self)@.last_timestamp matches Some(previous) && timestamp < previous ==> {
                &&& final(self)@ == old(self)@
                &&& report.rides@.len() == 0
            },
    {
        broadcast use vstd::std_specs::hash::group_hash_axioms;

        proof {
            use_type_invariant(&*self);
        }
        if json.countries.len() != 1 {
            return ProcessReport {
                outcome: Outcome::CountryCount { found: json.countries.len() },
                rides: Vec::new(),
                new_stations: Vec::new(),
            };
        }
        if let Some(previous) = self.last_timestamp {
            if timestamp < previous {
                return ProcessReport {
                    outcome: Outcome::Regression { previous },
                    rides: Vec::new(),
                    new_stations: Vec::new(),
                };
            }
            let elapsed: u64 = timestamp - previous;
            if elapsed > GAP_THRESHOLD {
                self.state = HashMap::new();
                self.last_timestamp = Some(timestamp);
                return ProcessReport {
                    outcome: Outcome::GapReset { elapsed },
                    rides: Vec::new(),
                    new_stations: Vec::new(),
                };
            }
        }
        let country = &json.countries[0];
        if country.cities.len() == 0 {
            return ProcessReport {
                outcome: Outcome::NoCity,
                rides: Vec::new(),
                new_stations: Vec::new(),
            };
        }
        let places = &country.cities[0].places;
        let mut stations = Stations::new();
        let mut state: HashMap<BikeId, StateRecord> = HashMap::new();
        core::mem::swap(&mut self.stations, &mut stations);
        core::mem::swap(&mut self.state, &mut state);
        self.last_timestamp = Some(timestamp);

        let mut rides: Vec<RideEvent> = Vec::new();
        let mut new_stations: Vec<StationId> = Vec::new();
        let ghost bikes0 = state@;
        let ghost stations0 = stations@;
        let mut i: usize = 0;
        while i < places.len()
            invariant
                i <= places@.len(),
                stations@ == register(stations0, places@.take(i as int)),
                new_stations@ == discovered(stations0, places@.take(i as int)),
                state@ == track(bikes0, timestamp, sightings(places@.take(i as int))),
                rides@ == revealed_rides(bikes0, timestamp, sightings(places@.take(i as int))),
            decreases places@.len() - i,
        {
            let place = &places[i];
            proof {
                assert(places@.take(i + 1).drop_last() =~= places@.take(i as int));
                assert(places@.take(i + 1).last() == *place);
                lemma_track_concat(
                    bikes0,
                    timestamp,
                    sightings(places@.take(i as int)),
                    bikes_at(*place),
                );
            }
            if !place.is_virtual() {
                let added: bool = stations.add_station(
                    place.uid,
                    place.name.as_str(),
                    place.lat_bits,
                    place.lng_bits,
                );
                if added {
                    new_stations.push(place.uid);
                }
                let mut found = track_bikes(&mut state, timestamp, place);
                rides.append(&mut found);
            } else {
                assert(rides@ + Seq::<RideEvent>::empty() =~= rides@);
            }
            i = i + 1;
        }
        proof {
            assert(places@.take(i as int) =~= places@);
            lemma_track_bounded(bikes0, timestamp, sightings(places@));
        }
        self.stations = stations;
        self.state = state;
        ProcessReport { outcome: Outcome::Accepted, rides, new_stations }
    }
}

/// An accepted snapshot follows each bike on its own: the rides of one bike
/// are the rides along its stops in the snapshot, from where the engine
/// remembered it, and the bike is then remembered at its last stop.
pub proof fn law_rides_follow_each_bike(
    state: EngineState,
    timestamp: u64,
    json: JsonResponse,
    bike: BikeId,
)
    requires
        guard(state, timestamp, json) == Outcome::Accepted,
    ensures
        step_rides(state, timestamp, json).filter(is_ride_of(bike)) == moves(
            bike,
            state.bikes.get(bike),
            timestamp,
            stops(sightings(places_of(json)), bike),
        ),
        step_state(state, timestamp, json).bikes.get(bike) == whereabouts(
            state.bikes.get(bike),
            timestamp,
            stops(sightings(places_of(json)), bike),
        ),
{
    law_each_bike_on_its_own(state.bikes, timestamp, sightings(places_of(json)), bike);
}

/// A bike whose station changed between two consecutive sightings gives
/// exactly one ride. Where the engine remembers `bike` at one station and an
/// accepted snapshot shows it once, at another, the snapshot reveals one
/// ride of that bike: from the remembered sighting to the new one. The bike
/// is then remembered at the new one.
pub proof fn law_station_change_gives_one_ride(
    state: EngineState,
    timestamp: u64,
    json: JsonResponse,
    bike: BikeId,
    station: StationId,
)
    requires
        guard(state, timestamp, json) == Outcome::Accepted,
        stops(sightings(places_of(json)), bike) == seq![station],
        state.bikes.contains_key(bike),
        state.bikes[bike].station_uid != station,
    ensures
        step_rides(state, timestamp, json).filter(is_ride_of(bike)) == seq![
            RideEvent {
                bike_id: bike,
                src: RideLocation {
                    timestamp: state.bikes[bike].timestamp,
                    station_id: state.bikes[bike].station_uid,
                },
                dst: RideLocation { timestamp, station_id: station },
            },
        ],
        step_state(state, timestamp, json).bikes[bike] == (StateRecord {
            station_uid: station,
            timestamp,
        }),
{
    lemma_station_change_gives_one_ride(
        state.bikes,
        timestamp,
        sightings(places_of(json)),
        bike,
        station,
    );
}

/// A bike whose station is unchanged between sightings gives no ride. Where
/// every sighting of `bike` in a snapshot is at one station, and the engine
/// does not remember the bike or remembers it there, the snapshot reveals no
/// ride of that bike, however it is taken.
pub proof fn law_same_station_gives_no_ride(
    state: EngineState,
    timestamp: u64,
    json: JsonResponse,
    bike: BikeId,
    station: StationId,
)
    requires
        guard(state, timestamp, json) == Outcome::Accepted ==> forall|i: int|
            0 <= i < sightings(places_of(json)).len() && sightings(places_of(json))[i].bike == bike
                ==> sightings(places_of(json))[i].station == station,
        state.bikes.contains_key(bike) ==> state.bikes[bike].station_uid == station,
    ensures
        step_rides(state, timestamp, json).filter(is_ride_of(bike)).len() == 0,
{
    if guard(state, timestamp, json) == Outcome::Accepted {
        lemma_same_station_gives_no_ride(
            state.bikes,
            timestamp,
            sightings(places_of(json)),
            bike,
            station,
        );
    }
}

/// A bike that an accepted snapshot does not show stays remembered as it
/// was: its next sighting is held against the last one before.
pub proof fn law_unseen_bike_is_kept(
    state: EngineState,
    timestamp: u64,
    json: JsonResponse,
    bike: BikeId,
)
    requires
        guard(state, timestamp, json) == Outcome::Accepted,
        forall|i: int|
            0 <= i < sightings(places_of(json)).len() ==> sightings(places_of(json))[i].bike
                != bike,
    ensures
        step_state(state, timestamp, json).bikes.get(bike) == state.bikes.get(bike),
        step_rides(state, timestamp, json).filter(is_ride_of(bike)).len() == 0,
{
    lemma_unseen_bike_is_kept(state.bikes, timestamp, sightings(places_of(json)), bike);
}

/// What holds of every ride of two runs holds of every ride of the two put
/// together.
proof fn lemma_all_of_both(
    head: Seq<RideEvent>,
    tail: Seq<RideEvent>,
    holds: spec_fn(RideEvent) -> bool,
)
    requires
        forall|i: int| 0 <= i < head.len() ==> holds(#[trigger] head[i]),
        forall|i: int| 0 <= i < tail.len() ==> holds(#[trigger] tail[i]),
    ensures
        forall|i: int| 0 <= i < (head + tail).len() ==> holds(#[trigger] (head + tail)[i]),
{
    assert forall|i: int| 0 <= i < (head + tail).len() implies holds(
        #[trigger] (head + tail)[i],
    ) by {
        if i < head.len() {
            assert((head + tail)[i] == head[i]);
        } else {
            assert((head + tail)[i] == tail[i - head.len()]);
        }
    }
}

/// Two runs of rides, each in the order of their ends, stay in that order
/// when put together, if no ride of the first ends after `turn` and none of
/// the second before it.
proof fn lemma_sorted_both(head: Seq<RideEvent>, tail: Seq<RideEvent>, turn: u64)
    requires
        sorted_by_destination(head),
        sorted_by_destination(tail),
        forall|i: int| 0 <= i < head.len() ==> (#[trigger] head[i]).dst.timestamp <= turn,
        forall|i: int| 0 <= i < tail.len() ==> (#[trigger] tail[i]).dst.timestamp >= turn,
    ensures
        sorted_by_destination(head + tail),
{
    let all = head + tail;
    assert forall|i: int, j: int| 0 <= i <= j < all.len() implies all[i].dst.timestamp
        <= all[j].dst.timestamp by {
        if j < head.len() {
            assert(all[i] == head[i] && all[j] == head[j]);
        } else if i < head.len() {
            assert(all[i] == head[i] && all[j] == tail[j - head.len()]);
        } else {
            assert(all[i] == tail[i - head.len()] && all[j] == tail[j - head.len()]);
        }
    }
}

/// The engine after a run of snapshots, each with its timestamp.
pub open spec fn run_state(state: EngineState, calls: Seq<(u64, JsonResponse)>) -> EngineState
    decreases calls.len(),
{
    if calls.len() == 0 {
        state
    } else {
        step_state(run_state(state, calls.drop_last()), calls.last().0, calls.last().1)
    }
}

/// The rides that a run of snapshots reveals, in order.
pub open spec fn run_rides(state: EngineState, calls: Seq<(u64, JsonResponse)>) -> Seq<RideEvent>
    decreases calls.len(),
{
    if calls.len() == 0 {
        Seq::empty()
    } else {
        run_rides(state, calls.drop_last()) + step_rides(
            run_state(state, calls.drop_last()),
            calls.last().0,
            calls.last().1,
        )
    }
}

/// Every bike is remembered from `floor` on, and the clock stands at
/// `floor` or later.
pub open spec fn remembers_from(state: EngineState, floor: u64) -> bool {
    &&& state.well_formed()
    &&& state.last_timestamp matches Some(last) && floor <= last
    &&& forall|bike: BikeId| #[trigger]
        state.bikes.contains_key(bike) ==> state.bikes[bike].timestamp >= floor
}

/// A snapshot leaves the engine well formed.
pub proof fn lemma_step_well_formed(state: EngineState, timestamp: u64, json: JsonResponse)
    requires
        state.well_formed(),
    ensures
        step_state(state, timestamp, json).well_formed(),
{
    if guard(state, timestamp, json) == Outcome::Accepted {
        lemma_track_bounded(state.bikes, timestamp, sightings(places_of(json)));
    }
}

/// A snapshot does not reach behind `floor`.
proof fn lemma_step_floor(state: EngineState, timestamp: u64, json: JsonResponse, floor: u64)
    requires
        remembers_from(state, floor),
    ensures
        remembers_from(step_state(state, timestamp, json), floor),
        forall|i: int|
            0 <= i < step_rides(state, timestamp, json).len() ==> (#[trigger] step_rides(
                state,
                timestamp,
                json,
            )[i]).src.timestamp >= floor,
{
    lemma_step_well_formed(state, timestamp, json);
    if guard(state, timestamp, json) == Outcome::Accepted {
        lemma_track_floor(state.bikes, timestamp, sightings(places_of(json)), floor);
    }
}

/// A run of snapshots does not reach behind `floor`.
proof fn lemma_run_floor(state: EngineState, calls: Seq<(u64, JsonResponse)>, floor: u64)
    requires
        remembers_from(state, floor),
    ensures
        remembers_from(run_state(state, calls), floor),
        forall|i: int|
            0 <= i < run_rides(state, calls).len() ==> (#[trigger] run_rides(
                state,
                calls,
            )[i]).src.timestamp >= floor,
    decreases calls.len(),
{
    if calls.len() > 0 {
        let earlier = calls.drop_last();
        lemma_run_floor(state, earlier, floor);
        lemma_step_floor(run_state(state, earlier), calls.last().0, calls.last().1, floor);
        lemma_all_of_both(
            run_rides(state, earlier),
            step_rides(run_state(state, earlier), calls.last().0, calls.last().1),
            |ride: RideEvent| ride.src.timestamp >= floor,
        );
    }
}

/// A gap empties the memory of the bikes, and no ride ever spans it. A
/// snapshot that comes more than the threshold after the last one leaves no
/// bike remembered and reveals no ride; the clock is set to it. Whatever
/// snapshots follow, every ride they reveal starts at or after the snapshot
/// that found the gap: tracking starts afresh.
pub proof fn law_no_ride_spans_a_gap(
    state: EngineState,
    timestamp: u64,
    json: JsonResponse,
    later: Seq<(u64, JsonResponse)>,
)
    requires
        state.well_formed(),
        json.countries@.len() == 1,
        state.last_timestamp matches Some(previous) && timestamp - previous > GAP_THRESHOLD,
    ensures
        guard(state, timestamp, json) is GapReset,
        step_state(state, timestamp, json).bikes == Map::<BikeId, StateRecord>::empty(),
        step_state(state, timestamp, json).last_timestamp == Some(timestamp),
        step_state(state, timestamp, json).stations == state.stations,
        step_rides(state, timestamp, json).len() == 0,
        forall|i: int|
            0 <= i < run_rides(step_state(state, timestamp, json), later).len() ==> (
            #[trigger] run_rides(step_state(state, timestamp, json), later)[i]).src.timestamp
                >= timestamp,
{
    lemma_run_floor(step_state(state, timestamp, json), later, timestamp);
}

/// Registering stations only adds to the registry: what it knew stays as it
/// was.
proof fn lemma_register_keeps(
    stations: Map<StationId, StationView>,
    places: Seq<Place>,
    id: StationId,
)
    requires
        stations.contains_key(id),
    ensures
        register(stations, places).contains_key(id),
        register(stations, places)[id] == stations[id],
    decreases places.len(),
{
    if places.len() > 0 {
        lemma_register_keeps(stations, places.drop_last(), id);
    }
}

/// A station is registered as it is first seen. Where the registry does not
/// know the id of the station at place `first`, and no station before that
/// place has the id, registering the places enters it with the name and the
/// coordinates that it has at place `first`, whatever later places say.
pub proof fn law_station_is_registered_as_first_seen(
    stations: Map<StationId, StationView>,
    places: Seq<Place>,
    first: int,
)
    requires
        0 <= first < places.len(),
        !is_virtual_name(places[first].name@),
        !stations.contains_key(places[first].uid),
        forall|j: int|
            0 <= j < first ==> is_virtual_name(places[j].name@) || places[j].uid
                != places[first].uid,
    ensures
        register(stations, places).contains_key(places[first].uid),
        register(stations, places)[places[first].uid] == station_of(places[first]),
    decreases places.len(),
{
    let id = places[first].uid;
    let earlier = places.drop_last();
    if first == places.len() - 1 {
        lemma_register_adds_only_seen(stations, earlier, id);
    } else {
        law_station_is_registered_as_first_seen(stations, earlier, first);
    }
}

/// Registering stations enters no id that no station among them has.
proof fn lemma_register_adds_only_seen(
    stations: Map<StationId, StationView>,
    places: Seq<Place>,
    id: StationId,
)
    requires
        !stations.contains_key(id),
        forall|j: int|
            0 <= j < places.len() ==> is_virtual_name(places[j].name@) || places[j].uid != id,
    ensures
        !register(stations, places).contains_key(id),
    decreases places.len(),
{
    if places.len() > 0 {
        lemma_register_adds_only_seen(stations, places.drop_last(), id);
    }
}

/// The registry only grows. Whatever a snapshot brings and however it is
/// taken, a station that the engine knew is known afterwards, under the name
/// and at the coordinates that it was first registered with.
pub proof fn law_registry_only_grows(
    state: EngineState,
    timestamp: u64,
    json: JsonResponse,
    id: StationId,
)
    requires
        state.stations.contains_key(id),
    ensures
        step_state(state, timestamp, json).stations.contains_key(id),
        step_state(state, timestamp, json).stations[id] == state.stations[id],
{
    if guard(state, timestamp, json) == Outcome::Accepted {
        lemma_register_keeps(state.stations, places_of(json), id);
    }
}

/// The engine's clock stands at `time` or later.
pub open spec fn clock_reached(state: EngineState, time: u64) -> bool {
    match state.last_timestamp {
        Some(last) => time <= last,
        None => false,
    }
}

/// The clock never runs back, no ride ends after it, and the rides come in
/// the order of their ends.
proof fn lemma_run_clock(state: EngineState, calls: Seq<(u64, JsonResponse)>)
    requires
        state.well_formed(),
    ensures
        run_state(state, calls).well_formed(),
        forall|time: u64|
            clock_reached(state, time) ==> clock_reached(run_state(state, calls), time),
        forall|i: int|
            0 <= i < run_rides(state, calls).len() ==> clock_reached(
                run_state(state, calls),
                (#[trigger] run_rides(state, calls)[i]).dst.timestamp,
            ),
        forall|i: int|
            0 <= i < run_rides(state, calls).len() ==> (#[trigger] run_rides(
                state,
                calls,
            )[i]).well_formed(),
        sorted_by_destination(run_rides(state, calls)),
    decreases calls.len(),
{
    if calls.len() > 0 {
        let earlier = calls.drop_last();
        let (timestamp, json) = calls.last();
        let mid = run_state(state, earlier);
        let after = run_state(state, calls);
        let head = run_rides(state, earlier);
        let tail = step_rides(mid, timestamp, json);
        lemma_run_clock(state, earlier);
        lemma_step_well_formed(mid, timestamp, json);
        if guard(mid, timestamp, json) == Outcome::Accepted {
            lemma_track_bounded(mid.bikes, timestamp, sightings(places_of(json)));
        }
        lemma_all_of_both(
            head,
            tail,
            |ride: RideEvent| clock_reached(after, ride.dst.timestamp),
        );
        lemma_all_of_both(head, tail, |ride: RideEvent| ride.well_formed());
        let turn: u64 = match after.last_timestamp {
            Some(last) => last,
            None => 0,
        };
        lemma_sorted_both(head, tail, turn);
    }
}

/// Rides come out in the order in which they end. Whatever snapshots are
/// fed to the engine, in whatever order, no ride that it reveals ends
/// before one that it revealed earlier, and none ends before it starts.
pub proof fn law_rides_end_in_order(state: EngineState, calls: Seq<(u64, JsonResponse)>)
    requires
        state.well_formed(),
    ensures
        sorted_by_destination(run_rides(state, calls)),
        forall|i: int|
            0 <= i < run_rides(state, calls).len() ==> (#[trigger] run_rides(
                state,
                calls,
            )[i]).well_formed(),
{
    lemma_run_clock(state, calls);
}

} // verus!
