//! The station registry: what is known of each station, as it was first
//! seen. An entry is never rewritten.

use crate::input::StationId;
use std::collections::HashMap;
use vstd::prelude::*;

verus! {

/// What the registry keeps of a station. The coordinates are the bit
/// patterns of single-precision numbers.
#[derive(Debug)]
pub struct Station {
    pub name: String,
    pub lat_bits: u32,
    pub lng_bits: u32,
}

/// A station as a mathematical value.
pub struct StationView {
    pub name: Seq<char>,
    pub lat_bits: u32,
    pub lng_bits: u32,
}

impl View for Station {
    type V = StationView;

    open spec fn view(&self) -> StationView {
        StationView { name: self.name@, lat_bits: self.lat_bits, lng_bits: self.lng_bits }
    }
}

/// The registry.
pub struct Stations {
    pub stations: HashMap<StationId, Station>,
}

impl View for Stations {
    type V = Map<StationId, StationView>;

    open spec fn view(&self) -> Map<StationId, StationView> {
        self.stations@.map_values(|station: Station| station@)
    }
}

impl Stations {
    /// A registry that knows no station.
    pub fn new() -> (registry: Self)
        ensures
            registry@ == Map::<StationId, StationView>::empty(),
    {
        let registry = Stations { stations: HashMap::new() };
        assert(registry@ =~= Map::<StationId, StationView>::empty());
        registry
    }

    /// Registers a station under `id` unless one is registered there
    /// already: the first entry stays. Returns whether the registry changed,
    /// which is when it has to be stored again.
    pub fn add_station(
        &mut self,
        id: StationId,
        name: &str,
        lat_bits: u32,
        lng_bits: u32,
    ) -> (added: bool)
        ensures
            added == !old(self)@.contains_key(id),
            final(self)@ == add_station_spec(
                old(self)@,
                id,
                StationView { name: name@, lat_bits, lng_bits },
            ),
            !added ==> final(self).stations@ == old(self).stations@,
    {
        broadcast use vstd::std_specs::hash::group_hash_axioms;

        if self.stations.contains_key(&id) {
            return false;
        }
        let station = Station { name: name.to_owned(), lat_bits, lng_bits };
        self.stations.insert(id, station);
        assert(self@ =~= old(self)@.insert(id, StationView { name: name@, lat_bits, lng_bits }));
        true
    }
}

/// The registry after an attempt to register `station` under `id`: an id
/// that is taken keeps its entry.
pub open spec fn add_station_spec(
    registry: Map<StationId, StationView>,
    id: StationId,
    station: StationView,
) -> Map<StationId, StationView> {
    if registry.contains_key(id) {
        registry
    } else {
        registry.insert(id, station)
    }
}

/// Registering twice under one id keeps what was registered first, whatever
/// name and coordinates the second call brings.
pub proof fn law_first_entry_stays(
    registry: Map<StationId, StationView>,
    id: StationId,
    first: StationView,
    second: StationView,
)
    ensures
        add_station_spec(add_station_spec(registry, id, first), id, second) == add_station_spec(
            registry,
            id,
            first,
        ),
        add_station_spec(registry, id, first)[id] == (if registry.contains_key(id) {
            registry[id]
        } else {
            first
        }),
{
}

} // verus!
