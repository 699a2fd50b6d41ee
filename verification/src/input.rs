//! One snapshot of the fleet, as the upstream feed nests it: countries hold
//! cities, cities hold places, and a place lists the bikes that stand there.

use vstd::prelude::*;

verus! {

/// The number that the feed gives a station; it does not change.
pub type StationId = u32;

/// The number that the feed gives a bike.
pub type BikeId = u32;

/// A bike that stands at a place.
#[derive(Debug)]
pub struct Bike {
    pub number: BikeId,
}

/// A station as one snapshot shows it. Its coordinates are carried as the
/// bit patterns of single-precision numbers and never computed with.
#[derive(Debug)]
pub struct Place {
    pub uid: StationId,
    pub lat_bits: u32,
    pub lng_bits: u32,
    pub name: String,
    pub bike_list: Vec<Bike>,
}

/// A city and its places.
#[derive(Debug)]
pub struct Cities {
    pub name: String,
    pub places: Vec<Place>,
}

/// A country and its cities.
#[derive(Debug)]
pub struct Countries {
    pub cities: Vec<Cities>,
}

/// A whole snapshot.
#[derive(Debug)]
pub struct JsonResponse {
    pub countries: Vec<Countries>,
}

/// The name prefix of a place that is no station: bikes that stand
/// anywhere else are listed under such a place.
pub open spec fn virtual_prefix() -> Seq<char> {
    seq!['B', 'I', 'K', 'E']
}

/// Whether `name` marks a place as no station.
pub open spec fn is_virtual_name(name: Seq<char>) -> bool {
    virtual_prefix().is_prefix_of(name)
}

impl Place {
    /// Whether this place is no station but the list of bikes off station.
    pub fn is_virtual(&self) -> (virtual_place: bool)
        ensures
            virtual_place == is_virtual_name(self.name@),
    {
        let name: &str = self.name.as_str();
        if name.unicode_len() < 4 {
            return false;
        }
        let matches: bool = name.get_char(0) == 'B' && name.get_char(1) == 'I' && name.get_char(2)
            == 'K' && name.get_char(3) == 'E';
        proof {
            let prefix = virtual_prefix();
            if matches {
                assert(name@.subrange(0, 4) =~= prefix);
            } else {
                if prefix.is_prefix_of(name@) {
                    assert(name@.subrange(0, 4)[0] == prefix[0]);
                    assert(name@.subrange(0, 4)[1] == prefix[1]);
                    assert(name@.subrange(0, 4)[2] == prefix[2]);
                    assert(name@.subrange(0, 4)[3] == prefix[3]);
                }
            }
        }
        matches
    }
}

} // verus!
