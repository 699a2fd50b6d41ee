use bike_rides::input::{Bike, Cities, Countries, JsonResponse, Place};
use bike_rides::processor::{Outcome, RidesProcessor, GAP_THRESHOLD};
use bike_rides::rides::{RideEvent, RideLocation};
use bike_rides::stations::Stations;

fn ride(bike_id: u32, src: (u64, u32), dst: (u64, u32)) -> RideEvent {
    RideEvent {
        bike_id,
        src: RideLocation { timestamp: src.0, station_id: src.1 },
        dst: RideLocation { timestamp: dst.0, station_id: dst.1 },
    }
}

fn place(uid: u32, name: &str, bikes: &[u32]) -> Place {
    Place {
        uid,
        lat_bits: uid.wrapping_mul(3),
        lng_bits: uid.wrapping_mul(5),
        name: name.to_string(),
        bike_list: bikes.iter().map(|&number| Bike { number }).collect(),
    }
}

fn city(places: Vec<Place>) -> Cities {
    Cities { name: "Wroclaw".to_string(), places }
}

fn snapshot(places: Vec<Place>) -> JsonResponse {
    JsonResponse { countries: vec![Countries { cities: vec![city(places)] }] }
}

/// A snapshot in which each `(bike, station)` pair is one station holding
/// one bike.
fn seen(pairs: &[(u32, u32)]) -> JsonResponse {
    snapshot(pairs.iter().map(|&(bike, station)| place(station, "Station", &[bike])).collect())
}

fn engine() -> RidesProcessor {
    RidesProcessor::new(Stations::new())
}

#[test]
fn moved_bike_gives_one_ride_and_resting_bike_none() {
    let mut processor = engine();
    let first = processor.process(100, &seen(&[(7, 1)]));
    assert_eq!(first.outcome, Outcome::Accepted);
    assert!(first.rides.is_empty());
    assert_eq!(first.ride_count(), 0);

    let second = processor.process(160, &seen(&[(7, 2)]));
    assert_eq!(second.outcome, Outcome::Accepted);
    assert_eq!(second.rides, vec![ride(7, (100, 1), (160, 2))]);
    assert_eq!(second.ride_count(), 1);

    let third = processor.process(220, &seen(&[(7, 2)]));
    assert_eq!(third.outcome, Outcome::Accepted);
    assert!(third.rides.is_empty());
    assert_eq!(third.ride_count(), 0);
}

#[test]
fn gap_drops_the_ride_that_spans_it() {
    let mut processor = engine();
    assert_eq!(processor.process(100, &seen(&[(7, 1)])).ride_count(), 0);

    let across = processor.process(1000, &seen(&[(7, 2)]));
    assert_eq!(across.outcome, Outcome::GapReset { elapsed: 900 });
    assert!(across.rides.is_empty());
    assert_eq!(across.ride_count(), 0);

    let after = processor.process(1050, &seen(&[(7, 2)]));
    assert_eq!(after.outcome, Outcome::Accepted);
    assert!(after.rides.is_empty());

    // Station 2 is the bike's baseline now.
    let moved = processor.process(1100, &seen(&[(7, 3)]));
    assert_eq!(moved.rides, vec![ride(7, (1050, 2), (1100, 3))]);
}

#[test]
fn gap_snapshot_itself_is_not_tracked() {
    let mut processor = engine();
    processor.process(100, &seen(&[(7, 1)]));
    processor.process(1000, &seen(&[(7, 2)]));
    // Had the snapshot at 1000 been tracked, this would be a ride from 2.
    let next = processor.process(1010, &seen(&[(7, 3)]));
    assert_eq!(next.outcome, Outcome::Accepted);
    assert!(next.rides.is_empty());
}

#[test]
fn gap_is_more_than_ten_minutes() {
    assert_eq!(GAP_THRESHOLD, 600);
    let mut processor = engine();
    processor.process(100, &seen(&[(7, 1)]));
    let at_threshold = processor.process(700, &seen(&[(7, 2)]));
    assert_eq!(at_threshold.outcome, Outcome::Accepted);
    assert_eq!(at_threshold.rides, vec![ride(7, (100, 1), (700, 2))]);

    let beyond = processor.process(1301, &seen(&[(7, 3)]));
    assert_eq!(beyond.outcome, Outcome::GapReset { elapsed: 601 });
    assert!(beyond.rides.is_empty());
}

#[test]
fn first_snapshot_is_accepted_whatever_its_timestamp() {
    let mut late = engine();
    assert_eq!(late.process(1_700_000_000, &seen(&[(7, 1)])).outcome, Outcome::Accepted);
    let moved = late.process(1_700_000_060, &seen(&[(7, 2)]));
    assert_eq!(moved.rides, vec![ride(7, (1_700_000_000, 1), (1_700_000_060, 2))]);

    let mut early = engine();
    assert_eq!(early.process(0, &seen(&[(7, 1)])).outcome, Outcome::Accepted);
}

#[test]
fn regression_is_rejected_and_changes_nothing() {
    let mut processor = engine();
    processor.process(100, &seen(&[(7, 1)]));
    processor.process(160, &seen(&[(7, 2)]));

    let back = processor.process(159, &seen(&[(7, 3), (8, 4)]));
    assert_eq!(back.outcome, Outcome::Regression { previous: 160 });
    assert!(back.rides.is_empty());
    assert_eq!(back.ride_count(), 0);
    assert!(back.new_stations.is_empty());
    assert_eq!(processor.stations().stations.len(), 2);

    // The bike is still remembered at station 2 since 160, the clock still
    // stands at 160, and bike 8 was never seen.
    let again = processor.process(160, &seen(&[(7, 3), (8, 4)]));
    assert_eq!(again.outcome, Outcome::Accepted);
    assert_eq!(again.rides, vec![ride(7, (160, 2), (160, 3))]);
}

#[test]
fn equal_timestamp_is_no_regression() {
    let mut processor = engine();
    processor.process(100, &seen(&[(7, 1)]));
    let same = processor.process(100, &seen(&[(7, 2)]));
    assert_eq!(same.outcome, Outcome::Accepted);
    assert_eq!(same.rides, vec![ride(7, (100, 1), (100, 2))]);
}

#[test]
fn wrong_country_count_is_rejected_and_changes_nothing() {
    let mut processor = engine();
    processor.process(100, &seen(&[(7, 1)]));

    let none = processor.process(160, &JsonResponse { countries: vec![] });
    assert_eq!(none.outcome, Outcome::CountryCount { found: 0 });
    assert!(none.rides.is_empty());

    let two = JsonResponse {
        countries: vec![
            Countries { cities: vec![city(vec![place(2, "Two", &[7])])] },
            Countries { cities: vec![city(vec![place(3, "Three", &[7])])] },
        ],
    };
    let report = processor.process(5000, &two);
    assert_eq!(report.outcome, Outcome::CountryCount { found: 2 });
    assert!(report.rides.is_empty());
    assert!(report.new_stations.is_empty());
    assert_eq!(processor.stations().stations.len(), 1);

    // Neither call moved the clock or the bike.
    let next = processor.process(160, &seen(&[(7, 2)]));
    assert_eq!(next.outcome, Outcome::Accepted);
    assert_eq!(next.rides, vec![ride(7, (100, 1), (160, 2))]);
}

#[test]
fn country_without_city_is_rejected_and_changes_nothing() {
    let mut processor = engine();
    processor.process(100, &seen(&[(7, 1)]));
    let empty = JsonResponse { countries: vec![Countries { cities: vec![] }] };
    let report = processor.process(150, &empty);
    assert_eq!(report.outcome, Outcome::NoCity);
    assert!(report.rides.is_empty());
    assert!(report.new_stations.is_empty());
    // The clock still stands at 100: 700 is within ten minutes of it.
    let next = processor.process(700, &seen(&[(7, 2)]));
    assert_eq!(next.outcome, Outcome::Accepted);
    assert_eq!(next.rides, vec![ride(7, (100, 1), (700, 2))]);
}

#[test]
fn country_without_city_on_the_first_call_sets_no_clock() {
    let mut processor = engine();
    let empty = JsonResponse { countries: vec![Countries { cities: vec![] }] };
    assert_eq!(processor.process(5000, &empty).outcome, Outcome::NoCity);
    // No timestamp was accepted, so an older snapshot is still the first.
    assert_eq!(processor.process(100, &seen(&[(7, 1)])).outcome, Outcome::Accepted);
}

#[test]
fn gap_is_found_before_the_cities_are_read() {
    let mut processor = engine();
    processor.process(100, &seen(&[(7, 1)]));
    let empty = JsonResponse { countries: vec![Countries { cities: vec![] }] };
    let report = processor.process(5000, &empty);
    assert_eq!(report.outcome, Outcome::GapReset { elapsed: 4900 });
    assert!(report.rides.is_empty());
    // The bikes are forgotten and the clock stands at 5000.
    let next = processor.process(5060, &seen(&[(7, 2)]));
    assert_eq!(next.outcome, Outcome::Accepted);
    assert!(next.rides.is_empty());
    assert_eq!(
        processor.process(5059, &seen(&[(7, 3)])).outcome,
        Outcome::Regression { previous: 5060 }
    );
}

#[test]
fn regression_is_found_before_the_cities_are_read() {
    let mut processor = engine();
    processor.process(100, &seen(&[(7, 1)]));
    let empty = JsonResponse { countries: vec![Countries { cities: vec![] }] };
    assert_eq!(processor.process(99, &empty).outcome, Outcome::Regression { previous: 100 });
}

#[test]
fn country_count_is_checked_before_the_time() {
    let mut processor = engine();
    processor.process(100, &seen(&[(7, 1)]));
    let none = JsonResponse { countries: vec![] };
    assert_eq!(processor.process(99, &none).outcome, Outcome::CountryCount { found: 0 });
    assert_eq!(processor.process(5000, &none).outcome, Outcome::CountryCount { found: 0 });
    let next = processor.process(160, &seen(&[(7, 2)]));
    assert_eq!(next.rides, vec![ride(7, (100, 1), (160, 2))]);
}

#[test]
fn only_the_first_city_is_read() {
    let mut processor = engine();
    let two_cities = JsonResponse {
        countries: vec![Countries {
            cities: vec![city(vec![place(1, "One", &[7])]), city(vec![place(2, "Two", &[8])])],
        }],
    };
    let report = processor.process(100, &two_cities);
    assert_eq!(report.outcome, Outcome::Accepted);
    assert_eq!(report.new_stations, vec![1]);
    let next = processor.process(160, &seen(&[(8, 3)]));
    assert!(next.rides.is_empty());
}

#[test]
fn virtual_places_are_skipped() {
    let mut processor = engine();
    processor.process(100, &snapshot(vec![place(1, "Rynek", &[7])]));
    let report =
        processor.process(160, &snapshot(vec![place(900, "BIKE 57001", &[7]), place(2, "Hala", &[])]));
    assert_eq!(report.outcome, Outcome::Accepted);
    assert!(report.rides.is_empty());
    assert_eq!(report.new_stations, vec![2]);
    assert!(!processor.stations().stations.contains_key(&900));

    // The bike is still remembered at station 1.
    let back = processor.process(220, &snapshot(vec![place(3, "Most", &[7])]));
    assert_eq!(back.rides, vec![ride(7, (100, 1), (220, 3))]);
}

#[test]
fn virtual_prefix_is_matched_exactly() {
    let mut processor = engine();
    let report = processor.process(
        100,
        &snapshot(vec![
            place(1, "BIKE", &[1]),
            place(2, "BIKER bar", &[2]),
            place(3, "Bike park", &[3]),
            place(4, "BIK", &[4]),
            place(5, " BIKE", &[5]),
            place(6, "", &[6]),
        ]),
    );
    assert_eq!(report.new_stations, vec![3, 4, 5, 6]);
    assert!(place(1, "BIKE", &[]).is_virtual());
    assert!(place(1, "BIKE 12", &[]).is_virtual());
    assert!(!place(1, "bike 12", &[]).is_virtual());
    assert!(!place(1, "ROWER BIKE", &[]).is_virtual());
}

#[test]
fn stations_are_registered_once() {
    let mut processor = engine();
    let first = processor.process(
        100,
        &snapshot(vec![place(1, "Rynek (obok fontanny)", &[7]), place(2, "Hala", &[])]),
    );
    assert_eq!(first.new_stations, vec![1, 2]);
    let mut renamed = place(1, "Rynek Glowny", &[7]);
    renamed.lat_bits = 77;
    let second = processor.process(160, &snapshot(vec![renamed, place(3, "Most", &[])]));
    assert_eq!(second.new_stations, vec![3]);
    let registry = &processor.stations().stations;
    assert_eq!(registry.len(), 3);
    assert_eq!(registry[&1].name, "Rynek (obok fontanny)");
    assert_eq!(registry[&1].lat_bits, 3);
    assert_eq!(registry[&1].lng_bits, 5);
}

#[test]
fn engine_starts_from_a_loaded_registry() {
    let mut stations = Stations::new();
    stations.add_station(1, "Stary Rynek", 11, 12);
    let mut processor = RidesProcessor::new(stations);
    let report = processor.process(100, &snapshot(vec![place(1, "Rynek", &[]), place(2, "Hala", &[])]));
    assert_eq!(report.new_stations, vec![2]);
    assert_eq!(processor.stations().stations[&1].name, "Stary Rynek");
}

#[test]
fn rides_come_in_snapshot_order() {
    let mut processor = engine();
    processor.process(100, &seen(&[(1, 10), (2, 20), (3, 30)]));
    let report = processor.process(
        160,
        &snapshot(vec![place(30, "C", &[2, 3]), place(10, "A", &[]), place(20, "B", &[1])]),
    );
    assert_eq!(report.rides, vec![ride(2, (100, 20), (160, 30)), ride(1, (100, 10), (160, 20))]);
    assert_eq!(report.ride_count(), 2);
}

#[test]
fn unseen_bike_is_remembered_across_snapshots() {
    let mut processor = engine();
    processor.process(100, &seen(&[(1, 10), (2, 20)]));
    // Bike 1 is on its way; the fleet is polled every minute meanwhile.
    for minute in 1..=9 {
        let report = processor.process(100 + 60 * minute, &seen(&[(2, 20)]));
        assert!(report.rides.is_empty());
    }
    let arrived = processor.process(700, &seen(&[(1, 11), (2, 20)]));
    assert_eq!(arrived.rides, vec![ride(1, (100, 10), (700, 11))]);
}

#[test]
fn bike_listed_at_two_stations_moves_within_the_snapshot() {
    let mut processor = engine();
    let report = processor.process(100, &seen(&[(7, 1), (7, 2)]));
    assert_eq!(report.rides, vec![ride(7, (100, 1), (100, 2))]);
    let next = processor.process(160, &seen(&[(7, 2)]));
    assert!(next.rides.is_empty());
}

#[test]
fn every_ride_ends_at_the_snapshot_and_not_before_it_starts() {
    let mut processor = engine();
    processor.process(100, &seen(&[(1, 10), (2, 20), (3, 30)]));
    processor.process(160, &seen(&[(1, 10), (3, 31)]));
    let report = processor.process(220, &seen(&[(1, 11), (2, 21), (3, 30)]));
    assert_eq!(
        report.rides,
        vec![ride(1, (160, 10), (220, 11)), ride(2, (100, 20), (220, 21)), ride(3, (160, 31), (220, 30))]
    );
    for event in &report.rides {
        assert_eq!(event.dst.timestamp, 220);
        assert!(event.src.timestamp <= event.dst.timestamp);
    }
}
