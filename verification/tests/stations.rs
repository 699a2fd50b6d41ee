use bike_rides::stations::Stations;

#[test]
fn new_registry_is_empty() {
    assert!(Stations::new().stations.is_empty());
}

#[test]
fn add_station_registers_an_unknown_id() {
    let mut registry = Stations::new();
    assert!(registry.add_station(5, "Rynek", 0x424c_0000, 0x4188_0000));
    assert_eq!(registry.stations.len(), 1);
    let station = &registry.stations[&5];
    assert_eq!(station.name, "Rynek");
    assert_eq!(station.lat_bits, 0x424c_0000);
    assert_eq!(station.lng_bits, 0x4188_0000);
    assert_eq!(f32::from_bits(station.lat_bits), 51.0);
    assert_eq!(f32::from_bits(station.lng_bits), 17.0);
}

#[test]
fn add_station_keeps_the_first_entry() {
    let mut registry = Stations::new();
    assert!(registry.add_station(5, "Rynek", 1, 2));
    assert!(!registry.add_station(5, "Rynek Glowny", 3, 4));
    assert_eq!(registry.stations.len(), 1);
    let station = &registry.stations[&5];
    assert_eq!(station.name, "Rynek");
    assert_eq!(station.lat_bits, 1);
    assert_eq!(station.lng_bits, 2);
}

#[test]
fn add_station_keeps_other_entries() {
    let mut registry = Stations::new();
    assert!(registry.add_station(1, "A", 10, 11));
    assert!(registry.add_station(2, "B", 20, 21));
    assert!(!registry.add_station(1, "C", 30, 31));
    assert_eq!(registry.stations.len(), 2);
    assert_eq!(registry.stations[&1].name, "A");
    assert_eq!(registry.stations[&2].name, "B");
    assert_eq!(registry.stations[&2].lat_bits, 20);
}
