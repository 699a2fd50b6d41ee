use bike_rides::api::rides;
use bike_rides::rides::{
    decode_ride, encode_ride, find_first, ride_matches, DecodeError, RideEvent, RideLocation,
    RidesFilter, RidesReader, RidesWriter, DEFAULT_LIMIT, RECORD_SIZE,
};
use byteorder::{LittleEndian, WriteBytesExt};

fn ride(bike_id: u32, src: (u64, u32), dst: (u64, u32)) -> RideEvent {
    RideEvent {
        bike_id,
        src: RideLocation { timestamp: src.0, station_id: src.1 },
        dst: RideLocation { timestamp: dst.0, station_id: dst.1 },
    }
}

fn filter(from: Option<u64>, last_event_id: Option<usize>, limit: Option<usize>) -> RidesFilter {
    RidesFilter { from, last_event_id, limit }
}

fn log_of(rides: &[RideEvent]) -> Vec<u8> {
    let mut writer = RidesWriter::new();
    for ride in rides {
        writer.write(ride);
    }
    writer.as_bytes().to_vec()
}

/// Ten rides; ride `i` starts at `100 + 10 * i` and ends 5 seconds later.
fn ten_rides() -> Vec<RideEvent> {
    (0..10u32)
        .map(|i| {
            let start = 100 + 10 * u64::from(i);
            ride(i, (start, i), (start + 5, i + 1))
        })
        .collect()
}

#[test]
fn record_size_is_28_bytes() {
    assert_eq!(RECORD_SIZE, 28);
    assert_eq!(encode_ride(&ride(1, (2, 3), (4, 5))).len(), 28);
}

#[test]
fn record_layout_is_little_endian() {
    let bytes = encode_ride(&ride(
        0x0102_0304,
        (0x1112_1314_1516_1718, 0x2122_2324),
        (0x3132_3334_3536_3738, 0x4142_4344),
    ));
    assert_eq!(
        bytes,
        vec![
            0x04, 0x03, 0x02, 0x01, 0x18, 0x17, 0x16, 0x15, 0x14, 0x13, 0x12, 0x11, 0x24, 0x23,
            0x22, 0x21, 0x38, 0x37, 0x36, 0x35, 0x34, 0x33, 0x32, 0x31, 0x44, 0x43, 0x42, 0x41,
        ]
    );
}

#[test]
fn record_matches_a_stream_writer() {
    let event = ride(7, (100, 1), (160, 2));
    let mut expected: Vec<u8> = Vec::new();
    expected.write_u32::<LittleEndian>(event.bike_id).unwrap();
    expected.write_u64::<LittleEndian>(event.src.timestamp).unwrap();
    expected.write_u32::<LittleEndian>(event.src.station_id).unwrap();
    expected.write_u64::<LittleEndian>(event.dst.timestamp).unwrap();
    expected.write_u32::<LittleEndian>(event.dst.station_id).unwrap();
    assert_eq!(encode_ride(&event), expected);
}

#[test]
fn decode_reads_fields_at_their_offsets() {
    let mut bytes = vec![0u8; 28];
    bytes[0] = 7;
    bytes[4] = 100;
    bytes[12] = 1;
    bytes[16] = 160;
    bytes[24] = 2;
    assert_eq!(decode_ride(&bytes), Ok(ride(7, (100, 1), (160, 2))));
    bytes[5] = 1;
    assert_eq!(decode_ride(&bytes), Ok(ride(7, (356, 1), (160, 2))));
}

#[test]
fn decode_round_trips_extreme_values() {
    for event in [
        ride(0, (0, 0), (0, 0)),
        ride(u32::MAX, (u64::MAX, u32::MAX), (u64::MAX, u32::MAX)),
        ride(1, (u64::MAX - 1, 2), (3, u32::MAX - 4)),
        ride(0x8000_0000, (0x8000_0000_0000_0000, 0x80), (0xff00, 0xff00_0000)),
    ] {
        assert_eq!(decode_ride(&encode_ride(&event)), Ok(event));
    }
}

#[test]
fn decode_rejects_short_input() {
    assert_eq!(decode_ride(&[0u8; 27]), Err(DecodeError::UnexpectedEof));
    assert_eq!(decode_ride(&[]), Err(DecodeError::UnexpectedEof));
}

#[test]
fn decode_ignores_what_follows_the_record() {
    let mut bytes = encode_ride(&ride(9, (8, 7), (6, 5)));
    bytes.extend_from_slice(&[0xaa; 10]);
    assert_eq!(decode_ride(&bytes), Ok(ride(9, (8, 7), (6, 5))));
}

#[test]
fn writer_appends_records_in_order() {
    let mut writer = RidesWriter::new();
    assert!(writer.as_bytes().is_empty());
    let first = ride(1, (10, 1), (20, 2));
    let second = ride(2, (11, 3), (21, 4));
    writer.write(&first);
    assert_eq!(writer.as_bytes(), encode_ride(&first).as_slice());
    writer.write(&second);
    let mut expected = encode_ride(&first);
    expected.extend_from_slice(&encode_ride(&second));
    assert_eq!(writer.as_bytes(), expected.as_slice());
}

#[test]
fn written_rides_read_back_under_their_event_ids() {
    let rides_written = ten_rides();
    let log = log_of(&rides_written);
    for (id, event) in rides_written.iter().enumerate() {
        let offset = id * RECORD_SIZE;
        assert_eq!(decode_ride(&log[offset..offset + RECORD_SIZE]), Ok(*event));
    }
    let mut reader = RidesReader::new(filter(None, None, Some(1000)), &log);
    for (id, event) in rides_written.iter().enumerate() {
        assert_eq!(reader.next(), Some((id, *event)));
    }
    assert_eq!(reader.next(), None);
}

#[test]
fn ride_matches_checks_either_timestamp() {
    let event = ride(1, (100, 1), (200, 2));
    assert!(ride_matches(&event, 0, &filter(None, None, None)));
    assert!(ride_matches(&event, 0, &filter(Some(100), None, None)));
    assert!(ride_matches(&event, 0, &filter(Some(150), None, None)));
    assert!(ride_matches(&event, 0, &filter(Some(200), None, None)));
    assert!(!ride_matches(&event, 0, &filter(Some(201), None, None)));
}

#[test]
fn ride_matches_checks_the_cursor() {
    let event = ride(1, (100, 1), (200, 2));
    assert!(ride_matches(&event, 5, &filter(None, Some(5), None)));
    assert!(ride_matches(&event, 6, &filter(None, Some(5), None)));
    assert!(!ride_matches(&event, 4, &filter(None, Some(5), None)));
    assert!(!ride_matches(&event, 6, &filter(Some(201), Some(5), None)));
}

#[test]
fn ride_matches_ignores_the_limit() {
    let event = ride(1, (100, 1), (200, 2));
    assert!(ride_matches(&event, 0, &filter(None, None, Some(0))));
}

#[test]
fn default_filter_names_nothing() {
    let default = RidesFilter::default();
    assert_eq!(default.from, None);
    assert_eq!(default.last_event_id, None);
    assert_eq!(default.limit, None);
    assert_eq!(default.effective_limit(), 100);
    assert_eq!(DEFAULT_LIMIT, 100);
    assert_eq!(filter(None, None, Some(3)).effective_limit(), 3);
}

#[test]
fn find_first_is_a_lower_bound() {
    let log = log_of(&ten_rides());
    assert_eq!(find_first(&log, 0), 0);
    assert_eq!(find_first(&log, 100), 0);
    assert_eq!(find_first(&log, 101), 1);
    assert_eq!(find_first(&log, 110), 1);
    assert_eq!(find_first(&log, 145), 5);
    assert_eq!(find_first(&log, 190), 9);
    assert_eq!(find_first(&log, 191), 10);
    assert_eq!(find_first(&log, u64::MAX), 10);
}

#[test]
fn find_first_picks_the_leftmost_of_equal_timestamps() {
    let log = log_of(&[
        ride(1, (10, 1), (11, 2)),
        ride(2, (20, 1), (21, 2)),
        ride(3, (20, 1), (22, 2)),
        ride(4, (20, 1), (23, 2)),
        ride(5, (30, 1), (31, 2)),
    ]);
    assert_eq!(find_first(&log, 20), 1);
    assert_eq!(find_first(&log, 21), 4);
}

#[test]
fn find_first_on_an_empty_log() {
    assert_eq!(find_first(&[], 5), 0);
    assert_eq!(find_first(&[0u8; 27], 5), 0);
}

#[test]
fn query_without_filter_starts_at_the_first_ride() {
    let all = ten_rides();
    let log = log_of(&all);
    let response = rides(RidesFilter::default(), &log);
    assert_eq!(response.rides, all);
    assert_eq!(response.last_event_id, 9);
}

#[test]
fn query_defaults_to_100_rides() {
    let many: Vec<RideEvent> =
        (0..150u32).map(|i| ride(i, (u64::from(i), 1), (u64::from(i) + 1, 2))).collect();
    let log = log_of(&many);
    let response = rides(RidesFilter::default(), &log);
    assert_eq!(response.rides.len(), 100);
    assert_eq!(response.rides, many[..100].to_vec());
    assert_eq!(response.last_event_id, 99);
}

#[test]
fn query_by_cursor_resumes_behind_it() {
    let all = ten_rides();
    let log = log_of(&all);
    let response = rides(filter(None, Some(3), Some(4)), &log);
    assert_eq!(response.rides, all[4..8].to_vec());
    assert_eq!(response.last_event_id, 7);
    let next = rides(filter(None, Some(response.last_event_id), Some(4)), &log);
    assert_eq!(next.rides, all[8..].to_vec());
    assert_eq!(next.last_event_id, 9);
    let done = rides(filter(None, Some(next.last_event_id), Some(4)), &log);
    assert!(done.rides.is_empty());
    assert_eq!(done.last_event_id, 0);
}

#[test]
fn query_by_cursor_beyond_the_log_is_empty() {
    let log = log_of(&ten_rides());
    for cursor in [9, 10, 1000, usize::MAX] {
        let response = rides(filter(None, Some(cursor), None), &log);
        assert!(response.rides.is_empty());
        assert_eq!(response.last_event_id, 0);
    }
}

#[test]
fn query_by_time_returns_the_suffix() {
    let all = ten_rides();
    let log = log_of(&all);
    let response = rides(filter(Some(150), None, None), &log);
    assert_eq!(response.rides, all[5..].to_vec());
    assert_eq!(response.last_event_id, 9);
    let capped = rides(filter(Some(150), None, Some(2)), &log);
    assert_eq!(capped.rides, all[5..7].to_vec());
    assert_eq!(capped.last_event_id, 6);
}

#[test]
fn query_by_time_includes_the_ride_at_the_bound() {
    let all = ten_rides();
    let log = log_of(&all);
    let response = rides(filter(Some(100), None, Some(1)), &log);
    assert_eq!(response.rides, all[..1].to_vec());
    assert_eq!(response.last_event_id, 0);
}

#[test]
fn query_by_time_after_every_ride_is_empty() {
    let log = log_of(&ten_rides());
    let response = rides(filter(Some(196), None, None), &log);
    assert!(response.rides.is_empty());
    assert_eq!(response.last_event_id, 0);
}

#[test]
fn query_by_time_starts_at_the_first_ride_that_starts_late_enough() {
    // The first ride ends after 30 but starts before it: the search is by
    // source timestamp, and begins behind that ride.
    let all = vec![ride(1, (10, 1), (50, 2)), ride(2, (40, 1), (60, 2))];
    let log = log_of(&all);
    let response = rides(filter(Some(30), None, None), &log);
    assert_eq!(response.rides, all[1..].to_vec());
    assert_eq!(response.last_event_id, 1);
}

#[test]
fn cursor_wins_over_time_for_the_start() {
    let all = ten_rides();
    let log = log_of(&all);
    // Cursor 1 starts the scan at ride 2; rides 2 and 3 end before 140.
    let response = rides(filter(Some(140), Some(1), None), &log);
    assert_eq!(response.rides, all[4..].to_vec());
    // A ride whose end reaches the bound passes, though its start does not.
    let spanning = rides(filter(Some(135), Some(1), Some(1)), &log);
    assert_eq!(spanning.rides, all[3..4].to_vec());
    assert_eq!(spanning.last_event_id, 3);
}

#[test]
fn limit_zero_returns_nothing() {
    let log = log_of(&ten_rides());
    let response = rides(filter(None, None, Some(0)), &log);
    assert!(response.rides.is_empty());
    assert_eq!(response.last_event_id, 0);
    let mut reader = RidesReader::new(filter(None, None, Some(0)), &log);
    assert_eq!(reader.next(), None);
}

#[test]
fn truncated_tail_ends_the_log() {
    let all = ten_rides();
    let mut log = log_of(&all);
    log.extend_from_slice(&encode_ride(&ride(99, (500, 1), (501, 2)))[..20]);
    let response = rides(filter(None, None, None), &log);
    assert_eq!(response.rides, all);
    assert_eq!(response.last_event_id, 9);
    assert_eq!(find_first(&log, 500), 10);
    let after = rides(filter(None, Some(9), None), &log);
    assert!(after.rides.is_empty());
}

#[test]
fn empty_log_answers_nothing() {
    let response = rides(RidesFilter::default(), &[]);
    assert!(response.rides.is_empty());
    assert_eq!(response.last_event_id, 0);
}

#[test]
fn reader_stays_exhausted() {
    let all = ten_rides();
    let log = log_of(&all);
    let mut reader = RidesReader::new(filter(None, Some(7), None), &log);
    assert_eq!(reader.next(), Some((8, all[8])));
    assert_eq!(reader.next(), Some((9, all[9])));
    assert_eq!(reader.next(), None);
    assert_eq!(reader.next(), None);
}

#[test]
fn reader_stops_at_the_limit() {
    let all = ten_rides();
    let log = log_of(&all);
    let mut reader = RidesReader::new(filter(None, None, Some(2)), &log);
    assert_eq!(reader.next(), Some((0, all[0])));
    assert_eq!(reader.next(), Some((1, all[1])));
    assert_eq!(reader.next(), None);
    assert_eq!(reader.next(), None);
}
