//! The ride log: fixed-size binary records, appended in the order in which
//! rides are derived, and addressed by their position, the event id.

use crate::endian::{
    le_bytes, le_value, lemma_le_bytes_len, lemma_le_value_of_bytes, u32_from_le, u32_to_le,
    u64_from_le, u64_to_le,
};
use vstd::prelude::*;

verus! {

/// Bytes per record: a `u32` bike id, then twice a `u64` timestamp and a
/// `u32` station id.
pub const RECORD_SIZE: usize = 4 + 2 * (8 + 4);

/// One end of a ride: where a bike was seen, and when.
#[derive(Debug, Clone, Copy, PartialEq, Eq, Structural)]
pub struct RideLocation {
    pub timestamp: u64,
    pub station_id: u32,
}

/// A bike seen at one station and next seen at another.
#[derive(Debug, Clone, Copy, PartialEq, Eq, Structural)]
pub struct RideEvent {
    pub bike_id: u32,
    pub src: RideLocation,
    pub dst: RideLocation,
}

/// Why a record could not be decoded.
#[derive(Debug, Clone, Copy, PartialEq, Eq, Structural)]
pub enum DecodeError {
    /// The input ends before the record does.
    UnexpectedEof,
}

impl RideEvent {
    /// A ride does not end before it starts.
    pub open spec fn well_formed(self) -> bool {
        self.src.timestamp <= self.dst.timestamp
    }
}

/// The 28 bytes of a record: every field little-endian, in the order
/// bike id, source timestamp, source station, destination timestamp,
/// destination station.
pub open spec fn record_bytes(ride: RideEvent) -> Seq<u8> {
    le_bytes(ride.bike_id as nat, 4) + le_bytes(ride.src.timestamp as nat, 8) + le_bytes(
        ride.src.station_id as nat,
        4,
    ) + le_bytes(ride.dst.timestamp as nat, 8) + le_bytes(ride.dst.station_id as nat, 4)
}

/// The ride that the first 28 bytes of `bytes` spell.
pub open spec fn record_of(bytes: Seq<u8>) -> RideEvent
    recommends
        bytes.len() >= RECORD_SIZE,
{
    RideEvent {
        bike_id: le_value(bytes.subrange(0, 4)) as u32,
        src: RideLocation {
            timestamp: le_value(bytes.subrange(4, 12)) as u64,
            station_id: le_value(bytes.subrange(12, 16)) as u32,
        },
        dst: RideLocation {
            timestamp: le_value(bytes.subrange(16, 24)) as u64,
            station_id: le_value(bytes.subrange(24, 28)) as u32,
        },
    }
}

/// A record is 28 bytes long, and decodes to the ride it was made from,
/// whatever follows it.
pub proof fn lemma_record_round_trip(ride: RideEvent, tail: Seq<u8>)
    ensures
        record_bytes(ride).len() == RECORD_SIZE,
        record_of(record_bytes(ride) + tail) == ride,
{
    let b0 = le_bytes(ride.bike_id as nat, 4);
    let b1 = le_bytes(ride.src.timestamp as nat, 8);
    let b2 = le_bytes(ride.src.station_id as nat, 4);
    let b3 = le_bytes(ride.dst.timestamp as nat, 8);
    let b4 = le_bytes(ride.dst.station_id as nat, 4);
    lemma_le_bytes_len(ride.bike_id as nat, 4);
    lemma_le_bytes_len(ride.src.timestamp as nat, 8);
    lemma_le_bytes_len(ride.src.station_id as nat, 4);
    lemma_le_bytes_len(ride.dst.timestamp as nat, 8);
    lemma_le_bytes_len(ride.dst.station_id as nat, 4);
    assert(crate::endian::radix_pow(4) == 0x1_0000_0000) by {
        reveal_with_fuel(crate::endian::radix_pow, 5);
    }
    assert(crate::endian::radix_pow(8) == 0x1_0000_0000_0000_0000) by {
        reveal_with_fuel(crate::endian::radix_pow, 9);
    }
    lemma_le_value_of_bytes(ride.bike_id as nat, 4);
    lemma_le_value_of_bytes(ride.src.timestamp as nat, 8);
    lemma_le_value_of_bytes(ride.src.station_id as nat, 4);
    lemma_le_value_of_bytes(ride.dst.timestamp as nat, 8);
    lemma_le_value_of_bytes(ride.dst.station_id as nat, 4);
    let all = record_bytes(ride) + tail;
    assert(all.subrange(0, 4) =~= b0);
    assert(all.subrange(4, 12) =~= b1);
    assert(all.subrange(12, 16) =~= b2);
    assert(all.subrange(16, 24) =~= b3);
    assert(all.subrange(24, 28) =~= b4);
}

/// Serialises a ride into its record.
pub fn encode_ride(ride: &RideEvent) -> (bytes: Vec<u8>)
    ensures
        bytes@ == record_bytes(*ride),
        bytes@.len() == RECORD_SIZE,
{
    let mut bytes: Vec<u8> = Vec::with_capacity(RECORD_SIZE);
    bytes.extend_from_slice(u32_to_le(ride.bike_id).as_slice());
    bytes.extend_from_slice(u64_to_le(ride.src.timestamp).as_slice());
    bytes.extend_from_slice(u32_to_le(ride.src.station_id).as_slice());
    bytes.extend_from_slice(u64_to_le(ride.dst.timestamp).as_slice());
    bytes.extend_from_slice(u32_to_le(ride.dst.station_id).as_slice());
    proof {
        lemma_record_round_trip(*ride, Seq::empty());
    }
    bytes
}

/// Reads one ride from the front of `bytes`. Fewer than 28 bytes are an
/// unexpected end of input; bytes after the record are not looked at.
pub fn decode_ride(bytes: &[u8]) -> (decoded: Result<RideEvent, DecodeError>)
    ensures
        bytes@.len() >= RECORD_SIZE ==> decoded == Ok::<RideEvent, DecodeError>(record_of(bytes@)),
        bytes@.len() < RECORD_SIZE ==> decoded == Err::<RideEvent, DecodeError>(
            DecodeError::UnexpectedEof,
        ),
{
    if bytes.len() < RECORD_SIZE {
        return Err(DecodeError::UnexpectedEof);
    }
    let bike_id: u32 = u32_from_le(&bytes[0..4]);
    let src_timestamp: u64 = u64_from_le(&bytes[4..12]);
    let src_station: u32 = u32_from_le(&bytes[12..16]);
    let dst_timestamp: u64 = u64_from_le(&bytes[16..24]);
    let dst_station: u32 = u32_from_le(&bytes[24..28]);
    proof {
        assert(bytes@.subrange(0, 4).subrange(0, 4) =~= bytes@.subrange(0, 4));
        assert(bytes@.subrange(4, 12).subrange(0, 8) =~= bytes@.subrange(4, 12));
        assert(bytes@.subrange(12, 16).subrange(0, 4) =~= bytes@.subrange(12, 16));
        assert(bytes@.subrange(16, 24).subrange(0, 8) =~= bytes@.subrange(16, 24));
        assert(bytes@.subrange(24, 28).subrange(0, 4) =~= bytes@.subrange(24, 28));
    }
    Ok(
        RideEvent {
            bike_id,
            src: RideLocation { timestamp: src_timestamp, station_id: src_station },
            dst: RideLocation { timestamp: dst_timestamp, station_id: dst_station },
        },
    )
}

/// Frames rides into the byte image of a log, in the order they are written.
pub struct RidesWriter {
    log: Vec<u8>,
}

impl View for RidesWriter {
    type V = Seq<u8>;

    /// Every byte written so far.
    closed spec fn view(&self) -> Seq<u8> {
        self.log@
    }
}

impl RidesWriter {
    #[verifier::type_invariant]
    spec fn inv(self) -> bool {
        self.log@.len() % (RECORD_SIZE as nat) == 0
    }

    /// A writer that has written nothing.
    pub fn new() -> (writer: Self)
        ensures
            writer@ == Seq::<u8>::empty(),
    {
        RidesWriter { log: Vec::new() }
    }

    /// Appends the record of `ride`; nothing written before changes. The
    /// ride gets the next event id, and reads back as it was written.
    pub fn write(&mut self, ride: &RideEvent)
        ensures
            final(self)@ == old(self)@ + record_bytes(*ride),
            records(final(self)@) == records(old(self)@).push(*ride),
    {
        proof {
            use_type_invariant(&*self);
            lemma_records_push(self.log@, *ride);
        }
        let record = encode_ride(ride);
        let mut log: Vec<u8> = Vec::new();
        core::mem::swap(&mut self.log, &mut log);
        log.extend_from_slice(record.as_slice());
        self.log = log;
    }

    /// The bytes written so far: whole records only.
    pub fn as_bytes(&self) -> (bytes: &[u8])
        ensures
            bytes@ == self@,
            bytes@.len() % (RECORD_SIZE as nat) == 0,
    {
        proof {
            use_type_invariant(self);
        }
        self.log.as_slice()
    }
}

/// The number of whole records in a log; a shorter tail is not a record.
pub open spec fn record_count(log: Seq<u8>) -> nat {
    log.len() / (RECORD_SIZE as nat)
}

/// The ride stored under event id `id`.
pub open spec fn record_at(log: Seq<u8>, id: int) -> RideEvent
    recommends
        0 <= id < record_count(log),
{
    record_of(log.subrange(id * RECORD_SIZE, id * RECORD_SIZE + RECORD_SIZE))
}

/// The rides of a log, each at the index that is its event id.
pub open spec fn records(log: Seq<u8>) -> Seq<RideEvent> {
    Seq::new(record_count(log), |id: int| record_at(log, id))
}

/// The log that holds `rides` and nothing else.
pub open spec fn log_bytes(rides: Seq<RideEvent>) -> Seq<u8>
    decreases rides.len(),
{
    if rides.len() == 0 {
        Seq::empty()
    } else {
        log_bytes(rides.drop_last()) + record_bytes(rides.last())
    }
}

/// What a query asks for: rides from a point in time on, or after a cursor,
/// and at most so many of them.
#[derive(Debug, Clone, Copy)]
pub struct RidesFilter {
    /// Lower bound on a ride's timestamps.
    pub from: Option<u64>,
    /// The event id that the client saw last.
    pub last_event_id: Option<usize>,
    /// The largest number of rides to return.
    pub limit: Option<usize>,
}

/// The number of rides returned where a filter names no limit.
pub const DEFAULT_LIMIT: usize = 100;

impl Default for RidesFilter {
    /// The filter that asks for the start of the log.
    fn default() -> (filter: Self)
        ensures
            filter.from is None,
            filter.last_event_id is None,
            filter.limit is None,
    {
        RidesFilter { from: None, last_event_id: None, limit: None }
    }
}

impl RidesFilter {
    /// The limit in force: the one named, or the default.
    pub open spec fn spec_effective_limit(&self) -> usize {
        match self.limit {
            Some(limit) => limit,
            None => DEFAULT_LIMIT,
        }
    }

    /// The limit in force: the one named, or the default.
    #[verifier::when_used_as_spec(spec_effective_limit)]
    pub fn effective_limit(&self) -> (limit: usize)
        ensures
            limit == self.effective_limit(),
    {
        match self.limit {
            Some(limit) => limit,
            None => DEFAULT_LIMIT,
        }
    }
}

/// Whether a ride under event id `event_id` passes `filter`: one of its two
/// timestamps is not before `from`, and its id is not before the cursor.
pub open spec fn matches_filter(ride: RideEvent, event_id: int, filter: RidesFilter) -> bool {
    &&& (filter.from matches Some(from) ==> ride.src.timestamp >= from || ride.dst.timestamp
        >= from)
    &&& (filter.last_event_id matches Some(last) ==> event_id >= last)
}

/// Tests one ride against a filter. The limit plays no part in it.
pub fn ride_matches(ride: &RideEvent, event_id: usize, filter: &RidesFilter) -> (matches: bool)
    ensures
        matches == matches_filter(*ride, event_id as int, *filter),
{
    if let Some(from) = filter.from {
        if ride.src.timestamp < from && ride.dst.timestamp < from {
            return false;
        }
    }
    if let Some(last) = filter.last_event_id {
        if event_id < last {
            return false;
        }
    }
    true
}

/// Source timestamps never decrease along the log.
pub open spec fn sorted_by_source(rides: Seq<RideEvent>) -> bool {
    forall|i: int, j: int|
        0 <= i <= j < rides.len() ==> rides[i].src.timestamp <= rides[j].src.timestamp
}

/// Destination timestamps never decrease along the log.
pub open spec fn sorted_by_destination(rides: Seq<RideEvent>) -> bool {
    forall|i: int, j: int|
        0 <= i <= j < rides.len() ==> rides[i].dst.timestamp <= rides[j].dst.timestamp
}

/// Halving search between `left` and `right` for the first ride whose
/// source timestamp is not before `from`.
pub open spec fn bisect(rides: Seq<RideEvent>, from: u64, left: int, right: int) -> int
    decreases right - left,
{
    if left >= right {
        left
    } else {
        let mid = left + (right - left) / 2;
        if rides[mid].src.timestamp < from {
            bisect(rides, from, mid + 1, right)
        } else {
            bisect(rides, from, left, mid)
        }
    }
}

/// `first` parts the log: every ride before it starts before `from`, and no
/// ride from it on does.
pub open spec fn is_first_not_before(rides: Seq<RideEvent>, from: u64, first: int) -> bool {
    &&& 0 <= first <= rides.len()
    &&& forall|i: int| 0 <= i < first ==> (#[trigger] rides[i]).src.timestamp < from
    &&& forall|i: int| first <= i < rides.len() ==> (#[trigger] rides[i]).src.timestamp >= from
}

/// The search stays within its bounds, and on an ordered log it finds the
/// leftmost ride that does not start before `from`, or the end of the log
/// where there is none.
pub proof fn lemma_bisect(rides: Seq<RideEvent>, from: u64, left: int, right: int)
    requires
        0 <= left <= right <= rides.len(),
    ensures
        left <= bisect(rides, from, left, right) <= right,
        sorted_by_source(rides) && (forall|i: int|
            0 <= i < left ==> (#[trigger] rides[i]).src.timestamp < from) && (forall|i: int|
            right <= i < rides.len() ==> (#[trigger] rides[i]).src.timestamp >= from)
            ==> is_first_not_before(rides, from, bisect(rides, from, left, right)),
    decreases right - left,
{
    if left < right {
        let mid = left + (right - left) / 2;
        if rides[mid].src.timestamp < from {
            lemma_bisect(rides, from, mid + 1, right);
        } else {
            lemma_bisect(rides, from, left, mid);
        }
    }
}

/// On a log of whole records, `record_at` reads what lies at the record's
/// offset.
pub proof fn lemma_record_at(log: Seq<u8>, id: int)
    requires
        0 <= id < record_count(log),
    ensures
        id * RECORD_SIZE + RECORD_SIZE <= log.len(),
        records(log)[id] == record_at(log, id),
{
    assert(id * 28 + 28 <= log.len()) by (nonlinear_arith)
        requires
            0 <= id < log.len() / 28,
    ;
}

/// Reads the record under event id `id`.
fn read_record(log: &[u8], id: usize) -> (ride: RideEvent)
    requires
        id < record_count(log@),
    ensures
        ride == records(log@)[id as int],
{
    let len: usize = log.len();
    proof {
        lemma_record_at(log@, id as int);
    }
    let offset: usize = id * RECORD_SIZE;
    assert(offset + RECORD_SIZE <= len);
    decode_ride(&log[offset..offset + RECORD_SIZE]).unwrap()
}

/// The event id of the first ride whose source timestamp is not before
/// `from`, or the number of rides where every ride starts earlier. The log
/// is searched by halving, which finds that ride if source timestamps never
/// decrease along the log.
pub fn find_first(log: &[u8], from: u64) -> (first: usize)
    ensures
        first == bisect(records(log@), from, 0, record_count(log@) as int),
        first <= record_count(log@),
        sorted_by_source(records(log@)) ==> is_first_not_before(
            records(log@),
            from,
            first as int,
        ),
{
    let count: usize = log.len() / RECORD_SIZE;
    let ghost rides = records(log@);
    let mut left: usize = 0;
    let mut right: usize = count;
    proof {
        lemma_bisect(rides, from, 0, count as int);
    }
    while left < right
        invariant
            left <= right <= count,
            count == record_count(log@),
            rides == records(log@),
            bisect(rides, from, left as int, right as int) == bisect(rides, from, 0, count as int),
        decreases right - left,
    {
        let mid: usize = left + (right - left) / 2;
        let event = read_record(log, mid);
        if event.src.timestamp < from {
            left = mid + 1;
        } else {
            right = mid;
        }
    }
    left
}

/// The rides of a log, each paired with its event id.
pub open spec fn numbered(rides: Seq<RideEvent>) -> Seq<(usize, RideEvent)> {
    Seq::new(rides.len(), |id: int| (id as usize, rides[id]))
}

/// The test that `filter` puts to a ride and its event id.
pub open spec fn selector(filter: RidesFilter) -> spec_fn((usize, RideEvent)) -> bool {
    |item: (usize, RideEvent)| matches_filter(item.1, item.0 as int, filter)
}

/// The rides at or after event id `pos` that pass `filter`, in log order.
pub open spec fn remaining(rides: Seq<RideEvent>, filter: RidesFilter, pos: int) -> Seq<
    (usize, RideEvent),
>
    recommends
        0 <= pos <= rides.len(),
{
    numbered(rides).skip(pos).filter(selector(filter))
}

/// Where a scan starts. A cursor wins over a timestamp: the scan resumes
/// behind the ride last seen. A timestamp alone is searched for by halving.
/// With neither, the scan starts at the first ride.
pub open spec fn seek_position(rides: Seq<RideEvent>, filter: RidesFilter) -> int {
    match filter.last_event_id {
        Some(last) => if last < rides.len() {
            last + 1
        } else {
            rides.len() as int
        },
        None => match filter.from {
            Some(from) => bisect(rides, from, 0, rides.len() as int),
            None => 0,
        },
    }
}

/// The first `limit` items, or all of them where there are fewer.
pub open spec fn capped(items: Seq<(usize, RideEvent)>, limit: usize) -> Seq<(usize, RideEvent)> {
    if items.len() <= limit {
        items
    } else {
        items.take(limit as int)
    }
}

/// What a query returns: the rides that pass the filter from the seek
/// position on, cut off at the limit.
pub open spec fn answer(rides: Seq<RideEvent>, filter: RidesFilter) -> Seq<(usize, RideEvent)> {
    capped(remaining(rides, filter, seek_position(rides, filter)), filter.effective_limit())
}

/// What is left to scan at `pos` is the ride there, if it passes, and then
/// what is left behind it.
pub proof fn lemma_remaining_step(rides: Seq<RideEvent>, filter: RidesFilter, pos: int)
    requires
        0 <= pos <= rides.len(),
        rides.len() <= usize::MAX,
    ensures
        pos == rides.len() ==> remaining(rides, filter, pos).len() == 0,
        pos < rides.len() && matches_filter(rides[pos], pos, filter) ==> remaining(
            rides,
            filter,
            pos,
        ) == seq![(pos as usize, rides[pos])] + remaining(rides, filter, pos + 1),
        pos < rides.len() && !matches_filter(rides[pos], pos, filter) ==> remaining(
            rides,
            filter,
            pos,
        ) == remaining(rides, filter, pos + 1),
{
    let all = numbered(rides);
    if pos < rides.len() {
        let head = (pos as usize, rides[pos]);
        let tail = all.skip(pos + 1);
        assert(all.skip(pos) =~= seq![head] + tail);
        tail.lemma_filter_prepend(head, selector(filter));
    } else {
        assert(all.skip(pos) =~= Seq::<(usize, RideEvent)>::empty());
    }
}

/// A scan over a log in progress. It moves forward only, and yields each
/// ride that passes its filter once, until the limit is reached or the log
/// ends.
pub struct RidesReader<'a> {
    filter: RidesFilter,
    log: &'a [u8],
    pos: usize,
    count: usize,
}

/// What a reader stands for.
pub struct ReaderState {
    /// The filter that the reader was made with.
    pub filter: RidesFilter,
    /// The rides of the log that it reads.
    pub rides: Seq<RideEvent>,
    /// The event id to look at next.
    pub pos: nat,
    /// How many rides it has yielded.
    pub yielded: nat,
}

impl<'a> View for RidesReader<'a> {
    type V = ReaderState;

    closed spec fn view(&self) -> ReaderState {
        ReaderState {
            filter: self.filter,
            rides: records(self.log@),
            pos: self.pos as nat,
            yielded: self.count as nat,
        }
    }
}

impl<'a> RidesReader<'a> {
    #[verifier::type_invariant]
    spec fn inv(self) -> bool {
        self.pos <= record_count(self.log@)
    }

    /// Starts a scan of `log` at the seek position of `filter`.
    pub fn new(filter: RidesFilter, log: &'a [u8]) -> (reader: Self)
        ensures
            reader@.filter == filter,
            reader@.rides == records(log@),
            reader@.pos == seek_position(records(log@), filter),
            reader@.pos <= reader@.rides.len(),
            reader@.yielded == 0,
    {
        let count: usize = log.len() / RECORD_SIZE;
        let pos: usize = match filter.last_event_id {
            Some(last) => if last < count {
                last + 1
            } else {
                count
            },
            None => match filter.from {
                Some(from) => find_first(log, from),
                None => 0,
            },
        };
        RidesReader { filter, log, pos, count: 0 }
    }

    /// The next ride that passes the filter, with its event id; `None` once
    /// the limit is reached or no ride is left. A tail too short for a
    /// record ends the log.
    pub fn next(&mut self) -> (item: Option<(usize, RideEvent)>)
        ensures
            final(self)@.filter == old(self)@.filter,
            final(self)@.rides == old(self)@.rides,
            old(self)@.pos <= final(self)@.pos <= final(self)@.rides.len(),
            ({
                let before = old(self)@;
                let left = remaining(before.rides, before.filter, before.pos as int);
                if before.yielded >= before.filter.effective_limit() {
                    item is None && final(self)@ == before
                } else if left.len() == 0 {
                    &&& item is None
                    &&& final(self)@.pos == before.rides.len()
                    &&& final(self)@.yielded == before.yielded
                } else {
                    &&& item == Some(left[0])
                    &&& before.pos <= left[0].0 < before.rides.len()
                    &&& left[0].1 == before.rides[left[0].0 as int]
                    &&& final(self)@.pos == left[0].0 + 1
                    &&& final(self)@.yielded == before.yielded + 1
                    &&& remaining(before.rides, before.filter, final(self)@.pos as int)
                        == left.skip(1)
                }
            }),
    {
        proof {
            use_type_invariant(&*self);
        }
        if self.count >= self.filter.effective_limit() {
            return None;
        }
        let len: usize = self.log.len();
        let ghost rides = records(self.log@);
        let ghost start = self.pos as int;
        loop
            invariant
                self.filter == old(self).filter,
                self.log == old(self).log,
                self.count == old(self).count,
                self.count < self.filter.effective_limit(),
                len == self.log@.len(),
                rides == records(self.log@),
                start == old(self).pos,
                start <= self.pos <= rides.len(),
                remaining(rides, self.filter, self.pos as int) == remaining(
                    rides,
                    self.filter,
                    start,
                ),
            decreases rides.len() - self.pos,
        {
            proof {
                lemma_remaining_step(rides, self.filter, self.pos as int);
                if self.pos < rides.len() {
                    lemma_record_at(self.log@, self.pos as int);
                }
                assert(self.pos * 28 <= len && (self.pos == rides.len() ==> len - self.pos * 28
                    < 28)) by (nonlinear_arith)
                    requires
                        self.pos <= len / 28,
                        rides.len() == len / 28,
                ;
            }
            let offset: usize = self.pos * RECORD_SIZE;
            if offset >= len {
                return None;
            }
            let end: usize = if len - offset < RECORD_SIZE {
                len
            } else {
                offset + RECORD_SIZE
            };
            match decode_ride(&self.log[offset..end]) {
                Err(_) => {
                    return None;
                },
                Ok(ride) => {
                    let event_id: usize = self.pos;
                    self.pos = self.pos + 1;
                    if ride_matches(&ride, event_id, &self.filter) {
                        proof {
                            let left = remaining(rides, self.filter, start);
                            assert(left.skip(1) =~= remaining(
                                rides,
                                self.filter,
                                event_id + 1,
                            ));
                        }
                        self.count = self.count + 1;
                        return Some((event_id, ride));
                    }
                },
            }
        }
    }
}

/// Appending a record to a log of whole records adds its ride under the
/// next event id and leaves every earlier ride as it was.
pub proof fn lemma_records_push(log: Seq<u8>, ride: RideEvent)
    requires
        log.len() % (RECORD_SIZE as nat) == 0,
    ensures
        (log + record_bytes(ride)).len() % (RECORD_SIZE as nat) == 0,
        records(log + record_bytes(ride)) == records(log).push(ride),
{
    let longer = log + record_bytes(ride);
    let count = record_count(log) as int;
    lemma_record_round_trip(ride, Seq::empty());
    assert(record_bytes(ride) + Seq::<u8>::empty() =~= record_bytes(ride));
    assert(log.len() == count * 28);
    assert(longer.len() == (count + 1) * 28);
    assert(record_count(longer) == count + 1);
    assert forall|id: int| 0 <= id < count + 1 implies #[trigger] records(longer)[id] == records(
        log,
    ).push(ride)[id] by {
        if id < count {
            assert(id * 28 + 28 <= log.len()) by (nonlinear_arith)
                requires
                    0 <= id < count,
                    log.len() == count * 28,
            ;
            assert(longer.subrange(id * 28, id * 28 + 28) =~= log.subrange(id * 28, id * 28 + 28));
        } else {
            assert(longer.subrange(id * 28, id * 28 + 28) =~= record_bytes(ride));
        }
    }
    assert(records(longer) =~= records(log).push(ride));
}

/// Round trip: a log made of rides holds exactly those rides, each under
/// the event id that is its position, with every field as it was written.
pub proof fn law_written_rides_read_back(rides: Seq<RideEvent>)
    ensures
        log_bytes(rides).len() == rides.len() * RECORD_SIZE,
        records(log_bytes(rides)) == rides,
    decreases rides.len(),
{
    if rides.len() == 0 {
        assert(records(log_bytes(rides)) =~= rides);
    } else {
        let earlier = rides.drop_last();
        law_written_rides_read_back(earlier);
        assert(log_bytes(earlier).len() % 28 == 0) by (nonlinear_arith)
            requires
                log_bytes(earlier).len() == earlier.len() * 28,
        ;
        lemma_records_push(log_bytes(earlier), rides.last());
        lemma_record_round_trip(rides.last(), Seq::empty());
        assert(earlier.push(rides.last()) =~= rides);
        assert(log_bytes(rides).len() == rides.len() * 28) by (nonlinear_arith)
            requires
                log_bytes(rides).len() == log_bytes(earlier).len() + 28,
                log_bytes(earlier).len() == earlier.len() * 28,
                earlier.len() == rides.len() - 1,
        ;
    }
}

} // verus!
