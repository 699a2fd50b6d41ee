//! Replay of stored snapshots: which files hold a snapshot, and in which
//! order they are to be fed to the engine.
//!
//! A stored snapshot is a file named by the timestamp at which it was
//! fetched. The engine wants its snapshots oldest first.

use vstd::prelude::*;

verus! {

/// A snapshot file: its place in the listing it was found in, and the
/// timestamp that its name spells.
#[derive(Debug, Clone, Copy, PartialEq, Eq, Structural)]
pub struct JsonFile {
    pub index: usize,
    pub timestamp: u64,
}

/// Whether `c` is one of the ten digits `0` to `9`.
pub open spec fn is_decimal_digit(c: char) -> bool {
    '0' <= c && c <= '9'
}

/// The number that a run of digits spells in base ten.
pub open spec fn decimal_value(digits: Seq<char>) -> nat
    decreases digits.len(),
{
    if digits.len() == 0 {
        0
    } else {
        10 * decimal_value(digits.drop_last()) + (digits.last() as u32 - '0' as u32) as nat
    }
}

/// Whether `digits` holds digits and nothing else.
pub open spec fn all_decimal_digits(digits: Seq<char>) -> bool {
    forall|i: int| 0 <= i < digits.len() ==> is_decimal_digit(#[trigger] digits[i])
}

/// The number that one or more digits spell, if it fits 64 bits.
pub open spec fn spelled_u64(digits: Seq<char>) -> Option<u64> {
    if digits.len() > 0 && all_decimal_digits(digits) && decimal_value(digits) <= u64::MAX {
        Some(decimal_value(digits) as u64)
    } else {
        None
    }
}

/// The number that `text` spells: a plus sign or none, then one or more
/// digits and nothing else, with a value that fits 64 bits. `None` for any
/// other text.
pub open spec fn parsed_u64(text: Seq<char>) -> Option<u64> {
    if text.len() > 0 && text[0] == '+' {
        spelled_u64(text.drop_first())
    } else {
        spelled_u64(text)
    }
}

/// Calls `str::parse::<u64>`. Trusted, as the standard library documents the
/// parsing of an unsigned integer: it takes an optional plus sign followed by
/// digits only, and it is an error if the text is empty, holds anything else,
/// or spells a number too large for the type.
#[verifier::external_body]
fn parse_u64(text: &str) -> (number: Option<u64>)
    ensures
        number == parsed_u64(text@),
{
    text.parse::<u64>().ok()
}

/// `earlier` stands before `later` somewhere in `files`.
pub open spec fn stands_before(files: Seq<JsonFile>, earlier: JsonFile, later: JsonFile) -> bool {
    exists|p: int, q: int|
        0 <= p < q < files.len() && #[trigger] files[p] == earlier && #[trigger] files[q] == later
}

/// Calls `slice::sort_by_key` with the timestamp as the key. Trusted, as the
/// standard library documents its stable sort: the files are the same, their
/// timestamps never decrease, and two files with one timestamp stand as they
/// stood before.
#[verifier::external_body]
fn sort_by_timestamp(files: &mut Vec<JsonFile>)
    ensures
        final(files)@.to_multiset() == old(files)@.to_multiset(),
        forall|i: int, j: int|
            0 <= i < j < final(files)@.len() ==> final(files)@[i].timestamp
                <= final(files)@[j].timestamp,
        forall|i: int, j: int|
            0 <= i < j < final(files)@.len() && final(files)@[i].timestamp
                == final(files)@[j].timestamp ==> stands_before(
                old(files)@,
                final(files)@[i],
                final(files)@[j],
            ),
{
    files.sort_by_key(|file| file.timestamp);
}

/// Whether `file` is entry `file.index` of a listing, and that entry has
/// the timestamp `file.timestamp`.
pub open spec fn is_listed(timestamps: Seq<Option<u64>>, file: JsonFile) -> bool {
    &&& file.index < timestamps.len()
    &&& timestamps[file.index as int] == Some(file.timestamp)
}

/// `files` are in replay order: oldest first, and files of one timestamp in
/// the order of the listing.
pub open spec fn in_replay_order(files: Seq<JsonFile>) -> bool {
    forall|k: int, l: int|
        0 <= k < l < files.len() ==> files[k].timestamp < files[l].timestamp || (
        files[k].timestamp == files[l].timestamp && files[k].index < files[l].index)
}

/// `files` are exactly the entries of the listing that have a timestamp,
/// each once, in replay order.
pub open spec fn is_replay_of(timestamps: Seq<Option<u64>>, files: Seq<JsonFile>) -> bool {
    &&& forall|k: int| 0 <= k < files.len() ==> is_listed(timestamps, #[trigger] files[k])
    &&& forall|i: int|
        0 <= i < timestamps.len() ==> (#[trigger] timestamps[i] matches Some(timestamp)
            ==> files.contains(JsonFile { index: i as usize, timestamp }))
    &&& in_replay_order(files)
}

/// Puts the entries of a listing in replay order. Entry `i` is given by its
/// timestamp, or by `None` where it is no snapshot file; such an entry is
/// left out.
pub fn replay_order(timestamps: &Vec<Option<u64>>) -> (files: Vec<JsonFile>)
    ensures
        is_replay_of(timestamps@, files@),
{
    let mut files: Vec<JsonFile> = Vec::new();
    let mut i: usize = 0;
    while i < timestamps.len()
        invariant
            i <= timestamps@.len(),
            forall|k: int|
                0 <= k < files@.len() ==> is_listed(timestamps@, #[trigger] files@[k])
                    && files@[k].index < i,
            forall|j: int|
                0 <= j < i ==> (#[trigger] timestamps@[j] matches Some(timestamp)
                    ==> files@.contains(JsonFile { index: j as usize, timestamp })),
            forall|k: int, l: int| 0 <= k < l < files@.len() ==> files@[k].index < files@[l].index,
        decreases timestamps@.len() - i,
    {
        let ghost before = files@;
        if let Some(timestamp) = timestamps[i] {
            files.push(JsonFile { index: i, timestamp });
            proof {
                assert(files@[before.len() as int] == JsonFile { index: i, timestamp });
                assert forall|j: int| 0 <= j < i + 1 implies (
                #[trigger] timestamps@[j] matches Some(timestamp) ==> files@.contains(
                    JsonFile { index: j as usize, timestamp },
                )) by {
                    if let Some(found) = timestamps@[j] {
                        let file = JsonFile { index: j as usize, timestamp: found };
                        if j < i {
                            assert(before.contains(file));
                            let k = choose|k: int| 0 <= k < before.len() && before[k] == file;
                            assert(files@[k] == file);
                        }
                    }
                }
            }
        }
        i = i + 1;
    }
    let ghost listed = files@;
    sort_by_timestamp(&mut files);
    proof {
        listed.to_multiset_ensures();
        files@.to_multiset_ensures();
        assert forall|k: int| 0 <= k < files@.len() implies is_listed(
            timestamps@,
            #[trigger] files@[k],
        ) by {
            assert(files@.contains(files@[k]));
            assert(files@.to_multiset().count(files@[k]) > 0);
            assert(listed.to_multiset().count(files@[k]) > 0);
            assert(listed.contains(files@[k]));
        }
        assert forall|i: int| 0 <= i < timestamps@.len() implies (
        #[trigger] timestamps@[i] matches Some(timestamp) ==> files@.contains(
            JsonFile { index: i as usize, timestamp },
        )) by {
            if let Some(found) = timestamps@[i] {
                let file = JsonFile { index: i as usize, timestamp: found };
                assert(listed.contains(file));
                assert(listed.to_multiset().count(file) > 0);
                assert(files@.to_multiset().count(file) > 0);
            }
        }
        assert forall|k: int, l: int| 0 <= k < l < files@.len() implies files@[k].timestamp
            < files@[l].timestamp || (files@[k].timestamp == files@[l].timestamp
            && files@[k].index < files@[l].index) by {
            if files@[k].timestamp == files@[l].timestamp {
                assert(stands_before(listed, files@[k], files@[l]));
            }
        }
    }
    files
}

/// The timestamp that each file stem of a listing spells, or `None` for a
/// stem that is no number.
pub open spec fn stem_timestamps(stems: Seq<String>) -> Seq<Option<u64>> {
    Seq::new(stems.len(), |i: int| parsed_u64(stems[i]@))
}

/// Picks the snapshot files out of a listing of file stems and puts them in
/// replay order. A file whose stem is no number is left out.
pub fn order_files(stems: &Vec<String>) -> (files: Vec<JsonFile>)
    ensures
        is_replay_of(stem_timestamps(stems@), files@),
{
    let mut timestamps: Vec<Option<u64>> = Vec::with_capacity(stems.len());
    let mut i: usize = 0;
    while i < stems.len()
        invariant
            i <= stems@.len(),
            timestamps@ == stem_timestamps(stems@).take(i as int),
        decreases stems@.len() - i,
    {
        timestamps.push(parse_u64(stems[i].as_str()));
        proof {
            assert(timestamps@ =~= stem_timestamps(stems@).take(i + 1));
        }
        i = i + 1;
    }
    proof {
        assert(timestamps@ =~= stem_timestamps(stems@));
    }
    replay_order(&timestamps)
}

} // verus!
