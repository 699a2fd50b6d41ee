//! Ride events derived from periodic snapshots of a shared-bike fleet, the
//! append-only binary log that holds them, and the queries that read it back.
//!
//! A snapshot ([`input`]) lists the bikes that stand at each station. The
//! engine ([`processor`]) remembers where each bike was last seen
//! ([`tracking`]) and which stations exist ([`stations`]), and turns a
//! snapshot into rides: a bike seen at one station and next at another. A
//! ride becomes a record of 28 bytes ([`rides`], [`endian`]); its position in
//! the log is its event id. A query ([`api`]) scans the log from a cursor or
//! from a point in time. Stored snapshots are replayed oldest first
//! ([`offline`]), and station names are shown without their decoration
//! ([`names`]).
//!
//! Nothing here touches a file, a socket or a clock: the caller reads and
//! writes, and hands over bytes and timestamps.

pub mod api;
pub mod endian;
pub mod input;
pub mod names;
pub mod offline;
pub mod processor;
pub mod rides;
pub mod stations;
pub mod tracking;
