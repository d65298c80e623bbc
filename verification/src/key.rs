//! Keys, queries and query results.
//!
//! A key is the ordered triple `(asset_id, date, timestamp)` of 32-bit
//! unsigned integers, compared lexicographically. Values are carried as the
//! big-endian bit pattern of an IEEE-754 single-precision float, so the
//! verified code never touches floating point itself.

use vstd::prelude::*;

verus! {

pub type AssetId = u32;

pub type Date = u32;

pub type Timestamp = u32;

pub type PageNumber = u32;

/// The bit pattern of an IEEE-754 single-precision value.
pub type ValueBits = u32;

/// An entry key: `(asset_id, date, timestamp)`, ordered lexicographically.
#[derive(PartialEq, Eq, Structural, Clone, Copy, Debug)]
pub struct Key {
    pub asset_id: AssetId,
    pub date: Date,
    pub timestamp: Timestamp,
}

/// Strict lexicographic order on `(asset_id, date, timestamp)`.
pub open spec fn key_lt(a: Key, b: Key) -> bool {
    a.asset_id < b.asset_id || (a.asset_id == b.asset_id && (a.date < b.date || (a.date == b.date
        && a.timestamp < b.timestamp)))
}

pub open spec fn key_le(a: Key, b: Key) -> bool {
    key_lt(a, b) || a == b
}

impl Key {
    pub fn new(asset_id: AssetId, date: Date, timestamp: Timestamp) -> (k: Key)
        ensures
            k == (Key { asset_id, date, timestamp }),
    {
        Key { asset_id, date, timestamp }
    }

    /// Strict lexicographic comparison.
    pub fn lt(&self, other: &Key) -> (r: bool)
        ensures
            r == key_lt(*self, *other),
    {
        self.asset_id < other.asset_id || (self.asset_id == other.asset_id && (self.date
            < other.date || (self.date == other.date && self.timestamp < other.timestamp)))
    }
}

/// A point-in-time range query: for each date in `[start_date, end_date]`,
/// the observation of `asset_id` with the largest timestamp not exceeding
/// `timestamp`.
#[derive(PartialEq, Eq, Structural, Clone, Copy, Debug)]
pub struct Query {
    pub id: usize,
    pub asset_id: AssetId,
    pub start_date: Date,
    pub end_date: Date,
    pub timestamp: Timestamp,
}

/// One yielded observation.
#[derive(PartialEq, Eq, Structural, Clone, Copy, Debug)]
pub struct QueryResult {
    pub id: usize,
    pub key: Key,
    pub value: ValueBits,
}

/// The probe key a query descends with: `(asset_id, end_date, timestamp)`.
pub open spec fn probe_key(q: Query) -> Key {
    Key { asset_id: q.asset_id, date: q.end_date, timestamp: q.timestamp }
}

/// Errors surfaced by building, opening and traversing a tree.
#[derive(PartialEq, Eq, Structural, Clone, Copy, Debug)]
pub enum TreeError {
    /// The file header is missing, or its fields contradict the file size.
    MalformedHeader,
    /// A page reference or page header read during traversal is invalid.
    MalformedPage,
    /// The loader was handed no entries at all.
    EmptySource,
}

} // verus!
