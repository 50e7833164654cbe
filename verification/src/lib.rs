//! A peer-to-peer trust node: a ledger of first-hand economic experiences,
//! volume-weighted trust scores with age decay, and a fan-out / fan-in
//! coordinator that fuses local data with opinions gathered from peers.
//!
//! All monetary magnitudes, ROI ratios, recommender qualities and decay rates
//! are fixed-point values in micro-units: `1_000_000` stands for `1.0`.
//! Timestamps are seconds since the Unix epoch.
use vstd::prelude::*;

pub mod types;
pub mod score;
pub mod engine;
pub mod store;
pub mod node;
pub mod codec;
pub mod export;
pub mod outside;

verus! {

/// Micro-units per whole unit: the fixed-point scale of every ratio and
/// volume in this crate.
pub const SCALE: u64 = 1_000_000;

/// Largest ROI magnitude (in micro-units) a stored or transmitted score may
/// carry: a million-fold return. Keeps fusion arithmetic inside `i128`.
pub const ROI_CAP: i64 = 1_000_000_000_000;

/// Largest volume (in micro-units) a single score may carry, and the cap on
/// the summed invested volume of one agent's experiences: a billion whole
/// units. Keeps volume sums inside `u64`.
pub const VOL_CAP: u64 = 1_000_000_000_000_000;

/// Largest data-point count a single score may carry. Equal to `VOL_CAP`:
/// every experience weighs at least one micro-unit, so an agent can never
/// accumulate more contributing experiences than `VOL_CAP`.
pub const DP_CAP: u64 = 1_000_000_000_000_000;

/// Largest forget rate (micro-units of decay per year) a query may carry.
pub const PHI_CAP: i64 = 1_000_000_000_000;

/// Latest representable timestamp: the last second of year 9999.
pub const TS_CAP: i64 = 253_402_300_800;

/// Most peers the registry accepts. Bounds the number of contributions that
/// can pile up under one agent during fan-in.
pub const MAX_PEERS: usize = 4096;

/// Most contributions one fusion step accepts: one local entry plus one
/// cached opinion and one fan-in response per registered peer fit with room
/// to spare, and the summed effective volume still fits in `u64`.
pub const MAX_CONTRIBS: usize = 16384;

/// Most in-flight queries the coordinator tolerates before answering new
/// ones with a busy error.
pub const MAX_PENDING: usize = 1024;

/// Most dial attempts one reconnect tick may spend.
pub const MAX_CONNECTION_ATTEMPTS: usize = 5;

/// Error taxonomy of the node. Every command reply carries one of these on
/// failure; the neutral score is never reported as an error.
#[derive(Clone, Copy, PartialEq, Eq, Structural, Debug)]
pub enum TrustError {
    /// Malformed identifier, non-positive or oversized volume, out-of-range
    /// rate or timestamp: rejected at the boundary.
    Input,
    /// Duplicate peer handle.
    Conflict,
    /// The registry or the pending-request table is full.
    Busy,
    /// Every fanned-out sub-query failed and no local data was available.
    AllRequestsFailed,
}

} // verus!
