//! Cover-traffic policy. Cover datagrams use TYPE=Data with random bytes so
//! they are indistinguishable from encrypted payloads to a path observer *by
//! content* (both are uniformly random bytes). Their idle interval and length
//! are drawn per packet from the ranges below, a partial mitigation against
//! naive timing and size correlation on a single path, not a defence against
//! a global passive adversary. Receivers drop cover packets because Noise
//! decryption fails (they were never Noise-sealed to begin with).

use vstd::prelude::*;

verus! {

/// Cover-traffic mode.
#[derive(Clone, Copy, Debug, PartialEq, Eq, Structural, Default)]
pub enum CoverMode {
    /// No cover packets.
    #[default]
    Off,
    /// ~200 ms idle cadence, small-to-medium random payloads.
    Balanced,
    /// ~50 ms idle cadence.
    Stealth,
}

/// The idle-interval range of each mode, in milliseconds.
pub open spec fn cover_interval(m: CoverMode) -> Option<(u64, u64)> {
    match m {
        CoverMode::Off => None,
        CoverMode::Balanced => Some((120u64, 280u64)),
        CoverMode::Stealth => Some((30u64, 70u64)),
    }
}

/// The payload-length range of each mode, in bytes.
pub open spec fn cover_payload_range(m: CoverMode) -> (usize, usize) {
    match m {
        CoverMode::Off => (0usize, 0usize),
        CoverMode::Balanced => (16usize, 512usize),
        CoverMode::Stealth => (16usize, 256usize),
    }
}

impl CoverMode {
    /// Inclusive range, in milliseconds, that the idle interval before the
    /// next cover packet is drawn from (uniformly, per packet), or `None` if
    /// cover is off.
    pub fn interval_range(self) -> (r: Option<(u64, u64)>)
        ensures
            r == cover_interval(self),
            r matches Some(p) ==> p.0 <= p.1,
    {
        match self {
            CoverMode::Off => None,
            CoverMode::Balanced => Some((120, 280)),
            CoverMode::Stealth => Some((30, 70)),
        }
    }

    /// Inclusive byte-length range a cover payload's length is drawn from
    /// (uniformly, per packet).
    pub fn payload_len_range(self) -> (r: (usize, usize))
        ensures
            r == cover_payload_range(self),
            r.0 <= r.1,
    {
        match self {
            CoverMode::Off => (0, 0),
            CoverMode::Balanced => (16, 512),
            CoverMode::Stealth => (16, 256),
        }
    }
}


/// Each mode's idle interval, in milliseconds: none when cover is off,
/// 120 to 280 for Balanced (about 200 on average), 30 to 70 for Stealth
/// (about 50), so Balanced waits four times as long as Stealth.
pub proof fn lemma_cover_intervals(m: CoverMode)
    ensures
        cover_interval(m) is None <==> m == CoverMode::Off,
        m == CoverMode::Balanced ==> cover_interval(m) == Some((120u64, 280u64)),
        m == CoverMode::Stealth ==> cover_interval(m) == Some((30u64, 70u64)),
        cover_interval(m) matches Some((lo, hi)) ==> lo + hi == 2 * (if m == CoverMode::Balanced { 200int } else { 50int }),
        (cover_interval(CoverMode::Balanced), cover_interval(CoverMode::Stealth)) matches (Some((b_lo, b_hi)), Some((s_lo, s_hi)))
            && b_lo == 4 * s_lo && b_hi == 4 * s_hi,
{
}

} // verus!
