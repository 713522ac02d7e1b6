//! Device and network capability snapshot.

use crate::tracker::Throughput;
use vstd::prelude::*;

verus! {

/// What a device and its network were measured to sustain.
#[derive(Debug, Clone, Copy, PartialEq, Eq)]
pub struct CapabilityEnvelope {
    pub max_safe_urgent_workers: u32,
    pub max_safe_prefetch_workers: u32,
    pub max_safe_urgent_chunk_bytes: u64,
    pub max_safe_prefetch_chunk_bytes: u64,
    pub sustained_throughput: Throughput,
    pub p10_throughput: Option<Throughput>,
    pub seek_ttfb_p50_ms: Option<u64>,
    /// In tenths: 0 is perfectly stable, 10 is very unstable.
    pub stability_penalty_tenths: u32,
    pub supports_range_requests: bool,
    /// Milliseconds since the Unix epoch, zero where nothing was measured.
    pub measured_at_ms: u64,
}

/// Whether range requests are taken to be supported where nothing is said of it.
pub fn default_true() -> (res: bool)
    ensures
        res,
{
    true
}

impl CapabilityEnvelope {
    /// The envelope to assume before anything was measured: 50 megabits per
    /// second, two urgent workers with 8 MB chunks, and one prefetch worker
    /// with 16 MB chunks.
    pub fn default_envelope() -> (res: Self)
        ensures
            res == (CapabilityEnvelope {
                max_safe_urgent_workers: 2,
                max_safe_prefetch_workers: 1,
                max_safe_urgent_chunk_bytes: 8_388_608,
                max_safe_prefetch_chunk_bytes: 16_777_216,
                sustained_throughput: Throughput { bytes: 6_250, elapsed_ms: 1 },
                p10_throughput: None,
                seek_ttfb_p50_ms: None,
                stability_penalty_tenths: 5,
                supports_range_requests: true,
                measured_at_ms: 0,
            }),
            !res.measured(),
    {
        Self {
            max_safe_urgent_workers: 2,
            max_safe_prefetch_workers: 1,
            max_safe_urgent_chunk_bytes: 8_388_608,
            max_safe_prefetch_chunk_bytes: 16_777_216,
            sustained_throughput: Throughput { bytes: 6_250, elapsed_ms: 1 },
            p10_throughput: None,
            seek_ttfb_p50_ms: None,
            stability_penalty_tenths: 5,
            supports_range_requests: default_true(),
            measured_at_ms: 0,
        }
    }

    /// The envelope comes from a measurement.
    pub open spec fn measured(self) -> bool {
        self.measured_at_ms > 0
    }

    /// Whether the envelope comes from a measurement.
    pub fn is_measured(&self) -> (res: bool)
        ensures
            res == self.measured(),
    {
        self.measured_at_ms > 0
    }
}

/// An envelope is measured if and only if it has a time of measurement.
pub proof fn measurement_has_a_time(envelope: CapabilityEnvelope)
    ensures
        envelope.measured() <==> envelope.measured_at_ms != 0,
{
}

} // verus!
