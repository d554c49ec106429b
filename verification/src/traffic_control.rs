//! Rate limiting configuration for the transport layer.

use vstd::prelude::*;

verus! {

/// A byte count, as rates and bucket sizes are configured.
#[derive(Clone, Copy, Debug, PartialEq, Eq, Structural)]
pub struct HumanByte {
    pub bytes: u64,
}

/// Token-bucket limits for one direction pair.
pub struct RateLimitConfig {
    /// Bytes per second taken in.
    pub rate_in: Option<HumanByte>,
    /// Bucket size for data taken in.
    pub burst_in: Option<HumanByte>,
    /// Bytes per second sent out.
    pub rate_out: Option<HumanByte>,
    /// Bucket size for data sent out.
    pub burst_out: Option<HumanByte>,
}

impl RateLimitConfig {
    /// The same rate and burst in both directions.
    pub fn with_same_inout(rate: Option<HumanByte>, burst: Option<HumanByte>) -> (r:
        RateLimitConfig)
        ensures
            r.rate_in == rate,
            r.burst_in == burst,
            r.rate_out == rate,
            r.burst_out == burst,
    {
        RateLimitConfig { rate_in: rate, burst_in: burst, rate_out: rate, burst_out: burst }
    }
}

/// One traffic-control rule: limits for the clients of some networks,
/// optionally during given times.
pub struct TrafficControlRule {
    pub name: String,
    pub comment: Option<String>,
    /// The rule applies to clients within these networks.
    pub network: Vec<String>,
    pub limit: RateLimitConfig,
    /// When the rule is active, if not always.
    pub timeframe: Option<Vec<String>>,
}

} // verus!
