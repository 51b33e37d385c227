//! curvepress — lossy time series compression (point reduction + quantization
//! + varint packing).
//!
//! This crate holds the integer core of the pipeline: the varint and zigzag
//! codecs, the self-describing byte stream (header framing, code and
//! timestamp streams), input validation, kept-point selection, the range
//! splitting of Ramer-Douglas-Peucker, the removal order of
//! Visvalingam-Whyatt and the radial pre-filter pass (over order-preserving
//! keys of the floating-point distances and areas, and the radius test), and
//! the sample location and grid of linear interpolation.
pub mod error;
pub mod frame;
pub mod heap;
pub mod le;
pub mod radial;
pub mod rdp;
pub mod series;
pub mod varint;
pub mod vw;

pub use error::CpError;

use vstd::prelude::*;

verus! {

/// Point-reduction algorithm.
#[derive(Debug, Clone, Copy, PartialEq, Eq, Structural)]
pub enum Algo {
    /// Ramer-Douglas-Peucker (epsilon-based). Default.
    Rdp,
    /// Visvalingam-Whyatt (target-count-based, O(n log n)).
    Vw,
    /// RDP with binary-searched epsilon to hit a target point count.
    RdpN,
}

/// Timestamp encoding mode.
#[derive(Debug, Clone, Copy, PartialEq, Eq, Structural)]
pub enum TsMode {
    /// Timestamps are uniformly spaced; encode t0 + interval + index stream
    /// (the interval is the greatest common divisor of the kept differences).
    Regular,
    /// Timestamps are irregularly spaced; encode delta stream. Default.
    Irregular,
}

impl Algo {
    /// The algorithm's number in the stream header and in the bindings:
    /// 0 = RDP, 1 = VW, 2 = RDP-N.
    pub open spec fn spec_code(self) -> u8 {
        match self {
            Algo::Rdp => 0,
            Algo::Vw => 1,
            Algo::RdpN => 2,
        }
    }

    /// See [`Algo::spec_code`].
    #[verifier::when_used_as_spec(spec_code)]
    pub fn code(self) -> (c: u8)
        ensures
            c == self.spec_code(),
    {
        match self {
            Algo::Rdp => 0,
            Algo::Vw => 1,
            Algo::RdpN => 2,
        }
    }
}

impl TsMode {
    /// The mode's number in the bindings: 1 = Regular, 0 = Irregular.
    pub fn code(self) -> (c: u32)
        ensures
            c == (if self == TsMode::Regular { 1u32 } else { 0u32 }),
    {
        match self {
            TsMode::Regular => 1,
            TsMode::Irregular => 0,
        }
    }
}

/// The algorithm a binding's number selects: 1 = VW, 2 = RDP-N, anything
/// else RDP.
pub fn algo_from_u32(a: u32) -> (algo: Algo)
    ensures
        algo == (if a == 1 {
            Algo::Vw
        } else if a == 2 {
            Algo::RdpN
        } else {
            Algo::Rdp
        }),
{
    match a {
        1 => Algo::Vw,
        2 => Algo::RdpN,
        _ => Algo::Rdp,
    }
}

/// The timestamp mode a binding's number selects: 1 = Regular, anything
/// else Irregular.
pub fn ts_mode_from_u32(m: u32) -> (mode: TsMode)
    ensures
        mode == (if m == 1 { TsMode::Regular } else { TsMode::Irregular }),
{
    if m == 1 {
        TsMode::Regular
    } else {
        TsMode::Irregular
    }
}

/// Every algorithm's number selects that algorithm again.
pub proof fn algo_code_roundtrip(algo: Algo)
    ensures
        ({
            let c = algo.spec_code() as u32;
            (if c == 1 {
                Algo::Vw
            } else if c == 2 {
                Algo::RdpN
            } else {
                Algo::Rdp
            }) == algo
        }),
{
}

/// Semver string of this build.
pub fn version() -> (v: &'static str)
    ensures
        v@ == "0.2.0"@,
{
    "0.2.0"
}

} // verus!
