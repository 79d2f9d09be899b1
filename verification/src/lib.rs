//! Dominant speaker identification over RFC 6464 audio levels.
//!
//! The integer core of the three-time-scale subband comparison of Volfin and
//! Cohen: per-peer level ring buffers, adaptive noise-floor tracking, subband
//! downsampling, the binomial coefficients behind the activity scores, and
//! the room state (registration, idle timeouts, who is dominant).

pub mod detector;
pub mod numerics;
pub mod speaker;

use vstd::prelude::*;

verus! {

/// Immediate subband count used by default (N1).
pub const N1: u8 = 13;
/// Medium subband count used by default (N2).
pub const N2: u8 = 5;
/// Long subband count used by default (N3).
pub const N3: u8 = 10;
/// Milliseconds before a stale level entry is replaced with silence.
pub const LEVEL_IDLE_TIMEOUT_MS: u64 = 40;
/// Milliseconds before an idle non-dominant speaker is paused (one hour).
pub const SPEAKER_IDLE_TIMEOUT_MS: u64 = 3_600_000;
/// Threshold used when computing `longs` from `mediums`.
pub const LONG_THRESHOLD: u8 = 4;
/// Threshold used when computing `mediums` from `immediates`.
pub const MEDIUM_THRESHOLD: u8 = 7;
/// Maximum volume level.
pub const MAX_LEVEL: u8 = 127;
/// Minimum volume level (silence).
pub const MIN_LEVEL: u8 = 0;
/// Observations after which the noise floor moves to the geometric mean of
/// the old floor and the smallest level seen since.
pub const MIN_LEVEL_WINDOW_LEN: u32 = 750;
/// Length of the immediate-activity buffer.
pub const IMMEDIATE_BUFF_LEN: usize = 50;
/// Length of the medium-activity buffer.
pub const MEDIUMS_BUFF_LEN: usize = 10;
/// Length of the long-activity buffer.
pub const LONGS_BUFF_LEN: usize = 1;
/// Length of the raw level ring buffer.
pub const LEVELS_BUFF_LEN: usize = 50;
/// Milliseconds of level history one ring-buffer slot stands for.
pub const LEVEL_SLOT_MS: u64 = 20;
/// Recommended tick cadence in milliseconds.
pub const TICK_INTERVAL_MS: u64 = 300;

/// Compute the subband width for a given immediate subband count:
/// `ceil(128 / n1)`, with `n1 == 0` treated as `1`.
pub open spec fn spec_subunit_len(n1: u8) -> int {
    let n: int = if n1 == 0 { 1 } else { n1 as int };
    (128 + n - 1) / n
}

/// Subband width for `n1` immediate subbands: `ceil(128 / max(n1, 1))`.
pub fn subunit_len_for(n1: u8) -> (w: u8)
    ensures
        w == spec_subunit_len(n1),
        1 <= w <= 128,
{
    let n: u16 = if n1 < 1 { 1 } else { n1 as u16 };
    let w: u16 = (128u16 + n - 1) / n;
    assert(1 <= w <= 128) by (nonlinear_arith)
        requires
            1 <= n <= 255,
            w == (128 + n - 1) / (n as int),
    ;
    w as u8
}

} // verus!
