//! The slider constants of white balance, as exact decimals.
//!
//! Temperature is expressed in mireds rather than kelvin so that a slider step
//! is perceptually even: 100 K at 3000 K is a large shift, at 10000 K it is
//! invisible.

use vstd::prelude::*;

verus! {

/// Mireds per unit of slider travel, in tenths of a mired (1.5), so the full
/// -100..100 range spans roughly 2900 K to 20000 K from the working space
/// white.
pub const MIREDS_PER_STEP_TENTHS: i64 = 15;

/// Divisor the adjustment plumbing applies to temperature before values
/// reach the shader.
pub const TEMPERATURE_SCALE: i64 = 25;

/// Divisor the adjustment plumbing applies to tint before values reach the
/// shader.
pub const TINT_SCALE: i64 = 100;

/// Temperature in kelvin of the working space white, which is where the
/// shot's own neutral was pinned during develop and so where the sliders
/// move from.
pub const ORIGIN_CCT: i64 = 5003;

/// Slider units of tint per 0.01 of CIE 1960 v, in ten-thousandths (0.0003).
pub const TINT_V_PER_STEP_E4: i64 = 3;

/// Smallest Z the target illuminant may have, in hundredths (0.05).
pub const TARGET_MIN_Z_HUNDREDTHS: i64 = 5;

/// The shader's mireds per step: the per-slider step times the plumbing's
/// divisor, which the shader has to carry. 37.5, in tenths.
pub proof fn lemma_shader_mireds_per_step()
    ensures
        MIREDS_PER_STEP_TENTHS * TEMPERATURE_SCALE == 375,
{
}

/// The shader's tint step: the per-slider step times the plumbing's divisor.
/// 0.03, in ten-thousandths.
pub proof fn lemma_shader_tint_v_per_step()
    ensures
        TINT_V_PER_STEP_E4 * TINT_SCALE == 300,
{
}

/// The temperature reached from the origin after `travel` slider steps,
/// `1e6 / (1e6 / ORIGIN_CCT - travel * MIREDS_PER_STEP)`, as the fraction
/// `travel_cct_numerator() / travel_cct_denominator(travel)`.
pub open spec fn travel_cct_numerator() -> int {
    10_000_000 * ORIGIN_CCT
}

/// See `travel_cct_numerator`.
pub open spec fn travel_cct_denominator(travel: int) -> int {
    10_000_000 - travel * MIREDS_PER_STEP_TENTHS * ORIGIN_CCT
}

/// Full slider travel spans a useful range: the warm end passes 15000 K and
/// the cool end lands between 2500 K and 3500 K.
pub proof fn lemma_full_travel_spans_a_useful_range()
    ensures
        travel_cct_denominator(100) > 0,
        travel_cct_numerator() > 15000 * travel_cct_denominator(100),
        travel_cct_denominator(-100) > 0,
        2500 * travel_cct_denominator(-100) <= travel_cct_numerator(),
        travel_cct_numerator() < 3500 * travel_cct_denominator(-100),
{
}

} // verus!
