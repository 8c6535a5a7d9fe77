//! Samplers pick the next token from the logits of the last position. The
//! picking compares and scales floating-point logits and is done outside the
//! verified core; the checks on the sampling settings are here.

use vstd::prelude::*;
use crate::error::MiniInferError;
use crate::float_bits::{f32_is_finite, f32_le_zero, f32_gt_one, is_finite_bits, le_zero_bits, gt_one_bits};

verus! {

/// Picks the token with the largest logit.
pub struct GreedySampler;

/// A temperature must be a finite number above zero.
pub open spec fn valid_temperature(bits: u32) -> bool {
    f32_is_finite(bits) && !f32_le_zero(bits)
}

/// A nucleus mass must be a finite number in `(0, 1]`.
pub open spec fn valid_top_p(bits: u32) -> bool {
    f32_is_finite(bits) && !f32_le_zero(bits) && !f32_gt_one(bits)
}

/// Checks a temperature given by its IEEE 754 bits.
pub fn validate_temperature(temperature_bits: u32) -> (r: Result<(), MiniInferError>)
    ensures
        valid_temperature(temperature_bits) ==> r is Ok,
        !valid_temperature(temperature_bits) ==> r == Err::<(), MiniInferError>(
            MiniInferError::InvalidTemperature { temperature_bits },
        ),
{
    if !is_finite_bits(temperature_bits) || le_zero_bits(temperature_bits) {
        return Err(MiniInferError::InvalidTemperature { temperature_bits });
    }
    Ok(())
}

/// Checks that at least one candidate is kept.
pub fn validate_top_k(top_k: usize) -> (r: Result<(), MiniInferError>)
    ensures
        top_k > 0 ==> r is Ok,
        top_k == 0 ==> r == Err::<(), MiniInferError>(MiniInferError::InvalidTopK { top_k }),
{
    if top_k == 0 {
        return Err(MiniInferError::InvalidTopK { top_k });
    }
    Ok(())
}

/// Checks a nucleus mass given by its IEEE 754 bits.
pub fn validate_top_p(top_p_bits: u32) -> (r: Result<(), MiniInferError>)
    ensures
        valid_top_p(top_p_bits) ==> r is Ok,
        !valid_top_p(top_p_bits) ==> r == Err::<(), MiniInferError>(
            MiniInferError::InvalidTopP { top_p_bits },
        ),
{
    if !is_finite_bits(top_p_bits) || le_zero_bits(top_p_bits) || gt_one_bits(top_p_bits) {
        return Err(MiniInferError::InvalidTopP { top_p_bits });
    }
    Ok(())
}

/// Checks the settings of a temperature sampler in the order the sampler
/// is built: the temperature, then `top_k`, then `top_p`.
pub fn validate_sampler_options(temperature_bits: u32, top_k: Option<usize>, top_p_bits: Option<u32>) -> (r:
    Result<(), MiniInferError>)
    ensures
        r == sampler_options_check(temperature_bits, top_k, top_p_bits),
{
    match validate_temperature(temperature_bits) {
        Ok(()) => {},
        Err(e) => {
            return Err(e);
        },
    }
    if let Some(k) = top_k {
        match validate_top_k(k) {
            Ok(()) => {},
            Err(e) => {
                return Err(e);
            },
        }
    }
    if let Some(p) = top_p_bits {
        match validate_top_p(p) {
            Ok(()) => {},
            Err(e) => {
                return Err(e);
            },
        }
    }
    Ok(())
}

/// The outcome of checking sampler settings: the first failing check.
pub open spec fn sampler_options_check(temperature_bits: u32, top_k: Option<usize>, top_p_bits: Option<u32>) -> Result<
    (),
    MiniInferError,
> {
    if !valid_temperature(temperature_bits) {
        Err(MiniInferError::InvalidTemperature { temperature_bits })
    } else if top_k == Some(0usize) {
        Err(MiniInferError::InvalidTopK { top_k: 0 })
    } else if top_p_bits matches Some(p) && !valid_top_p(p) {
        Err(MiniInferError::InvalidTopP { top_p_bits: top_p_bits->0 })
    } else {
        Ok(())
    }
}

} // verus!
