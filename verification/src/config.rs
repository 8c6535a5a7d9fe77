//! The model configuration and its consistency checks.

use vstd::prelude::*;
use vstd::string::*;
use crate::error::MiniInferError;
use crate::float_bits::{f32_le_zero, le_zero_bits};

verus! {

#[derive(Debug, Clone, Copy, PartialEq, Eq, Structural)]
pub enum Architecture {
    Gpt2,
}

/// The dimensions of a model. The layer-norm epsilon is held as the IEEE 754
/// bits of its single-precision value.
#[derive(Debug, Clone, Copy, PartialEq, Eq, Structural)]
pub struct ModelConfig {
    pub architecture: Architecture,
    pub vocab_size: usize,
    pub max_position_embeddings: usize,
    pub hidden_size: usize,
    pub num_layers: usize,
    pub num_heads: usize,
    pub intermediate_size: usize,
    pub layer_norm_epsilon_bits: u32,
    pub eos_token_id: Option<usize>,
}

/// The first check that `c` fails, as the message that reports it.
pub open spec fn config_error(c: ModelConfig) -> Option<Seq<char>> {
    if c.vocab_size == 0 {
        Some("Invalid vocab size"@)
    } else if c.max_position_embeddings == 0 {
        Some("Invalid max position embeddings"@)
    } else if c.hidden_size == 0 {
        Some("Invalid hidden size"@)
    } else if c.num_heads == 0 {
        Some("Invalid number of heads"@)
    } else if c.num_layers == 0 {
        Some("Invalid number of layers"@)
    } else if c.intermediate_size == 0 {
        Some("Invalid intermediate size"@)
    } else if f32_le_zero(c.layer_norm_epsilon_bits) {
        Some("Invalid layer norm epsilon"@)
    } else if c.hidden_size % c.num_heads != 0 {
        Some("Hidden size must be divisible by number of heads"@)
    } else if c.eos_token_id matches Some(eos) && eos >= c.vocab_size {
        Some("eos_token_id must be less than vocab_size"@)
    } else {
        None
    }
}

fn invalid(message: &str) -> (r: Result<(), MiniInferError>)
    ensures
        r matches Err(MiniInferError::InvalidConfig { message: m }) && m@ == message@,
{
    Err(MiniInferError::InvalidConfig { message: message.to_string() })
}

impl ModelConfig {
    /// The width of one attention head.
    pub fn head_dim(&self) -> (d: usize)
        requires
            self.num_heads > 0,
        ensures
            d == self.hidden_size / self.num_heads,
    {
        self.hidden_size / self.num_heads
    }

    /// Checks the dimensions: all positive, a positive epsilon, heads that
    /// divide the hidden size and an end-of-sequence token inside the
    /// vocabulary.
    pub fn validate(&self) -> (r: Result<(), MiniInferError>)
        ensures
            config_error(*self) is None ==> r is Ok,
            config_error(*self) matches Some(m) ==> (r matches Err(MiniInferError::InvalidConfig { message })
                && message@ == m),
    {
        if self.vocab_size == 0 {
            return invalid("Invalid vocab size");
        }
        if self.max_position_embeddings == 0 {
            return invalid("Invalid max position embeddings");
        }
        if self.hidden_size == 0 {
            return invalid("Invalid hidden size");
        }
        if self.num_heads == 0 {
            return invalid("Invalid number of heads");
        }
        if self.num_layers == 0 {
            return invalid("Invalid number of layers");
        }
        if self.intermediate_size == 0 {
            return invalid("Invalid intermediate size");
        }
        if le_zero_bits(self.layer_norm_epsilon_bits) {
            return invalid("Invalid layer norm epsilon");
        }
        if self.hidden_size % self.num_heads != 0 {
            return invalid("Hidden size must be divisible by number of heads");
        }
        if let Some(eos_token_id) = self.eos_token_id {
            if eos_token_id >= self.vocab_size {
                return invalid("eos_token_id must be less than vocab_size");
            }
        }
        Ok(())
    }
}

} // verus!
