use vstd::prelude::*;

verus! {

/// Every failure the runtime reports.
#[derive(Debug, Clone, PartialEq, Eq)]
pub enum MiniInferError {
    EmptyShape,
    ZeroDimension,
    ShapeDataLengthMismatch { expected: usize, actual: usize },
    WrongRank { expected: usize, actual: usize },
    IndexOutOfBounds { index: usize, len: usize },
    MatMulShapeMismatch { left: Vec<usize>, right: Vec<usize> },
    EmptyInput,
    InvalidInput,
    InvalidEpsilon,
    InvalidConfig { message: String },
    LengthMismatch { expected: usize, actual: usize },
    InvalidTensorShape { expected: Vec<usize>, actual: Vec<usize> },
    InvalidTopK { top_k: usize },
    /// A temperature, given by its IEEE 754 bits, that is not a finite positive number.
    InvalidTemperature { temperature_bits: u32 },
    /// A nucleus mass, given by its IEEE 754 bits, outside `(0, 1]`.
    InvalidTopP { top_p_bits: u32 },
}

} // verus!
