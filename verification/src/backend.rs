//! The kernel backends. Both run the same floating-point kernels, which stay
//! outside the verified core; what they share here is their identity.

use vstd::prelude::*;

verus! {

/// The plain loop kernels.
pub struct ReferenceBackend;

/// The kernels that run on `ndarray` views.
pub struct NdArrayBackend;

impl ReferenceBackend {
    pub fn new() -> (b: Self) {
        ReferenceBackend
    }

    /// The name under which the backend is selected.
    pub fn name(&self) -> (n: &'static str)
        ensures
            n@ == "reference"@,
    {
        "reference"
    }
}

impl Default for ReferenceBackend {
    fn default() -> (b: Self)
        ensures
            b == ReferenceBackend,
    {
        Self::new()
    }
}

impl NdArrayBackend {
    pub fn new() -> (b: Self) {
        NdArrayBackend
    }

    /// The name under which the backend is selected.
    pub fn name(&self) -> (n: &'static str)
        ensures
            n@ == "ndarray"@,
    {
        "ndarray"
    }
}

impl Default for NdArrayBackend {
    fn default() -> (b: Self)
        ensures
            b == NdArrayBackend,
    {
        Self::new()
    }
}

/// How the weights are held while the model runs.
#[derive(Debug, Clone, Copy, PartialEq, Eq, Structural)]
pub enum WeightRuntimeArg {
    F32,
    PackedInt8,
}

impl WeightRuntimeArg {
    /// The name under which the weight runtime is selected.
    pub fn name(&self) -> (n: &'static str)
        ensures
            *self == WeightRuntimeArg::F32 ==> n@ == "f32"@,
            *self == WeightRuntimeArg::PackedInt8 ==> n@ == "packed-int8"@,
    {
        match self {
            WeightRuntimeArg::F32 => "f32",
            WeightRuntimeArg::PackedInt8 => "packed-int8",
        }
    }
}

} // verus!
