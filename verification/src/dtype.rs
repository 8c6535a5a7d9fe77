use vstd::prelude::*;
use vstd::string::*;
use crate::error::MiniInferError;
use crate::text::str_eq;

verus! {

/// Storage element types a weight tensor can use.
#[derive(Debug, Clone, Copy, PartialEq, Eq, Structural)]
pub enum DType {
    F32,
    I8Symmetric,
}

/// The element type a name stands for.
pub open spec fn dtype_named(name: Seq<char>) -> Option<DType> {
    if name == "f32"@ {
        Some(DType::F32)
    } else if name == "i8_symmetric"@ {
        Some(DType::I8Symmetric)
    } else {
        None
    }
}

impl DType {
    /// Bytes one element of this type occupies.
    pub open spec fn spec_size_in_bytes(self) -> usize {
        match self {
            DType::F32 => 4,
            DType::I8Symmetric => 1,
        }
    }

    pub fn size_in_bytes(self) -> (size: usize)
        ensures
            size == self.spec_size_in_bytes(),
    {
        match self {
            DType::F32 => 4,
            DType::I8Symmetric => 1,
        }
    }

    /// The element type named `f32` or `i8_symmetric`.
    pub fn parse(name: &str) -> (r: Result<DType, MiniInferError>)
        ensures
            dtype_named(name@) matches Some(d) ==> r == Ok::<DType, MiniInferError>(d),
            dtype_named(name@) is None ==> (r matches Err(MiniInferError::InvalidConfig { message })
                && message@ == "unsupported dtype "@ + name@),
    {
        if str_eq(name, "f32") {
            return Ok(DType::F32);
        }
        if str_eq(name, "i8_symmetric") {
            return Ok(DType::I8Symmetric);
        }
        let mut message = String::from_str("unsupported dtype ");
        message.append(name);
        Err(MiniInferError::InvalidConfig { message })
    }
}

} // verus!
