//! The binary weights format: a JSON index that names each tensor and says
//! where its bytes lie in a data file. Reading the files is done outside the
//! verified core; here are the checks on the index, the plan of each read,
//! the decoding of the bytes read, and the choice of the LM head.

use vstd::prelude::*;
use vstd::string::*;
use crate::dtype::{DType, dtype_named};
use crate::error::MiniInferError;
use crate::tensor::shape_product;
use crate::quantized::QuantizationScale;
use crate::text::{append_decimal, decimal, str_eq};

verus! {

/// Where one tensor lies in the data file. An `i8_symmetric` tensor has one
/// scale, or per-channel scales along `scale_axis`; scales are held as the
/// IEEE 754 bits of their single-precision values.
pub struct BinaryTensorIndex {
    pub shape: Vec<usize>,
    pub dtype: Option<String>,
    pub offset_bytes: u64,
    pub len: usize,
    pub scale_bits: Option<u32>,
    pub scales_bits: Option<Vec<u32>>,
    pub scale_axis: Option<usize>,
}

/// The view of optional per-channel scales.
pub open spec fn scales_view(s: Option<Vec<u32>>) -> Option<Seq<u32>> {
    match s {
        Some(v) => Some(v@),
        None => None,
    }
}

/// The index of a binary weights file: its format, the tensors by name and
/// the kind of LM head.
pub struct BinaryWeightsIndex {
    pub format_version: u32,
    pub dtype: Option<String>,
    pub endianness: String,
    pub tensors: Vec<(String, BinaryTensorIndex)>,
    pub lm_head: Option<String>,
}

/// The first check that the index fails, as the message reporting it.
pub open spec fn index_error(index: BinaryWeightsIndex) -> Option<Seq<char>> {
    if index.endianness@ != "little"@ {
        Some("unsupported weights endianness "@ + index.endianness@)
    } else if index.format_version == 1 {
        match index.dtype {
            None => Some("v1 weights index must include dtype"@),
            Some(d) => if d@ != "f32"@ {
                Some("unsupported v1 weights dtype "@ + d@)
            } else {
                None
            },
        }
    } else if index.format_version == 2 {
        None
    } else {
        Some("unsupported weights index format version "@ + decimal(index.format_version as nat))
    }
}

fn invalid_config(message: String) -> (r: MiniInferError)
    ensures
        r matches MiniInferError::InvalidConfig { message: m } && m@ == message@,
{
    MiniInferError::InvalidConfig { message }
}

fn message_with(prefix: &str, rest: &str) -> (m: String)
    ensures
        m@ == prefix@ + rest@,
{
    let mut m = prefix.to_string();
    m.append(rest);
    m
}

fn version_message(version: u32) -> (m: String)
    ensures
        m@ == "unsupported weights index format version "@ + decimal(version as nat),
{
    let mut m = String::from_str("unsupported weights index format version ");
    append_decimal(&mut m, version as usize);
    m
}

/// An entry before entry `k` has the same name.
pub open spec fn name_seen_before(entries: Seq<(String, BinaryTensorIndex)>, k: int) -> bool {
    exists|j: int| 0 <= j < k && #[trigger] entries[j].0@ == entries[k].0@
}

/// Entry `k` is the first that repeats the name of an earlier entry.
pub open spec fn is_first_repeated_name(entries: Seq<(String, BinaryTensorIndex)>, k: int) -> bool {
    &&& 0 <= k < entries.len()
    &&& name_seen_before(entries, k)
    &&& forall|i: int| 0 <= i < k ==> !#[trigger] name_seen_before(entries, i)
}

pub open spec fn repeated_name_message(name: Seq<char>) -> Seq<char> {
    "weights index names tensor "@ + name + " twice"@
}

fn find_repeated_name(entries: &Vec<(String, BinaryTensorIndex)>) -> (r: Option<usize>)
    ensures
        r matches Some(k) ==> is_first_repeated_name(entries@, k as int),
        r is None ==> !exists|k: int| is_first_repeated_name(entries@, k),
{
    let mut k: usize = 0;
    while k < entries.len()
        invariant
            k <= entries@.len(),
            forall|i: int| 0 <= i < k ==> !#[trigger] name_seen_before(entries@, i),
        decreases entries.len() - k,
    {
        let mut j: usize = 0;
        while j < k
            invariant
                j <= k < entries@.len(),
                forall|i: int| 0 <= i < k ==> !#[trigger] name_seen_before(entries@, i),
                forall|i: int| 0 <= i < j ==> (#[trigger] entries@[i]).0@ != entries@[k as int].0@,
            decreases k - j,
        {
            if str_eq(entries[j].0.as_str(), entries[k].0.as_str()) {
                proof {
                    assert(entries@[j as int].0@ == entries@[k as int].0@);
                    assert(name_seen_before(entries@, k as int));
                }
                return Some(k);
            }
            j = j + 1;
        }
        proof {
            assert(!name_seen_before(entries@, k as int)) by {
                if name_seen_before(entries@, k as int) {
                    let i = choose|i: int| 0 <= i < k && #[trigger] entries@[i].0@ == entries@[k as int].0@;
                    assert(entries@[i].0@ != entries@[k as int].0@);
                }
            }
        }
        k = k + 1;
    }
    proof {
        assert forall|c: int| !is_first_repeated_name(entries@, c) by {
            if 0 <= c < entries@.len() {
                assert(!name_seen_before(entries@, c));
            }
        }
    }
    None
}

/// Checks the byte order, the format version and, in version 1, the one
/// element type of the whole file; then that no tensor is named twice.
pub fn validate_binary_weight_index(index: &BinaryWeightsIndex) -> (r: Result<(), MiniInferError>)
    ensures
        index_error(*index) matches Some(m) ==> (r matches Err(MiniInferError::InvalidConfig { message })
            && message@ == m),
        index_error(*index) is None ==> if exists|k: int| is_first_repeated_name(index.tensors@, k) {
            let k = choose|k: int| is_first_repeated_name(index.tensors@, k);
            r matches Err(MiniInferError::InvalidConfig { message }) && message@
                == repeated_name_message(index.tensors@[k].0@)
        } else {
            r is Ok
        },
{
    if !str_eq(index.endianness.as_str(), "little") {
        return Err(invalid_config(message_with("unsupported weights endianness ", index.endianness.as_str())));
    }
    if index.format_version == 1 {
        match &index.dtype {
            None => {
                return Err(invalid_config(String::from_str("v1 weights index must include dtype")));
            },
            Some(d) => {
                if !str_eq(d.as_str(), "f32") {
                    return Err(invalid_config(message_with("unsupported v1 weights dtype ", d.as_str())));
                }
            },
        }
    } else if index.format_version != 2 {
        return Err(invalid_config(version_message(index.format_version)));
    }
    match find_repeated_name(&index.tensors) {
        Some(k) => {
            let mut message = message_with("weights index names tensor ", index.tensors[k].0.as_str());
            message.append(" twice");
            proof {
                let c = choose|c: int| is_first_repeated_name(index.tensors@, c);
                if c < k {
                    assert(!name_seen_before(index.tensors@, c));
                } else if c > k {
                    assert(!name_seen_before(index.tensors@, k as int));
                }
            }
            Err(invalid_config(message))
        },
        None => Ok(()),
    }
}

/// The element type of a tensor, or the message of the error: version 1
/// files have one type for all tensors, `f32` unless the index says
/// otherwise; version 2 files give a type per tensor.
pub open spec fn tensor_dtype_of(index: BinaryWeightsIndex, tensor: BinaryTensorIndex) -> Result<DType, Seq<char>> {
    if index.format_version == 1 {
        let name = match index.dtype {
            Some(d) => d@,
            None => "f32"@,
        };
        match dtype_named(name) {
            None => Err("unsupported dtype "@ + name),
            Some(d) => if d != DType::F32 {
                Err(
                    "unsupported v1 weights dtype "@ + match index.dtype {
                        Some(d) => d@,
                        None => "missing"@,
                    },
                )
            } else {
                Ok(d)
            },
        }
    } else if index.format_version == 2 {
        match tensor.dtype {
            None => Err("v2 tensor index must include dtype"@),
            Some(n) => match dtype_named(n@) {
                None => Err("unsupported dtype "@ + n@),
                Some(d) => Ok(d),
            },
        }
    } else {
        Err("unsupported weights index format version "@ + decimal(index.format_version as nat))
    }
}

/// The element type of `tensor` in a file with this index.
pub fn tensor_dtype(index: &BinaryWeightsIndex, tensor: &BinaryTensorIndex) -> (r: Result<DType, MiniInferError>)
    ensures
        tensor_dtype_of(*index, *tensor) matches Ok(d) ==> r == Ok::<DType, MiniInferError>(d),
        tensor_dtype_of(*index, *tensor) matches Err(m) ==> (r matches Err(
            MiniInferError::InvalidConfig { message },
        ) && message@ == m),
{
    if index.format_version == 1 {
        let parsed = match &index.dtype {
            Some(d) => DType::parse(d.as_str()),
            None => DType::parse("f32"),
        };
        proof {
            reveal_strlit("f32");
        }
        let dtype = match parsed {
            Ok(d) => d,
            Err(e) => {
                return Err(e);
            },
        };
        if dtype != DType::F32 {
            let message = match &index.dtype {
                Some(d) => message_with("unsupported v1 weights dtype ", d.as_str()),
                None => message_with("unsupported v1 weights dtype ", "missing"),
            };
            return Err(invalid_config(message));
        }
        return Ok(dtype);
    }
    if index.format_version == 2 {
        return match &tensor.dtype {
            None => Err(invalid_config(String::from_str("v2 tensor index must include dtype"))),
            Some(n) => DType::parse(n.as_str()),
        };
    }
    Err(invalid_config(version_message(index.format_version)))
}

/// Entry `k` is the first that carries the name `name`.
pub open spec fn is_first_named(entries: Seq<(String, BinaryTensorIndex)>, name: Seq<char>, k: int) -> bool {
    &&& 0 <= k < entries.len()
    &&& entries[k].0@ == name
    &&& forall|j: int| 0 <= j < k ==> (#[trigger] entries[j]).0@ != name
}

/// The index entry for `name`, if there is one.
pub open spec fn named_entry(entries: Seq<(String, BinaryTensorIndex)>, name: Seq<char>) -> Option<BinaryTensorIndex> {
    if exists|k: int| is_first_named(entries, name, k) {
        Some(entries[choose|k: int| is_first_named(entries, name, k)].1)
    } else {
        None
    }
}

/// What to read for one tensor: `byte_len` bytes from `offset_bytes`,
/// holding `len` elements of type `dtype`.
pub struct TensorReadPlan {
    pub shape: Vec<usize>,
    pub dtype: DType,
    pub offset_bytes: u64,
    pub len: usize,
    pub byte_len: usize,
    pub scale_bits: Option<u32>,
    pub scales_bits: Option<Vec<u32>>,
    pub scale_axis: Option<usize>,
}

pub open spec fn missing_tensor_message(name: Seq<char>) -> Seq<char> {
    "weights index is missing tensor "@ + name
}

pub open spec fn length_mismatch_message(name: Seq<char>, len: nat, product: nat) -> Seq<char> {
    "tensor "@ + name + " index length "@ + decimal(len) + " does not match shape product "@ + decimal(
        product,
    )
}

pub open spec fn byte_overflow_message(name: Seq<char>) -> Seq<char> {
    "tensor "@ + name + " byte length overflow"@
}

fn find_tensor(entries: &Vec<(String, BinaryTensorIndex)>, name: &str) -> (r: Option<usize>)
    ensures
        r matches Some(k) ==> is_first_named(entries@, name@, k as int),
        r is None ==> !exists|k: int| is_first_named(entries@, name@, k),
{
    let mut i: usize = 0;
    while i < entries.len()
        invariant
            i <= entries@.len(),
            forall|j: int| 0 <= j < i ==> (#[trigger] entries@[j]).0@ != name@,
        decreases entries.len() - i,
    {
        if str_eq(entries[i].0.as_str(), name) {
            return Some(i);
        }
        i = i + 1;
    }
    proof {
        assert forall|k: int| !is_first_named(entries@, name@, k) by {
            if 0 <= k < entries@.len() {
                assert(entries@[k].0@ != name@);
            }
        }
    }
    None
}

/// Multiplying out `shape` from the left never leaves `usize`.
pub open spec fn product_fits(shape: Seq<usize>) -> bool {
    forall|k: int| 0 <= k <= shape.len() ==> #[trigger] shape_product(shape.take(k)) <= usize::MAX
}

fn product_of(shape: &Vec<usize>) -> (p: usize)
    requires
        product_fits(shape@),
    ensures
        p == shape_product(shape@),
{
    let mut p: usize = 1;
    let mut i: usize = 0;
    while i < shape.len()
        invariant
            i <= shape@.len(),
            product_fits(shape@),
            p == shape_product(shape@.take(i as int)),
        decreases shape.len() - i,
    {
        proof {
            assert(shape@.take(i + 1).drop_last() =~= shape@.take(i as int));
            assert(shape_product(shape@.take(i + 1)) <= usize::MAX);
        }
        p = p * shape[i];
        i = i + 1;
    }
    assert(shape@.take(shape@.len() as int) =~= shape@);
    p
}

fn copy_scales(s: &Option<Vec<u32>>) -> (r: Option<Vec<u32>>)
    ensures
        scales_view(r) == scales_view(*s),
{
    match s {
        Some(v) => Some(crate::tensor::copy_vec(v)),
        None => None,
    }
}

/// Plans the read of the tensor `name`: it must be in the index, its length
/// must match its shape, its element type must be known and its size in
/// bytes must fit in `usize`.
pub fn plan_tensor_read(index: &BinaryWeightsIndex, name: &str) -> (r: Result<TensorReadPlan, MiniInferError>)
    requires
        named_entry(index.tensors@, name@) matches Some(e) ==> product_fits(e.shape@),
    ensures
        named_entry(index.tensors@, name@) is None ==> (r matches Err(MiniInferError::InvalidConfig { message })
            && message@ == missing_tensor_message(name@)),
        named_entry(index.tensors@, name@) matches Some(e) ==> {
            if e.len != shape_product(e.shape@) {
                r matches Err(MiniInferError::InvalidConfig { message }) && message@
                    == length_mismatch_message(name@, e.len as nat, shape_product(e.shape@))
            } else {
                match tensor_dtype_of(*index, e) {
                    Err(m) => r matches Err(MiniInferError::InvalidConfig { message }) && message@ == m,
                    Ok(d) => if e.len * d.spec_size_in_bytes() > usize::MAX {
                        r matches Err(MiniInferError::InvalidConfig { message }) && message@
                            == byte_overflow_message(name@)
                    } else {
                        r matches Ok(plan) && plan.shape@ == e.shape@ && plan.dtype == d
                            && plan.offset_bytes == e.offset_bytes && plan.len == e.len && plan.byte_len
                            == e.len * d.spec_size_in_bytes() && plan.scale_bits == e.scale_bits
                            && scales_view(plan.scales_bits) == scales_view(e.scales_bits)
                            && plan.scale_axis == e.scale_axis
                    },
                }
            }
        },
{
    let k = match find_tensor(&index.tensors, name) {
        Some(k) => k,
        None => {
            return Err(invalid_config(message_with("weights index is missing tensor ", name)));
        },
    };
    let entry = &index.tensors[k].1;
    proof {
        assert(is_first_named(index.tensors@, name@, k as int));
        assert forall|c: int| is_first_named(index.tensors@, name@, c) implies c == k by {
            if c < k {
                assert(index.tensors@[c].0@ != name@);
            } else if c > k {
                assert(index.tensors@[k as int].0@ == name@);
            }
        }
    }
    let expected = product_of(&entry.shape);
    if entry.len != expected {
        let mut message = message_with("tensor ", name);
        message.append(" index length ");
        append_decimal(&mut message, entry.len);
        message.append(" does not match shape product ");
        append_decimal(&mut message, expected);
        return Err(invalid_config(message));
    }
    let dtype = match tensor_dtype(index, entry) {
        Ok(d) => d,
        Err(e) => {
            return Err(e);
        },
    };
    let byte_len = match entry.len.checked_mul(dtype.size_in_bytes()) {
        Some(b) => b,
        None => {
            let mut message = message_with("tensor ", name);
            message.append(" byte length overflow");
            return Err(invalid_config(message));
        },
    };
    let shape = crate::tensor::copy_vec(&entry.shape);
    Ok(
        TensorReadPlan {
            shape,
            dtype,
            offset_bytes: entry.offset_bytes,
            len: entry.len,
            byte_len,
            scale_bits: entry.scale_bits,
            scales_bits: copy_scales(&entry.scales_bits),
            scale_axis: entry.scale_axis,
        },
    )
}

/// The elements of a tensor as read from the data file: the bit patterns of
/// little-endian `f32` values, or `i8` values with the scales that
/// dequantize them.
pub enum DecodedTensor {
    F32Bits(Vec<u32>),
    I8 { data: Vec<i8>, scale: QuantizationScale },
}

/// The 32-bit word stored little-endian in `b[i .. i + 4]`.
pub open spec fn le_word(b: Seq<u8>, i: int) -> u32 {
    (b[i] as int + b[i + 1] as int * 0x100 + b[i + 2] as int * 0x1_0000 + b[i + 3] as int
        * 0x100_0000) as u32
}

/// The signed byte whose bit pattern is `b`.
pub open spec fn signed_byte(b: u8) -> i8 {
    if b < 128 {
        b as i8
    } else {
        (b as int - 256) as i8
    }
}

pub open spec fn missing_scale_message(name: Seq<char>) -> Seq<char> {
    "tensor "@ + name + " i8_symmetric dtype requires scale"@
}

/// The scales of an `i8_symmetric` tensor: per-channel scales when the
/// index gives them, along `scale_axis` or else along the output columns
/// (axis 1); otherwise the one per-tensor scale.
pub open spec fn planned_scale(scales: Option<Seq<u32>>, scale_axis: Option<usize>, scale_bits: Option<u32>) -> Option<
    (Option<usize>, Seq<u32>),
> {
    match scales {
        Some(v) => Some(
            (
                Some(
                    match scale_axis {
                        Some(a) => a,
                        None => 1usize,
                    },
                ),
                v,
            ),
        ),
        None => match scale_bits {
            Some(b) => Some((None, seq![b])),
            None => None,
        },
    }
}

/// `q` is the scale that `planned_scale` describes.
pub open spec fn scale_matches(q: QuantizationScale, p: (Option<usize>, Seq<u32>)) -> bool {
    match q {
        QuantizationScale::PerTensor(b) => p.0 is None && p.1 == seq![b],
        QuantizationScale::PerAxis { axis, scales } => p.0 == Some(axis) && scales@ == p.1,
    }
}

/// Decodes the bytes read for a planned tensor: `f32` tensors as four-byte
/// little-endian words, `i8_symmetric` tensors byte by byte, which needs a
/// scale or per-channel scales.
pub fn decode_tensor_bytes(plan: &TensorReadPlan, name: &str, bytes: &[u8]) -> (r: Result<DecodedTensor, MiniInferError>)
    ensures
        plan.dtype == DType::F32 ==> (r matches Ok(DecodedTensor::F32Bits(words)) && words@.len()
            == bytes@.len() / 4 && forall|i: int|
            0 <= i < words@.len() ==> #[trigger] words@[i] == le_word(bytes@, 4 * i)),
        plan.dtype == DType::I8Symmetric ==> match planned_scale(scales_view(plan.scales_bits), plan.scale_axis, plan.scale_bits) {
            None => r matches Err(MiniInferError::InvalidConfig { message }) && message@
                == missing_scale_message(name@),
            Some(p) => r matches Ok(DecodedTensor::I8 { data, scale }) && scale_matches(scale, p)
                && data@.len() == bytes@.len() && forall|i: int|
                0 <= i < data@.len() ==> #[trigger] data@[i] == signed_byte(bytes@[i]),
        },
{
    match plan.dtype {
        DType::F32 => {
            let n = bytes.len() / 4;
            let mut words: Vec<u32> = Vec::new();
            let mut i: usize = 0;
            while i < n
                invariant
                    n == bytes@.len() / 4,
                    bytes@.len() <= usize::MAX,
                    i <= n,
                    words@.len() == i,
                    forall|j: int| 0 <= j < i ==> #[trigger] words@[j] == le_word(bytes@, 4 * j),
                decreases n - i,
            {
                proof {
                    let len = bytes@.len() as int;
                    assert(4 * i + 4 <= len) by (nonlinear_arith)
                        requires
                            i < n,
                            n == len / 4,
                            len >= 0,
                    ;
                }
                let b0 = bytes[4 * i] as u32;
                let b1 = bytes[4 * i + 1] as u32;
                let b2 = bytes[4 * i + 2] as u32;
                let b3 = bytes[4 * i + 3] as u32;
                let w = b0 + b1 * 0x100 + b2 * 0x1_0000 + b3 * 0x100_0000;
                words.push(w);
                i = i + 1;
            }
            Ok(DecodedTensor::F32Bits(words))
        },
        DType::I8Symmetric => {
            let scale = match &plan.scales_bits {
                Some(v) => {
                    let axis = match plan.scale_axis {
                        Some(a) => a,
                        None => 1,
                    };
                    QuantizationScale::PerAxis { axis, scales: crate::tensor::copy_vec(v) }
                },
                None => match plan.scale_bits {
                    Some(s) => QuantizationScale::PerTensor(s),
                    None => {
                        let mut message = message_with("tensor ", name);
                        message.append(" i8_symmetric dtype requires scale");
                        return Err(invalid_config(message));
                    },
                },
            };
            let mut data: Vec<i8> = Vec::new();
            let mut i: usize = 0;
            while i < bytes.len()
                invariant
                    i <= bytes@.len(),
                    data@.len() == i,
                    forall|j: int| 0 <= j < i ==> #[trigger] data@[j] == signed_byte(bytes@[j]),
                decreases bytes.len() - i,
            {
                let b = bytes[i];
                let v: i8 = if b < 128 {
                    b as i8
                } else {
                    (b as i16 - 256) as i8
                };
                data.push(v);
                i = i + 1;
            }
            Ok(DecodedTensor::I8 { data, scale })
        },
    }
}

/// Where the LM head's weights come from.
#[derive(Debug, Clone, Copy, PartialEq, Eq, Structural)]
pub enum LmHeadSource {
    /// The token embedding matrix, transposed.
    Tied,
    /// A tensor of its own.
    Untied,
}

/// The LM head of a binary weights file: named `tied` or `untied` by the
/// index, or, when the index names none, untied if there is an
/// `lm_head_weight` tensor.
pub fn binary_lm_head_source(index: &BinaryWeightsIndex) -> (r: Result<LmHeadSource, MiniInferError>)
    ensures
        match index.lm_head {
            Some(t) => if t@ == "tied"@ {
                r == Ok::<LmHeadSource, MiniInferError>(LmHeadSource::Tied)
            } else if t@ == "untied"@ {
                r == Ok::<LmHeadSource, MiniInferError>(LmHeadSource::Untied)
            } else {
                r matches Err(MiniInferError::InvalidConfig { message }) && message@
                    == "unsupported LM head type "@ + t@
            },
            None => true,
        },
        index.lm_head is None && named_entry(index.tensors@, "lm_head_weight"@) is Some ==> r == Ok::<
            LmHeadSource,
            MiniInferError,
        >(LmHeadSource::Untied),
        index.lm_head is None && named_entry(index.tensors@, "lm_head_weight"@) is None ==> (r matches Err(
            MiniInferError::InvalidConfig { message },
        ) && message@ == "weights index must specify lm_head or lm_head_weight"@),
{
    match &index.lm_head {
        Some(t) => {
            if str_eq(t.as_str(), "tied") {
                return Ok(LmHeadSource::Tied);
            }
            if str_eq(t.as_str(), "untied") {
                return Ok(LmHeadSource::Untied);
            }
            Err(invalid_config(message_with("unsupported LM head type ", t.as_str())))
        },
        None => {
            match find_tensor(&index.tensors, "lm_head_weight") {
                Some(_) => Ok(LmHeadSource::Untied),
                None => Err(
                    invalid_config(String::from_str("weights index must specify lm_head or lm_head_weight")),
                ),
            }
        },
    }
}

/// Where the LM head of a JSON weights file comes from.
#[derive(Debug, Clone, Copy, PartialEq, Eq, Structural)]
pub enum LmHeadChoice {
    Tied,
    /// The weight tensor inside the `lm_head` entry.
    HeadWeight,
    /// The separate `lm_head_weight` tensor.
    LegacyWeight,
}

/// The LM head of a JSON weights file, from the type in its `lm_head` entry
/// (if any), whether that entry holds a weight, and whether a separate
/// `lm_head_weight` is given. Exactly one of the two ways must be used.
pub fn lm_head_choice(head_type: Option<&str>, head_has_weight: bool, has_legacy_weight: bool) -> (r: Result<
    LmHeadChoice,
    MiniInferError,
>)
    ensures
        !has_legacy_weight ==> match head_type {
            None => true,
            Some(t) => if t@ == "tied"@ {
                r == Ok::<LmHeadChoice, MiniInferError>(LmHeadChoice::Tied)
            } else if t@ == "untied"@ {
                if head_has_weight {
                    r == Ok::<LmHeadChoice, MiniInferError>(LmHeadChoice::HeadWeight)
                } else {
                    r matches Err(MiniInferError::InvalidConfig { message }) && message@
                        == "untied LM head must include a weight tensor"@
                }
            } else {
                r matches Err(MiniInferError::InvalidConfig { message }) && message@
                    == "unsupported LM head type "@ + t@
            },
        },
        head_type is None && has_legacy_weight ==> r == Ok::<LmHeadChoice, MiniInferError>(
            LmHeadChoice::LegacyWeight,
        ),
        head_type is Some && has_legacy_weight ==> (r matches Err(MiniInferError::InvalidConfig { message })
            && message@ == "weights must specify either lm_head or lm_head_weight, not both"@),
        head_type is None && !has_legacy_weight ==> (r matches Err(MiniInferError::InvalidConfig { message })
            && message@ == "weights must specify lm_head or lm_head_weight"@),
{
    match head_type {
        Some(t) => {
            if has_legacy_weight {
                return Err(
                    invalid_config(
                        String::from_str("weights must specify either lm_head or lm_head_weight, not both"),
                    ),
                );
            }
            if str_eq(t, "tied") {
                return Ok(LmHeadChoice::Tied);
            }
            if str_eq(t, "untied") {
                if head_has_weight {
                    return Ok(LmHeadChoice::HeadWeight);
                }
                return Err(invalid_config(String::from_str("untied LM head must include a weight tensor")));
            }
            Err(invalid_config(message_with("unsupported LM head type ", t)))
        },
        None => {
            if has_legacy_weight {
                Ok(LmHeadChoice::LegacyWeight)
            } else {
                Err(invalid_config(String::from_str("weights must specify lm_head or lm_head_weight")))
            }
        },
    }
}

pub open spec fn block_tensor_name_text(layer: nat, field: Seq<char>) -> Seq<char> {
    "blocks."@ + decimal(layer) + "."@ + field
}

/// The index name of one tensor of a transformer block.
pub fn block_tensor_name(layer: usize, field: &str) -> (name: String)
    ensures
        name@ == block_tensor_name_text(layer as nat, field@),
{
    let mut name = String::from_str("blocks.");
    append_decimal(&mut name, layer);
    name.append(".");
    name.append(field);
    proof {
        reveal_strlit("blocks.");
        reveal_strlit(".");
        assert(name@ =~= block_tensor_name_text(layer as nat, field@));
    }
    name
}

} // verus!
