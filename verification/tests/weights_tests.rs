use miniinfer::dtype::DType;
use miniinfer::error::MiniInferError;
use miniinfer::quantized::QuantizationScale;
use miniinfer::weights_index::{
    binary_lm_head_source, block_tensor_name, decode_tensor_bytes, lm_head_choice, plan_tensor_read,
    tensor_dtype, validate_binary_weight_index, BinaryTensorIndex, BinaryWeightsIndex, DecodedTensor,
    LmHeadChoice, LmHeadSource,
};

fn binary_index(format_version: u32, dtype: Option<&str>) -> BinaryWeightsIndex {
    BinaryWeightsIndex {
        format_version,
        dtype: dtype.map(str::to_string),
        endianness: "little".to_string(),
        tensors: Vec::new(),
        lm_head: Some("tied".to_string()),
    }
}

fn binary_index_with_tensor(
    format_version: u32,
    dtype: Option<&str>,
    name: &str,
    tensor: BinaryTensorIndex,
) -> BinaryWeightsIndex {
    let mut index = binary_index(format_version, dtype);
    index.tensors.push((name.to_string(), tensor));
    index
}

fn binary_tensor(
    shape: Vec<usize>,
    dtype: Option<&str>,
    offset_bytes: u64,
    len: usize,
    scale: Option<f32>,
) -> BinaryTensorIndex {
    BinaryTensorIndex {
        shape,
        dtype: dtype.map(str::to_string),
        offset_bytes,
        len,
        scale_bits: scale.map(f32::to_bits),
        scales_bits: None,
        scale_axis: None,
    }
}

fn invalid(message: &str) -> MiniInferError {
    MiniInferError::InvalidConfig { message: message.to_string() }
}

#[test]
fn dtype_reports_size_in_bytes() {
    assert_eq!(DType::F32.size_in_bytes(), 4);
    assert_eq!(DType::I8Symmetric.size_in_bytes(), 1);
}

#[test]
fn dtype_parses_known_names() {
    assert_eq!(DType::parse("f32"), Ok(DType::F32));
    assert_eq!(DType::parse("i8_symmetric"), Ok(DType::I8Symmetric));
    assert_eq!(DType::parse("f16"), Err(invalid("unsupported dtype f16")));
}

#[test]
fn tensor_dtype_uses_v1_top_level_f32_dtype() {
    let index = binary_index(1, Some("f32"));
    let tensor = binary_tensor(vec![2], None, 0, 2, None);

    let dtype = tensor_dtype(&index, &tensor).expect("v1 f32 dtype should resolve");

    assert_eq!(dtype, DType::F32);
}

#[test]
fn tensor_dtype_rejects_v2_tensor_without_dtype() {
    let index = binary_index(2, None);
    let tensor = binary_tensor(vec![2], None, 0, 2, None);

    let err = tensor_dtype(&index, &tensor).expect_err("v2 tensor dtype should be required");

    assert_eq!(err, invalid("v2 tensor index must include dtype"));
}

#[test]
fn tensor_dtype_rejects_quantized_v1_and_unknown_versions() {
    let tensor = binary_tensor(vec![2], None, 0, 2, None);
    assert_eq!(
        tensor_dtype(&binary_index(1, Some("i8_symmetric")), &tensor),
        Err(invalid("unsupported v1 weights dtype i8_symmetric"))
    );
    assert_eq!(tensor_dtype(&binary_index(1, None), &tensor), Ok(DType::F32));
    assert_eq!(
        tensor_dtype(&binary_index(3, None), &tensor),
        Err(invalid("unsupported weights index format version 3"))
    );
}

#[test]
fn index_validation_checks_byte_order_version_and_dtype() {
    assert_eq!(validate_binary_weight_index(&binary_index(1, Some("f32"))), Ok(()));
    assert_eq!(validate_binary_weight_index(&binary_index(2, None)), Ok(()));
    let big = BinaryWeightsIndex { endianness: "big".to_string(), ..binary_index(2, None) };
    assert_eq!(validate_binary_weight_index(&big), Err(invalid("unsupported weights endianness big")));
    assert_eq!(
        validate_binary_weight_index(&binary_index(1, None)),
        Err(invalid("v1 weights index must include dtype"))
    );
    assert_eq!(
        validate_binary_weight_index(&binary_index(1, Some("f16"))),
        Err(invalid("unsupported v1 weights dtype f16"))
    );
    assert_eq!(
        validate_binary_weight_index(&binary_index(7, None)),
        Err(invalid("unsupported weights index format version 7"))
    );
}

fn f32_bytes(values: &[f32]) -> Vec<u8> {
    let mut data = Vec::with_capacity(values.len() * 4);
    for value in values {
        data.extend_from_slice(&value.to_le_bytes());
    }
    data
}

#[test]
fn read_binary_tensor_reads_v2_f32_tensor() {
    let data = f32_bytes(&[1.0, -2.0]);
    let index = binary_index_with_tensor(2, None, "weight", binary_tensor(vec![2], Some("f32"), 0, 2, None));

    let plan = plan_tensor_read(&index, "weight").expect("v2 f32 tensor should be planned");
    assert_eq!(plan.shape, vec![2]);
    assert_eq!(plan.offset_bytes, 0);
    assert_eq!(plan.byte_len, 8);
    let bytes = &data[plan.offset_bytes as usize..plan.offset_bytes as usize + plan.byte_len];

    match decode_tensor_bytes(&plan, "weight", bytes).expect("v2 f32 tensor should load") {
        DecodedTensor::F32Bits(words) => {
            let values: Vec<f32> = words.into_iter().map(f32::from_bits).collect();
            assert_eq!(values, vec![1.0, -2.0]);
        }
        DecodedTensor::I8 { .. } => panic!("expected f32 data"),
    }
}

#[test]
fn read_binary_tensor_reads_v2_i8_symmetric_tensor_and_dequantizes() {
    let data = vec![-2i8 as u8, 0i8 as u8, 4i8 as u8];
    let index = binary_index_with_tensor(
        2,
        None,
        "weight",
        binary_tensor(vec![3], Some("i8_symmetric"), 0, 3, Some(0.5)),
    );

    let plan = plan_tensor_read(&index, "weight").expect("v2 i8 tensor should be planned");
    assert_eq!(plan.byte_len, 3);

    match decode_tensor_bytes(&plan, "weight", &data).expect("v2 i8 tensor should load") {
        DecodedTensor::I8 { data, scale } => {
            assert_eq!(data, vec![-2, 0, 4]);
            let scale = match scale {
                QuantizationScale::PerTensor(bits) => f32::from_bits(bits),
                QuantizationScale::PerAxis { .. } => panic!("expected one scale"),
            };
            let values: Vec<f32> = data.iter().map(|&v| v as f32 * scale).collect();
            assert_eq!(values, vec![-1.0, 0.0, 2.0]);
        }
        DecodedTensor::F32Bits(_) => panic!("expected i8 data"),
    }
}

#[test]
fn read_binary_tensor_rejects_i8_without_scale() {
    let data = vec![1u8, 2u8];
    let index = binary_index_with_tensor(
        2,
        None,
        "weight",
        binary_tensor(vec![2], Some("i8_symmetric"), 0, 2, None),
    );

    let plan = plan_tensor_read(&index, "weight").expect("plan should succeed");
    let err = match decode_tensor_bytes(&plan, "weight", &data) {
        Ok(_) => panic!("i8 tensor without scale should fail"),
        Err(err) => err,
    };

    assert_eq!(err, invalid("tensor weight i8_symmetric dtype requires scale"));
}

#[test]
fn plan_rejects_missing_and_inconsistent_tensors() {
    let index = binary_index_with_tensor(2, None, "weight", binary_tensor(vec![2, 3], Some("f32"), 0, 5, None));

    match plan_tensor_read(&index, "bias") {
        Err(err) => assert_eq!(err, invalid("weights index is missing tensor bias")),
        Ok(_) => panic!("missing tensor should fail"),
    }
    match plan_tensor_read(&index, "weight") {
        Err(err) => assert_eq!(err, invalid("tensor weight index length 5 does not match shape product 6")),
        Ok(_) => panic!("length mismatch should fail"),
    }
    let huge = binary_index_with_tensor(
        2,
        None,
        "w",
        binary_tensor(vec![usize::MAX / 2], Some("f32"), 0, usize::MAX / 2, None),
    );
    match plan_tensor_read(&huge, "w") {
        Err(err) => assert_eq!(err, invalid("tensor w byte length overflow")),
        Ok(_) => panic!("byte length overflow should fail"),
    }
}

#[test]
fn binary_lm_head_follows_index() {
    assert_eq!(binary_lm_head_source(&binary_index(2, None)), Ok(LmHeadSource::Tied));
    let untied = BinaryWeightsIndex { lm_head: Some("untied".to_string()), ..binary_index(2, None) };
    assert_eq!(binary_lm_head_source(&untied), Ok(LmHeadSource::Untied));
    let other = BinaryWeightsIndex { lm_head: Some("shared".to_string()), ..binary_index(2, None) };
    assert_eq!(binary_lm_head_source(&other), Err(invalid("unsupported LM head type shared")));
    let none = BinaryWeightsIndex { lm_head: None, ..binary_index(2, None) };
    assert_eq!(
        binary_lm_head_source(&none),
        Err(invalid("weights index must specify lm_head or lm_head_weight"))
    );
    let mut legacy = BinaryWeightsIndex { lm_head: None, ..binary_index(2, None) };
    legacy.tensors.push(("lm_head_weight".to_string(), binary_tensor(vec![1], Some("f32"), 0, 1, None)));
    assert_eq!(binary_lm_head_source(&legacy), Ok(LmHeadSource::Untied));
}

#[test]
fn load_lm_head_accepts_tied_metadata() {
    assert_eq!(lm_head_choice(Some("tied"), false, false), Ok(LmHeadChoice::Tied));
}

#[test]
fn load_lm_head_rejects_conflicting_metadata() {
    let err = lm_head_choice(Some("tied"), false, true).expect_err("conflicting LM head metadata should fail");

    assert_eq!(err, invalid("weights must specify either lm_head or lm_head_weight, not both"));
}

#[test]
fn lm_head_choice_covers_every_case() {
    assert_eq!(lm_head_choice(Some("untied"), true, false), Ok(LmHeadChoice::HeadWeight));
    assert_eq!(
        lm_head_choice(Some("untied"), false, false),
        Err(invalid("untied LM head must include a weight tensor"))
    );
    assert_eq!(lm_head_choice(Some("odd"), true, false), Err(invalid("unsupported LM head type odd")));
    assert_eq!(lm_head_choice(None, false, true), Ok(LmHeadChoice::LegacyWeight));
    assert_eq!(
        lm_head_choice(None, false, false),
        Err(invalid("weights must specify lm_head or lm_head_weight"))
    );
}

#[test]
fn block_tensor_names_follow_the_index_layout() {
    assert_eq!(block_tensor_name(0, "ln_1_weight"), "blocks.0.ln_1_weight");
    assert_eq!(block_tensor_name(11, "mlp_c_proj_bias"), "blocks.11.mlp_c_proj_bias");
}

#[test]
fn per_channel_scales_follow_the_index() {
    let mut entry = binary_tensor(vec![2, 2], Some("i8_symmetric"), 0, 4, None);
    entry.scales_bits = Some(vec![0.5f32.to_bits(), 2.0f32.to_bits()]);
    entry.scale_axis = Some(1);
    let index = binary_index_with_tensor(2, None, "weight", entry);
    let plan = plan_tensor_read(&index, "weight").expect("per-channel tensor should be planned");
    let bytes = [1u8, 2, 0xff, 4];
    match decode_tensor_bytes(&plan, "weight", &bytes).expect("per-channel tensor should decode") {
        DecodedTensor::I8 { data, scale } => {
            assert_eq!(data, vec![1, 2, -1, 4]);
            assert_eq!(
                scale,
                QuantizationScale::PerAxis { axis: 1, scales: vec![0.5f32.to_bits(), 2.0f32.to_bits()] }
            );
        }
        DecodedTensor::F32Bits(_) => panic!("expected i8 data"),
    }
}

#[test]
fn per_channel_scales_default_to_the_output_axis() {
    let mut entry = binary_tensor(vec![2, 2], Some("i8_symmetric"), 0, 4, Some(3.0));
    entry.scales_bits = Some(vec![1.0f32.to_bits(), 1.5f32.to_bits()]);
    let index = binary_index_with_tensor(2, None, "weight", entry);
    let plan = plan_tensor_read(&index, "weight").expect("per-channel tensor should be planned");
    match decode_tensor_bytes(&plan, "weight", &[0u8; 4]).expect("per-channel tensor should decode") {
        DecodedTensor::I8 { scale, .. } => assert_eq!(
            scale,
            QuantizationScale::PerAxis { axis: 1, scales: vec![1.0f32.to_bits(), 1.5f32.to_bits()] }
        ),
        DecodedTensor::F32Bits(_) => panic!("expected i8 data"),
    }
}

#[test]
fn index_rejects_a_tensor_named_twice() {
    let mut index = binary_index_with_tensor(2, None, "wte", binary_tensor(vec![2], Some("f32"), 0, 2, None));
    index.tensors.push(("wpe".to_string(), binary_tensor(vec![2], Some("f32"), 8, 2, None)));
    assert_eq!(validate_binary_weight_index(&index), Ok(()));
    index.tensors.push(("wte".to_string(), binary_tensor(vec![2], Some("f32"), 16, 2, None)));
    assert_eq!(validate_binary_weight_index(&index), Err(invalid("weights index names tensor wte twice")));
}
