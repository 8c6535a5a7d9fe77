use miniinfer::error::MiniInferError;
use miniinfer::quantized::{
    validate_packed_i8_matmul_shape, validate_quantized_matmul_shape, validate_weight_shape, PackedI8Weight, QuantizationScale,
    QuantizedTensor, WeightTensor,
};
use miniinfer::tensor::Tensor;

#[test]
fn rejects_zero_dimension() {
    let err = Tensor::<f32>::new(vec![2, 0], vec![]).expect_err("zero dimension should fail");
    assert_eq!(err, MiniInferError::ZeroDimension);
}

#[test]
fn rejects_shape_data_length_mismatch() {
    let err = Tensor::new(vec![2, 3], vec![1.0f32, 2.0]).expect_err("shape-data length mismatch should fail");
    assert_eq!(err, MiniInferError::ShapeDataLengthMismatch { expected: 6, actual: 2 });
}

#[test]
fn creates_valid_tensor() {
    let tensor = Tensor::new(vec![2, 3], vec![1.0f32, 2.0, 3.0, 4.0, 5.0, 6.0])
        .expect("valid tensor should be created");

    assert_eq!(tensor.shape(), &[2, 3]);
    assert_eq!(tensor.data(), &[1.0f32, 2.0, 3.0, 4.0, 5.0, 6.0]);
    assert_eq!(tensor.numel(), 6);
}

#[test]
fn rejects_empty_shape() {
    let err = Tensor::<f32>::new(vec![], vec![]).expect_err("empty shape should fail");

    assert_eq!(err, MiniInferError::EmptyShape);
}

#[test]
fn gets_1d_value() {
    let tensor = Tensor::new(vec![4], vec![1.0f32, 2.0, 3.0, 4.0]).expect("valid tensor created");

    assert_eq!(tensor.get_1d(2).expect("index should exist"), 3.0);
}

#[test]
fn rejects_1d_out_of_bounds() {
    let tensor = Tensor::new(vec![4], vec![1.0f32, 2.0, 3.0, 4.0]).expect("valid tensor created");

    let err = tensor.get_1d(4).expect_err("index 4 should be out of bounds");

    assert_eq!(err, MiniInferError::IndexOutOfBounds { index: 4, len: 4 })
}

#[test]
fn reject_1d_on_non_1d_tensor() {
    let tensor = Tensor::new(vec![2, 2], vec![1.0f32, 2.0, 3.0, 4.0]).expect("valid tensor created");

    let err = tensor.get_1d(1).expect_err("2D tensor should be rejected");

    assert_eq!(err, MiniInferError::WrongRank { expected: 1, actual: 2 });
}

#[test]
fn gets_2d_value() {
    let tensor = Tensor::new(vec![2, 2], vec![1.0f32, 2.0, 3.0, 4.0]).expect("valid tensor created");

    assert_eq!(tensor.get_2d(1, 0).expect("index should exist"), 3.0);
}

#[test]
fn rejects_2d_row_out_of_bounds() {
    let tensor = Tensor::new(vec![2, 2], vec![1.0f32, 2.0, 3.0, 4.0]).expect("valid tensor created");

    let err = tensor.get_2d(4, 1).expect_err("row index 4 should be out of bounds");

    assert_eq!(err, MiniInferError::IndexOutOfBounds { index: 4, len: 2 })
}

#[test]
fn rejects_2d_col_out_of_bounds() {
    let tensor = Tensor::new(vec![2, 2], vec![1.0f32, 2.0, 3.0, 4.0]).expect("valid tensor created");

    let err = tensor.get_2d(1, 5).expect_err("col index 4 should be out of bounds");

    assert_eq!(err, MiniInferError::IndexOutOfBounds { index: 5, len: 2 })
}

#[test]
fn reject_2d_on_non_2d_tensor() {
    let tensor = Tensor::new(vec![4], vec![1.0f32, 2.0, 3.0, 4.0]).expect("valid tensor created");

    let err = tensor.get_2d(1, 1).expect_err("1D tensor should be rejected");

    assert_eq!(err, MiniInferError::WrongRank { expected: 2, actual: 1 });
}

fn invalid_quantization_scale_error() -> MiniInferError {
    MiniInferError::InvalidConfig {
        message: "quantization scale must be finite and greater than zero".to_string(),
    }
}

#[test]
fn creates_valid_quantized_tensor() {
    let tensor = QuantizedTensor::new(
        vec![2, 2],
        vec![-2, -1, 0, 1],
        QuantizationScale::PerTensor(0.25f32.to_bits()),
    )
    .expect("valid quantized tensor should be created");

    assert_eq!(tensor.shape(), &[2, 2]);
    assert_eq!(tensor.data(), &[-2, -1, 0, 1]);
    assert_eq!(tensor.scale(), &QuantizationScale::PerTensor(0.25f32.to_bits()));
}

#[test]
fn quantized_tensor_rejects_empty_shape() {
    let err = QuantizedTensor::new(vec![], vec![], QuantizationScale::PerTensor(1.0f32.to_bits()))
        .expect_err("empty quantized tensor shape should fail");

    assert_eq!(err, MiniInferError::EmptyShape);
}

#[test]
fn quantized_tensor_rejects_zero_dimension() {
    let err = QuantizedTensor::new(vec![2, 0], vec![], QuantizationScale::PerTensor(1.0f32.to_bits()))
        .expect_err("zero quantized tensor dimension should fail");

    assert_eq!(err, MiniInferError::ZeroDimension);
}

#[test]
fn quantized_tensor_rejects_shape_data_length_mismatch() {
    let err = QuantizedTensor::new(vec![2, 3], vec![1, 2], QuantizationScale::PerTensor(1.0f32.to_bits()))
        .expect_err("quantized tensor shape-data length mismatch should fail");

    assert_eq!(err, MiniInferError::ShapeDataLengthMismatch { expected: 6, actual: 2 });
}

#[test]
fn quantized_tensor_rejects_zero_scale() {
    let err = QuantizedTensor::new(vec![2], vec![1, 2], QuantizationScale::PerTensor(0.0f32.to_bits()))
        .expect_err("zero quantization scale should fail");

    assert_eq!(err, invalid_quantization_scale_error());
}

#[test]
fn quantized_tensor_rejects_nan_scale() {
    let err = QuantizedTensor::new(vec![2], vec![1, 2], QuantizationScale::PerTensor(f32::NAN.to_bits()))
        .expect_err("NaN quantization scale should fail");

    assert_eq!(err, invalid_quantization_scale_error());
}

#[test]
fn quantized_tensor_rejects_per_axis_scale_axis_out_of_rank() {
    let err = QuantizedTensor::new(
        vec![2, 3],
        vec![1, 2, 3, 4, 5, 6],
        QuantizationScale::PerAxis { axis: 2, scales: vec![0.1f32.to_bits(), 0.2f32.to_bits()] },
    )
    .expect_err("out-of-rank per-axis scale axis should fail");

    assert_eq!(
        err,
        MiniInferError::InvalidConfig {
            message: "per-axis quantization axis must be within tensor rank".to_string(),
        }
    );
}

#[test]
fn quantized_tensor_rejects_per_axis_scale_count_mismatch() {
    let err = QuantizedTensor::new(
        vec![2, 3],
        vec![1, 2, 3, 4, 5, 6],
        QuantizationScale::PerAxis { axis: 1, scales: vec![0.1f32.to_bits(), 0.2f32.to_bits()] },
    )
    .expect_err("wrong per-axis scale count should fail");

    assert_eq!(
        err,
        MiniInferError::InvalidConfig {
            message: "per-axis quantization scale count must match axis dimension".to_string(),
        }
    );
}

#[test]
fn quantized_tensor_rejects_negative_per_axis_scale() {
    let err = QuantizedTensor::new(
        vec![2],
        vec![1, 2],
        QuantizationScale::PerAxis { axis: 0, scales: vec![0.1f32.to_bits(), (-0.2f32).to_bits()] },
    )
    .expect_err("negative per-axis scale should fail");

    assert_eq!(
        err,
        MiniInferError::InvalidConfig {
            message: "per-axis quantization scales must be finite and greater than zero".to_string(),
        }
    );
}

#[test]
fn per_axis_scale_follows_column_index() {
    let scales = vec![0.1f32.to_bits(), 0.2f32.to_bits(), 0.3f32.to_bits()];
    let tensor = QuantizedTensor::new(
        vec![2, 3],
        vec![1, 2, 3, 4, 5, 6],
        QuantizationScale::PerAxis { axis: 1, scales: scales.clone() },
    )
    .expect("valid per-axis quantized tensor should be created");

    let picked: Vec<u32> = (0..6).map(|i| tensor.scale_bits_for(i)).collect();
    assert_eq!(picked, vec![scales[0], scales[1], scales[2], scales[0], scales[1], scales[2]]);
}

#[test]
fn per_axis_scale_follows_row_index() {
    let scales = vec![0.5f32.to_bits(), 2.0f32.to_bits()];
    let tensor = QuantizedTensor::new(
        vec![2, 3],
        vec![1, 2, 3, 4, 5, 6],
        QuantizationScale::PerAxis { axis: 0, scales: scales.clone() },
    )
    .expect("valid per-axis quantized tensor should be created");

    let picked: Vec<u32> = (0..6).map(|i| tensor.scale_bits_for(i)).collect();
    assert_eq!(picked, vec![scales[0], scales[0], scales[0], scales[1], scales[1], scales[1]]);
}

#[test]
fn duplicate_keeps_shape_and_elements() {
    let tensor = Tensor::new(vec![2, 2], vec![1u8, 2, 3, 4]).expect("valid tensor created");
    let copy = tensor.duplicate();
    assert_eq!(copy.shape(), tensor.shape());
    assert_eq!(copy.data(), tensor.data());
}

fn two_by_three() -> QuantizedTensor {
    QuantizedTensor::new(
        vec![2, 3],
        vec![1, 2, 3, 4, 5, 6],
        QuantizationScale::PerAxis { axis: 1, scales: vec![1.0f32.to_bits(), 2.0f32.to_bits(), 3.0f32.to_bits()] },
    )
    .expect("valid quantized tensor")
}

#[test]
fn packing_stores_columns_contiguously() {
    let packed = PackedI8Weight::from_quantized(&two_by_three()).expect("matrix should pack");
    assert_eq!(packed.shape(), &[2, 3]);
    assert_eq!(packed.data_by_col(), &[1, 4, 2, 5, 3, 6]);
    assert_eq!(
        packed.scale(),
        &QuantizationScale::PerAxis { axis: 1, scales: vec![1.0f32.to_bits(), 2.0f32.to_bits(), 3.0f32.to_bits()] }
    );
}

#[test]
fn unpacking_restores_the_matrix() {
    let matrix = two_by_three();
    let packed = PackedI8Weight::from_quantized(&matrix).expect("matrix should pack");
    let unpacked = packed.to_quantized().expect("matrix should unpack");
    assert_eq!(unpacked.shape(), matrix.shape());
    assert_eq!(unpacked.data(), matrix.data());
    assert_eq!(unpacked.scale(), matrix.scale());
}

#[test]
fn packing_needs_a_matrix() {
    let vector = QuantizedTensor::new(vec![3], vec![1, 2, 3], QuantizationScale::PerTensor(1.0f32.to_bits()))
        .expect("valid quantized tensor");
    assert_eq!(
        PackedI8Weight::from_quantized(&vector).map(|_| ()),
        Err(MiniInferError::WrongRank { expected: 2, actual: 1 })
    );
}

#[test]
fn quantized_matmul_shapes_are_checked() {
    let quantized = two_by_three();
    let packed = PackedI8Weight::from_quantized(&quantized).expect("matrix should pack");
    let input = Tensor::new(vec![4, 2], vec![0f32; 8]).expect("valid tensor");
    assert_eq!(validate_quantized_matmul_shape(&input, &quantized), Ok((4, 2, 3)));
    assert_eq!(validate_packed_i8_matmul_shape(&input, &packed), Ok((4, 2, 3)));

    let wide = Tensor::new(vec![1, 3], vec![0f32; 3]).expect("valid tensor");
    let mismatch = MiniInferError::InvalidTensorShape { expected: vec![3], actual: vec![2] };
    assert_eq!(validate_quantized_matmul_shape(&wide, &quantized), Err(mismatch.clone()));
    assert_eq!(validate_packed_i8_matmul_shape(&wide, &packed), Err(mismatch));

    let flat = Tensor::new(vec![2], vec![0f32; 2]).expect("valid tensor");
    assert_eq!(
        validate_quantized_matmul_shape(&flat, &quantized),
        Err(MiniInferError::WrongRank { expected: 2, actual: 1 })
    );
}

#[test]
fn weight_tensor_reports_its_shape() {
    let plain = WeightTensor::F32(Tensor::new(vec![2, 2], vec![0f32; 4]).expect("valid tensor"));
    assert_eq!(plain.shape(), &[2, 2]);
    let quantized: WeightTensor<f32> = WeightTensor::I8Symmetric(two_by_three());
    assert_eq!(quantized.shape(), &[2, 3]);
    let packed: WeightTensor<f32> =
        WeightTensor::PackedI8Symmetric(PackedI8Weight::from_quantized(&two_by_three()).expect("matrix should pack"));
    assert_eq!(packed.shape(), &[2, 3]);
}

#[test]
fn weight_shape_is_checked_whichever_way_it_is_held() {
    let packed: WeightTensor<f32> =
        WeightTensor::PackedI8Symmetric(PackedI8Weight::from_quantized(&two_by_three()).expect("matrix should pack"));
    assert_eq!(validate_weight_shape(&packed, &[2, 3]), Ok(()));
    assert_eq!(
        validate_weight_shape(&packed, &[3, 2]),
        Err(MiniInferError::InvalidTensorShape { expected: vec![3, 2], actual: vec![2, 3] })
    );
}
