use miniinfer::backend::{NdArrayBackend, ReferenceBackend, WeightRuntimeArg};
use miniinfer::error::MiniInferError;
use miniinfer::layout::{head_count, last_hidden_row, merge_heads, split_heads, split_qkv};
use miniinfer::ops::{
    embedding_lookup, validate_attention_shapes, validate_elementwise_pair, validate_layer_norm_inputs,
    validate_matmul_shape, validate_row_matrix_shape, validate_shape, validate_square_scores,
};
use miniinfer::tensor::Tensor;

#[test]
fn reference_backend_name() {
    let backend = ReferenceBackend::new();
    assert_eq!(backend.name(), "reference");
}

#[test]
fn ndarray_backend_name() {
    let backend = NdArrayBackend::new();
    assert_eq!(backend.name(), "ndarray");
}

#[test]
fn looks_up_embedding_rows() {
    let embedding = Tensor::new(vec![3, 2], vec![0.1f32, 0.2, 0.3, 0.4, 0.5, 0.6])
        .expect("valid embedding tensor");

    let output = embedding_lookup(&embedding, &[2, 0]).expect("embedding lookup should succeed");

    assert_eq!(output.shape(), &[2, 2]);
    assert_eq!(output.data(), &[0.5f32, 0.6, 0.1, 0.2]);
}

#[test]
fn rejects_empty_token_ids() {
    let embedding = Tensor::new(vec![3, 2], vec![0.1f32, 0.2, 0.3, 0.4, 0.5, 0.6])
        .expect("valid embedding tensor");

    let err = embedding_lookup(&embedding, &[]).expect_err("empty token ids should fail");

    assert_eq!(err, MiniInferError::EmptyInput);
}

#[test]
fn rejects_non_2d_embedding() {
    let embedding = Tensor::new(vec![6], vec![0.1f32, 0.2, 0.3, 0.4, 0.5, 0.6]).expect("valid tensor");

    let err = embedding_lookup(&embedding, &[0]).expect_err("non-2D embedding should fail");

    assert_eq!(err, MiniInferError::WrongRank { expected: 2, actual: 1 });
}

#[test]
fn rejects_token_id_out_of_bounds() {
    let embedding = Tensor::new(vec![3, 2], vec![0.1f32, 0.2, 0.3, 0.4, 0.5, 0.6])
        .expect("valid embedding tensor");

    let err = embedding_lookup(&embedding, &[3]).expect_err("token id should be out of bounds");

    assert_eq!(err, MiniInferError::IndexOutOfBounds { index: 3, len: 3 });
}

#[test]
fn embedding_lookup_reports_first_out_of_range_id() {
    let embedding = Tensor::new(vec![3, 1], vec![1u32, 2, 3]).expect("valid embedding tensor");

    let err = embedding_lookup(&embedding, &[1, 7, 5]).expect_err("token id should be out of bounds");

    assert_eq!(err, MiniInferError::IndexOutOfBounds { index: 7, len: 3 });
}

#[test]
fn matmul_shape_rejects_left_tensor_with_wrong_rank() {
    let a = Tensor::new(vec![3], vec![1.0f32, 2.0, 3.0]).expect("valid tensor");
    let b = Tensor::new(vec![3, 2], vec![7.0f32, 8.0, 9.0, 10.0, 11.0, 12.0]).expect("valid tensor");

    let err = validate_matmul_shape(&a, &b).expect_err("left tensor rank should be rejected");

    assert_eq!(err, MiniInferError::WrongRank { expected: 2, actual: 1 });
}

#[test]
fn matmul_shape_rejects_right_tensor_with_wrong_rank() {
    let a = Tensor::new(vec![2, 3], vec![1.0f32, 2.0, 3.0, 4.0, 5.0, 6.0]).expect("valid tensor");
    let b = Tensor::new(vec![3], vec![7.0f32, 8.0, 9.0]).expect("valid tensor");

    let err = validate_matmul_shape(&a, &b).expect_err("right tensor rank should be rejected");

    assert_eq!(err, MiniInferError::WrongRank { expected: 2, actual: 1 });
}

#[test]
fn matmul_shape_rejects_inner_dimension_mismatch() {
    let a = Tensor::new(vec![2, 3], vec![1.0f32, 2.0, 3.0, 4.0, 5.0, 6.0]).expect("valid tensor");
    let b = Tensor::new(vec![4, 2], vec![7.0f32, 8.0, 9.0, 10.0, 11.0, 12.0, 13.0, 14.0])
        .expect("valid tensor");

    let err = validate_matmul_shape(&a, &b).expect_err("inner dimension mismatch should be rejected");

    assert_eq!(err, MiniInferError::MatMulShapeMismatch { left: vec![2, 3], right: vec![4, 2] });
}

#[test]
fn matmul_shape_gives_dimensions() {
    let a = Tensor::new(vec![2, 3], vec![0i8; 6]).expect("valid tensor");
    let b = Tensor::new(vec![3, 4], vec![0f32; 12]).expect("valid tensor");

    assert_eq!(validate_matmul_shape(&a, &b), Ok((2, 3, 4)));
}

#[test]
fn row_matrix_shape_checks() {
    let row = [1.0f32, 2.0];
    let matrix = [1.0f32, 2.0, 3.0, 4.0, 5.0, 6.0];

    assert_eq!(validate_row_matrix_shape(&row, &matrix, 2, 3), Ok(()));
    assert_eq!(
        validate_row_matrix_shape(&row, &matrix, 0, 3),
        Err(MiniInferError::InvalidConfig {
            message: "matrix dimensions must be greater than zero".to_string()
        })
    );
    assert_eq!(
        validate_row_matrix_shape(&row, &matrix, 3, 2),
        Err(MiniInferError::LengthMismatch { expected: 3, actual: 2 })
    );
    assert_eq!(
        validate_row_matrix_shape(&row, &matrix[..5], 2, 3),
        Err(MiniInferError::ShapeDataLengthMismatch { expected: 6, actual: 5 })
    );
}

#[test]
fn validate_shape_reports_expected_and_actual() {
    let t = Tensor::new(vec![2, 2], vec![0f32; 4]).expect("valid tensor");
    assert_eq!(validate_shape(&t, &[2, 2]), Ok(()));
    assert_eq!(
        validate_shape(&t, &[4]),
        Err(MiniInferError::InvalidTensorShape { expected: vec![4], actual: vec![2, 2] })
    );
}

#[test]
fn split_qkv_splits_combined_tensor() {
    let qkv = Tensor::new(
        vec![2, 6],
        vec![1.0f32, 2.0, 3.0, 4.0, 5.0, 6.0, 7.0, 8.0, 9.0, 10.0, 11.0, 12.0],
    )
    .expect("valid qkv tensor");

    let (query, key, value) = split_qkv(&qkv).expect("QKV split should succeed");

    assert_eq!(query.shape(), &[2, 2]);
    assert_eq!(query.data(), &[1.0f32, 2.0, 7.0, 8.0]);

    assert_eq!(key.shape(), &[2, 2]);
    assert_eq!(key.data(), &[3.0f32, 4.0, 9.0, 10.0]);

    assert_eq!(value.shape(), &[2, 2]);
    assert_eq!(value.data(), &[5.0f32, 6.0, 11.0, 12.0]);
}

#[test]
fn split_qkv_rejects_non_2d_tensor() {
    let qkv = Tensor::new(vec![6], vec![1.0f32, 2.0, 3.0, 4.0, 5.0, 6.0]).expect("valid tensor");

    let err = split_qkv(&qkv).expect_err("1D QKV tensor should fail");

    assert_eq!(err, MiniInferError::WrongRank { expected: 2, actual: 1 });
}

#[test]
fn split_qkv_rejects_width_not_divisible_by_three() {
    let qkv = Tensor::new(vec![1, 5], vec![1.0f32, 2.0, 3.0, 4.0, 5.0]).expect("valid tensor");

    let err = split_qkv(&qkv).expect_err("QKV width must be divisible by 3");

    assert_eq!(err, MiniInferError::InvalidTensorShape { expected: vec![1, 3], actual: vec![1, 5] });
}

#[test]
fn split_heads_splits_hidden_dimension_into_heads() {
    let hidden = Tensor::new(vec![2, 4], vec![1.0f32, 2.0, 3.0, 4.0, 5.0, 6.0, 7.0, 8.0])
        .expect("valid hidden");

    let heads = split_heads(&hidden, 2).expect("split heads should succeed");

    assert_eq!(heads.len(), 2);

    assert_eq!(heads[0].shape(), &[2, 2]);
    assert_eq!(heads[0].data(), &[1.0f32, 2.0, 5.0, 6.0]);

    assert_eq!(heads[1].shape(), &[2, 2]);
    assert_eq!(heads[1].data(), &[3.0f32, 4.0, 7.0, 8.0]);
}

#[test]
fn merge_heads_merges_multiple_heads_into_hidden_dimension() {
    let head1 = Tensor::new(vec![2, 2], vec![1.0f32, 2.0, 3.0, 4.0]).expect("valid head1");
    let head2 = Tensor::new(vec![2, 2], vec![5.0f32, 6.0, 7.0, 8.0]).expect("valid head2");

    let merged = merge_heads(&[head1, head2]).expect("merge heads should succeed");

    assert_eq!(merged.shape(), &[2, 4]);
    assert_eq!(merged.data(), &[1.0f32, 2.0, 5.0, 6.0, 3.0, 4.0, 7.0, 8.0]);
}

#[test]
fn split_heads_rejects_bad_head_counts() {
    let hidden = Tensor::new(vec![1, 4], vec![1u8, 2, 3, 4]).expect("valid hidden");

    assert_eq!(
        split_heads(&hidden, 0).expect_err("zero heads should fail"),
        MiniInferError::InvalidConfig { message: "num_heads must be greater than zero".to_string() }
    );
    assert_eq!(
        split_heads(&hidden, 3).expect_err("indivisible width should fail"),
        MiniInferError::InvalidConfig {
            message: "hidden_size 4 must be divisible by num_heads 3".to_string()
        }
    );
}

#[test]
fn merge_heads_rejects_mismatched_heads() {
    let a = Tensor::new(vec![2, 2], vec![1u8, 2, 3, 4]).expect("valid head");
    let b = Tensor::new(vec![1, 2], vec![5u8, 6]).expect("valid head");
    let c = Tensor::new(vec![4], vec![5u8, 6, 7, 8]).expect("valid head");

    assert_eq!(merge_heads::<u8>(&[]).expect_err("no heads"), MiniInferError::EmptyInput);
    assert_eq!(
        merge_heads(&[a.duplicate(), b]).expect_err("mismatched head"),
        MiniInferError::InvalidTensorShape { expected: vec![2, 2], actual: vec![1, 2] }
    );
    assert_eq!(
        merge_heads(&[a, c]).expect_err("wrong rank head"),
        MiniInferError::WrongRank { expected: 2, actual: 1 }
    );
}

#[test]
fn merge_after_split_gives_back_the_matrix() {
    let data: Vec<i32> = (0..24).collect();
    let hidden = Tensor::new(vec![4, 6], data.clone()).expect("valid hidden");

    let heads = split_heads(&hidden, 3).expect("split heads should succeed");
    let merged = merge_heads(&heads).expect("merge heads should succeed");

    assert_eq!(merged.shape(), &[4, 6]);
    assert_eq!(merged.data(), data.as_slice());
}

#[test]
fn last_hidden_row_takes_the_final_row() {
    let hidden = Tensor::new(vec![3, 2], vec![1.0f32, 2.0, 3.0, 4.0, 5.0, 6.0]).expect("valid hidden");

    let last = last_hidden_row(&hidden).expect("last row should exist");

    assert_eq!(last.shape(), &[1, 2]);
    assert_eq!(last.data(), &[5.0f32, 6.0]);
    assert_eq!(
        last_hidden_row(&Tensor::new(vec![2], vec![1.0f32, 2.0]).expect("valid tensor")).expect_err("rank"),
        MiniInferError::WrongRank { expected: 2, actual: 1 }
    );
}

#[test]
fn weight_runtime_names() {
    assert_eq!(WeightRuntimeArg::F32.name(), "f32");
    assert_eq!(WeightRuntimeArg::PackedInt8.name(), "packed-int8");
}

#[test]
fn head_count_checks_divisibility() {
    assert_eq!(head_count(768, 64), Ok(12));
    assert_eq!(
        head_count(10, 0),
        Err(MiniInferError::InvalidConfig { message: "head_dim must be greater than zero".to_string() })
    );
    assert_eq!(
        head_count(10, 4),
        Err(MiniInferError::InvalidConfig { message: "hidden_size 10 must be divisible by head_dim 4".to_string() })
    );
}

#[test]
fn kernel_operand_checks() {
    let q = Tensor::new(vec![2, 4], vec![0f32; 8]).expect("valid tensor");
    let k = Tensor::new(vec![3, 4], vec![0f32; 12]).expect("valid tensor");
    let bad = Tensor::new(vec![3, 2], vec![0f32; 6]).expect("valid tensor");
    assert_eq!(validate_attention_shapes(&q, &k, 4), Ok((2, 3)));
    assert_eq!(
        validate_attention_shapes(&q, &bad, 4),
        Err(MiniInferError::InvalidTensorShape { expected: vec![3, 4], actual: vec![3, 2] })
    );
    assert_eq!(
        validate_attention_shapes(&q, &k, 0),
        Err(MiniInferError::InvalidConfig { message: "head_dim must be greater than zero".to_string() })
    );
    assert_eq!(validate_square_scores(&q), Err(MiniInferError::InvalidTensorShape { expected: vec![2, 2], actual: vec![2, 4] }));
    let sq = Tensor::new(vec![3, 3], vec![0f32; 9]).expect("valid tensor");
    assert_eq!(validate_square_scores(&sq), Ok(3));
    assert_eq!(validate_elementwise_pair::<f32, f32>(&[], &[1.0]), Err(MiniInferError::EmptyInput));
    assert_eq!(
        validate_elementwise_pair(&[1.0f32, 2.0], &[1.0f32]),
        Err(MiniInferError::LengthMismatch { expected: 2, actual: 1 })
    );
    let v = [1.0f32, 2.0];
    assert_eq!(validate_layer_norm_inputs(&v, &v, &v, 1e-5f32.to_bits()), Ok(()));
    assert_eq!(validate_layer_norm_inputs(&v, &v, &v, 0f32.to_bits()), Err(MiniInferError::InvalidEpsilon));
    assert_eq!(
        validate_layer_norm_inputs(&v, &v[..1], &v, 1e-5f32.to_bits()),
        Err(MiniInferError::LengthMismatch { expected: 2, actual: 1 })
    );
}
