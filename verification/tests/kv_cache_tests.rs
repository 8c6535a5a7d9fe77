use miniinfer::error::MiniInferError;
use miniinfer::kv_cache::{capacity_total, capped_sum, KvCache, LayerKvCache};
use miniinfer::tensor::Tensor;

fn row(values: &[f32]) -> Tensor<f32> {
    Tensor::new(vec![1, values.len()], values.to_vec()).expect("row tensor should be valid")
}

fn expect_empty_input(result: Result<Tensor<f32>, MiniInferError>) {
    match result {
        Err(MiniInferError::EmptyInput) => {}
        Err(err) => panic!("unexpected error: {err:?}"),
        Ok(_) => panic!("expected empty input error"),
    }
}

#[test]
fn layer_cache_starts_empty() {
    let cache = LayerKvCache::<f32>::new(2, 4, 8).expect("cache should be valid");

    assert_eq!(cache.seq_len(), 0);
    assert_eq!(cache.num_heads(), 2);
    assert_eq!(cache.head_dim(), 4);
    assert_eq!(cache.max_seq_len(), 8);
    assert_eq!(cache.keys().len(), 2);
    assert_eq!(cache.values().len(), 2);
    assert_eq!(cache.keys()[0].capacity(), 32);
    assert_eq!(cache.values()[0].capacity(), 32);
}

#[test]
fn layer_cache_rejects_zero_dimensions() {
    assert!(LayerKvCache::<f32>::new(0, 4, 8).is_err());
    assert!(LayerKvCache::<f32>::new(2, 0, 8).is_err());
    assert!(LayerKvCache::<f32>::new(2, 4, 0).is_err());
}

#[test]
fn kv_cache_creates_one_layer_per_config_layer() {
    let cache = KvCache::<f32>::new(3, 2, 4, 8).expect("cache should be valid");

    assert_eq!(cache.num_layers(), 3);
    assert_eq!(cache.layer(0).expect("layer should exist").num_heads(), 2);
    assert_eq!(cache.layer(2).expect("layer should exist").head_dim(), 4);
}

#[test]
fn kv_cache_rejects_invalid_layer_index() {
    let cache = KvCache::<f32>::new(2, 2, 4, 8).expect("cache should be valid");

    let err = match cache.layer(2) {
        Ok(_) => panic!("out-of-bounds layer should fail"),
        Err(err) => err,
    };

    assert_eq!(err, MiniInferError::IndexOutOfBounds { index: 2, len: 2 });
}

#[test]
fn kv_cache_rejects_zero_layers() {
    assert!(KvCache::<f32>::new(0, 2, 4, 8).is_err());
}

#[test]
fn layer_cache_appends_one_token_per_head() {
    let mut cache = LayerKvCache::new(2, 3, 8).expect("cache should be valid");

    let keys = vec![
        Tensor::new(vec![1, 3], vec![1.0, 2.0, 3.0]).expect("valid key"),
        Tensor::new(vec![1, 3], vec![4.0, 5.0, 6.0]).expect("valid key"),
    ];

    let values = vec![
        Tensor::new(vec![1, 3], vec![7.0, 8.0, 9.0]).expect("valid value"),
        Tensor::new(vec![1, 3], vec![10.0, 11.0, 12.0]).expect("valid value"),
    ];

    cache.append(&keys, &values).expect("append should succeed");

    assert_eq!(cache.seq_len(), 1);
    assert_eq!(cache.key_for_head(0).expect("key should exist").data(), &[1.0f32, 2.0, 3.0]);
    assert_eq!(cache.value_for_head(1).expect("value should exist").data(), &[10.0f32, 11.0, 12.0]);
}

#[test]
fn layer_cache_appends_multiple_tokens_in_order() {
    let mut cache = LayerKvCache::new(1, 2, 4).expect("cache should be valid");

    cache
        .append(&[row(&[1.0, 2.0])], &[row(&[10.0, 20.0])])
        .expect("first append should succeed");
    cache
        .append(&[row(&[3.0, 4.0])], &[row(&[30.0, 40.0])])
        .expect("second append should succeed");

    let key = cache.key_for_head(0).expect("key should exist");
    let value = cache.value_for_head(0).expect("value should exist");

    assert_eq!(cache.seq_len(), 2);
    assert_eq!(key.shape(), &[2, 2]);
    assert_eq!(key.data(), &[1.0f32, 2.0, 3.0, 4.0]);
    assert_eq!(value.shape(), &[2, 2]);
    assert_eq!(value.data(), &[10.0f32, 20.0, 30.0, 40.0]);
}

#[test]
fn layer_cache_rejects_wrong_key_head_count() {
    let mut cache = LayerKvCache::new(2, 2, 4).expect("cache should be valid");

    let err = cache
        .append(&[row(&[1.0, 2.0])], &[row(&[3.0, 4.0]), row(&[5.0, 6.0])])
        .expect_err("wrong key head count should fail");

    assert_eq!(err, MiniInferError::LengthMismatch { expected: 2, actual: 1 });
}

#[test]
fn layer_cache_rejects_wrong_value_head_count() {
    let mut cache = LayerKvCache::new(2, 2, 4).expect("cache should be valid");

    let err = cache
        .append(&[row(&[1.0, 2.0]), row(&[3.0, 4.0])], &[row(&[5.0, 6.0])])
        .expect_err("wrong value head count should fail");

    assert_eq!(err, MiniInferError::LengthMismatch { expected: 2, actual: 1 });
}

#[test]
fn layer_cache_rejects_wrong_key_shape() {
    let mut cache = LayerKvCache::new(1, 2, 4).expect("cache should be valid");
    let bad_key = Tensor::new(vec![1, 3], vec![1.0f32, 2.0, 3.0]).expect("valid tensor");

    let err = cache
        .append(&[bad_key], &[row(&[4.0, 5.0])])
        .expect_err("wrong key shape should fail");

    assert_eq!(
        err,
        MiniInferError::InvalidTensorShape {
            expected: vec![1, 2],
            actual: vec![1, 3],
        }
    );
}

#[test]
fn layer_cache_rejects_context_overflow() {
    let mut cache = LayerKvCache::new(1, 2, 1).expect("cache should be valid");

    cache
        .append(&[row(&[1.0, 2.0])], &[row(&[3.0, 4.0])])
        .expect("first append should succeed");
    let err = cache
        .append(&[row(&[5.0, 6.0])], &[row(&[7.0, 8.0])])
        .expect_err("second append should overflow");

    assert_eq!(
        err,
        MiniInferError::InvalidConfig {
            message: "Exceeding max sequence length".to_string(),
        }
    );
}

#[test]
fn layer_cache_reset_clears_rows() {
    let mut cache = LayerKvCache::new(1, 2, 4).expect("cache should be valid");

    cache
        .append(&[row(&[1.0, 2.0])], &[row(&[3.0, 4.0])])
        .expect("append should succeed");
    cache.reset();

    assert_eq!(cache.seq_len(), 0);
    assert!(cache.keys()[0].is_empty());
    assert!(cache.values()[0].is_empty());
    expect_empty_input(cache.key_for_head(0));
    expect_empty_input(cache.value_for_head(0));
}

#[test]
fn layer_cache_empty_readback_fails() {
    let cache = LayerKvCache::<f32>::new(1, 2, 4).expect("cache should be valid");

    expect_empty_input(cache.key_for_head(0));
    expect_empty_input(cache.value_for_head(0));
}

#[test]
fn kv_cache_layer_mut_allows_layer_update() {
    let mut cache = KvCache::new(2, 1, 2, 4).expect("cache should be valid");

    cache
        .layer_mut(0)
        .expect("layer should exist")
        .append(&[row(&[1.0, 2.0])], &[row(&[3.0, 4.0])])
        .expect("append should succeed");

    let key = cache.layer(0).expect("layer should exist").key_for_head(0).expect("key should exist");
    assert_eq!(key.data(), &[1.0f32, 2.0]);
}

#[test]
fn kv_cache_layer_mut_rejects_invalid_layer_index() {
    let mut cache = KvCache::<f32>::new(1, 1, 2, 4).expect("cache should be valid");

    let err = match cache.layer_mut(1) {
        Ok(_) => panic!("out-of-bounds layer should fail"),
        Err(err) => err,
    };
    assert_eq!(err, MiniInferError::IndexOutOfBounds { index: 1, len: 1 });
}

#[test]
fn kv_cache_reset_clears_all_layers() {
    let mut cache = KvCache::new(2, 1, 2, 4).expect("cache should be valid");

    cache
        .layer_mut(0)
        .expect("layer should exist")
        .append(&[row(&[1.0, 2.0])], &[row(&[3.0, 4.0])])
        .expect("append should succeed");
    cache
        .layer_mut(1)
        .expect("layer should exist")
        .append(&[row(&[5.0, 6.0])], &[row(&[7.0, 8.0])])
        .expect("append should succeed");

    cache.reset();

    for layer_index in 0..cache.num_layers() {
        let layer = cache.layer(layer_index).expect("layer should exist");
        assert_eq!(layer.seq_len(), 0);
        assert!(layer.keys()[0].is_empty());
        assert!(layer.values()[0].is_empty());
    }
}

#[test]
fn kv_cache_current_position_tracks_shared_layer_sequence_length() {
    let mut cache = KvCache::new(2, 1, 2, 4).expect("cache should be valid");

    assert_eq!(cache.current_position().expect("position should exist"), 0);

    for layer_index in 0..cache.num_layers() {
        cache
            .layer_mut(layer_index)
            .expect("layer should exist")
            .append(&[row(&[1.0, 2.0])], &[row(&[3.0, 4.0])])
            .expect("append should succeed");
    }

    assert_eq!(cache.seq_len().expect("seq len should exist"), 1);
    assert_eq!(cache.current_position().expect("position should exist"), 1);
}

#[test]
fn kv_cache_seq_len_rejects_inconsistent_layer_lengths() {
    let mut cache = KvCache::new(2, 1, 2, 4).expect("cache should be valid");

    cache
        .layer_mut(0)
        .expect("layer should exist")
        .append(&[row(&[1.0, 2.0])], &[row(&[3.0, 4.0])])
        .expect("append should succeed");

    let err = cache.seq_len().expect_err("inconsistent cache should fail");

    assert_eq!(
        err,
        MiniInferError::InvalidConfig {
            message: "KV cache layers must have the same sequence length".to_string(),
        }
    );
}

#[test]
fn read_after_append_returns_previous_rows_then_new_row() {
    let mut cache = LayerKvCache::new(2, 2, 3).expect("cache should be valid");
    cache
        .append(&[row(&[1.0, 2.0]), row(&[3.0, 4.0])], &[row(&[5.0, 6.0]), row(&[7.0, 8.0])])
        .expect("first append should succeed");
    cache
        .append(&[row(&[9.0, 10.0]), row(&[11.0, 12.0])], &[row(&[13.0, 14.0]), row(&[15.0, 16.0])])
        .expect("second append should succeed");

    let key = cache.key_for_head(1).expect("key should exist");
    assert_eq!(key.shape(), &[2, 2]);
    assert_eq!(key.data(), &[3.0f32, 4.0, 11.0, 12.0]);
    let value = cache.value_for_head(0).expect("value should exist");
    assert_eq!(value.data(), &[5.0f32, 6.0, 13.0, 14.0]);
}

#[test]
fn rejected_append_leaves_cache_unchanged() {
    let mut cache = LayerKvCache::new(2, 2, 4).expect("cache should be valid");

    let err = cache
        .append(&[row(&[9.0, 9.0]), row(&[3.0, 4.0, 5.0])], &[row(&[6.0, 7.0]), row(&[8.0, 9.0])])
        .expect_err("bad key shape of the second head should fail");

    assert_eq!(
        err,
        MiniInferError::InvalidTensorShape { expected: vec![1, 2], actual: vec![1, 3] }
    );
    assert_eq!(cache.seq_len(), 0);
    for head in 0..2 {
        assert!(cache.keys()[head].is_empty());
        assert!(cache.values()[head].is_empty());
    }

    cache
        .append(&[row(&[1.0, 2.0]), row(&[3.0, 4.0])], &[row(&[5.0, 6.0]), row(&[7.0, 8.0])])
        .expect("valid append should succeed");
    let keys = cache.key_for_head(0).expect("head 0 should hold one row");
    assert_eq!(keys.shape(), &[1, 2]);
    assert_eq!(keys.data(), &[1.0, 2.0]);
}

#[test]
fn memory_report_counts_key_and_value_payload() {
    let cache = KvCache::<f32>::new(12, 12, 64, 1024).expect("cache should be valid");

    let report = cache.memory_report(4);

    assert_eq!(report.capacity_bytes, 75_497_472);
    assert_eq!(report.allocated_bytes, 75_497_472);
    assert_eq!(report.active_bytes, 0);
}

#[test]
fn memory_report_active_bytes_follow_cached_positions() {
    let mut cache = KvCache::new(2, 1, 2, 4).expect("cache should be valid");
    for layer_index in 0..cache.num_layers() {
        cache
            .layer_mut(layer_index)
            .expect("layer should exist")
            .append(&[row(&[1.0, 2.0])], &[row(&[3.0, 4.0])])
            .expect("append should succeed");
    }

    let report = cache.memory_report(4);

    assert_eq!(report.active_bytes, 2 * 1 * 2 * 2 * 4);
    assert_eq!(report.capacity_bytes, 2 * 4 * 2 * 2 * 4);
    assert!(report.allocated_bytes >= report.active_bytes);
}

#[test]
fn capacity_total_adds_key_and_value_capacities() {
    assert_eq!(capacity_total(&[1, 2], &[3, 4]), 10);
    assert_eq!(capacity_total(&[], &[]), 0);
    assert_eq!(capacity_total(&[usize::MAX, 1], &[0, 5]), usize::MAX);
}

#[test]
fn capped_sum_saturates() {
    assert_eq!(capped_sum(&[5, 7, 11]), 23);
    assert_eq!(capped_sum(&[]), 0);
    assert_eq!(capped_sum(&[usize::MAX - 1, 1]), usize::MAX);
    assert_eq!(capped_sum(&[usize::MAX, usize::MAX]), usize::MAX);
}

#[test]
fn fresh_layer_reserves_room_for_every_row() {
    let cache = LayerKvCache::<f32>::new(2, 4, 8).expect("cache should be valid");
    // Two heads, a key and a value buffer each, room for 8 rows of 4 in each.
    assert_eq!(cache.allocated_elements(), 2 * 2 * 8 * 4);
}
