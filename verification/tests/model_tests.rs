use miniinfer::config::{Architecture, ModelConfig};
use miniinfer::error::MiniInferError;
use miniinfer::model::{Gpt2BlockWeights, Gpt2Weights, LMHead};
use miniinfer::tensor::Tensor;

fn gpt2_small_config() -> ModelConfig {
    ModelConfig {
        architecture: Architecture::Gpt2,
        vocab_size: 50257,
        max_position_embeddings: 1024,
        hidden_size: 768,
        num_layers: 12,
        num_heads: 12,
        intermediate_size: 3072,
        layer_norm_epsilon_bits: 1e-5f32.to_bits(),
        eos_token_id: Some(50256),
    }
}

#[test]
fn test_model_config_validation() {
    let config = gpt2_small_config();

    assert!(config.validate().is_ok());

    let invalid_config = ModelConfig { vocab_size: 0, ..gpt2_small_config() };

    assert!(invalid_config.validate().is_err());
}

#[test]
fn test_head_dim_calculation() {
    let config = gpt2_small_config();

    assert_eq!(config.head_dim(), 64);
}

#[test]
fn rejects_hidden_size_not_divisible_by_num_heads() {
    let config = ModelConfig { hidden_size: 770, ..gpt2_small_config() };

    assert!(config.validate().is_err());
}

#[test]
fn rejects_invalid_layer_norm_epsilon() {
    let config = ModelConfig { layer_norm_epsilon_bits: (-1e-5f32).to_bits(), ..gpt2_small_config() };

    assert!(config.validate().is_err());
}

#[test]
fn config_validation_reports_first_failing_check() {
    let expect = |config: ModelConfig, message: &str| {
        assert_eq!(
            config.validate(),
            Err(MiniInferError::InvalidConfig { message: message.to_string() })
        );
    };
    expect(ModelConfig { vocab_size: 0, hidden_size: 0, ..gpt2_small_config() }, "Invalid vocab size");
    expect(ModelConfig { max_position_embeddings: 0, ..gpt2_small_config() }, "Invalid max position embeddings");
    expect(ModelConfig { hidden_size: 0, ..gpt2_small_config() }, "Invalid hidden size");
    expect(ModelConfig { num_heads: 0, ..gpt2_small_config() }, "Invalid number of heads");
    expect(ModelConfig { num_layers: 0, ..gpt2_small_config() }, "Invalid number of layers");
    expect(ModelConfig { intermediate_size: 0, ..gpt2_small_config() }, "Invalid intermediate size");
    expect(ModelConfig { layer_norm_epsilon_bits: 0f32.to_bits(), ..gpt2_small_config() }, "Invalid layer norm epsilon");
    expect(
        ModelConfig { hidden_size: 770, ..gpt2_small_config() },
        "Hidden size must be divisible by number of heads",
    );
    expect(
        ModelConfig { eos_token_id: Some(50257), ..gpt2_small_config() },
        "eos_token_id must be less than vocab_size",
    );
    assert_eq!(ModelConfig { eos_token_id: None, ..gpt2_small_config() }.validate(), Ok(()));
}

#[test]
fn nan_epsilon_passes_the_sign_check() {
    let config = ModelConfig { layer_norm_epsilon_bits: f32::NAN.to_bits(), ..gpt2_small_config() };
    assert_eq!(config.validate(), Ok(()));
}

fn tensor(shape: &[usize]) -> Tensor<f32> {
    let len = shape.iter().product();
    Tensor::new(shape.to_vec(), vec![0.0; len]).expect("test tensor shape should be valid")
}

fn tiny_config() -> ModelConfig {
    ModelConfig {
        architecture: Architecture::Gpt2,
        vocab_size: 8,
        max_position_embeddings: 8,
        hidden_size: 4,
        num_layers: 1,
        num_heads: 2,
        intermediate_size: 16,
        layer_norm_epsilon_bits: 1e-5f32.to_bits(),
        eos_token_id: Some(6),
    }
}

fn tiny_block_weights() -> Gpt2BlockWeights<f32> {
    Gpt2BlockWeights {
        ln_1_weight: tensor(&[4]),
        ln_1_bias: tensor(&[4]),
        c_attn_weight: tensor(&[4, 12]),
        c_attn_bias: tensor(&[12]),
        attn_c_proj_weight: tensor(&[4, 4]),
        attn_c_proj_bias: tensor(&[4]),
        ln_2_weight: tensor(&[4]),
        ln_2_bias: tensor(&[4]),
        c_fc_weight: tensor(&[4, 16]),
        c_fc_bias: tensor(&[16]),
        mlp_c_proj_weight: tensor(&[16, 4]),
        mlp_c_proj_bias: tensor(&[4]),
    }
}

fn tiny_weights() -> Gpt2Weights<f32> {
    Gpt2Weights {
        wte: tensor(&[8, 4]),
        wpe: tensor(&[8, 4]),
        blocks: vec![tiny_block_weights()],
        ln_f_weight: tensor(&[4]),
        ln_f_bias: tensor(&[4]),
        lm_head_weight: LMHead::Untied(tensor(&[4, 8])),
    }
}

#[test]
fn weights_validates_correct_shapes() {
    let config = tiny_config();
    let weights = tiny_weights();

    assert!(weights.validate_shapes(&config).is_ok());
}

#[test]
fn validates_tied_lm_head_without_explicit_weight() {
    let config = tiny_config();
    let weights = Gpt2Weights { lm_head_weight: LMHead::Tied, ..tiny_weights() };

    assert!(weights.validate_shapes(&config).is_ok());
}

#[test]
fn weights_rejects_wrong_block_count() {
    let config = tiny_config();
    let weights = Gpt2Weights { blocks: vec![], ..tiny_weights() };

    let err = weights.validate_shapes(&config).expect_err("wrong block count should fail");

    assert_eq!(
        err,
        MiniInferError::InvalidConfig {
            message: "number of GPT-2 blocks must match num_layers".to_string(),
        }
    );
}

#[test]
fn weights_rejects_wrong_token_embedding_shape() {
    let config = tiny_config();
    let weights = Gpt2Weights { wte: tensor(&[7, 4]), ..tiny_weights() };

    let err = weights.validate_shapes(&config).expect_err("wrong token embedding shape should fail");

    assert_eq!(err, MiniInferError::InvalidTensorShape { expected: vec![8, 4], actual: vec![7, 4] });
}

#[test]
fn forward_rejects_invalid_lm_head_shape() {
    let config = tiny_config();
    let weights = Gpt2Weights { lm_head_weight: LMHead::Untied(tensor(&[4, 7])), ..tiny_weights() };

    let err = weights.validate_shapes(&config).expect_err("bad LM head shape should fail");

    assert_eq!(err, MiniInferError::InvalidTensorShape { expected: vec![4, 8], actual: vec![4, 7] });
}

#[test]
fn validation_reports_first_bad_block_tensor() {
    let config = tiny_config();
    let mut block = tiny_block_weights();
    block.c_fc_bias = tensor(&[15]);
    block.mlp_c_proj_weight = tensor(&[4, 4]);
    let weights = Gpt2Weights { blocks: vec![block], ..tiny_weights() };

    let err = weights.validate_shapes(&config).expect_err("bad block shape should fail");

    assert_eq!(err, MiniInferError::InvalidTensorShape { expected: vec![16], actual: vec![15] });
}

#[test]
fn validation_checks_config_first() {
    let config = ModelConfig { num_heads: 3, ..tiny_config() };
    let weights = Gpt2Weights { wte: tensor(&[7, 4]), ..tiny_weights() };

    assert_eq!(
        weights.validate_shapes(&config),
        Err(MiniInferError::InvalidConfig {
            message: "Hidden size must be divisible by number of heads".to_string()
        })
    );
}

#[test]
fn embed_tokens_at_positions_rejects_length_mismatch() {
    let weights = tiny_weights();

    let err = weights
        .lookup_embeddings(&[0, 1], &[0])
        .expect_err("token and position lengths should match");

    assert_eq!(err, MiniInferError::LengthMismatch { expected: 2, actual: 1 });
}

#[test]
fn lookup_embeddings_uses_given_position_ids() {
    let weights = Gpt2Weights {
        wte: Tensor::new(vec![2, 2], vec![1.0f32, 1.0, 10.0, 20.0]).expect("valid token embedding"),
        wpe: Tensor::new(vec![4, 2], vec![0.1f32, 0.2, 0.3, 0.4, 0.5, 0.6, 1.0, 2.0])
            .expect("valid position embedding"),
        blocks: vec![tiny_block_weights()],
        ln_f_weight: tensor(&[2]),
        ln_f_bias: tensor(&[2]),
        lm_head_weight: LMHead::Untied(tensor(&[2, 2])),
    };

    let (tokens, positions) = weights.lookup_embeddings(&[1], &[3]).expect("lookup should succeed");

    assert_eq!(tokens.data(), &[10.0f32, 20.0]);
    assert_eq!(positions.data(), &[1.0f32, 2.0]);
}

#[test]
fn gpt2_validates_correct_shapes() {
    let config = tiny_config();
    let weights = tiny_weights();

    assert!(weights.validate_shapes(&config).is_ok());
}

#[test]
fn gpt2_rejects_wrong_block_count() {
    let config = tiny_config();
    let weights = Gpt2Weights { blocks: vec![], ..tiny_weights() };

    let err = weights.validate_shapes(&config).expect_err("wrong block count should fail");

    assert_eq!(
        err,
        MiniInferError::InvalidConfig { message: "number of GPT-2 blocks must match num_layers".to_string() }
    );
}

#[test]
fn gpt2_rejects_wrong_token_embedding_shape() {
    let config = tiny_config();
    let weights = Gpt2Weights { wte: tensor(&[7, 4]), ..tiny_weights() };

    let err = weights.validate_shapes(&config).expect_err("wrong token embedding shape should fail");

    assert_eq!(err, MiniInferError::InvalidTensorShape { expected: vec![8, 4], actual: vec![7, 4] });
}
