use miniinfer::completion::{
    completion_id, completion_options, completion_text, completion_usage, finish_reason, response_model,
    streaming_options, validate_completion_request, validate_non_streaming_request, CompletionRequest, CompletionStream, CompletionUsage,
};
use miniinfer::error::MiniInferError;
use miniinfer::generation::{stream_chunk, validate_requested_length, Generation, GenerationOptions, GenerationStep};
use miniinfer::sampling::{validate_sampler_options, validate_temperature, validate_top_k, validate_top_p};

#[test]
fn generate_greedy_rejects_sequence_longer_than_context_window() {
    let err = Generation::start(&[0, 1], 7, Some(6), 8)
        .map(|_| ())
        .expect_err("generation past max_position_embeddings should fail");

    assert_eq!(
        err,
        MiniInferError::InvalidConfig {
            message: "requested sequence length 9 exceeds max_position_embeddings 8".to_string(),
        }
    );
    assert_eq!(validate_requested_length(2, 6, 8), Ok(()));
}

#[test]
fn generation_options_reject_invalid_temperature() {
    assert_eq!(
        GenerationOptions::new(1, Some(0.0f32.to_bits()), None, None, None),
        Err(MiniInferError::InvalidTemperature { temperature_bits: 0.0f32.to_bits() })
    );
}

#[test]
fn generation_options_reject_zero_top_k() {
    assert_eq!(
        GenerationOptions::new(1, Some(1.0f32.to_bits()), None, Some(0), None),
        Err(MiniInferError::InvalidTopK { top_k: 0 })
    );
}

#[test]
fn generation_options_reject_invalid_top_p() {
    assert_eq!(
        GenerationOptions::new(1, Some(1.0f32.to_bits()), None, None, Some(1.1f32.to_bits())),
        Err(MiniInferError::InvalidTopP { top_p_bits: 1.1f32.to_bits() })
    );
}

#[test]
fn generation_options_accept_valid_settings() {
    let options = GenerationOptions::new(3, Some(0.8f32.to_bits()), Some(42), Some(40), Some(1.0f32.to_bits()))
        .expect("valid options");
    assert_eq!(options.max_new_tokens, 3);
    assert_eq!(options.top_k, Some(40));
    assert_eq!(GenerationOptions::new(1, None, None, None, None).map(|o| o.max_new_tokens), Ok(1));
}

#[test]
fn temperature_sampler_rejects_non_positive_temperature() {
    for t in [0.0f32, -1.0, f32::NAN] {
        assert_eq!(
            validate_temperature(t.to_bits()),
            Err(MiniInferError::InvalidTemperature { temperature_bits: t.to_bits() })
        );
    }
}

#[test]
fn temperature_sampler_rejects_non_finite_temperature() {
    for t in [f32::INFINITY, f32::NEG_INFINITY] {
        assert_eq!(
            validate_temperature(t.to_bits()),
            Err(MiniInferError::InvalidTemperature { temperature_bits: t.to_bits() })
        );
    }
    assert_eq!(validate_temperature(1e-30f32.to_bits()), Ok(()));
}

#[test]
fn temperature_sampler_rejects_zero_top_k() {
    assert_eq!(
        validate_sampler_options(1.0f32.to_bits(), Some(0), Some(0.5f32.to_bits())),
        Err(MiniInferError::InvalidTopK { top_k: 0 })
    );
    assert_eq!(validate_top_k(1), Ok(()));
}

#[test]
fn temperature_sampler_rejects_invalid_top_p() {
    for p in [0.0f32, 1.1, f32::NAN] {
        assert_eq!(
            validate_sampler_options(1.0f32.to_bits(), None, Some(p.to_bits())),
            Err(MiniInferError::InvalidTopP { top_p_bits: p.to_bits() })
        );
    }
    assert_eq!(validate_top_p(1.0f32.to_bits()), Ok(()));
    assert_eq!(validate_top_p(f32::MIN_POSITIVE.to_bits()), Ok(()));
}

#[test]
fn generation_stops_before_appending_eos_token() {
    let mut generation = Generation::start(&[0, 1], 3, Some(6), 8).expect("fits the context");

    assert!(generation.wants_next_token());
    assert!(matches!(generation.accept(4), GenerationStep::Appended { index: 0, token_id: 4 }));
    assert!(generation.wants_next_token());
    assert!(matches!(generation.accept(6), GenerationStep::Finished));
    assert!(!generation.wants_next_token());
    assert_eq!(generation.token_ids(), &[0, 1, 4]);
}

#[test]
fn generation_stops_after_max_new_tokens() {
    let mut generation = Generation::start(&[5], 2, None, 8).expect("fits the context");

    generation.accept(1);
    generation.accept(2);

    assert!(!generation.wants_next_token());
    assert_eq!(generation.token_ids(), &[5, 1, 2]);
}

#[test]
fn stream_chunk_is_the_new_suffix() {
    assert_eq!(stream_chunk("hello", "hello world"), " world");
    assert_eq!(stream_chunk("", "hello"), "hello");
    assert_eq!(stream_chunk("abc", "abd"), "abd");
    assert_eq!(stream_chunk("hello", "hello"), "");
}

#[test]
fn streamed_chunks_add_up_to_the_text() {
    let texts = ["hel", "hello", "hello wor", "hello world"];
    let mut shown = texts[0].to_string();
    for pair in texts.windows(2) {
        shown.push_str(&stream_chunk(pair[0], pair[1]));
    }
    assert_eq!(shown, "hello world");
}

fn request(prompt: &str) -> CompletionRequest {
    CompletionRequest {
        model: None,
        prompt: prompt.to_string(),
        max_tokens: Some(4),
        temperature_bits: None,
        top_k: None,
        top_p_bits: None,
        seed: None,
        stream: None,
    }
}

#[test]
fn completion_request_sampling_fields_require_temperature() {
    let req = CompletionRequest { top_k: Some(40), ..request("Hello") };

    let err = validate_completion_request(&req).expect_err("top_k without temperature should fail");

    assert_eq!(
        err,
        MiniInferError::InvalidConfig { message: "seed, top_k, and top_p require temperature".to_string() }
    );
}

#[test]
fn completion_options_refuse_streaming_and_default_to_one_token() {
    let streaming = CompletionRequest { stream: Some(true), ..request("Hello") };
    assert_eq!(
        completion_options(&streaming),
        Err(MiniInferError::InvalidConfig {
            message: "streaming completions are not implemented yet".to_string()
        })
    );
    let req = CompletionRequest { max_tokens: None, ..request("Hello") };
    assert_eq!(completion_options(&req).map(|o| o.max_new_tokens), Ok(1));
    let hot = CompletionRequest { temperature_bits: Some((-1.0f32).to_bits()), ..request("Hello") };
    assert_eq!(
        streaming_options(&hot),
        Err(MiniInferError::InvalidTemperature { temperature_bits: (-1.0f32).to_bits() })
    );
}

#[test]
fn completion_answer_parts() {
    assert_eq!(completion_text("Hello world", "Hello"), " world");
    assert_eq!(completion_text("Goodbye", "Hello"), "Goodbye");
    assert_eq!(finish_reason(4, 4), "length");
    assert_eq!(finish_reason(2, 4), "stop");
    assert_eq!(
        completion_usage(3, 2),
        CompletionUsage { prompt_tokens: 3, completion_tokens: 2, total_tokens: 5 }
    );
    assert_eq!(completion_id(1700000000, 42), "cmpl-1700000000-42");
    assert_eq!(response_model(Some("gpt2".to_string()), "served"), "gpt2");
    assert_eq!(response_model(None, "served"), "served");
}

#[test]
fn completion_stream_leaves_out_the_prompt() {
    let mut stream = CompletionStream::new();
    assert_eq!(stream.next_chunk("Hello"), None);
    assert_eq!(stream.next_chunk(" world"), Some(" world".to_string()));
    assert_eq!(stream.next_chunk("!"), Some("!".to_string()));
}

#[test]
fn non_streaming_requests_are_checked_before_the_prompt_is_read() {
    assert_eq!(validate_non_streaming_request(&request("Hello")), Ok(()));
    assert_eq!(
        validate_non_streaming_request(&CompletionRequest { stream: Some(true), ..request("Hello") }),
        Err(MiniInferError::InvalidConfig { message: "streaming completions are not implemented yet".to_string() })
    );
    assert_eq!(
        validate_non_streaming_request(&CompletionRequest { seed: Some(1), ..request("Hello") }),
        Err(MiniInferError::InvalidConfig { message: "seed, top_k, and top_p require temperature".to_string() })
    );
}
