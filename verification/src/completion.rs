//! The decisions of the completion endpoint: which requests it takes, the
//! generation settings a request asks for, and what the answer reports.
//! Serving, the model run and the clock are outside the verified core.

use vstd::prelude::*;
use vstd::string::*;
use crate::error::MiniInferError;
use crate::generation::{GenerationOptions, options_error, stream_chunk, suffix_after};
use crate::text::{append_decimal, append_decimal_u64, decimal};

verus! {

/// A completion request, with the temperature and the nucleus mass given by
/// the IEEE 754 bits of their single-precision values.
pub struct CompletionRequest {
    pub model: Option<String>,
    pub prompt: String,
    pub max_tokens: Option<usize>,
    pub temperature_bits: Option<u32>,
    pub top_k: Option<usize>,
    pub top_p_bits: Option<u32>,
    pub seed: Option<u64>,
    pub stream: Option<bool>,
}

/// The token counts an answer reports.
#[derive(Debug, Clone, Copy, PartialEq, Eq, Structural)]
pub struct CompletionUsage {
    pub prompt_tokens: usize,
    pub completion_tokens: usize,
    pub total_tokens: usize,
}

/// The sampling settings other than the temperature only make sense with a
/// temperature.
pub open spec fn sampling_fields_without_temperature(r: CompletionRequest) -> bool {
    r.temperature_bits is None && (r.seed is Some || r.top_k is Some || r.top_p_bits is Some)
}

/// Checks that sampling settings come with a temperature.
pub fn validate_completion_request(request: &CompletionRequest) -> (r: Result<(), MiniInferError>)
    ensures
        !sampling_fields_without_temperature(*request) ==> r is Ok,
        sampling_fields_without_temperature(*request) ==> (r matches Err(
            MiniInferError::InvalidConfig { message },
        ) && message@ == "seed, top_k, and top_p require temperature"@),
{
    if request.temperature_bits.is_none() && (request.seed.is_some() || request.top_k.is_some()
        || request.top_p_bits.is_some()) {
        return Err(
            MiniInferError::InvalidConfig {
                message: String::from_str("seed, top_k, and top_p require temperature"),
            },
        );
    }
    Ok(())
}

/// The number of tokens a request asks for: one when it does not say.
pub open spec fn requested_tokens(r: CompletionRequest) -> usize {
    match r.max_tokens {
        Some(n) => n,
        None => 1,
    }
}

/// The generation settings of a request.
pub open spec fn request_options(r: CompletionRequest) -> GenerationOptions {
    GenerationOptions {
        max_new_tokens: requested_tokens(r),
        temperature_bits: r.temperature_bits,
        seed: r.seed,
        top_k: r.top_k,
        top_p_bits: r.top_p_bits,
    }
}

/// The checks the endpoint makes on a non-streaming request before it reads
/// the prompt: streaming is refused, and sampling settings need a
/// temperature.
pub fn validate_non_streaming_request(request: &CompletionRequest) -> (r: Result<(), MiniInferError>)
    ensures
        request.stream == Some(true) ==> (r matches Err(MiniInferError::InvalidConfig { message })
            && message@ == "streaming completions are not implemented yet"@),
        request.stream != Some(true) && sampling_fields_without_temperature(*request) ==> (r matches Err(
            MiniInferError::InvalidConfig { message },
        ) && message@ == "seed, top_k, and top_p require temperature"@),
        request.stream != Some(true) && !sampling_fields_without_temperature(*request) ==> r is Ok,
{
    if request.stream == Some(true) {
        return Err(
            MiniInferError::InvalidConfig {
                message: String::from_str("streaming completions are not implemented yet"),
            },
        );
    }
    validate_completion_request(request)
}

/// The generation settings of a request are the request's own: the number
/// of tokens it asks for (one when it does not say) and its temperature,
/// seed, `top_k` and `top_p`, unchanged; a `top_k` of zero is refused.
pub proof fn lemma_request_options_carry_settings(r: CompletionRequest)
    ensures
        request_options(r).max_new_tokens == (match r.max_tokens {
            Some(n) => n,
            None => 1usize,
        }),
        request_options(r).temperature_bits == r.temperature_bits,
        request_options(r).seed == r.seed,
        request_options(r).top_k == r.top_k,
        request_options(r).top_p_bits == r.top_p_bits,
        r.top_k == Some(0usize) ==> options_error(request_options(r)) is Some,
{
}

/// The generation settings of a non-streaming request, after the checks
/// that the endpoint makes before it runs the model: streaming is refused,
/// sampling settings need a temperature, and every setting must be in range.
pub fn completion_options(request: &CompletionRequest) -> (r: Result<GenerationOptions, MiniInferError>)
    ensures
        request.stream == Some(true) ==> (r matches Err(MiniInferError::InvalidConfig { message })
            && message@ == "streaming completions are not implemented yet"@),
        request.stream != Some(true) && sampling_fields_without_temperature(*request) ==> (r matches Err(
            MiniInferError::InvalidConfig { message },
        ) && message@ == "seed, top_k, and top_p require temperature"@),
        request.stream != Some(true) && !sampling_fields_without_temperature(*request) ==> (match options_error(
            request_options(*request),
        ) {
            Some(e) => r == Err::<GenerationOptions, MiniInferError>(e),
            None => r == Ok::<GenerationOptions, MiniInferError>(request_options(*request)),
        }),
        r matches Ok(o) ==> o.max_new_tokens == (match request.max_tokens {
            Some(n) => n,
            None => 1usize,
        }) && o.temperature_bits == request.temperature_bits && o.seed == request.seed && o.top_k
            == request.top_k && o.top_p_bits == request.top_p_bits,
{
    match validate_non_streaming_request(request) {
        Ok(()) => {},
        Err(e) => {
            return Err(e);
        },
    }
    streaming_options(request)
}

/// The generation settings of a streaming request: the settings must be in
/// range.
pub fn streaming_options(request: &CompletionRequest) -> (r: Result<GenerationOptions, MiniInferError>)
    ensures
        options_error(request_options(*request)) matches Some(e) ==> r == Err::<
            GenerationOptions,
            MiniInferError,
        >(e),
        options_error(request_options(*request)) is None ==> r == Ok::<GenerationOptions, MiniInferError>(
            request_options(*request),
        ),
        r matches Ok(o) ==> o.max_new_tokens == (match request.max_tokens {
            Some(n) => n,
            None => 1usize,
        }) && o.temperature_bits == request.temperature_bits && o.seed == request.seed && o.top_k
            == request.top_k && o.top_p_bits == request.top_p_bits,
        request.top_k == Some(0usize) ==> r is Err,
        r is Ok <==> options_error(request_options(*request)) is None,
{
    proof {
        lemma_request_options_carry_settings(*request);
    }
    let max_tokens = match request.max_tokens {
        Some(n) => n,
        None => 1,
    };
    GenerationOptions::new(
        max_tokens,
        request.temperature_bits,
        request.seed,
        request.top_k,
        request.top_p_bits,
    )
}

/// The completion: the decoded text without the prompt in front, or all of
/// it when it does not start with the prompt.
pub fn completion_text(decoded: &str, prompt: &str) -> (t: String)
    ensures
        t@ == suffix_after(prompt@, decoded@),
{
    stream_chunk(prompt, decoded)
}

/// Why generation ended: `"length"` when every requested token was
/// generated, `"stop"` when the end-of-sequence token came first.
pub fn finish_reason(completion_tokens: usize, max_tokens: usize) -> (r: &'static str)
    ensures
        completion_tokens >= max_tokens ==> r@ == "length"@,
        completion_tokens < max_tokens ==> r@ == "stop"@,
{
    if completion_tokens >= max_tokens {
        "length"
    } else {
        "stop"
    }
}

/// The token counts of an answer.
pub fn completion_usage(prompt_tokens: usize, completion_tokens: usize) -> (u: CompletionUsage)
    requires
        prompt_tokens + completion_tokens <= usize::MAX,
    ensures
        u == (CompletionUsage {
            prompt_tokens,
            completion_tokens,
            total_tokens: (prompt_tokens + completion_tokens) as usize,
        }),
{
    CompletionUsage { prompt_tokens, completion_tokens, total_tokens: prompt_tokens + completion_tokens }
}

pub open spec fn completion_id_text(created: nat, created_nanos: nat) -> Seq<char> {
    "cmpl-"@ + decimal(created) + "-"@ + decimal(created_nanos)
}

/// The identifier of an answer, from the time it was made.
pub fn completion_id(created: u64, created_nanos: u32) -> (id: String)
    ensures
        id@ == completion_id_text(created as nat, created_nanos as nat),
{
    let mut id = String::from_str("cmpl-");
    append_decimal_u64(&mut id, created);
    id.append("-");
    append_decimal_u64(&mut id, created_nanos as u64);
    proof {
        reveal_strlit("cmpl-");
        reveal_strlit("-");
        assert(id@ =~= completion_id_text(created as nat, created_nanos as nat));
    }
    id
}

/// The model an answer names: the one the request named, else the one
/// being served.
pub fn response_model(requested: Option<String>, served: &str) -> (m: String)
    ensures
        requested matches Some(r) ==> m@ == r@,
        requested is None ==> m@ == served@,
{
    match requested {
        Some(r) => r,
        None => served.to_string(),
    }
}

/// The texts a streaming answer sends: a streaming generation first emits
/// the decoded prompt, which the answer leaves out.
pub struct CompletionStream {
    saw_prompt: bool,
}

impl CompletionStream {
    pub closed spec fn has_seen_prompt(&self) -> bool {
        self.saw_prompt
    }

    pub fn new() -> (s: Self)
        ensures
            !s.has_seen_prompt(),
    {
        CompletionStream { saw_prompt: false }
    }

    /// Takes the next text that the generation emitted and gives the text to
    /// send, if any.
    pub fn next_chunk(&mut self, text: &str) -> (r: Option<String>)
        ensures
            final(self).has_seen_prompt(),
            !old(self).has_seen_prompt() ==> r is None,
            old(self).has_seen_prompt() ==> (r matches Some(t) && t@ == text@),
    {
        if !self.saw_prompt {
            self.saw_prompt = true;
            return None;
        }
        Some(text.to_string())
    }
}

} // verus!
