//! The bookkeeping of autoregressive generation. Each step runs the model on
//! the tokens so far and samples one more; the model and the sampler work on
//! floating-point logits outside the verified core, and hand the sampled
//! token to [`Generation::accept`], which decides whether generation goes on.

use vstd::prelude::*;
use vstd::string::*;
use crate::error::MiniInferError;
use crate::text::{append_decimal, decimal, chars_of, string_from_chars};
use crate::sampling::{valid_temperature, valid_top_p, validate_temperature, validate_top_k, validate_top_p};

verus! {

pub open spec fn requested_length_message(requested: nat, max_positions: nat) -> Seq<char> {
    "requested sequence length "@ + decimal(requested) + " exceeds max_position_embeddings "@
        + decimal(max_positions)
}

/// Checks that the prompt and the tokens still to generate fit in the
/// model's context window.
pub fn validate_requested_length(prompt_tokens: usize, max_new_tokens: usize, max_positions: usize) -> (r:
    Result<(), MiniInferError>)
    requires
        prompt_tokens + max_new_tokens <= usize::MAX,
    ensures
        prompt_tokens + max_new_tokens <= max_positions ==> r is Ok,
        prompt_tokens + max_new_tokens > max_positions ==> (r matches Err(
            MiniInferError::InvalidConfig { message },
        ) && message@ == requested_length_message(
            (prompt_tokens + max_new_tokens) as nat,
            max_positions as nat,
        )),
{
    let requested_length = prompt_tokens + max_new_tokens;
    if requested_length > max_positions {
        let mut message = String::from_str("requested sequence length ");
        append_decimal(&mut message, requested_length);
        message.append(" exceeds max_position_embeddings ");
        append_decimal(&mut message, max_positions);
        proof {
            assert(message@ =~= requested_length_message(requested_length as nat, max_positions as nat));
        }
        return Err(MiniInferError::InvalidConfig { message });
    }
    Ok(())
}

/// How many tokens to generate and how to sample them. Without a
/// temperature the most likely token is taken; the temperature and the
/// nucleus mass are held as the IEEE 754 bits of their single-precision
/// values.
#[derive(Debug, Clone, Copy, PartialEq, Eq, Structural)]
pub struct GenerationOptions {
    pub max_new_tokens: usize,
    pub temperature_bits: Option<u32>,
    pub seed: Option<u64>,
    pub top_k: Option<usize>,
    pub top_p_bits: Option<u32>,
}

/// The first setting of `o` that is out of range, as the error reporting it.
pub open spec fn options_error(o: GenerationOptions) -> Option<MiniInferError> {
    if o.temperature_bits matches Some(t) && !valid_temperature(t) {
        Some(MiniInferError::InvalidTemperature { temperature_bits: o.temperature_bits->0 })
    } else if o.top_k == Some(0usize) {
        Some(MiniInferError::InvalidTopK { top_k: 0 })
    } else if o.top_p_bits matches Some(p) && !valid_top_p(p) {
        Some(MiniInferError::InvalidTopP { top_p_bits: o.top_p_bits->0 })
    } else {
        None
    }
}

impl GenerationOptions {
    /// Options with the given settings, once they are checked.
    pub fn new(
        max_new_tokens: usize,
        temperature_bits: Option<u32>,
        seed: Option<u64>,
        top_k: Option<usize>,
        top_p_bits: Option<u32>,
    ) -> (r: Result<Self, MiniInferError>)
        ensures
            ({
                let o = GenerationOptions { max_new_tokens, temperature_bits, seed, top_k, top_p_bits };
                &&& options_error(o) is None ==> r == Ok::<Self, MiniInferError>(o)
                &&& options_error(o) matches Some(e) ==> r == Err::<Self, MiniInferError>(e)
            }),
    {
        let options = GenerationOptions { max_new_tokens, temperature_bits, seed, top_k, top_p_bits };
        match options.validate() {
            Ok(()) => Ok(options),
            Err(e) => Err(e),
        }
    }

    /// Checks the temperature, then `top_k`, then `top_p`.
    pub fn validate(&self) -> (r: Result<(), MiniInferError>)
        ensures
            options_error(*self) is None ==> r is Ok,
            options_error(*self) matches Some(e) ==> r == Err::<(), MiniInferError>(e),
    {
        if let Some(t) = self.temperature_bits {
            match validate_temperature(t) {
                Ok(()) => {},
                Err(e) => {
                    return Err(e);
                },
            }
        }
        if let Some(k) = self.top_k {
            match validate_top_k(k) {
                Ok(()) => {},
                Err(e) => {
                    return Err(e);
                },
            }
        }
        if let Some(p) = self.top_p_bits {
            match validate_top_p(p) {
                Ok(()) => {},
                Err(e) => {
                    return Err(e);
                },
            }
        }
        Ok(())
    }
}

/// What one sampled token did to a generation.
pub enum GenerationStep {
    /// The token was appended as the `index`-th generated token.
    Appended { index: usize, token_id: usize },
    /// The token was the end-of-sequence token: generation is over and the
    /// token is not part of the output.
    Finished,
}

/// A generation in progress: the prompt followed by the tokens generated so
/// far.
pub struct Generation {
    token_ids: Vec<usize>,
    prompt_len: usize,
    max_new_tokens: usize,
    eos_token_id: Option<usize>,
    finished: bool,
}

impl Generation {
    /// The prompt followed by the generated tokens.
    pub closed spec fn tokens(&self) -> Seq<usize> {
        self.token_ids@
    }

    pub closed spec fn prompt_len(&self) -> nat {
        self.prompt_len as nat
    }

    pub closed spec fn max_new_tokens(&self) -> nat {
        self.max_new_tokens as nat
    }

    pub closed spec fn eos_token_id(&self) -> Option<usize> {
        self.eos_token_id
    }

    /// Whether the end-of-sequence token has been sampled.
    pub closed spec fn is_finished(&self) -> bool {
        self.finished
    }

    /// The number of tokens generated so far.
    pub open spec fn generated(&self) -> nat {
        (self.tokens().len() - self.prompt_len()) as nat
    }

    /// Whether another token is to be sampled.
    pub open spec fn wants_more(&self) -> bool {
        !self.is_finished() && self.generated() < self.max_new_tokens()
    }

    /// The generated tokens follow the prompt, there are at most
    /// `max_new_tokens` of them, and none is the end-of-sequence token.
    pub open spec fn wf(&self) -> bool {
        &&& self.prompt_len() <= self.tokens().len()
        &&& self.generated() <= self.max_new_tokens()
        &&& self.prompt_len() + self.max_new_tokens() <= usize::MAX
        &&& forall|i: int|
            self.prompt_len() <= i < self.tokens().len() ==> Some(#[trigger] self.tokens()[i])
                != self.eos_token_id()
    }

    /// Starts a generation from `prompt`, after checking that the prompt and
    /// `max_new_tokens` more tokens fit in `max_positions` positions.
    pub fn start(
        prompt: &[usize],
        max_new_tokens: usize,
        eos_token_id: Option<usize>,
        max_positions: usize,
    ) -> (r: Result<Self, MiniInferError>)
        requires
            prompt@.len() + max_new_tokens <= usize::MAX,
        ensures
            prompt@.len() + max_new_tokens > max_positions ==> (r matches Err(
                MiniInferError::InvalidConfig { message },
            ) && message@ == requested_length_message(
                (prompt@.len() + max_new_tokens) as nat,
                max_positions as nat,
            )),
            prompt@.len() + max_new_tokens <= max_positions ==> (r matches Ok(g) && g.wf()
                && g.tokens() == prompt@ && g.prompt_len() == prompt@.len() && g.max_new_tokens()
                == max_new_tokens && g.eos_token_id() == eos_token_id && !g.is_finished()),
    {
        match validate_requested_length(prompt.len(), max_new_tokens, max_positions) {
            Ok(()) => {},
            Err(e) => {
                return Err(e);
            },
        }
        let token_ids = crate::tensor::copy_slice(prompt);
        Ok(Generation { token_ids, prompt_len: prompt.len(), max_new_tokens, eos_token_id, finished: false })
    }

    /// The prompt followed by the tokens generated so far.
    pub fn token_ids(&self) -> (t: &[usize])
        ensures
            t@ == self.tokens(),
    {
        self.token_ids.as_slice()
    }

    /// Whether another token is to be sampled: the end-of-sequence token has
    /// not come and fewer than `max_new_tokens` tokens were generated.
    pub fn wants_next_token(&self) -> (b: bool)
        requires
            self.wf(),
        ensures
            b == self.wants_more(),
            b == (self.generated() < self.max_new_tokens() && !self.is_finished()),
    {
        proof {
            lemma_wants_more(*self);
        }
        !self.finished && self.token_ids.len() - self.prompt_len < self.max_new_tokens
    }

    /// Takes the token sampled for the next position: the end-of-sequence
    /// token finishes the generation and is dropped, any other token is
    /// appended.
    pub fn accept(&mut self, next_token_id: usize) -> (step: GenerationStep)
        requires
            old(self).wf(),
            old(self).wants_more(),
        ensures
            final(self).wf(),
            final(self).prompt_len() == old(self).prompt_len(),
            final(self).max_new_tokens() == old(self).max_new_tokens(),
            final(self).eos_token_id() == old(self).eos_token_id(),
            old(self).eos_token_id() == Some(next_token_id) ==> step is Finished && final(self).tokens()
                == old(self).tokens() && final(self).is_finished(),
            old(self).eos_token_id() != Some(next_token_id) ==> step == (GenerationStep::Appended {
                index: old(self).generated() as usize,
                token_id: next_token_id,
            }) && final(self).tokens() == old(self).tokens().push(next_token_id)
                && !final(self).is_finished(),
    {
        let index = self.token_ids.len() - self.prompt_len;
        match self.eos_token_id {
            Some(eos) => {
                if eos == next_token_id {
                    self.finished = true;
                    return GenerationStep::Finished;
                }
            },
            None => {},
        }
        self.token_ids.push(next_token_id);
        GenerationStep::Appended { index, token_id: next_token_id }
    }
}

/// Another token is wanted exactly while the end-of-sequence token has not
/// come and fewer than `max_new_tokens` tokens were generated. So a
/// generation that stops without the end-of-sequence token has generated
/// exactly `max_new_tokens` tokens, and a fresh one wants a token exactly
/// when `max_new_tokens` is positive.
pub proof fn lemma_wants_more(g: Generation)
    requires
        g.wf(),
    ensures
        g.wants_more() <==> (!g.is_finished() && g.generated() < g.max_new_tokens()),
        !g.wants_more() && !g.is_finished() ==> g.generated() == g.max_new_tokens(),
        g.generated() == 0 && !g.is_finished() ==> (g.wants_more() <==> g.max_new_tokens() > 0),
        g.wants_more() ==> g.generated() + 1 <= g.max_new_tokens(),
{
}

/// Over a whole generation the prompt stays in front, the output never
/// holds more than the prompt and `max_new_tokens` tokens, and the
/// end-of-sequence token is never part of what was generated.
pub proof fn lemma_generation_output(g: Generation)
    requires
        g.wf(),
    ensures
        g.tokens().len() <= g.prompt_len() + g.max_new_tokens(),
        forall|i: int|
            g.prompt_len() <= i < g.tokens().len() ==> Some(#[trigger] g.tokens()[i]) != g.eos_token_id(),
{
}

/// A prompt prefix stays in place under any sequence of accepted tokens:
/// what a step appends comes after everything that was there.
pub proof fn lemma_accept_keeps_prefix(before: Generation, after: Generation, next_token_id: usize)
    requires
        before.wf(),
        after.wf(),
        after.tokens() == before.tokens() || after.tokens() == before.tokens().push(next_token_id),
    ensures
        after.tokens().take(before.tokens().len() as int) == before.tokens(),
{
    assert(after.tokens().take(before.tokens().len() as int) =~= before.tokens());
}

/// The part of `next` that follows `previous`: all of `next` when `previous`
/// is not a prefix of it.
pub open spec fn suffix_after(previous: Seq<char>, next: Seq<char>) -> Seq<char> {
    if previous.is_prefix_of(next) {
        next.skip(previous.len() as int)
    } else {
        next
    }
}

/// The text a streaming generation shows for one step: what the new decoding
/// adds to the one before.
pub fn stream_chunk(previous: &str, next: &str) -> (chunk: String)
    ensures
        chunk@ == suffix_after(previous@, next@),
{
    let p = chars_of(previous);
    let n = chars_of(next);
    let mut is_prefix = p.len() <= n.len();
    let mut i: usize = 0;
    while is_prefix && i < p.len()
        invariant
            p@ == previous@,
            n@ == next@,
            i <= p@.len(),
            is_prefix ==> p@.len() <= n@.len(),
            is_prefix ==> forall|j: int| 0 <= j < i ==> p@[j] == n@[j],
            !is_prefix ==> !previous@.is_prefix_of(next@),
        decreases p.len() - i + (if is_prefix { 1int } else { 0int }),
    {
        if p[i] != n[i] {
            is_prefix = false;
        } else {
            i = i + 1;
        }
    }
    if is_prefix {
        assert(next@.take(previous@.len() as int) =~= previous@);
        let mut rest: Vec<char> = Vec::new();
        let mut k: usize = p.len();
        while k < n.len()
            invariant
                n@ == next@,
                p@ == previous@,
                p@.len() <= k <= n@.len(),
                rest@ == n@.subrange(p@.len() as int, k as int),
            decreases n.len() - k,
        {
            rest.push(n[k]);
            k = k + 1;
            assert(rest@ =~= n@.subrange(p@.len() as int, k as int));
        }
        string_from_chars(rest.as_slice())
    } else {
        string_from_chars(n.as_slice())
    }
}

/// The concatenation of a sequence of texts.
pub open spec fn concat_all(chunks: Seq<Seq<char>>) -> Seq<char>
    decreases chunks.len(),
{
    if chunks.len() == 0 {
        Seq::empty()
    } else {
        concat_all(chunks.drop_last()) + chunks.last()
    }
}

/// The chunks a streaming generation shows for successive decodings.
pub open spec fn stream_chunks(texts: Seq<Seq<char>>) -> Seq<Seq<char>> {
    Seq::new(
        texts.len(),
        |i: int|
            if i == 0 {
                texts[0]
            } else {
                suffix_after(texts[i - 1], texts[i])
            },
    )
}

/// When every decoding extends the one before, the chunks that a stream
/// shows add up to the last decoding.
pub proof fn lemma_stream_chunks_concat(texts: Seq<Seq<char>>)
    requires
        texts.len() > 0,
        forall|i: int| 0 < i < texts.len() ==> #[trigger] texts[i - 1].is_prefix_of(texts[i]),
    ensures
        concat_all(stream_chunks(texts)) == texts.last(),
    decreases texts.len(),
{
    let chunks = stream_chunks(texts);
    if texts.len() == 1 {
        assert(chunks.drop_last() =~= Seq::<Seq<char>>::empty());
        assert(concat_all(chunks.drop_last()) =~= Seq::<char>::empty());
        assert(concat_all(chunks) =~= texts[0]);
    } else {
        let shorter = texts.drop_last();
        assert forall|i: int| 0 < i < shorter.len() implies #[trigger] shorter[i - 1].is_prefix_of(shorter[i]) by {
            assert(texts[i - 1].is_prefix_of(texts[i]));
        }
        lemma_stream_chunks_concat(shorter);
        assert(stream_chunks(shorter) =~= chunks.drop_last());
        let n = texts.len() - 1;
        assert(texts[n - 1].is_prefix_of(texts[n]));
        let prev = texts[n - 1];
        let last = texts[n];
        assert(chunks.last() == last.skip(prev.len() as int));
        assert(prev + last.skip(prev.len() as int) =~= last);
    }
}

} // verus!
