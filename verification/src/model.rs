//! The weights of a GPT-2 model and the check that their shapes fit a
//! configuration. The element type is a parameter: the forward pass, which
//! computes on floating-point elements, runs outside the verified core.

use vstd::prelude::*;
use vstd::string::*;
use crate::config::{ModelConfig, config_error};
use crate::error::MiniInferError;
use crate::ops::{validate_shape, embedding_lookup, lookup_error, embeds};
use crate::tensor::Tensor;

verus! {

/// The weights of one transformer block.
pub struct Gpt2BlockWeights<T> {
    pub ln_1_weight: Tensor<T>,
    pub ln_1_bias: Tensor<T>,
    pub c_attn_weight: Tensor<T>,
    pub c_attn_bias: Tensor<T>,
    pub attn_c_proj_weight: Tensor<T>,
    pub attn_c_proj_bias: Tensor<T>,
    pub ln_2_weight: Tensor<T>,
    pub ln_2_bias: Tensor<T>,
    pub c_fc_weight: Tensor<T>,
    pub c_fc_bias: Tensor<T>,
    pub mlp_c_proj_weight: Tensor<T>,
    pub mlp_c_proj_bias: Tensor<T>,
}

/// The projection from hidden states to logits: the token embeddings again,
/// or a matrix of its own.
pub enum LMHead<T> {
    Tied,
    Untied(Tensor<T>),
}

/// All the weights of a GPT-2 model.
pub struct Gpt2Weights<T> {
    pub wte: Tensor<T>,
    pub wpe: Tensor<T>,
    pub blocks: Vec<Gpt2BlockWeights<T>>,
    pub ln_f_weight: Tensor<T>,
    pub ln_f_bias: Tensor<T>,
    pub lm_head_weight: LMHead<T>,
}

/// One shape check: the shape a tensor has and the shape it must have.
pub type ShapeCheck = (Seq<usize>, Seq<usize>);

/// The first check whose shapes differ.
pub open spec fn first_failing(checks: Seq<ShapeCheck>) -> Option<ShapeCheck>
    decreases checks.len(),
{
    if checks.len() == 0 {
        None
    } else if checks[0].0 != checks[0].1 {
        Some(checks[0])
    } else {
        first_failing(checks.drop_first())
    }
}

/// The checks of one block, in the order they are made.
pub open spec fn block_checks<T>(b: Gpt2BlockWeights<T>, c: ModelConfig) -> Seq<ShapeCheck> {
    let h = c.hidden_size;
    let i = c.intermediate_size;
    seq![
        (b.ln_1_weight.shape_view(), seq![h]),
        (b.ln_1_bias.shape_view(), seq![h]),
        (b.c_attn_weight.shape_view(), seq![h, (3 * h) as usize]),
        (b.c_attn_bias.shape_view(), seq![(3 * h) as usize]),
        (b.attn_c_proj_weight.shape_view(), seq![h, h]),
        (b.attn_c_proj_bias.shape_view(), seq![h]),
        (b.ln_2_weight.shape_view(), seq![h]),
        (b.ln_2_bias.shape_view(), seq![h]),
        (b.c_fc_weight.shape_view(), seq![h, i]),
        (b.c_fc_bias.shape_view(), seq![i]),
        (b.mlp_c_proj_weight.shape_view(), seq![i, h]),
        (b.mlp_c_proj_bias.shape_view(), seq![h]),
    ]
}

/// The checks of all blocks, block after block.
pub open spec fn all_block_checks<T>(blocks: Seq<Gpt2BlockWeights<T>>, c: ModelConfig) -> Seq<ShapeCheck>
    decreases blocks.len(),
{
    if blocks.len() == 0 {
        seq![]
    } else {
        all_block_checks(blocks.drop_last(), c) + block_checks(blocks.last(), c)
    }
}

/// The checks made before the number of blocks is compared.
pub open spec fn embedding_checks<T>(w: Gpt2Weights<T>, c: ModelConfig) -> Seq<ShapeCheck> {
    seq![
        (w.wte.shape_view(), seq![c.vocab_size, c.hidden_size]),
        (w.wpe.shape_view(), seq![c.max_position_embeddings, c.hidden_size]),
    ]
}

/// The checks made after the number of blocks is compared.
pub open spec fn output_checks<T>(w: Gpt2Weights<T>, c: ModelConfig) -> Seq<ShapeCheck> {
    let head = match w.lm_head_weight {
        LMHead::Tied => seq![],
        LMHead::Untied(t) => seq![(t.shape_view(), seq![c.hidden_size, c.vocab_size])],
    };
    seq![(w.ln_f_weight.shape_view(), seq![c.hidden_size]), (w.ln_f_bias.shape_view(), seq![c.hidden_size])]
        + head + all_block_checks(w.blocks@, c)
}

/// A shape mismatch as the error that reports it.
pub open spec fn is_shape_error(r: Result<(), MiniInferError>, check: ShapeCheck) -> bool {
    r matches Err(MiniInferError::InvalidTensorShape { expected, actual }) && expected@ == check.1
        && actual@ == check.0
}

proof fn lemma_first_failing_append(a: Seq<ShapeCheck>, b: Seq<ShapeCheck>)
    ensures
        first_failing(a + b) == (if first_failing(a) is Some {
            first_failing(a)
        } else {
            first_failing(b)
        }),
    decreases a.len(),
{
    if a.len() == 0 {
        assert(a + b =~= b);
    } else {
        assert((a + b).drop_first() =~= a.drop_first() + b);
        assert((a + b)[0] == a[0]);
        lemma_first_failing_append(a.drop_first(), b);
    }
}

proof fn lemma_first_failing_one(x: ShapeCheck)
    ensures
        first_failing(seq![x]) == (if x.0 != x.1 {
            Some(x)
        } else {
            None::<ShapeCheck>
        }),
{
    assert(seq![x].drop_first() =~= Seq::<ShapeCheck>::empty());
    assert(first_failing(Seq::<ShapeCheck>::empty()) is None);
}

/// Runs one check after `done` passed: the outcome of `done` followed by
/// the check.
fn run_check<T>(t: &Tensor<T>, expected: &[usize], Ghost(done): Ghost<Seq<ShapeCheck>>) -> (r: Result<
    (),
    MiniInferError,
>)
    requires
        first_failing(done) is None,
    ensures
        ({
            let all = done.push((t.shape_view(), expected@));
            &&& first_failing(all) is None ==> r is Ok
            &&& first_failing(all) matches Some(c) ==> is_shape_error(r, c)
        }),
{
    let r = validate_shape(t, expected);
    proof {
        let x = (t.shape_view(), expected@);
        lemma_first_failing_append(done, seq![x]);
        lemma_first_failing_one(x);
        assert(done.push(x) =~= done + seq![x]);
    }
    r
}

fn shape1(a: usize) -> (s: Vec<usize>)
    ensures
        s@ == seq![a],
{
    let mut s: Vec<usize> = Vec::new();
    s.push(a);
    assert(s@ =~= seq![a]);
    s
}

fn shape2(a: usize, b: usize) -> (s: Vec<usize>)
    ensures
        s@ == seq![a, b],
{
    let mut s: Vec<usize> = Vec::new();
    s.push(a);
    s.push(b);
    assert(s@ =~= seq![a, b]);
    s
}

/// The checks that pair each tensor with the shape it must have.
pub open spec fn paired_checks<T>(tensors: Seq<&Tensor<T>>, shapes: Seq<Vec<usize>>) -> Seq<ShapeCheck> {
    Seq::new(tensors.len(), |k: int| (tensors[k].shape_view(), shapes[k]@))
}

/// Runs the checks of `tensors` against `shapes` in order, after `done`
/// passed, stopping at the first that fails.
fn run_checks<T>(tensors: &[&Tensor<T>], shapes: &[Vec<usize>], Ghost(done): Ghost<Seq<ShapeCheck>>) -> (r: Result<
    (),
    MiniInferError,
>)
    requires
        first_failing(done) is None,
        tensors@.len() == shapes@.len(),
    ensures
        ({
            let all = done + paired_checks(tensors@, shapes@);
            &&& first_failing(all) is None ==> r is Ok
            &&& first_failing(all) matches Some(c) ==> is_shape_error(r, c)
        }),
{
    let ghost checks = paired_checks(tensors@, shapes@);
    let mut k: usize = 0;
    while k < tensors.len()
        invariant
            k <= tensors@.len() == shapes@.len(),
            checks == paired_checks(tensors@, shapes@),
            first_failing(done + checks.take(k as int)) is None,
        decreases tensors.len() - k,
    {
        let ghost d = done + checks.take(k as int);
        let r = run_check(tensors[k], shapes[k].as_slice(), Ghost(d));
        proof {
            assert(d.push(checks[k as int]) =~= done + checks.take(k + 1));
        }
        if r.is_err() {
            proof {
                lemma_first_failing_append(done + checks.take(k + 1), checks.skip(k + 1));
                assert(done + checks.take(k + 1) + checks.skip(k + 1) =~= done + checks);
            }
            return r;
        }
        k = k + 1;
    }
    assert(checks.take(k as int) =~= checks);
    Ok(())
}

impl<T> Gpt2BlockWeights<T> {
    /// Checks the shapes of this block, after the checks `done` passed.
    fn validate_block(&self, config: &ModelConfig, Ghost(done): Ghost<Seq<ShapeCheck>>) -> (r: Result<
        (),
        MiniInferError,
    >)
        requires
            first_failing(done) is None,
            3 * config.hidden_size <= usize::MAX,
        ensures
            ({
                let all = done + block_checks(*self, *config);
                &&& first_failing(all) is None ==> r is Ok
                &&& first_failing(all) matches Some(c) ==> is_shape_error(r, c)
            }),
    {
        let h = config.hidden_size;
        let i = config.intermediate_size;
        let tensors = vec![
            &self.ln_1_weight,
            &self.ln_1_bias,
            &self.c_attn_weight,
            &self.c_attn_bias,
            &self.attn_c_proj_weight,
            &self.attn_c_proj_bias,
            &self.ln_2_weight,
            &self.ln_2_bias,
            &self.c_fc_weight,
            &self.c_fc_bias,
            &self.mlp_c_proj_weight,
            &self.mlp_c_proj_bias,
        ];
        let shapes = vec![
            shape1(h),
            shape1(h),
            shape2(h, 3 * h),
            shape1(3 * h),
            shape2(h, h),
            shape1(h),
            shape1(h),
            shape1(h),
            shape2(h, i),
            shape1(i),
            shape2(i, h),
            shape1(h),
        ];
        assert(paired_checks(tensors@, shapes@) =~= block_checks(*self, *config));
        run_checks(tensors.as_slice(), shapes.as_slice(), Ghost(done))
    }
}

impl<T> Gpt2Weights<T> {
    /// Checks the configuration, then that every tensor has the shape the
    /// configuration gives it and that there is one block per layer.
    pub fn validate_shapes(&self, config: &ModelConfig) -> (r: Result<(), MiniInferError>)
        requires
            3 * config.hidden_size <= usize::MAX,
        ensures
            config_error(*config) matches Some(m) ==> (r matches Err(MiniInferError::InvalidConfig { message })
                && message@ == m),
            config_error(*config) is None ==> match first_failing(embedding_checks(*self, *config)) {
                Some(c) => is_shape_error(r, c),
                None => if self.blocks@.len() != config.num_layers {
                    r matches Err(MiniInferError::InvalidConfig { message }) && message@
                        == "number of GPT-2 blocks must match num_layers"@
                } else {
                    match first_failing(output_checks(*self, *config)) {
                        Some(c) => is_shape_error(r, c),
                        None => r is Ok,
                    }
                },
            },
    {
        match config.validate() {
            Ok(()) => {},
            Err(e) => {
                return Err(e);
            },
        }
        let ghost first = embedding_checks(*self, *config);
        let r = run_check(&self.wte, shape2(config.vocab_size, config.hidden_size).as_slice(), Ghost(Seq::<ShapeCheck>::empty()));
        proof {
            assert(Seq::<ShapeCheck>::empty().push(first[0]) =~= first.take(1));
        }
        if r.is_err() {
            proof {
                lemma_first_failing_append(first.take(1), first.skip(1));
                assert(first.take(1) + first.skip(1) =~= first);
            }
            return r;
        }
        let r = run_check(
            &self.wpe,
            shape2(config.max_position_embeddings, config.hidden_size).as_slice(),
            Ghost(first.take(1)),
        );
        proof {
            assert(first.take(1).push(first[1]) =~= first);
        }
        if r.is_err() {
            return r;
        }
        if self.blocks.len() != config.num_layers {
            return Err(
                MiniInferError::InvalidConfig {
                    message: String::from_str("number of GPT-2 blocks must match num_layers"),
                },
            );
        }
        let ghost out = output_checks(*self, *config);
        let ghost head = match &self.lm_head_weight {
            LMHead::Tied => Seq::<ShapeCheck>::empty(),
            LMHead::Untied(t) => seq![(t.shape_view(), seq![config.hidden_size, config.vocab_size])],
        };
        let ghost norms = seq![
            (self.ln_f_weight.shape_view(), seq![config.hidden_size]),
            (self.ln_f_bias.shape_view(), seq![config.hidden_size]),
        ];
        let ghost blocks_all = all_block_checks(self.blocks@, *config);
        assert(out =~= norms + head + blocks_all);
        let r = run_check(&self.ln_f_weight, shape1(config.hidden_size).as_slice(), Ghost(Seq::<ShapeCheck>::empty()));
        proof {
            assert(Seq::<ShapeCheck>::empty().push(norms[0]) =~= norms.take(1));
        }
        if r.is_err() {
            proof {
                lemma_first_failing_append(norms.take(1), norms.skip(1) + head + blocks_all);
                assert(norms.take(1) + (norms.skip(1) + head + blocks_all) =~= out);
            }
            return r;
        }
        let r = run_check(&self.ln_f_bias, shape1(config.hidden_size).as_slice(), Ghost(norms.take(1)));
        proof {
            assert(norms.take(1).push(norms[1]) =~= norms);
        }
        if r.is_err() {
            proof {
                lemma_first_failing_append(norms, head + blocks_all);
                assert(norms + (head + blocks_all) =~= out);
            }
            return r;
        }
        match &self.lm_head_weight {
            LMHead::Tied => {
                assert(norms + head =~= norms);
            },
            LMHead::Untied(t) => {
                let r = run_check(t, shape2(config.hidden_size, config.vocab_size).as_slice(), Ghost(norms));
                proof {
                    assert(norms.push(head[0]) =~= norms + head);
                }
                if r.is_err() {
                    proof {
                        lemma_first_failing_append(norms + head, blocks_all);
                    }
                    return r;
                }
            },
        }
        let ghost prefix = norms + head;
        let mut k: usize = 0;
        while k < self.blocks.len()
            invariant
                3 * config.hidden_size <= usize::MAX,
                config_error(*config) is None,
                first_failing(embedding_checks(*self, *config)) is None,
                self.blocks@.len() == config.num_layers,
                out == output_checks(*self, *config),
                prefix == norms + head,
                out == prefix + blocks_all,
                blocks_all == all_block_checks(self.blocks@, *config),
                first_failing(prefix) is None,
                k <= self.blocks@.len(),
                first_failing(prefix + all_block_checks(self.blocks@.take(k as int), *config)) is None,
            decreases self.blocks.len() - k,
        {
            let ghost done = prefix + all_block_checks(self.blocks@.take(k as int), *config);
            proof {
                assert(self.blocks@.take(k + 1).drop_last() =~= self.blocks@.take(k as int));
                assert(self.blocks@.take(k + 1).last() == self.blocks@[k as int]);
                assert(prefix + all_block_checks(self.blocks@.take(k + 1), *config) =~= done
                    + block_checks(self.blocks@[k as int], *config));
            }
            let r = self.blocks[k].validate_block(config, Ghost(done));
            if r.is_err() {
                proof {
                    lemma_all_block_checks_split(self.blocks@, (k + 1) as int, *config);
                    let rest = all_block_checks(self.blocks@, *config).skip(
                        all_block_checks(self.blocks@.take(k + 1), *config).len() as int,
                    );
                    lemma_first_failing_append(
                        prefix + all_block_checks(self.blocks@.take(k + 1), *config),
                        rest,
                    );
                    assert(prefix + all_block_checks(self.blocks@.take(k + 1), *config) + rest =~= out);
                }
                return r;
            }
            k = k + 1;
        }
        proof {
            assert(self.blocks@.take(self.blocks@.len() as int) =~= self.blocks@);
        }
        Ok(())
    }
}

impl<T: Copy> Gpt2Weights<T> {
    /// The token and position embedding rows of a sequence, which the model
    /// adds up; there must be one position per token.
    pub fn lookup_embeddings(&self, token_ids: &[usize], position_ids: &[usize]) -> (r: Result<
        (Tensor<T>, Tensor<T>),
        MiniInferError,
    >)
        requires
            self.wte.shape_view().len() == 2 ==> token_ids@.len() * self.wte.shape_view()[1] <= usize::MAX,
            self.wpe.shape_view().len() == 2 ==> position_ids@.len() * self.wpe.shape_view()[1]
                <= usize::MAX,
        ensures
            token_ids@.len() != position_ids@.len() ==> r == Err::<(Tensor<T>, Tensor<T>), MiniInferError>(
                MiniInferError::LengthMismatch {
                    expected: token_ids@.len() as usize,
                    actual: position_ids@.len() as usize,
                },
            ),
            token_ids@.len() == position_ids@.len() ==> match lookup_error(self.wte, token_ids@) {
                Some(e) => r == Err::<(Tensor<T>, Tensor<T>), MiniInferError>(e),
                None => match lookup_error(self.wpe, position_ids@) {
                    Some(e) => r == Err::<(Tensor<T>, Tensor<T>), MiniInferError>(e),
                    None => r matches Ok((t, p)) && embeds(t, self.wte, token_ids@) && embeds(
                        p,
                        self.wpe,
                        position_ids@,
                    ),
                },
            },
    {
        if token_ids.len() != position_ids.len() {
            return Err(
                MiniInferError::LengthMismatch { expected: token_ids.len(), actual: position_ids.len() },
            );
        }
        let tokens = match embedding_lookup(&self.wte, token_ids) {
            Ok(t) => t,
            Err(e) => {
                return Err(e);
            },
        };
        let positions = match embedding_lookup(&self.wpe, position_ids) {
            Ok(p) => p,
            Err(e) => {
                return Err(e);
            },
        };
        Ok((tokens, positions))
    }
}

proof fn lemma_all_block_checks_split<T>(blocks: Seq<Gpt2BlockWeights<T>>, k: int, c: ModelConfig)
    requires
        0 <= k <= blocks.len(),
    ensures
        all_block_checks(blocks.take(k), c).len() <= all_block_checks(blocks, c).len(),
        all_block_checks(blocks, c) == all_block_checks(blocks.take(k), c) + all_block_checks(blocks, c).skip(
            all_block_checks(blocks.take(k), c).len() as int,
        ),
    decreases blocks.len() - k,
{
    if k == blocks.len() {
        assert(blocks.take(k) =~= blocks);
        assert(all_block_checks(blocks, c).skip(all_block_checks(blocks, c).len() as int) =~= Seq::<
            ShapeCheck,
        >::empty());
        assert(all_block_checks(blocks, c) + Seq::<ShapeCheck>::empty() =~= all_block_checks(blocks, c));
    } else {
        lemma_all_block_checks_split(blocks, k + 1, c);
        assert(blocks.take(k + 1).drop_last() =~= blocks.take(k));
        let a = all_block_checks(blocks.take(k), c);
        let a1 = all_block_checks(blocks.take(k + 1), c);
        let full = all_block_checks(blocks, c);
        assert(a1 == a + block_checks(blocks.take(k + 1).last(), c));
        assert(full =~= a + full.skip(a.len() as int));
    }
}

} // verus!
