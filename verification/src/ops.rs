//! Shape checks shared by the kernels, and the embedding lookup, which only
//! moves elements and so works for any element type.

use vstd::prelude::*;
use vstd::string::*;
use crate::error::MiniInferError;
use crate::tensor::{Tensor, copy_slice, shape_product, valid_shape, lemma_shape_product_2, lemma_row_major_index};
use crate::tokenizer::is_first_out_of_range_id;
use crate::float_bits::{f32_le_zero, le_zero_bits};

verus! {

/// `shape` is a two-dimensional shape with the given dimensions.
pub open spec fn is_matrix_shape(shape: Seq<usize>, rows: usize, cols: usize) -> bool {
    shape == seq![rows, cols]
}

/// The error a lookup of `ids` in `table` reports, if it fails.
pub open spec fn lookup_error<T>(table: Tensor<T>, ids: Seq<usize>) -> Option<MiniInferError> {
    if ids.len() == 0 {
        Some(MiniInferError::EmptyInput)
    } else if table.shape_view().len() != 2 {
        Some(MiniInferError::WrongRank { expected: 2, actual: table.shape_view().len() as usize })
    } else if exists|k: int| is_first_out_of_range_id(ids, table.shape_view()[0] as nat, k) {
        let k = choose|k: int| is_first_out_of_range_id(ids, table.shape_view()[0] as nat, k);
        Some(MiniInferError::IndexOutOfBounds { index: ids[k], len: table.shape_view()[0] })
    } else {
        None
    }
}

/// `rows` stacks the rows of `table` that `ids` name.
pub open spec fn embeds<T>(rows: Tensor<T>, table: Tensor<T>, ids: Seq<usize>) -> bool {
    &&& rows.shape_view() == seq![ids.len() as usize, table.shape_view()[1]]
    &&& forall|i: int, c: int|
        0 <= i < ids.len() && 0 <= c < table.shape_view()[1] ==> #[trigger] rows.at(i, c) == table.at(
            ids[i] as int,
            c,
        )
}

/// Stacks the embedding rows of `token_ids`: row `i` of the result is row
/// `token_ids[i]` of `embedding`.
pub fn embedding_lookup<T: Copy>(embedding: &Tensor<T>, token_ids: &[usize]) -> (r: Result<
    Tensor<T>,
    MiniInferError,
>)
    requires
        embedding.shape_view().len() == 2 ==> token_ids@.len() * embedding.shape_view()[1]
            <= usize::MAX,
    ensures
        lookup_error(*embedding, token_ids@) matches Some(e) ==> r == Err::<Tensor<T>, MiniInferError>(e),
        lookup_error(*embedding, token_ids@) is None ==> (r matches Ok(t) && embeds(t, *embedding, token_ids@)),
{
    if token_ids.len() == 0 {
        return Err(MiniInferError::EmptyInput);
    }
    let shape = embedding.shape();
    if shape.len() != 2 {
        return Err(MiniInferError::WrongRank { expected: 2, actual: shape.len() });
    }
    let vocab_size = shape[0];
    let hidden_size = shape[1];
    let n = token_ids.len();
    let mut k: usize = 0;
    while k < n
        invariant
            k <= n == token_ids@.len(),
            n > 0,
            embedding.shape_view().len() == 2,
            vocab_size == embedding.shape_view()[0],
            forall|j: int| 0 <= j < k ==> token_ids@[j] < vocab_size,
        decreases n - k,
    {
        if token_ids[k] >= vocab_size {
            proof {
                assert(is_first_out_of_range_id(token_ids@, vocab_size as nat, k as int));
                assert forall|c: int| is_first_out_of_range_id(token_ids@, vocab_size as nat, c) implies c
                    == k by {
                    if c < k {
                    } else if c > k {
                        assert(token_ids@[k as int] < vocab_size);
                    }
                }
            }
            return Err(MiniInferError::IndexOutOfBounds { index: token_ids[k], len: vocab_size });
        }
        k = k + 1;
    }
    assert(!exists|k: int| is_first_out_of_range_id(token_ids@, vocab_size as nat, k));
    proof {
        assert(!shape@.contains(0usize));
        assert(shape@[1] != 0);
    }
    let mut output: Vec<T> = Vec::new();
    let mut i: usize = 0;
    while i < n
        invariant
            n == token_ids@.len(),
            i <= n,
            n * hidden_size <= usize::MAX,
            hidden_size > 0,
            embedding.shape_view() == seq![vocab_size, hidden_size],
            forall|j: int| 0 <= j < n ==> token_ids@[j] < vocab_size,
            output@.len() == i * hidden_size,
            forall|a: int, c: int|
                0 <= a < i && 0 <= c < hidden_size ==> #[trigger] output@[a * hidden_size + c]
                    == embedding.at(token_ids@[a] as int, c),
        decreases n - i,
    {
        let id = token_ids[i];
        let mut c: usize = 0;
        while c < hidden_size
            invariant
                n == token_ids@.len(),
                i < n,
                n * hidden_size <= usize::MAX,
                hidden_size > 0,
                id == token_ids@[i as int],
                id < vocab_size,
                embedding.shape_view() == seq![vocab_size, hidden_size],
                c <= hidden_size,
                output@.len() == i * hidden_size + c,
                forall|a: int, c2: int|
                    0 <= a < i && 0 <= c2 < hidden_size ==> #[trigger] output@[a * hidden_size + c2]
                        == embedding.at(token_ids@[a] as int, c2),
                forall|c2: int|
                    0 <= c2 < c ==> #[trigger] output@[i * hidden_size + c2] == embedding.at(
                        id as int,
                        c2,
                    ),
            decreases hidden_size - c,
        {
            let v = match embedding.get_2d(id, c) {
                Ok(v) => v,
                Err(e) => {
                    return Err(e);
                },
            };
            proof {
                lemma_row_major_index(i as int, c as int, n as int, hidden_size as int);
            }
            output.push(v);
            proof {
                assert forall|a: int, c2: int|
                    0 <= a < i && 0 <= c2 < hidden_size implies #[trigger] output@[a * hidden_size + c2]
                    == embedding.at(token_ids@[a] as int, c2) by {
                    lemma_row_major_index(a, c2, i as int, hidden_size as int);
                }
            }
            c = c + 1;
        }
        proof {
            assert(output@.len() == (i + 1) * hidden_size) by (nonlinear_arith)
                requires
                    output@.len() == i * hidden_size + hidden_size,
            ;
            lemma_row_major_index(i as int, 0, n as int, hidden_size as int);
        }
        i = i + 1;
    }
    let mut out_shape: Vec<usize> = Vec::new();
    out_shape.push(n);
    out_shape.push(hidden_size);
    proof {
        assert(out_shape@ =~= seq![n, hidden_size]);
        lemma_shape_product_2(n, hidden_size);
        assert(!out_shape@.contains(0usize)) by {
            if out_shape@.contains(0usize) {
                let j = choose|j: int| 0 <= j < out_shape@.len() && out_shape@[j] == 0;
                assert(j == 0 || j == 1);
            }
        }
    }
    let result = Tensor::new(out_shape, output);
    proof {
        if result is Ok {
            let t = result->Ok_0;
            assert forall|a: int, c: int|
                0 <= a < n && 0 <= c < hidden_size implies #[trigger] t.at(a, c) == embedding.at(
                token_ids@[a] as int,
                c,
            ) by {
                assert(t.at(a, c) == output@[a * hidden_size + c]);
            }
        }
    }
    result
}

/// Whether two shapes are equal, dimension by dimension.
pub(crate) fn shapes_equal(a: &[usize], b: &[usize]) -> (r: bool)
    ensures
        r == (a@ == b@),
{
    if a.len() != b.len() {
        return false;
    }
    let mut i: usize = 0;
    while i < a.len()
        invariant
            i <= a.len() == b.len(),
            forall|j: int| 0 <= j < i ==> a@[j] == b@[j],
        decreases a.len() - i,
    {
        if a[i] != b[i] {
            return false;
        }
        i = i + 1;
    }
    assert(a@ =~= b@);
    true
}

/// Checks that `tensor` has exactly the shape `expected`.
pub fn validate_shape<T>(tensor: &Tensor<T>, expected_shape: &[usize]) -> (r: Result<(), MiniInferError>)
    ensures
        tensor.shape_view() == expected_shape@ ==> r is Ok,
        tensor.shape_view() != expected_shape@ ==> (r matches Err(
            MiniInferError::InvalidTensorShape { expected, actual },
        ) && expected@ == expected_shape@ && actual@ == tensor.shape_view()),
{
    let shape = tensor.shape();
    if !shapes_equal(shape, expected_shape) {
        return Err(
            MiniInferError::InvalidTensorShape {
                expected: copy_slice(expected_shape),
                actual: copy_slice(shape),
            },
        );
    }
    Ok(())
}

/// Checks that `a` and `b` are matrices whose product is defined and gives
/// its dimensions `(m, k, n)`.
pub fn validate_matmul_shape<T, U>(a: &Tensor<T>, b: &Tensor<U>) -> (r: Result<
    (usize, usize, usize),
    MiniInferError,
>)
    ensures
        a.shape_view().len() != 2 ==> r == Err::<(usize, usize, usize), MiniInferError>(
            MiniInferError::WrongRank { expected: 2, actual: a.shape_view().len() as usize },
        ),
        a.shape_view().len() == 2 && b.shape_view().len() != 2 ==> r == Err::<
            (usize, usize, usize),
            MiniInferError,
        >(MiniInferError::WrongRank { expected: 2, actual: b.shape_view().len() as usize }),
        a.shape_view().len() == 2 && b.shape_view().len() == 2 && a.shape_view()[1]
            != b.shape_view()[0] ==> (r matches Err(MiniInferError::MatMulShapeMismatch { left, right })
            && left@ == a.shape_view() && right@ == b.shape_view()),
        a.shape_view().len() == 2 && b.shape_view().len() == 2 && a.shape_view()[1]
            == b.shape_view()[0] ==> r == Ok::<(usize, usize, usize), MiniInferError>(
            (a.shape_view()[0], a.shape_view()[1], b.shape_view()[1]),
        ),
{
    let left = a.shape();
    let right = b.shape();
    if left.len() != 2 {
        return Err(MiniInferError::WrongRank { expected: 2, actual: left.len() });
    }
    if right.len() != 2 {
        return Err(MiniInferError::WrongRank { expected: 2, actual: right.len() });
    }
    let m = left[0];
    let k = left[1];
    let n = right[1];
    if k != right[0] {
        return Err(
            MiniInferError::MatMulShapeMismatch { left: copy_slice(left), right: copy_slice(right) },
        );
    }
    Ok((m, k, n))
}

/// Checks that a row of `matrix_rows` coefficients can multiply a
/// `matrix_rows` by `matrix_cols` matrix given by its elements.
pub fn validate_row_matrix_shape<T, U>(
    row: &[T],
    matrix: &[U],
    matrix_rows: usize,
    matrix_cols: usize,
) -> (r: Result<(), MiniInferError>)
    requires
        matrix_rows * matrix_cols <= usize::MAX,
    ensures
        matrix_rows == 0 || matrix_cols == 0 ==> (r matches Err(MiniInferError::InvalidConfig { message })
            && message@ == "matrix dimensions must be greater than zero"@),
        matrix_rows > 0 && matrix_cols > 0 && row@.len() != matrix_rows ==> r == Err::<(), MiniInferError>(
            MiniInferError::LengthMismatch { expected: matrix_rows, actual: row@.len() as usize },
        ),
        matrix_rows > 0 && matrix_cols > 0 && row@.len() == matrix_rows && matrix@.len() != matrix_rows
            * matrix_cols ==> r == Err::<(), MiniInferError>(
            MiniInferError::ShapeDataLengthMismatch {
                expected: (matrix_rows * matrix_cols) as usize,
                actual: matrix@.len() as usize,
            },
        ),
        matrix_rows > 0 && matrix_cols > 0 && row@.len() == matrix_rows && matrix@.len() == matrix_rows
            * matrix_cols ==> r is Ok,
{
    if matrix_rows == 0 || matrix_cols == 0 {
        return Err(
            MiniInferError::InvalidConfig {
                message: String::from_str("matrix dimensions must be greater than zero"),
            },
        );
    }
    if row.len() != matrix_rows {
        return Err(MiniInferError::LengthMismatch { expected: matrix_rows, actual: row.len() });
    }
    let len = matrix.len();
    let expected: usize = matrix_rows * matrix_cols;
    if len != expected {
        return Err(MiniInferError::ShapeDataLengthMismatch { expected, actual: len });
    }
    Ok(())
}

/// Checks the operands of scaled dot-product scores: two matrices of the
/// same width and a positive head width. Gives the number of query rows and
/// of key rows.
pub fn validate_attention_shapes<T>(query: &Tensor<T>, key: &Tensor<T>, head_dim: usize) -> (r: Result<
    (usize, usize),
    MiniInferError,
>)
    ensures
        query.shape_view().len() != 2 ==> r == Err::<(usize, usize), MiniInferError>(
            MiniInferError::WrongRank { expected: 2, actual: query.shape_view().len() as usize },
        ),
        query.shape_view().len() == 2 && key.shape_view().len() != 2 ==> r == Err::<(usize, usize), MiniInferError>(
            MiniInferError::WrongRank { expected: 2, actual: key.shape_view().len() as usize },
        ),
        query.shape_view().len() == 2 && key.shape_view().len() == 2 && head_dim == 0 ==> (r matches Err(
            MiniInferError::InvalidConfig { message },
        ) && message@ == "head_dim must be greater than zero"@),
        query.shape_view().len() == 2 && key.shape_view().len() == 2 && head_dim > 0 && query.shape_view()[1]
            != key.shape_view()[1] ==> (r matches Err(MiniInferError::InvalidTensorShape { expected, actual })
            && expected@ == seq![key.shape_view()[0], query.shape_view()[1]] && actual@ == key.shape_view()),
        query.shape_view().len() == 2 && key.shape_view().len() == 2 && head_dim > 0 && query.shape_view()[1]
            == key.shape_view()[1] ==> r == Ok::<(usize, usize), MiniInferError>(
            (query.shape_view()[0], key.shape_view()[0]),
        ),
{
    let q = query.shape();
    let k = key.shape();
    if q.len() != 2 {
        return Err(MiniInferError::WrongRank { expected: 2, actual: q.len() });
    }
    if k.len() != 2 {
        return Err(MiniInferError::WrongRank { expected: 2, actual: k.len() });
    }
    if head_dim == 0 {
        return Err(
            MiniInferError::InvalidConfig { message: String::from_str("head_dim must be greater than zero") },
        );
    }
    if q[1] != k[1] {
        let mut expected: Vec<usize> = Vec::new();
        expected.push(k[0]);
        expected.push(q[1]);
        assert(expected@ =~= seq![k@[0], q@[1]]);
        return Err(MiniInferError::InvalidTensorShape { expected, actual: copy_slice(k) });
    }
    Ok((q[0], k[0]))
}

/// Checks that causal attention scores form a square matrix and gives its
/// side.
pub fn validate_square_scores<T>(scores: &Tensor<T>) -> (r: Result<usize, MiniInferError>)
    ensures
        scores.shape_view().len() != 2 ==> r == Err::<usize, MiniInferError>(
            MiniInferError::WrongRank { expected: 2, actual: scores.shape_view().len() as usize },
        ),
        scores.shape_view().len() == 2 && scores.shape_view()[0] != scores.shape_view()[1] ==> (r matches Err(
            MiniInferError::InvalidTensorShape { expected, actual },
        ) && expected@ == seq![scores.shape_view()[0], scores.shape_view()[0]] && actual@
            == scores.shape_view()),
        scores.shape_view().len() == 2 && scores.shape_view()[0] == scores.shape_view()[1] ==> r == Ok::<
            usize,
            MiniInferError,
        >(scores.shape_view()[0]),
{
    let shape = scores.shape();
    if shape.len() != 2 {
        return Err(MiniInferError::WrongRank { expected: 2, actual: shape.len() });
    }
    let rows = shape[0];
    if rows != shape[1] {
        let mut expected: Vec<usize> = Vec::new();
        expected.push(rows);
        expected.push(rows);
        assert(expected@ =~= seq![rows, rows]);
        return Err(MiniInferError::InvalidTensorShape { expected, actual: copy_slice(shape) });
    }
    Ok(rows)
}

/// Checks the operands of an element-wise sum: both nonempty, of one length.
pub fn validate_elementwise_pair<T, U>(a: &[T], b: &[U]) -> (r: Result<(), MiniInferError>)
    ensures
        a@.len() == 0 || b@.len() == 0 ==> r == Err::<(), MiniInferError>(MiniInferError::EmptyInput),
        a@.len() > 0 && b@.len() > 0 && a@.len() != b@.len() ==> r == Err::<(), MiniInferError>(
            MiniInferError::LengthMismatch { expected: a@.len() as usize, actual: b@.len() as usize },
        ),
        a@.len() > 0 && a@.len() == b@.len() ==> r is Ok,
{
    if a.len() == 0 || b.len() == 0 {
        return Err(MiniInferError::EmptyInput);
    }
    if a.len() != b.len() {
        return Err(MiniInferError::LengthMismatch { expected: a.len(), actual: b.len() });
    }
    Ok(())
}

/// Checks the operands of a layer normalization: nonempty values, one
/// scale and one shift per value, and an epsilon (given by its IEEE 754
/// bits) that does not compare `<= 0`.
pub fn validate_layer_norm_inputs<T>(values: &[T], gamma: &[T], beta: &[T], epsilon_bits: u32) -> (r: Result<
    (),
    MiniInferError,
>)
    ensures
        values@.len() == 0 ==> r == Err::<(), MiniInferError>(MiniInferError::EmptyInput),
        values@.len() > 0 && gamma@.len() != values@.len() ==> r == Err::<(), MiniInferError>(
            MiniInferError::LengthMismatch { expected: values@.len() as usize, actual: gamma@.len() as usize },
        ),
        values@.len() > 0 && gamma@.len() == values@.len() && beta@.len() != values@.len() ==> r == Err::<
            (),
            MiniInferError,
        >(MiniInferError::LengthMismatch { expected: values@.len() as usize, actual: beta@.len() as usize }),
        values@.len() > 0 && gamma@.len() == values@.len() && beta@.len() == values@.len() ==> (if f32_le_zero(
            epsilon_bits,
        ) {
            r == Err::<(), MiniInferError>(MiniInferError::InvalidEpsilon)
        } else {
            r is Ok
        }),
{
    if values.len() == 0 {
        return Err(MiniInferError::EmptyInput);
    }
    if gamma.len() != values.len() {
        return Err(MiniInferError::LengthMismatch { expected: values.len(), actual: gamma.len() });
    }
    if beta.len() != values.len() {
        return Err(MiniInferError::LengthMismatch { expected: values.len(), actual: beta.len() });
    }
    if le_zero_bits(epsilon_bits) {
        return Err(MiniInferError::InvalidEpsilon);
    }
    Ok(())
}

} // verus!
