//! The attention layout: splitting the fused query/key/value projection,
//! splitting the hidden dimension into heads and merging the heads back.
//! These only move elements, so they work for any element type.

use vstd::prelude::*;
use vstd::string::*;
use vstd::arithmetic::div_mod::{lemma_fundamental_div_mod, lemma_fundamental_div_mod_converse};
use crate::error::MiniInferError;
use crate::tensor::{Tensor, copy_slice, shape_product, lemma_shape_product_2, lemma_row_major_index};
use crate::text::{append_decimal, decimal};

verus! {

/// `t` is a `rows` by `cols` matrix: its shape and its element count agree.
pub open spec fn is_matrix<T>(t: Tensor<T>, rows: int, cols: int) -> bool {
    &&& t.shape_view().len() == 2
    &&& t.shape_view()[0] == rows
    &&& t.shape_view()[1] == cols
    &&& t.data_view().len() == rows * cols
}

/// `heads` are the `n` heads of the matrix `hidden`: head `h` holds the
/// columns `h * d .. (h + 1) * d`, where `d` is the width of a head.
pub open spec fn heads_of<T>(heads: Seq<Tensor<T>>, hidden: Tensor<T>, n: int) -> bool {
    let s = hidden.shape_view()[0] as int;
    let width = hidden.shape_view()[1] as int;
    let d = width / n;
    &&& n > 0
    &&& width % n == 0
    &&& d > 0
    &&& is_matrix(hidden, s, width)
    &&& heads.len() == n
    &&& forall|h: int| 0 <= h < n ==> is_matrix(#[trigger] heads[h], s, d)
    &&& forall|h: int, r: int, c: int|
        0 <= h < n && 0 <= r < s && 0 <= c < d ==> #[trigger] heads[h].at(r, c) == hidden.at(
            r,
            h * d + c,
        )
}

/// `merged` places the heads side by side: column `j` of `merged` is column
/// `j % d` of head `j / d`, where `d` is the width of a head.
pub open spec fn merged_from<T>(merged: Tensor<T>, heads: Seq<Tensor<T>>) -> bool {
    let n = heads.len() as int;
    let s = heads[0].shape_view()[0] as int;
    let d = heads[0].shape_view()[1] as int;
    &&& n > 0
    &&& d > 0
    &&& forall|h: int| 0 <= h < n ==> is_matrix(#[trigger] heads[h], s, d)
    &&& is_matrix(merged, s, n * d)
    &&& forall|r: int, j: int|
        0 <= r < s && 0 <= j < n * d ==> #[trigger] merged.at(r, j) == heads[j / d].at(r, j % d)
}

/// Head `k` is the first whose shape differs from `[rows, cols]`.
pub open spec fn is_first_mismatched_head<T>(heads: Seq<Tensor<T>>, rows: usize, cols: usize, k: int) -> bool {
    &&& 0 <= k < heads.len()
    &&& heads[k].shape_view() != seq![rows, cols]
    &&& forall|j: int| 0 <= j < k ==> #[trigger] heads[j].shape_view() == seq![rows, cols]
}

pub open spec fn split_heads_message(width: nat, n: nat) -> Seq<char> {
    "hidden_size "@ + decimal(width) + " must be divisible by num_heads "@ + decimal(n)
}

/// Two matrices of the same dimensions with the same entries hold the same
/// elements.
proof fn lemma_matrix_data_eq<T>(a: Tensor<T>, b: Tensor<T>, rows: int, cols: int)
    requires
        is_matrix(a, rows, cols),
        is_matrix(b, rows, cols),
        cols > 0,
        forall|r: int, c: int| 0 <= r < rows && 0 <= c < cols ==> #[trigger] a.at(r, c) == b.at(r, c),
    ensures
        a.data_view() == b.data_view(),
{
    assert forall|i: int| 0 <= i < a.data_view().len() implies a.data_view()[i] == b.data_view()[i] by {
        let r = i / cols;
        let c = i % cols;
        lemma_fundamental_div_mod(i, cols);
        assert(0 <= c < cols);
        assert(i == r * cols + c) by (nonlinear_arith)
            requires
                i == cols * (i / cols) + (i % cols),
                r == i / cols,
                c == i % cols,
        ;
        assert(0 <= r < rows) by (nonlinear_arith)
            requires
                i == r * cols + c,
                0 <= c < cols,
                0 <= i < rows * cols,
        ;
        assert(a.at(r, c) == b.at(r, c));
    }
    assert(a.data_view() =~= b.data_view());
}

/// The elements of columns `start .. start + width` of a matrix, row by row.
fn column_block<T: Copy>(m: &Tensor<T>, start: usize, width: usize) -> (out: Vec<T>)
    requires
        m.shape_view().len() == 2,
        start + width <= m.shape_view()[1],
    ensures
        out@.len() == m.shape_view()[0] * width,
        forall|r: int, c: int|
            0 <= r < m.shape_view()[0] && 0 <= c < width ==> #[trigger] out@[r * width + c] == m.at(
                r,
                start + c,
            ),
{
    let shape = m.shape();
    let rows = shape[0];
    let cols = shape[1];
    let total = m.numel();
    proof {
        assert(shape@ =~= seq![rows, cols]);
        lemma_shape_product_2(rows, cols);
        assert(rows * width <= rows * cols) by (nonlinear_arith)
            requires
                width <= cols,
        ;
    }
    let mut out: Vec<T> = Vec::new();
    let mut r: usize = 0;
    while r < rows
        invariant
            m.shape_view() == seq![rows, cols],
            start + width <= cols,
            rows * width <= usize::MAX,
            r <= rows,
            out@.len() == r * width,
            forall|a: int, c: int|
                0 <= a < r && 0 <= c < width ==> #[trigger] out@[a * width + c] == m.at(a, start + c),
        decreases rows - r,
    {
        let mut c: usize = 0;
        while c < width
            invariant
                m.shape_view() == seq![rows, cols],
                start + width <= cols,
                rows * width <= usize::MAX,
                r < rows,
                c <= width,
                out@.len() == r * width + c,
                forall|a: int, c2: int|
                    0 <= a < r && 0 <= c2 < width ==> #[trigger] out@[a * width + c2] == m.at(
                        a,
                        start + c2,
                    ),
                forall|c2: int| 0 <= c2 < c ==> #[trigger] out@[r * width + c2] == m.at(r as int, start + c2),
            decreases width - c,
        {
            let v = match m.get_2d(r, start + c) {
                Ok(v) => v,
                Err(_) => {
                    proof {
                        assert(false);
                    }
                    return out;
                },
            };
            proof {
                lemma_row_major_index(r as int, c as int, rows as int, width as int);
            }
            out.push(v);
            proof {
                assert forall|a: int, c2: int|
                    0 <= a < r && 0 <= c2 < width implies #[trigger] out@[a * width + c2] == m.at(
                    a,
                    start + c2,
                ) by {
                    lemma_row_major_index(a, c2, r as int, width as int);
                }
            }
            c = c + 1;
        }
        proof {
            assert(out@.len() == (r + 1) * width) by (nonlinear_arith)
                requires
                    out@.len() == r * width + width,
            ;
        }
        r = r + 1;
    }
    out
}

/// A `rows` by `cols` matrix holding `data`.
fn matrix<T>(rows: usize, cols: usize, data: Vec<T>) -> (r: Result<Tensor<T>, MiniInferError>)
    requires
        rows > 0,
        cols > 0,
        data@.len() == rows * cols,
    ensures
        r matches Ok(t) && is_matrix(t, rows as int, cols as int) && t.data_view() == data@,
{
    let len = data.len();
    let mut shape: Vec<usize> = Vec::new();
    shape.push(rows);
    shape.push(cols);
    proof {
        assert(shape@ =~= seq![rows, cols]);
        lemma_shape_product_2(rows, cols);
        assert(!shape@.contains(0usize)) by {
            if shape@.contains(0usize) {
                let j = choose|j: int| 0 <= j < shape@.len() && shape@[j] == 0;
                assert(j == 0 || j == 1);
            }
        }
    }
    Tensor::new(shape, data)
}

/// Splits the fused `[seq_len, 3 * hidden]` projection into the query, key
/// and value matrices, each `[seq_len, hidden]`.
pub fn split_qkv<T: Copy>(qkv: &Tensor<T>) -> (r: Result<(Tensor<T>, Tensor<T>, Tensor<T>), MiniInferError>)
    ensures
        qkv.shape_view().len() != 2 ==> r == Err::<(Tensor<T>, Tensor<T>, Tensor<T>), MiniInferError>(
            MiniInferError::WrongRank { expected: 2, actual: qkv.shape_view().len() as usize },
        ),
        qkv.shape_view().len() == 2 && qkv.shape_view()[1] % 3 != 0 ==> (r matches Err(
            MiniInferError::InvalidTensorShape { expected, actual },
        ) && expected@ == seq![qkv.shape_view()[0], (3 * (qkv.shape_view()[1] / 3)) as usize]
            && actual@ == qkv.shape_view()),
        qkv.shape_view().len() == 2 && qkv.shape_view()[1] % 3 == 0 ==> {
            let s = qkv.shape_view()[0] as int;
            let h = (qkv.shape_view()[1] / 3) as int;
            r matches Ok((q, k, v)) && is_matrix(q, s, h) && is_matrix(k, s, h) && is_matrix(v, s, h)
                && forall|row: int, c: int|
                0 <= row < s && 0 <= c < h ==> {
                    &&& #[trigger] q.at(row, c) == qkv.at(row, c)
                    &&& k.at(row, c) == qkv.at(row, c + h)
                    &&& v.at(row, c) == qkv.at(row, c + 2 * h)
                }
        },
{
    let shape = qkv.shape();
    if shape.len() != 2 {
        return Err(MiniInferError::WrongRank { expected: 2, actual: shape.len() });
    }
    let seq_len = shape[0];
    let width = shape[1];
    if width % 3 != 0 {
        let mut expected: Vec<usize> = Vec::new();
        expected.push(seq_len);
        expected.push(3 * (width / 3));
        assert(expected@ =~= seq![seq_len, (3 * (width / 3)) as usize]);
        return Err(MiniInferError::InvalidTensorShape { expected, actual: copy_slice(shape) });
    }
    let hidden = width / 3;
    proof {
        assert(!shape@.contains(0usize));
        assert(shape@[0] != 0 && shape@[1] != 0);
    }
    let query = column_block(qkv, 0, hidden);
    let key = column_block(qkv, hidden, hidden);
    let value = column_block(qkv, 2 * hidden, hidden);
    let q = match matrix(seq_len, hidden, query) {
        Ok(t) => t,
        Err(e) => {
            return Err(e);
        },
    };
    let k = match matrix(seq_len, hidden, key) {
        Ok(t) => t,
        Err(e) => {
            return Err(e);
        },
    };
    let v = match matrix(seq_len, hidden, value) {
        Ok(t) => t,
        Err(e) => {
            return Err(e);
        },
    };
    proof {
        assert forall|row: int, c: int| 0 <= row < seq_len && 0 <= c < hidden implies {
            &&& #[trigger] q.at(row, c) == qkv.at(row, c)
            &&& k.at(row, c) == qkv.at(row, c + hidden)
            &&& v.at(row, c) == qkv.at(row, c + 2 * hidden)
        } by {
            assert(q.at(row, c) == query@[row * hidden + c]);
            assert(k.at(row, c) == key@[row * hidden + c]);
            assert(v.at(row, c) == value@[row * hidden + c]);
        }
    }
    Ok((q, k, v))
}

/// Splits a `[seq_len, hidden]` matrix into `num_heads` matrices of
/// `[seq_len, hidden / num_heads]`, one per head.
pub fn split_heads<T: Copy>(hidden: &Tensor<T>, num_heads: usize) -> (r: Result<Vec<Tensor<T>>, MiniInferError>)
    ensures
        hidden.shape_view().len() != 2 ==> r == Err::<Vec<Tensor<T>>, MiniInferError>(
            MiniInferError::WrongRank { expected: 2, actual: hidden.shape_view().len() as usize },
        ),
        hidden.shape_view().len() == 2 && num_heads == 0 ==> (r matches Err(
            MiniInferError::InvalidConfig { message },
        ) && message@ == "num_heads must be greater than zero"@),
        hidden.shape_view().len() == 2 && num_heads > 0 && hidden.shape_view()[1] % num_heads != 0 ==> (r matches Err(
            MiniInferError::InvalidConfig { message },
        ) && message@ == split_heads_message(hidden.shape_view()[1] as nat, num_heads as nat)),
        hidden.shape_view().len() == 2 && num_heads > 0 && hidden.shape_view()[1] % num_heads == 0 ==> (r matches Ok(
            heads,
        ) && heads_of(heads@, *hidden, num_heads as int)),
{
    let shape = hidden.shape();
    if shape.len() != 2 {
        return Err(MiniInferError::WrongRank { expected: 2, actual: shape.len() });
    }
    if num_heads == 0 {
        return Err(
            MiniInferError::InvalidConfig {
                message: String::from_str("num_heads must be greater than zero"),
            },
        );
    }
    let seq_len = shape[0];
    let width = shape[1];
    if width % num_heads != 0 {
        let mut message = String::from_str("hidden_size ");
        append_decimal(&mut message, width);
        message.append(" must be divisible by num_heads ");
        append_decimal(&mut message, num_heads);
        proof {
            assert(message@ =~= split_heads_message(width as nat, num_heads as nat));
        }
        return Err(MiniInferError::InvalidConfig { message });
    }
    let head_dim = width / num_heads;
    proof {
        assert(!shape@.contains(0usize));
        assert(shape@[0] != 0 && shape@[1] != 0);
        assert(shape@ =~= seq![seq_len, width]);
        lemma_shape_product_2(seq_len, width);
        lemma_fundamental_div_mod(width as int, num_heads as int);
        assert(head_dim > 0) by (nonlinear_arith)
            requires
                width == num_heads * (width / num_heads) + width % num_heads,
                width % num_heads == 0,
                width > 0,
                head_dim == width / num_heads,
        ;
        assert(width == num_heads * head_dim);
    }
    let mut heads: Vec<Tensor<T>> = Vec::new();
    let mut h: usize = 0;
    while h < num_heads
        invariant
            hidden.shape_view() == seq![seq_len, width],
            hidden.data_view().len() == seq_len * width,
            seq_len > 0,
            head_dim > 0,
            width == num_heads * head_dim,
            head_dim == width / num_heads,
            h <= num_heads,
            heads@.len() == h,
            forall|j: int| 0 <= j < h ==> is_matrix(#[trigger] heads@[j], seq_len as int, head_dim as int),
            forall|j: int, row: int, c: int|
                0 <= j < h && 0 <= row < seq_len && 0 <= c < head_dim ==> #[trigger] heads@[j].at(row, c)
                    == hidden.at(row, j * head_dim + c),
        decreases num_heads - h,
    {
        proof {
            assert((h + 1) * head_dim <= num_heads * head_dim) by (nonlinear_arith)
                requires
                    h < num_heads,
            ;
            assert((h + 1) * head_dim == h * head_dim + head_dim) by (nonlinear_arith);
        }
        let start = h * head_dim;
        let data = column_block(hidden, start, head_dim);
        let head = match matrix(seq_len, head_dim, data) {
            Ok(t) => t,
            Err(e) => {
                return Err(e);
            },
        };
        proof {
            assert forall|row: int, c: int| 0 <= row < seq_len && 0 <= c < head_dim implies #[trigger] head.at(
                row,
                c,
            ) == hidden.at(row, h * head_dim + c) by {
                assert(head.at(row, c) == data@[row * head_dim + c]);
            }
        }
        heads.push(head);
        h = h + 1;
    }
    Ok(heads)
}

/// Places `[seq_len, head_dim]` heads side by side into one
/// `[seq_len, num_heads * head_dim]` matrix.
pub fn merge_heads<T: Copy>(heads: &[Tensor<T>]) -> (r: Result<Tensor<T>, MiniInferError>)
    requires
        heads@.len() > 0 && heads@[0].shape_view().len() == 2 ==> heads@[0].shape_view()[0] * (
        heads@.len() * heads@[0].shape_view()[1]) <= usize::MAX,
    ensures
        heads@.len() == 0 ==> r == Err::<Tensor<T>, MiniInferError>(MiniInferError::EmptyInput),
        heads@.len() > 0 && heads@[0].shape_view().len() != 2 ==> r == Err::<Tensor<T>, MiniInferError>(
            MiniInferError::WrongRank { expected: 2, actual: heads@[0].shape_view().len() as usize },
        ),
        heads@.len() > 0 && heads@[0].shape_view().len() == 2 ==> {
            let s = heads@[0].shape_view()[0];
            let d = heads@[0].shape_view()[1];
            if exists|k: int| is_first_mismatched_head(heads@, s, d, k) {
                let k = choose|k: int| is_first_mismatched_head(heads@, s, d, k);
                if heads@[k].shape_view().len() != 2 {
                    r == Err::<Tensor<T>, MiniInferError>(
                        MiniInferError::WrongRank {
                            expected: 2,
                            actual: heads@[k].shape_view().len() as usize,
                        },
                    )
                } else {
                    r matches Err(MiniInferError::InvalidTensorShape { expected, actual }) && expected@
                        == seq![s, d] && actual@ == heads@[k].shape_view()
                }
            } else {
                r matches Ok(t) && merged_from(t, heads@)
            }
        },
{
    if heads.len() == 0 {
        return Err(MiniInferError::EmptyInput);
    }
    let first_shape = heads[0].shape();
    if first_shape.len() != 2 {
        return Err(MiniInferError::WrongRank { expected: 2, actual: first_shape.len() });
    }
    let num_heads = heads.len();
    let seq_len = first_shape[0];
    let head_dim = first_shape[1];
    proof {
        assert(!first_shape@.contains(0usize));
        assert(first_shape@[0] != 0 && first_shape@[1] != 0);
        assert(num_heads * head_dim <= seq_len * (num_heads * head_dim)) by (nonlinear_arith)
            requires
                seq_len > 0,
        ;
    }
    let width = num_heads * head_dim;
    let mut expected: Vec<usize> = Vec::new();
    expected.push(seq_len);
    expected.push(head_dim);
    assert(expected@ =~= seq![seq_len, head_dim]);
    let mut k: usize = 0;
    while k < num_heads
        invariant
            num_heads == heads@.len(),
            heads@[0].shape_view() == seq![seq_len, head_dim],
            expected@ == seq![seq_len, head_dim],
            k <= num_heads,
            forall|j: int| 0 <= j < k ==> is_matrix(#[trigger] heads@[j], seq_len as int, head_dim as int),
        decreases num_heads - k,
    {
        let shape = heads[k].shape();
        if shape.len() != 2 || shape[0] != seq_len || shape[1] != head_dim {
            proof {
                assert(heads@[k as int].shape_view() != seq![seq_len, head_dim]) by {
                    if shape.len() == 2 {
                        assert(shape@[0] != seq_len || shape@[1] != head_dim);
                        if shape@ == seq![seq_len, head_dim] {
                            assert(shape@[0] == seq_len && shape@[1] == head_dim);
                        }
                    }
                }
                assert forall|j: int| 0 <= j < k implies #[trigger] heads@[j].shape_view() == seq![
                    seq_len,
                    head_dim,
                ] by {
                    assert(is_matrix(heads@[j], seq_len as int, head_dim as int));
                    assert(heads@[j].shape_view() =~= seq![seq_len, head_dim]);
                }
                assert(is_first_mismatched_head(heads@, seq_len, head_dim, k as int));
                assert forall|c: int| is_first_mismatched_head(heads@, seq_len, head_dim, c) implies c
                    == k by {
                    if c < k {
                        assert(is_matrix(heads@[c], seq_len as int, head_dim as int));
                        assert(heads@[c].shape_view() =~= seq![seq_len, head_dim]);
                    } else if c > k {
                        assert(heads@[k as int].shape_view() == seq![seq_len, head_dim]);
                    }
                }
            }
            if shape.len() != 2 {
                return Err(MiniInferError::WrongRank { expected: 2, actual: shape.len() });
            }
            return Err(MiniInferError::InvalidTensorShape { expected, actual: copy_slice(shape) });
        }
        proof {
            assert(shape@ =~= seq![seq_len, head_dim]);
            lemma_shape_product_2(seq_len, head_dim);
        }
        k = k + 1;
    }
    proof {
        assert forall|c: int| !is_first_mismatched_head(heads@, seq_len, head_dim, c) by {
            if 0 <= c < heads@.len() {
                assert(is_matrix(heads@[c], seq_len as int, head_dim as int));
                assert(heads@[c].shape_view() =~= seq![seq_len, head_dim]);
            }
        }
    }
    let mut output: Vec<T> = Vec::new();
    let mut row: usize = 0;
    while row < seq_len
        invariant
            num_heads == heads@.len(),
            num_heads > 0,
            head_dim > 0,
            width == num_heads * head_dim,
            seq_len * width <= usize::MAX,
            forall|j: int| 0 <= j < num_heads ==> is_matrix(#[trigger] heads@[j], seq_len as int, head_dim as int),
            row <= seq_len,
            output@.len() == row * width,
            forall|a: int, j: int|
                0 <= a < row && 0 <= j < width ==> #[trigger] output@[a * width + j]
                    == heads@[j / head_dim as int].at(a, j % head_dim as int),
        decreases seq_len - row,
    {
        let mut j: usize = 0;
        while j < width
            invariant
                num_heads == heads@.len(),
                num_heads > 0,
                head_dim > 0,
                width == num_heads * head_dim,
                seq_len * width <= usize::MAX,
                forall|i: int| 0 <= i < num_heads ==> is_matrix(#[trigger] heads@[i], seq_len as int, head_dim as int),
                row < seq_len,
                j <= width,
                output@.len() == row * width + j,
                forall|a: int, j2: int|
                    0 <= a < row && 0 <= j2 < width ==> #[trigger] output@[a * width + j2]
                        == heads@[j2 / head_dim as int].at(a, j2 % head_dim as int),
                forall|j2: int|
                    0 <= j2 < j ==> #[trigger] output@[row * width + j2] == heads@[j2 / head_dim as int].at(
                        row as int,
                        j2 % head_dim as int,
                    ),
            decreases width - j,
        {
            let h = j / head_dim;
            let c = j % head_dim;
            proof {
                lemma_fundamental_div_mod(j as int, head_dim as int);
                assert(h < num_heads) by (nonlinear_arith)
                    requires
                        j == head_dim * h + c,
                        j < num_heads * head_dim,
                        0 <= c,
                        head_dim > 0,
                ;
                assert(is_matrix(heads@[h as int], seq_len as int, head_dim as int));
            }
            let v = match heads[h].get_2d(row, c) {
                Ok(v) => v,
                Err(e) => {
                    return Err(e);
                },
            };
            proof {
                lemma_row_major_index(row as int, j as int, seq_len as int, width as int);
            }
            output.push(v);
            proof {
                assert forall|a: int, j2: int|
                    0 <= a < row && 0 <= j2 < width implies #[trigger] output@[a * width + j2]
                    == heads@[j2 / head_dim as int].at(a, j2 % head_dim as int) by {
                    lemma_row_major_index(a, j2, row as int, width as int);
                }
            }
            j = j + 1;
        }
        proof {
            assert(output@.len() == (row + 1) * width) by (nonlinear_arith)
                requires
                    output@.len() == row * width + width,
            ;
        }
        row = row + 1;
    }
    proof {
        assert(width > 0) by (nonlinear_arith)
            requires
                num_heads > 0,
                head_dim > 0,
                width == num_heads * head_dim,
        ;
    }
    let merged = match matrix(seq_len, width, output) {
        Ok(t) => t,
        Err(e) => {
            return Err(e);
        },
    };
    proof {
        assert forall|a: int, j: int| 0 <= a < seq_len && 0 <= j < width implies #[trigger] merged.at(a, j)
            == heads@[j / head_dim as int].at(a, j % head_dim as int) by {
            assert(merged.at(a, j) == output@[a * width + j]);
        }
    }
    Ok(merged)
}

pub open spec fn head_dim_message(width: nat, head_dim: nat) -> Seq<char> {
    "hidden_size "@ + decimal(width) + " must be divisible by head_dim "@ + decimal(head_dim)
}

/// The number of attention heads of width `head_dim` that a hidden size of
/// `hidden_size` holds.
pub fn head_count(hidden_size: usize, head_dim: usize) -> (r: Result<usize, MiniInferError>)
    ensures
        head_dim == 0 ==> (r matches Err(MiniInferError::InvalidConfig { message }) && message@
            == "head_dim must be greater than zero"@),
        head_dim > 0 && hidden_size % head_dim != 0 ==> (r matches Err(
            MiniInferError::InvalidConfig { message },
        ) && message@ == head_dim_message(hidden_size as nat, head_dim as nat)),
        head_dim > 0 && hidden_size % head_dim == 0 ==> r == Ok::<usize, MiniInferError>(
            hidden_size / head_dim,
        ),
{
    if head_dim == 0 {
        return Err(
            MiniInferError::InvalidConfig { message: String::from_str("head_dim must be greater than zero") },
        );
    }
    if hidden_size % head_dim != 0 {
        let mut message = String::from_str("hidden_size ");
        append_decimal(&mut message, hidden_size);
        message.append(" must be divisible by head_dim ");
        append_decimal(&mut message, head_dim);
        proof {
            assert(message@ =~= head_dim_message(hidden_size as nat, head_dim as nat));
        }
        return Err(MiniInferError::InvalidConfig { message });
    }
    Ok(hidden_size / head_dim)
}

/// The last row of a `[seq_len, hidden]` matrix, as a `[1, hidden]` matrix.
pub fn last_hidden_row<T: Copy>(hidden: &Tensor<T>) -> (r: Result<Tensor<T>, MiniInferError>)
    ensures
        hidden.shape_view().len() != 2 ==> r == Err::<Tensor<T>, MiniInferError>(
            MiniInferError::WrongRank { expected: 2, actual: hidden.shape_view().len() as usize },
        ),
        hidden.shape_view().len() == 2 ==> {
            let s = hidden.shape_view()[0] as int;
            let width = hidden.shape_view()[1] as int;
            r matches Ok(t) && is_matrix(t, 1, width) && forall|c: int|
                0 <= c < width ==> #[trigger] t.at(0, c) == hidden.at(s - 1, c)
        },
{
    let shape = hidden.shape();
    if shape.len() != 2 {
        return Err(MiniInferError::WrongRank { expected: 2, actual: shape.len() });
    }
    let seq_len = shape[0];
    let width = shape[1];
    proof {
        assert(!shape@.contains(0usize));
        assert(shape@[0] != 0 && shape@[1] != 0);
        assert(shape@ =~= seq![seq_len, width]);
        lemma_shape_product_2(seq_len, width);
        assert(width <= seq_len * width) by (nonlinear_arith)
            requires
                seq_len > 0,
        ;
    }
    let total = hidden.numel();
    let last = seq_len - 1;
    let mut data: Vec<T> = Vec::new();
    let mut c: usize = 0;
    while c < width
        invariant
            hidden.shape_view() == seq![seq_len, width],
            last == seq_len - 1,
            seq_len > 0,
            c <= width,
            data@.len() == c,
            forall|c2: int| 0 <= c2 < c ==> #[trigger] data@[c2] == hidden.at(last as int, c2),
        decreases width - c,
    {
        let v = match hidden.get_2d(last, c) {
            Ok(v) => v,
            Err(e) => {
                return Err(e);
            },
        };
        data.push(v);
        c = c + 1;
    }
    let row = match matrix(1, width, data) {
        Ok(t) => t,
        Err(e) => {
            return Err(e);
        },
    };
    proof {
        assert forall|c2: int| 0 <= c2 < width implies #[trigger] row.at(0, c2) == hidden.at(
            seq_len - 1,
            c2,
        ) by {
            assert(row.at(0, c2) == data@[0 * width + c2]);
        }
    }
    Ok(row)
}

/// Merging the heads that a split produced gives back the matrix that was
/// split.
pub proof fn lemma_merge_after_split<T>(hidden: Tensor<T>, n: int, heads: Seq<Tensor<T>>, merged: Tensor<T>)
    requires
        heads_of(heads, hidden, n),
        merged_from(merged, heads),
    ensures
        merged.shape_view() == hidden.shape_view(),
        merged.data_view() == hidden.data_view(),
{
    let s = hidden.shape_view()[0] as int;
    let width = hidden.shape_view()[1] as int;
    let d = width / n;
    lemma_fundamental_div_mod(width, n);
    assert(width == n * d);
    assert(is_matrix(heads[0], s, d));
    assert(heads[0].shape_view()[1] == d);
    assert(merged.shape_view() =~= hidden.shape_view());
    assert forall|r: int, j: int| 0 <= r < s && 0 <= j < width implies #[trigger] merged.at(r, j) == hidden.at(
        r,
        j,
    ) by {
        let h = j / d;
        let c = j % d;
        lemma_fundamental_div_mod(j, d);
        assert(0 <= h < n) by (nonlinear_arith)
            requires
                j == d * h + c,
                0 <= c < d,
                0 <= j < n * d,
        ;
        assert(merged.at(r, j) == heads[h].at(r, c));
        assert(heads[h].at(r, c) == hidden.at(r, h * d + c));
        assert(h * d + c == j) by (nonlinear_arith)
            requires
                j == d * h + c,
        ;
    }
    lemma_matrix_data_eq(merged, hidden, s, width);
}

/// Splitting a merged matrix into as many heads as were merged gives back
/// those heads.
pub proof fn lemma_split_after_merge<T>(heads: Seq<Tensor<T>>, merged: Tensor<T>, split: Seq<Tensor<T>>)
    requires
        merged_from(merged, heads),
        heads_of(split, merged, heads.len() as int),
    ensures
        split.len() == heads.len(),
        forall|h: int|
            0 <= h < heads.len() ==> #[trigger] split[h].shape_view() == heads[h].shape_view()
                && split[h].data_view() == heads[h].data_view(),
{
    let n = heads.len() as int;
    let s = heads[0].shape_view()[0] as int;
    let d = heads[0].shape_view()[1] as int;
    assert((n * d) / n == d) by (nonlinear_arith)
        requires
            n > 0,
    ;
    assert forall|h: int| 0 <= h < n implies #[trigger] split[h].shape_view() == heads[h].shape_view()
        && split[h].data_view() == heads[h].data_view() by {
        assert(is_matrix(heads[h], s, d));
        assert(is_matrix(split[h], s, d));
        assert(split[h].shape_view() =~= heads[h].shape_view());
        assert forall|r: int, c: int| 0 <= r < s && 0 <= c < d implies #[trigger] split[h].at(r, c)
            == heads[h].at(r, c) by {
            let j = h * d + c;
            assert(0 <= j < n * d) by (nonlinear_arith)
                requires
                    0 <= h < n,
                    0 <= c < d,
                    j == h * d + c,
            ;
            lemma_fundamental_div_mod_converse(j, d, h, c);
            assert(split[h].at(r, c) == merged.at(r, j));
            assert(merged.at(r, j) == heads[j / d].at(r, j % d));
        }
        lemma_matrix_data_eq(split[h], heads[h], s, d);
    }
}

} // verus!
