//! Symmetrically quantized tensors: `i8` elements and the scales that turn
//! them back into real numbers, one for the whole tensor or one per index
//! along an axis. Scales are held as the IEEE 754 bits of their
//! single-precision values; multiplying by them is done outside the
//! verified core.

use vstd::prelude::*;
use vstd::string::*;
use crate::error::MiniInferError;
use crate::sampling::valid_temperature;
use crate::float_bits::{is_finite_bits, le_zero_bits};
use crate::tensor::{Tensor, shape_product, valid_shape, lemma_shape_product_concat, lemma_shape_product_pos};

verus! {

/// How a quantized tensor is scaled.
#[derive(Debug, Clone, PartialEq)]
pub enum QuantizationScale {
    PerTensor(u32),
    PerAxis { axis: usize, scales: Vec<u32> },
}

/// A scale must be a finite number above zero.
pub open spec fn valid_scale(bits: u32) -> bool {
    valid_temperature(bits)
}

/// The first problem with `scale` for a tensor of this shape, as the message
/// reporting it.
pub open spec fn scale_error(shape: Seq<usize>, scale: QuantizationScale) -> Option<Seq<char>> {
    match scale {
        QuantizationScale::PerTensor(s) => if !valid_scale(s) {
            Some("quantization scale must be finite and greater than zero"@)
        } else {
            None
        },
        QuantizationScale::PerAxis { axis, scales } => if axis >= shape.len() {
            Some("per-axis quantization axis must be within tensor rank"@)
        } else if scales@.len() != shape[axis as int] {
            Some("per-axis quantization scale count must match axis dimension"@)
        } else if scales@.len() == 0 || exists|i: int| 0 <= i < scales@.len() && !valid_scale(#[trigger] scales@[i]) {
            Some("per-axis quantization scales must be finite and greater than zero"@)
        } else {
            None
        },
    }
}

/// A scale as plain values: the axis of per-axis scales (none for one
/// scale), and the scales.
pub open spec fn scale_model(s: QuantizationScale) -> (Option<usize>, Seq<u32>) {
    match s {
        QuantizationScale::PerTensor(b) => (None, seq![b]),
        QuantizationScale::PerAxis { axis, scales } => (Some(axis), scales@),
    }
}

/// A copy of a scale.
pub fn copy_scale(s: &QuantizationScale) -> (r: QuantizationScale)
    ensures
        scale_model(r) == scale_model(*s),
        forall|shape: Seq<usize>| scale_error(shape, r) == scale_error(shape, *s),
{
    match s {
        QuantizationScale::PerTensor(b) => QuantizationScale::PerTensor(*b),
        QuantizationScale::PerAxis { axis, scales } => {
            let copied = crate::tensor::copy_vec(scales);
            let r = QuantizationScale::PerAxis { axis: *axis, scales: copied };
            proof {
                assert forall|shape: Seq<usize>| scale_error(shape, r) == scale_error(shape, *s) by {
                    assert(copied@ == scales@);
                }
            }
            r
        },
    }
}

/// The number of elements between two consecutive indices along `axis`.
pub open spec fn stride_after(shape: Seq<usize>, axis: int) -> nat {
    shape_product(shape.skip(axis + 1))
}

/// `i8` elements in row-major order with their scales.
#[derive(Debug)]
pub struct QuantizedTensor {
    values: Tensor<i8>,
    scale: QuantizationScale,
}

fn is_valid_scale(bits: u32) -> (b: bool)
    ensures
        b == valid_scale(bits),
{
    is_finite_bits(bits) && !le_zero_bits(bits)
}

fn invalid_scale(message: &str) -> (r: MiniInferError)
    ensures
        r matches MiniInferError::InvalidConfig { message: m } && m@ == message@,
{
    MiniInferError::InvalidConfig { message: message.to_string() }
}

impl QuantizedTensor {
    #[verifier::type_invariant]
    closed spec fn inv(self) -> bool {
        scale_error(self.values.shape_view(), self.scale) is None
    }

    pub closed spec fn shape_view(&self) -> Seq<usize> {
        self.values.shape_view()
    }

    pub closed spec fn data_view(&self) -> Seq<i8> {
        self.values.data_view()
    }

    pub closed spec fn scale_view(&self) -> QuantizationScale {
        self.scale
    }

    /// A quantized tensor, after the same shape checks as a tensor's and a
    /// check of its scales.
    pub fn new(shape: Vec<usize>, data: Vec<i8>, scale: QuantizationScale) -> (r: Result<Self, MiniInferError>)
        requires
            valid_shape(shape@) ==> shape_product(shape@) <= usize::MAX,
        ensures
            shape@.len() == 0 ==> r == Err::<Self, MiniInferError>(MiniInferError::EmptyShape),
            shape@.len() > 0 && shape@.contains(0usize) ==> r == Err::<Self, MiniInferError>(
                MiniInferError::ZeroDimension,
            ),
            valid_shape(shape@) && shape_product(shape@) != data@.len() ==> r == Err::<
                Self,
                MiniInferError,
            >(
                MiniInferError::ShapeDataLengthMismatch {
                    expected: shape_product(shape@) as usize,
                    actual: data@.len() as usize,
                },
            ),
            valid_shape(shape@) && shape_product(shape@) == data@.len() ==> match scale_error(shape@, scale) {
                Some(m) => r matches Err(MiniInferError::InvalidConfig { message }) && message@ == m,
                None => r matches Ok(q) && q.shape_view() == shape@ && q.data_view() == data@
                    && q.scale_view() == scale,
            },
    {
        let values = match Tensor::new(shape, data) {
            Ok(t) => t,
            Err(e) => {
                return Err(e);
            },
        };
        let shape = values.shape();
        match &scale {
            QuantizationScale::PerTensor(s) => {
                if !is_valid_scale(*s) {
                    return Err(invalid_scale("quantization scale must be finite and greater than zero"));
                }
            },
            QuantizationScale::PerAxis { axis, scales } => {
                if *axis >= shape.len() {
                    return Err(invalid_scale("per-axis quantization axis must be within tensor rank"));
                }
                if scales.len() != shape[*axis] {
                    return Err(invalid_scale("per-axis quantization scale count must match axis dimension"));
                }
                let mut all_valid = scales.len() > 0;
                let mut i: usize = 0;
                while i < scales.len()
                    invariant
                        i <= scales@.len(),
                        all_valid == (scales@.len() > 0 && forall|j: int| 0 <= j < i ==> valid_scale(#[trigger] scales@[j])),
                    decreases scales.len() - i,
                {
                    if !is_valid_scale(scales[i]) {
                        all_valid = false;
                    }
                    i = i + 1;
                }
                if !all_valid {
                    return Err(
                        invalid_scale("per-axis quantization scales must be finite and greater than zero"),
                    );
                }
            },
        }
        Ok(QuantizedTensor { values, scale })
    }

    pub fn shape(&self) -> (s: &[usize])
        ensures
            s@ == self.shape_view(),
    {
        self.values.shape()
    }

    pub fn data(&self) -> (d: &[i8])
        ensures
            d@ == self.data_view(),
    {
        self.values.data()
    }

    pub fn scale(&self) -> (s: &QuantizationScale)
        ensures
            *s == self.scale_view(),
    {
        &self.scale
    }

    /// The scale, as IEEE 754 bits, that multiplies element `flat_index`:
    /// the one scale of the tensor, or the scale of the element's index
    /// along the scaled axis.
    pub fn scale_bits_for(&self, flat_index: usize) -> (s: u32)
        requires
            flat_index < self.data_view().len(),
        ensures
            valid_scale(s),
            self.scale_view() matches QuantizationScale::PerTensor(t) ==> s == t,
            self.scale_view() matches QuantizationScale::PerAxis { axis, scales } ==> s == scales@[
                ((flat_index as nat / stride_after(self.shape_view(), axis as int)) % (self.shape_view()[axis as int] as nat)) as int
            ],
    {
        proof {
            use_type_invariant(self);
        }
        match &self.scale {
            QuantizationScale::PerTensor(t) => *t,
            QuantizationScale::PerAxis { axis, scales } => {
                let shape = self.values.shape();
                let count = self.values.numel();
                let rank = shape.len();
                proof {
                    assert(shape_product(shape@) == count);
                    assert(*axis < rank);
                }
                let stride = stride_product(shape, *axis + 1);
                let dim = shape[*axis];
                proof {
                    assert(!shape@.contains(0usize));
                    assert(dim != 0);
                }
                let k = (flat_index / stride) % dim;
                scales[k]
            },
        }
    }
}

proof fn lemma_suffix_product(shape: Seq<usize>, from: int)
    requires
        0 <= from <= shape.len(),
        !shape.contains(0usize),
    ensures
        1 <= shape_product(shape.skip(from)) <= shape_product(shape),
{
    let front = shape.take(from);
    let back = shape.skip(from);
    assert(front + back =~= shape);
    lemma_shape_product_concat(front, back);
    assert(!front.contains(0usize)) by {
        if front.contains(0usize) {
            let j = choose|j: int| 0 <= j < front.len() && front[j] == 0;
            assert(shape[j] == 0);
        }
    }
    assert(!back.contains(0usize)) by {
        if back.contains(0usize) {
            let j = choose|j: int| 0 <= j < back.len() && back[j] == 0;
            assert(shape[from + j] == 0);
        }
    }
    lemma_shape_product_pos(front);
    lemma_shape_product_pos(back);
    let pf = shape_product(front);
    let pb = shape_product(back);
    assert(pb <= pf * pb) by (nonlinear_arith)
        requires
            pf >= 1,
    ;
}

/// The product of `shape[from..]`.
fn stride_product(shape: &[usize], from: usize) -> (p: usize)
    requires
        from <= shape@.len(),
        valid_shape(shape@),
        shape_product(shape@) <= usize::MAX,
    ensures
        p == shape_product(shape@.skip(from as int)),
        p >= 1,
{
    proof {
        lemma_suffix_product(shape@, from as int);
    }
    let mut p: usize = 1;
    let mut i: usize = shape.len();
    assert(shape@.skip(i as int) =~= Seq::<usize>::empty());
    while i > from
        invariant
            from <= i <= shape@.len(),
            valid_shape(shape@),
            shape_product(shape@) <= usize::MAX,
            p == shape_product(shape@.skip(i as int)),
        decreases i - from,
    {
        proof {
            lemma_suffix_product(shape@, i - 1);
            assert(shape@.skip(i - 1) =~= seq![shape@[i - 1]] + shape@.skip(i as int));
            lemma_shape_product_concat(seq![shape@[i - 1]], shape@.skip(i as int));
            crate::tensor::lemma_shape_product_1(shape@[i - 1]);
        }
        i = i - 1;
        p = shape[i] * p;
    }
    p
}

/// A weight matrix as the model holds it: plain elements, quantized `i8`
/// elements with their scales, or the same packed column by column.
pub enum WeightTensor<T> {
    F32(Tensor<T>),
    I8Symmetric(QuantizedTensor),
    PackedI8Symmetric(PackedI8Weight),
}

impl<T> WeightTensor<T> {
    pub open spec fn shape_view(&self) -> Seq<usize> {
        match self {
            WeightTensor::F32(t) => t.shape_view(),
            WeightTensor::I8Symmetric(q) => q.shape_view(),
            WeightTensor::PackedI8Symmetric(p) => p.shape_view(),
        }
    }

    /// The shape of the weights, whichever way they are held.
    pub fn shape(&self) -> (s: &[usize])
        ensures
            s@ == self.shape_view(),
    {
        match self {
            WeightTensor::F32(t) => t.shape(),
            WeightTensor::I8Symmetric(q) => q.shape(),
            WeightTensor::PackedI8Symmetric(p) => p.shape(),
        }
    }
}

/// Checks that `weight` has exactly the shape `expected_shape`.
pub fn validate_weight_shape<T>(weight: &WeightTensor<T>, expected_shape: &[usize]) -> (r: Result<(), MiniInferError>)
    ensures
        weight.shape_view() == expected_shape@ ==> r is Ok,
        weight.shape_view() != expected_shape@ ==> (r matches Err(
            MiniInferError::InvalidTensorShape { expected, actual },
        ) && expected@ == expected_shape@ && actual@ == weight.shape_view()),
{
    let shape = weight.shape();
    if !crate::ops::shapes_equal(shape, expected_shape) {
        return Err(
            MiniInferError::InvalidTensorShape {
                expected: crate::tensor::copy_slice(expected_shape),
                actual: crate::tensor::copy_slice(shape),
            },
        );
    }
    Ok(())
}

/// The outcome of checking that a `left`-shaped input can multiply a
/// `right`-shaped quantized matrix: both must be matrices and the width of
/// the input must be the height of the matrix, reported as the input's
/// width against the matrix's height. On success, the rows of the input,
/// the shared dimension and the columns of the matrix.
pub open spec fn weight_matmul_result(r: Result<(usize, usize, usize), MiniInferError>, left: Seq<usize>, right: Seq<usize>) -> bool {
    if left.len() != 2 {
        r == Err::<(usize, usize, usize), MiniInferError>(
            MiniInferError::WrongRank { expected: 2, actual: left.len() as usize },
        )
    } else if right.len() != 2 {
        r == Err::<(usize, usize, usize), MiniInferError>(
            MiniInferError::WrongRank { expected: 2, actual: right.len() as usize },
        )
    } else if left[1] != right[0] {
        r matches Err(MiniInferError::InvalidTensorShape { expected, actual }) && expected@ == seq![left[1]]
            && actual@ == seq![right[0]]
    } else {
        r == Ok::<(usize, usize, usize), MiniInferError>((left[0], left[1], right[1]))
    }
}

fn check_weight_matmul_dims(left: &[usize], right: &[usize]) -> (r: Result<(usize, usize, usize), MiniInferError>)
    ensures
        weight_matmul_result(r, left@, right@),
{
    if left.len() != 2 {
        return Err(MiniInferError::WrongRank { expected: 2, actual: left.len() });
    }
    if right.len() != 2 {
        return Err(MiniInferError::WrongRank { expected: 2, actual: right.len() });
    }
    if left[1] != right[0] {
        let expected = vec![left[1]];
        let actual = vec![right[0]];
        assert(expected@ =~= seq![left@[1]]);
        assert(actual@ =~= seq![right@[0]]);
        return Err(MiniInferError::InvalidTensorShape { expected, actual });
    }
    Ok((left[0], left[1], right[1]))
}

/// Checks that the rows of `a` can multiply the quantized matrix `b`.
pub fn validate_quantized_matmul_shape<T>(a: &Tensor<T>, b: &QuantizedTensor) -> (r: Result<
    (usize, usize, usize),
    MiniInferError,
>)
    ensures
        weight_matmul_result(r, a.shape_view(), b.shape_view()),
{
    check_weight_matmul_dims(a.shape(), b.shape())
}

/// Checks that the rows of `a` can multiply the packed matrix `b`.
pub fn validate_packed_i8_matmul_shape<T>(a: &Tensor<T>, b: &PackedI8Weight) -> (r: Result<
    (usize, usize, usize),
    MiniInferError,
>)
    ensures
        weight_matmul_result(r, a.shape_view(), b.shape_view()),
{
    check_weight_matmul_dims(a.shape(), b.shape())
}

/// The element of a column-major `rows`-row matrix at row `r`, column `c`.
pub open spec fn col_major_at(data: Seq<i8>, rows: int, r: int, c: int) -> i8 {
    data[c * rows + r]
}

/// The element of a row-major `cols`-column matrix at row `r`, column `c`.
pub open spec fn row_major_at(data: Seq<i8>, cols: int, r: int, c: int) -> i8 {
    data[r * cols + c]
}

proof fn lemma_matrix_index(i: int, j: int, n: int, m: int)
    requires
        0 <= i < n,
        0 <= j < m,
    ensures
        0 <= i * m + j < n * m,
        i * m + j + 1 <= n * m,
{
    assert(0 <= i * m) by (nonlinear_arith)
        requires
            0 <= i,
            0 <= m,
    ;
    assert(i * m + j < n * m) by (nonlinear_arith)
        requires
            0 <= i < n,
            0 <= j < m,
    ;
}

/// A quantized matrix with its elements stored column by column, so that a
/// row of activations meets each weight column as one contiguous run.
pub struct PackedI8Weight {
    shape: Vec<usize>,
    data_by_col: Vec<i8>,
    scale: QuantizationScale,
}

impl PackedI8Weight {
    #[verifier::type_invariant]
    closed spec fn inv(self) -> bool {
        &&& self.shape@.len() == 2
        &&& self.shape@[0] > 0
        &&& self.shape@[1] > 0
        &&& self.data_by_col@.len() == self.shape@[0] * self.shape@[1]
        &&& scale_error(self.shape@, self.scale) is None
    }

    pub closed spec fn shape_view(&self) -> Seq<usize> {
        self.shape@
    }

    /// The elements, column after column.
    pub closed spec fn col_data_view(&self) -> Seq<i8> {
        self.data_by_col@
    }

    pub closed spec fn scale_view(&self) -> QuantizationScale {
        self.scale
    }

    /// `self` holds the matrix `q`, column by column, with its scales.
    pub open spec fn packs(&self, q: QuantizedTensor) -> bool {
        let rows = q.shape_view()[0] as int;
        let cols = q.shape_view()[1] as int;
        &&& q.shape_view().len() == 2
        &&& rows > 0
        &&& cols > 0
        &&& q.data_view().len() == rows * cols
        &&& self.shape_view() == q.shape_view()
        &&& scale_model(self.scale_view()) == scale_model(q.scale_view())
        &&& self.col_data_view().len() == q.data_view().len()
        &&& forall|r: int, c: int|
            0 <= r < rows && 0 <= c < cols ==> #[trigger] col_major_at(self.col_data_view(), rows, r, c)
                == row_major_at(q.data_view(), cols, r, c)
    }

    /// Packs a quantized matrix; the tensor must have rank 2.
    pub fn from_quantized(q: &QuantizedTensor) -> (r: Result<Self, MiniInferError>)
        ensures
            q.shape_view().len() != 2 ==> r == Err::<Self, MiniInferError>(
                MiniInferError::WrongRank { expected: 2, actual: q.shape_view().len() as usize },
            ),
            q.shape_view().len() == 2 ==> (r matches Ok(p) && p.packs(*q)),
    {
        proof {
            use_type_invariant(q);
        }
        let shape = q.values.shape();
        if shape.len() != 2 {
            return Err(MiniInferError::WrongRank { expected: 2, actual: shape.len() });
        }
        let rows = shape[0];
        let cols = shape[1];
        let data = q.values.data();
        proof {
            crate::tensor::lemma_shape_product_2(rows, cols);
            assert(shape@ =~= seq![rows, cols]);
            assert(data.len() == data@.len());
        }
        let mut out: Vec<i8> = Vec::new();
        let mut c: usize = 0;
        while c < cols
            invariant
                data@.len() == rows * cols,
                rows * cols <= usize::MAX,
                rows > 0,
                c <= cols,
                out@.len() == c * rows,
                forall|rr: int, cc: int|
                    0 <= rr < rows && 0 <= cc < c ==> #[trigger] col_major_at(out@, rows as int, rr, cc)
                        == row_major_at(data@, cols as int, rr, cc),
            decreases cols - c,
        {
            let mut r: usize = 0;
            while r < rows
                invariant
                    data@.len() == rows * cols,
                    rows * cols <= usize::MAX,
                    rows > 0,
                    c < cols,
                    r <= rows,
                    out@.len() == c * rows + r,
                    forall|rr: int, cc: int|
                        0 <= rr < rows && 0 <= cc < c ==> #[trigger] col_major_at(out@, rows as int, rr, cc)
                            == row_major_at(data@, cols as int, rr, cc),
                    forall|rr: int| 0 <= rr < r ==> #[trigger] col_major_at(out@, rows as int, rr, c as int)
                        == row_major_at(data@, cols as int, rr, c as int),
                decreases rows - r,
            {
                proof {
                    lemma_matrix_index(r as int, c as int, rows as int, cols as int);
                    lemma_matrix_index(c as int, r as int, cols as int, rows as int);
                }
                let ghost before = out@;
                out.push(data[r * cols + c]);
                proof {
                    assert forall|rr: int, cc: int|
                        0 <= rr < rows && 0 <= cc < c implies #[trigger] col_major_at(out@, rows as int, rr, cc)
                            == row_major_at(data@, cols as int, rr, cc) by {
                        lemma_matrix_index(cc, rr, c as int, rows as int);
                        assert(col_major_at(before, rows as int, rr, cc) == row_major_at(data@, cols as int, rr, cc));
                    }
                    assert forall|rr: int| 0 <= rr < r + 1 implies #[trigger] col_major_at(out@, rows as int, rr, c as int)
                        == row_major_at(data@, cols as int, rr, c as int) by {
                        if rr < r {
                            assert(col_major_at(before, rows as int, rr, c as int) == row_major_at(data@, cols as int, rr, c as int));
                        }
                    }
                }
                r = r + 1;
            }
            proof {
                assert((c + 1) * rows == c * rows + rows) by (nonlinear_arith);
            }
            c = c + 1;
        }
        proof {
            assert(cols * rows == rows * cols) by (nonlinear_arith);
        }
        let scale = copy_scale(&q.scale);
        let p = PackedI8Weight { shape: crate::tensor::copy_slice(shape), data_by_col: out, scale };
        proof {
            assert(p.shape@ =~= seq![rows, cols]);
        }
        Ok(p)
    }

    /// The shape of the matrix: rows, then columns.
    pub fn shape(&self) -> (s: &[usize])
        ensures
            s@ == self.shape_view(),
            s@.len() == 2,
    {
        proof {
            use_type_invariant(self);
        }
        self.shape.as_slice()
    }

    /// The elements, column after column.
    pub fn data_by_col(&self) -> (d: &[i8])
        ensures
            d@ == self.col_data_view(),
            d@.len() == self.shape_view()[0] * self.shape_view()[1],
    {
        proof {
            use_type_invariant(self);
        }
        self.data_by_col.as_slice()
    }

    pub fn scale(&self) -> (s: &QuantizationScale)
        ensures
            *s == self.scale_view(),
            scale_error(self.shape_view(), *s) is None,
    {
        proof {
            use_type_invariant(self);
        }
        &self.scale
    }

    /// The quantized matrix in row-major order again.
    pub fn to_quantized(&self) -> (r: Result<QuantizedTensor, MiniInferError>)
        ensures
            r matches Ok(q) && self.packs(q),
    {
        proof {
            use_type_invariant(self);
        }
        let rows = self.shape[0];
        let cols = self.shape[1];
        let data = self.data_by_col.as_slice();
        proof {
            assert(data.len() == data@.len());
            assert(cols * rows == rows * cols) by (nonlinear_arith);
        }
        let mut out: Vec<i8> = Vec::new();
        let mut r: usize = 0;
        while r < rows
            invariant
                data@.len() == rows * cols,
                rows * cols <= usize::MAX,
                cols > 0,
                r <= rows,
                out@.len() == r * cols,
                forall|rr: int, cc: int|
                    0 <= rr < r && 0 <= cc < cols ==> #[trigger] row_major_at(out@, cols as int, rr, cc)
                        == col_major_at(data@, rows as int, rr, cc),
            decreases rows - r,
        {
            let mut c: usize = 0;
            while c < cols
                invariant
                    data@.len() == rows * cols,
                    rows * cols <= usize::MAX,
                    cols * rows == rows * cols,
                    cols > 0,
                    r < rows,
                    c <= cols,
                    out@.len() == r * cols + c,
                    forall|rr: int, cc: int|
                        0 <= rr < r && 0 <= cc < cols ==> #[trigger] row_major_at(out@, cols as int, rr, cc)
                            == col_major_at(data@, rows as int, rr, cc),
                    forall|cc: int| 0 <= cc < c ==> #[trigger] row_major_at(out@, cols as int, r as int, cc)
                        == col_major_at(data@, rows as int, r as int, cc),
                decreases cols - c,
            {
                proof {
                    lemma_matrix_index(r as int, c as int, rows as int, cols as int);
                    lemma_matrix_index(c as int, r as int, cols as int, rows as int);
                }
                let ghost before = out@;
                out.push(data[c * rows + r]);
                proof {
                    assert forall|rr: int, cc: int|
                        0 <= rr < r && 0 <= cc < cols implies #[trigger] row_major_at(out@, cols as int, rr, cc)
                            == col_major_at(data@, rows as int, rr, cc) by {
                        lemma_matrix_index(rr, cc, r as int, cols as int);
                        assert(row_major_at(before, cols as int, rr, cc) == col_major_at(data@, rows as int, rr, cc));
                    }
                    assert forall|cc: int| 0 <= cc < c + 1 implies #[trigger] row_major_at(out@, cols as int, r as int, cc)
                        == col_major_at(data@, rows as int, r as int, cc) by {
                        if cc < c {
                            assert(row_major_at(before, cols as int, r as int, cc) == col_major_at(data@, rows as int, r as int, cc));
                        }
                    }
                }
                c = c + 1;
            }
            proof {
                assert((r + 1) * cols == r * cols + cols) by (nonlinear_arith);
            }
            r = r + 1;
        }
        let shape = crate::tensor::copy_vec(&self.shape);
        proof {
            assert(shape@ =~= seq![rows, cols]);
            crate::tensor::lemma_shape_product_2(rows, cols);
            assert(valid_shape(shape@)) by {
                assert forall|i: int| 0 <= i < shape@.len() implies shape@[i] != 0 by {}
            }
        }
        let values = match Tensor::new(shape, out) {
            Ok(t) => t,
            Err(e) => {
                return Err(e);
            },
        };
        Ok(QuantizedTensor { values, scale: copy_scale(&self.scale) })
    }
}

/// Packing keeps the matrix: unpacking what was packed gives back the same
/// shape, elements and scales.
pub proof fn lemma_unpack_after_pack(q: QuantizedTensor, p: PackedI8Weight, u: QuantizedTensor)
    requires
        p.packs(q),
        p.packs(u),
    ensures
        u.shape_view() == q.shape_view(),
        u.data_view() == q.data_view(),
        scale_model(u.scale_view()) == scale_model(q.scale_view()),
{
    let rows = q.shape_view()[0] as int;
    let cols = q.shape_view()[1] as int;
    assert forall|k: int| 0 <= k < q.data_view().len() implies u.data_view()[k] == q.data_view()[k] by {
        let r = k / cols;
        let c = k % cols;
        assert(k == r * cols + c && 0 <= c < cols && 0 <= r < rows) by (nonlinear_arith)
            requires
                0 <= k < rows * cols,
                cols > 0,
                r == k / cols,
                c == k % cols,
        ;
        assert(col_major_at(p.col_data_view(), rows, r, c) == row_major_at(q.data_view(), cols, r, c));
        assert(col_major_at(p.col_data_view(), rows, r, c) == row_major_at(u.data_view(), cols, r, c));
    }
    assert(u.data_view() =~= q.data_view());
}

} // verus!
