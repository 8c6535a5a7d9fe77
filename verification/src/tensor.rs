//! Dense row-major tensors. The element type is a parameter: the shape
//! checks and the indexing do not depend on it.

use vstd::prelude::*;
use vstd::string::*;
use crate::error::MiniInferError;

verus! {

/// The number of elements a shape holds.
pub open spec fn shape_product(shape: Seq<usize>) -> nat
    decreases shape.len(),
{
    if shape.len() == 0 {
        1
    } else {
        shape_product(shape.drop_last()) * (shape.last() as nat)
    }
}

/// A shape a tensor may have: at least one dimension, none of them zero.
pub open spec fn valid_shape(shape: Seq<usize>) -> bool {
    shape.len() > 0 && !shape.contains(0usize)
}

pub proof fn lemma_shape_product_1(a: usize)
    ensures
        shape_product(seq![a]) == a,
{
    assert(seq![a].drop_last() =~= Seq::<usize>::empty());
    assert(shape_product(Seq::<usize>::empty()) == 1);
    assert(seq![a].last() == a);
    assert(shape_product(seq![a]) == shape_product(seq![a].drop_last()) * (a as nat));
}

pub proof fn lemma_shape_product_2(a: usize, b: usize)
    ensures
        shape_product(seq![a, b]) == a * b,
{
    assert(seq![a, b].drop_last() =~= seq![a]);
    assert(seq![a].drop_last() =~= Seq::<usize>::empty());
    assert(shape_product(Seq::<usize>::empty()) == 1);
    assert(seq![a].last() == a);
    assert(seq![a, b].last() == b);
    assert(shape_product(seq![a]) == shape_product(seq![a].drop_last()) * (a as nat));
    assert(shape_product(seq![a]) == a);
    assert(shape_product(seq![a, b]) == shape_product(seq![a]) * (b as nat));
}

proof fn lemma_shape_product_prefix_le(shape: Seq<usize>, k: int)
    requires
        0 <= k <= shape.len(),
        !shape.contains(0usize),
    ensures
        shape_product(shape.take(k)) <= shape_product(shape),
        shape_product(shape.take(k)) >= 1,
    decreases shape.len() - k,
{
    assert(!shape.take(k).contains(0usize)) by {
        if shape.take(k).contains(0usize) {
            let j = choose|j: int| 0 <= j < shape.take(k).len() && shape.take(k)[j] == 0;
            assert(shape[j] == 0);
        }
    }
    lemma_shape_product_pos(shape.take(k));
    if k < shape.len() {
        lemma_shape_product_prefix_le(shape, k + 1);
        assert(shape.take(k + 1).drop_last() =~= shape.take(k));
        assert(shape.take(k + 1).last() == shape[k]);
        assert(shape[k] >= 1) by {
            if shape[k] == 0 {
                assert(shape.contains(0usize));
            }
        }
        let p = shape_product(shape.take(k));
        assert(p * shape[k] >= p) by (nonlinear_arith)
            requires
                shape[k] >= 1,
                p >= 1,
        ;
    } else {
        assert(shape.take(k) =~= shape);
        lemma_shape_product_pos(shape);
    }
}

pub(crate) proof fn lemma_shape_product_pos(shape: Seq<usize>)
    requires
        !shape.contains(0usize),
    ensures
        shape_product(shape) >= 1,
    decreases shape.len(),
{
    if shape.len() > 0 {
        assert(!shape.drop_last().contains(0usize)) by {
            if shape.drop_last().contains(0usize) {
                let j = choose|j: int| 0 <= j < shape.drop_last().len() && shape.drop_last()[j] == 0;
                assert(shape[j] == 0);
            }
        }
        lemma_shape_product_pos(shape.drop_last());
        let p = shape_product(shape.drop_last());
        assert(shape.last() >= 1) by {
            if shape.last() == 0 {
                assert(shape[shape.len() - 1] == 0);
            }
        }
        assert(p * shape.last() >= 1) by (nonlinear_arith)
            requires
                shape.last() >= 1,
                p >= 1,
        ;
    }
}

/// The product of a concatenation is the product of the products.
pub(crate) proof fn lemma_shape_product_concat(a: Seq<usize>, b: Seq<usize>)
    ensures
        shape_product(a + b) == shape_product(a) * shape_product(b),
    decreases b.len(),
{
    if b.len() == 0 {
        assert(a + b =~= a);
        assert(shape_product(b) == 1);
    } else {
        let ab = a + b;
        assert(ab.drop_last() =~= a + b.drop_last());
        assert(ab.last() == b.last());
        assert(ab.len() > 0);
        assert(shape_product(ab) == shape_product(ab.drop_last()) * (ab.last() as nat));
        assert(shape_product(b) == shape_product(b.drop_last()) * (b.last() as nat));
        lemma_shape_product_concat(a, b.drop_last());
        let pa = shape_product(a);
        let pb = shape_product(b.drop_last());
        let l = b.last() as nat;
        assert(pa * pb * l == pa * (pb * l)) by (nonlinear_arith);
    }
}

/// `r * cols + c` lies inside a `rows` by `cols` matrix.
pub proof fn lemma_row_major_index(r: int, c: int, rows: int, cols: int)
    requires
        0 <= r < rows,
        0 <= c < cols,
    ensures
        0 <= r * cols + c < rows * cols,
        r * cols + c + 1 <= (r + 1) * cols,
        (r + 1) * cols <= rows * cols,
{
    assert(0 <= r * cols) by (nonlinear_arith)
        requires
            0 <= r,
            0 <= c < cols,
    ;
    assert((r + 1) * cols <= rows * cols) by (nonlinear_arith)
        requires
            r + 1 <= rows,
            0 <= c < cols,
    ;
    assert((r + 1) * cols == r * cols + cols) by (nonlinear_arith);
}

/// A dense tensor: a shape and its elements in row-major order.
#[derive(Debug)]
pub struct Tensor<T> {
    shape: Vec<usize>,
    data: Vec<T>,
}

impl<T> Tensor<T> {
    #[verifier::type_invariant]
    closed spec fn inv(self) -> bool {
        &&& valid_shape(self.shape@)
        &&& self.data@.len() == shape_product(self.shape@)
    }

    pub closed spec fn shape_view(&self) -> Seq<usize> {
        self.shape@
    }

    pub closed spec fn data_view(&self) -> Seq<T> {
        self.data@
    }

    /// Element (`r`, `c`) of a matrix.
    pub open spec fn at(&self, r: int, c: int) -> T {
        self.data_view()[r * self.shape_view()[1] + c]
    }

    /// Row `r` of a matrix.
    pub open spec fn row(&self, r: int) -> Seq<T> {
        self.data_view().subrange(r * self.shape_view()[1], (r + 1) * self.shape_view()[1])
    }

    pub fn new(shape: Vec<usize>, data: Vec<T>) -> (r: Result<Self, MiniInferError>)
        requires
            valid_shape(shape@) ==> shape_product(shape@) <= usize::MAX,
        ensures
            shape@.len() == 0 ==> r == Err::<Self, MiniInferError>(MiniInferError::EmptyShape),
            shape@.len() > 0 && shape@.contains(0usize) ==> r == Err::<Self, MiniInferError>(
                MiniInferError::ZeroDimension,
            ),
            valid_shape(shape@) && shape_product(shape@) != data@.len() ==> r == Err::<
                Self,
                MiniInferError,
            >(
                MiniInferError::ShapeDataLengthMismatch {
                    expected: shape_product(shape@) as usize,
                    actual: data@.len() as usize,
                },
            ),
            valid_shape(shape@) && shape_product(shape@) == data@.len() ==> (r matches Ok(t)
                && t.shape_view() == shape@ && t.data_view() == data@),
    {
        if shape.len() == 0 {
            return Err(MiniInferError::EmptyShape);
        }
        let mut i: usize = 0;
        while i < shape.len()
            invariant
                i <= shape@.len(),
                forall|j: int| 0 <= j < i ==> shape@[j] != 0,
            decreases shape.len() - i,
        {
            if shape[i] == 0 {
                assert(shape@.contains(0usize));
                return Err(MiniInferError::ZeroDimension);
            }
            i = i + 1;
        }
        assert(!shape@.contains(0usize));
        let mut expected: usize = 1;
        let mut i: usize = 0;
        while i < shape.len()
            invariant
                i <= shape@.len(),
                !shape@.contains(0usize),
                shape_product(shape@) <= usize::MAX,
                expected == shape_product(shape@.take(i as int)),
            decreases shape.len() - i,
        {
            proof {
                lemma_shape_product_prefix_le(shape@, i + 1);
                assert(shape@.take(i + 1).drop_last() =~= shape@.take(i as int));
            }
            expected = expected * shape[i];
            i = i + 1;
        }
        assert(shape@.take(shape@.len() as int) =~= shape@);
        let actual = data.len();
        if expected != actual {
            return Err(MiniInferError::ShapeDataLengthMismatch { expected, actual });
        }
        Ok(Self { shape, data })
    }

    pub fn shape(&self) -> (s: &[usize])
        ensures
            s@ == self.shape_view(),
            valid_shape(self.shape_view()),
            self.data_view().len() == shape_product(self.shape_view()),
    {
        proof {
            use_type_invariant(self);
        }
        self.shape.as_slice()
    }

    pub fn data(&self) -> (d: &[T])
        ensures
            d@ == self.data_view(),
            valid_shape(self.shape_view()),
            d@.len() == shape_product(self.shape_view()),
    {
        proof {
            use_type_invariant(self);
        }
        self.data.as_slice()
    }

    pub fn numel(&self) -> (n: usize)
        ensures
            n == self.data_view().len(),
    {
        self.data.len()
    }
}

impl<T: Copy> Tensor<T> {
    pub fn get_1d(&self, index: usize) -> (r: Result<T, MiniInferError>)
        ensures
            self.shape_view().len() != 1 ==> r == Err::<T, MiniInferError>(
                MiniInferError::WrongRank { expected: 1, actual: self.shape_view().len() as usize },
            ),
            self.shape_view().len() == 1 && index >= self.data_view().len() ==> r == Err::<
                T,
                MiniInferError,
            >(MiniInferError::IndexOutOfBounds { index, len: self.data_view().len() as usize }),
            self.shape_view().len() == 1 && index < self.data_view().len() ==> r == Ok::<
                T,
                MiniInferError,
            >(self.data_view()[index as int]),
    {
        let rank = self.shape.len();
        if rank != 1 {
            return Err(MiniInferError::WrongRank { expected: 1, actual: rank });
        }
        let len = self.data.len();
        if index >= len {
            return Err(MiniInferError::IndexOutOfBounds { index, len });
        }
        Ok(self.data[index])
    }

    pub fn get_2d(&self, row: usize, col: usize) -> (r: Result<T, MiniInferError>)
        ensures
            self.shape_view().len() != 2 ==> r == Err::<T, MiniInferError>(
                MiniInferError::WrongRank { expected: 2, actual: self.shape_view().len() as usize },
            ),
            self.shape_view().len() == 2 && row >= self.shape_view()[0] ==> r == Err::<
                T,
                MiniInferError,
            >(MiniInferError::IndexOutOfBounds { index: row, len: self.shape_view()[0] }),
            self.shape_view().len() == 2 && row < self.shape_view()[0] && col
                >= self.shape_view()[1] ==> r == Err::<T, MiniInferError>(
                MiniInferError::IndexOutOfBounds { index: col, len: self.shape_view()[1] },
            ),
            self.shape_view().len() == 2 && row < self.shape_view()[0] && col
                < self.shape_view()[1] ==> r == Ok::<T, MiniInferError>(
                self.at(row as int, col as int),
            ),
    {
        proof {
            use_type_invariant(self);
        }
        let rank = self.shape.len();
        if rank != 2 {
            return Err(MiniInferError::WrongRank { expected: 2, actual: rank });
        }
        let rows = self.shape[0];
        let cols = self.shape[1];
        if row >= rows {
            return Err(MiniInferError::IndexOutOfBounds { index: row, len: rows });
        }
        if col >= cols {
            return Err(MiniInferError::IndexOutOfBounds { index: col, len: cols });
        }
        let total = self.data.len();
        proof {
            assert(self.shape@ =~= seq![rows, cols]);
            lemma_shape_product_2(rows, cols);
            assert(total as int == rows * cols);
            lemma_row_major_index(row as int, col as int, rows as int, cols as int);
        }
        let index = row * cols + col;
        Ok(self.data[index])
    }

    /// A tensor with the same shape and elements.
    pub fn duplicate(&self) -> (t: Self)
        ensures
            t.shape_view() == self.shape_view(),
            t.data_view() == self.data_view(),
    {
        proof {
            use_type_invariant(self);
        }
        let shape = copy_vec(&self.shape);
        let data = copy_vec(&self.data);
        Self { shape, data }
    }
}

/// An element-by-element copy of a vector.
pub fn copy_vec<T: Copy>(v: &Vec<T>) -> (out: Vec<T>)
    ensures
        out@ == v@,
{
    let mut out: Vec<T> = Vec::new();
    let mut i: usize = 0;
    while i < v.len()
        invariant
            i <= v@.len(),
            out@ == v@.take(i as int),
        decreases v.len() - i,
    {
        out.push(v[i]);
        i = i + 1;
        assert(out@ =~= v@.take(i as int));
    }
    assert(v@.take(v@.len() as int) =~= v@);
    out
}

/// An element-by-element copy of a slice.
pub fn copy_slice<T: Copy>(v: &[T]) -> (out: Vec<T>)
    ensures
        out@ == v@,
{
    let mut out: Vec<T> = Vec::new();
    let mut i: usize = 0;
    while i < v.len()
        invariant
            i <= v@.len(),
            out@ == v@.take(i as int),
        decreases v.len() - i,
    {
        out.push(v[i]);
        i = i + 1;
        assert(out@ =~= v@.take(i as int));
    }
    assert(v@.take(v@.len() as int) =~= v@);
    out
}

} // verus!
