//! Per-layer key/value caches for incremental decoding: each head keeps its
//! key rows and value rows, one `[1, head_dim]` row per cached position.

use vstd::prelude::*;
use vstd::string::*;
use crate::error::MiniInferError;
use crate::tensor::{Tensor, copy_vec, shape_product, lemma_shape_product_2};
use crate::ops::shapes_equal;

verus! {

/// The cache of one transformer layer.
pub struct LayerKvCache<T> {
    keys: Vec<Vec<T>>,
    values: Vec<Vec<T>>,
    num_heads: usize,
    head_dim: usize,
    max_seq_len: usize,
    seq_len: usize,
}

/// The caches of all layers.
pub struct KvCache<T> {
    layers: Vec<LayerKvCache<T>>,
}

pub open spec fn is_head_row<T>(t: Tensor<T>, head_dim: usize) -> bool {
    t.shape_view() == seq![1usize, head_dim]
}

/// Head `h` is the first whose key or value row has the wrong shape.
pub open spec fn is_first_bad_head<T>(keys: Seq<Tensor<T>>, values: Seq<Tensor<T>>, head_dim: usize, h: int) -> bool {
    &&& 0 <= h < keys.len()
    &&& !(is_head_row(keys[h], head_dim) && is_head_row(values[h], head_dim))
    &&& forall|j: int|
        0 <= j < h ==> is_head_row(#[trigger] keys[j], head_dim) && is_head_row(values[j], head_dim)
}

/// `after` is `before` with one more position: each head's rows are the
/// old rows followed by the data of that head's `[1, head_dim]` row.
pub open spec fn appended<T>(
    before: LayerKvCache<T>,
    after: LayerKvCache<T>,
    keys: Seq<Tensor<T>>,
    values: Seq<Tensor<T>>,
) -> bool {
    &&& after.spec_seq_len() == before.spec_seq_len() + 1
    &&& after.spec_num_heads() == before.spec_num_heads()
    &&& after.spec_head_dim() == before.spec_head_dim()
    &&& after.spec_max_seq_len() == before.spec_max_seq_len()
    &&& keys.len() == before.spec_num_heads()
    &&& values.len() == before.spec_num_heads()
    &&& forall|j: int|
        0 <= j < before.spec_num_heads() ==> {
            &&& is_head_row(#[trigger] keys[j], before.spec_head_dim())
            &&& is_head_row(values[j], before.spec_head_dim())
            &&& keys[j].data_view().len() == before.spec_head_dim()
            &&& values[j].data_view().len() == before.spec_head_dim()
        }
    &&& forall|j: int|
        0 <= j < before.spec_num_heads() ==> #[trigger] after.key_rows()[j] == before.key_rows()[j]
            + keys[j].data_view()
    &&& forall|j: int|
        0 <= j < before.spec_num_heads() ==> #[trigger] after.value_rows()[j]
            == before.value_rows()[j] + values[j].data_view()
}

impl<T> LayerKvCache<T> {
    pub closed spec fn key_rows(&self) -> Seq<Seq<T>> {
        self.keys@.map_values(|v: Vec<T>| v@)
    }

    pub closed spec fn value_rows(&self) -> Seq<Seq<T>> {
        self.values@.map_values(|v: Vec<T>| v@)
    }

    pub closed spec fn spec_num_heads(&self) -> usize {
        self.num_heads
    }

    pub closed spec fn spec_head_dim(&self) -> usize {
        self.head_dim
    }

    pub closed spec fn spec_max_seq_len(&self) -> usize {
        self.max_seq_len
    }

    pub closed spec fn spec_seq_len(&self) -> usize {
        self.seq_len
    }

    /// The dimensions are consistent: one key and one value buffer per head
    /// and a capacity that fits in memory.
    pub open spec fn wf(&self) -> bool {
        &&& self.key_rows().len() == self.spec_num_heads()
        &&& self.value_rows().len() == self.spec_num_heads()
        &&& self.spec_num_heads() > 0
        &&& self.spec_head_dim() > 0
        &&& self.spec_seq_len() <= self.spec_max_seq_len()
        &&& self.spec_max_seq_len() * self.spec_head_dim() <= usize::MAX
    }

    /// Every head holds exactly `seq_len` key rows and `seq_len` value rows.
    pub open spec fn rows_consistent(&self) -> bool {
        &&& forall|h: int|
            0 <= h < self.spec_num_heads() ==> #[trigger] self.key_rows()[h].len()
                == self.spec_seq_len() * self.spec_head_dim()
        &&& forall|h: int|
            0 <= h < self.spec_num_heads() ==> #[trigger] self.value_rows()[h].len()
                == self.spec_seq_len() * self.spec_head_dim()
    }

    pub fn new(num_heads: usize, head_dim: usize, max_seq_len: usize) -> (r: Result<
        Self,
        MiniInferError,
    >)
        requires
            max_seq_len * head_dim <= usize::MAX,
        ensures
            num_heads == 0 || head_dim == 0 || max_seq_len == 0 ==> (r matches Err(
                MiniInferError::InvalidConfig { message },
            ) && message@ == "Invalid config"@),
            num_heads > 0 && head_dim > 0 && max_seq_len > 0 ==> (r matches Ok(c) && c.wf()
                && c.rows_consistent() && c.spec_num_heads() == num_heads && c.spec_head_dim()
                == head_dim && c.spec_max_seq_len() == max_seq_len && c.spec_seq_len() == 0
                && forall|h: int| 0 <= h < num_heads ==> #[trigger] c.key_rows()[h].len() == 0
                && c.value_rows()[h].len() == 0),
    {
        if num_heads == 0 || head_dim == 0 || max_seq_len == 0 {
            return Err(MiniInferError::InvalidConfig { message: String::from_str("Invalid config") });
        }
        let mut keys: Vec<Vec<T>> = Vec::with_capacity(num_heads);
        let mut values: Vec<Vec<T>> = Vec::with_capacity(num_heads);
        let mut h: usize = 0;
        while h < num_heads
            invariant
                max_seq_len * head_dim <= usize::MAX,
                h <= num_heads,
                keys@.len() == h,
                values@.len() == h,
                forall|j: int| 0 <= j < h ==> (#[trigger] keys@[j])@.len() == 0,
                forall|j: int| 0 <= j < h ==> (#[trigger] values@[j])@.len() == 0,
            decreases num_heads - h,
        {
            keys.push(Vec::with_capacity(max_seq_len * head_dim));
            values.push(Vec::with_capacity(max_seq_len * head_dim));
            h = h + 1;
        }
        let c = Self { keys, values, num_heads, head_dim, max_seq_len, seq_len: 0 };
        assert forall|j: int| 0 <= j < num_heads implies #[trigger] c.key_rows()[j].len() == 0
            && c.value_rows()[j].len() == 0 by {
            assert(c.key_rows()[j] == c.keys@[j]@);
            assert(c.value_rows()[j] == c.values@[j]@);
        }
        Ok(c)
    }

    pub fn seq_len(&self) -> (n: usize)
        ensures
            n == self.spec_seq_len(),
    {
        self.seq_len
    }

    pub fn num_heads(&self) -> (n: usize)
        ensures
            n == self.spec_num_heads(),
    {
        self.num_heads
    }

    pub fn head_dim(&self) -> (n: usize)
        ensures
            n == self.spec_head_dim(),
    {
        self.head_dim
    }

    pub fn max_seq_len(&self) -> (n: usize)
        ensures
            n == self.spec_max_seq_len(),
    {
        self.max_seq_len
    }

    /// The per-head key buffers.
    pub fn keys(&self) -> (k: &Vec<Vec<T>>)
        ensures
            k@.map_values(|v: Vec<T>| v@) == self.key_rows(),
    {
        &self.keys
    }

    /// The per-head value buffers.
    pub fn values(&self) -> (v: &Vec<Vec<T>>)
        ensures
            v@.map_values(|v: Vec<T>| v@) == self.value_rows(),
    {
        &self.values
    }

    /// Empties every head.
    pub fn reset(&mut self)
        requires
            old(self).wf(),
        ensures
            final(self).wf(),
            final(self).rows_consistent(),
            final(self).spec_seq_len() == 0,
            final(self).spec_num_heads() == old(self).spec_num_heads(),
            final(self).spec_head_dim() == old(self).spec_head_dim(),
            final(self).spec_max_seq_len() == old(self).spec_max_seq_len(),
            forall|h: int|
                0 <= h < final(self).spec_num_heads() ==> #[trigger] final(self).key_rows()[h].len()
                    == 0 && final(self).value_rows()[h].len() == 0,
    {
        let mut head: usize = 0;
        while head < self.num_heads
            invariant
                self.wf(),
                self.num_heads == old(self).num_heads,
                self.head_dim == old(self).head_dim,
                self.max_seq_len == old(self).max_seq_len,
                self.seq_len == old(self).seq_len,
                head <= self.num_heads,
                forall|j: int|
                    0 <= j < head ==> #[trigger] self.key_rows()[j].len() == 0
                        && self.value_rows()[j].len() == 0,
            decreases self.num_heads - head,
        {
            let ghost before = *self;
            self.keys[head].clear();
            self.values[head].clear();
            proof {
                assert forall|j: int| 0 <= j < head + 1 implies #[trigger] self.key_rows()[j].len()
                    == 0 && self.value_rows()[j].len() == 0 by {
                    if j < head {
                        assert(before.key_rows()[j].len() == 0);
                        assert(before.value_rows()[j].len() == 0);
                    }
                }
            }
            head = head + 1;
        }
        self.seq_len = 0;
        assert forall|h: int| 0 <= h < self.num_heads implies #[trigger] self.key_rows()[h].len()
            == self.seq_len * self.head_dim by {
            assert(self.key_rows()[h].len() == 0);
        }
        assert forall|h: int| 0 <= h < self.num_heads implies #[trigger] self.value_rows()[h].len()
            == self.seq_len * self.head_dim by {
            assert(self.key_rows()[h].len() == 0);
        }
    }
}

/// Checks that `tensor` is one `[1, head_dim]` row.
fn validate_head_row<T>(tensor: &Tensor<T>, head_dim: usize) -> (r: Result<(), MiniInferError>)
    ensures
        is_head_row(*tensor, head_dim) ==> r is Ok,
        !is_head_row(*tensor, head_dim) ==> (r matches Err(
            MiniInferError::InvalidTensorShape { expected, actual },
        ) && expected@ == seq![1usize, head_dim] && actual@ == tensor.shape_view()),
{
    let mut expected: Vec<usize> = Vec::new();
    expected.push(1);
    expected.push(head_dim);
    assert(expected@ =~= seq![1usize, head_dim]);
    if !shapes_equal(tensor.shape(), expected.as_slice()) {
        let actual = copy_slice_usize(tensor.shape());
        return Err(MiniInferError::InvalidTensorShape { expected, actual });
    }
    Ok(())
}

/// Checks every head's key and value row, in head order, key before value.
fn check_head_rows<T>(new_keys: &[Tensor<T>], new_values: &[Tensor<T>], head_dim: usize) -> (r: Result<
    (),
    MiniInferError,
>)
    requires
        new_keys@.len() == new_values@.len(),
    ensures
        if exists|h: int| is_first_bad_head(new_keys@, new_values@, head_dim, h) {
            let h = choose|h: int| is_first_bad_head(new_keys@, new_values@, head_dim, h);
            r matches Err(MiniInferError::InvalidTensorShape { expected, actual }) && expected@
                == seq![1usize, head_dim] && actual@ == (if !is_head_row(new_keys@[h], head_dim) {
                new_keys@[h].shape_view()
            } else {
                new_values@[h].shape_view()
            })
        } else {
            &&& r is Ok
            &&& forall|j: int|
                0 <= j < new_keys@.len() ==> is_head_row(#[trigger] new_keys@[j], head_dim)
                    && is_head_row(new_values@[j], head_dim)
        },
{
    let mut checked: usize = 0;
    while checked < new_keys.len()
        invariant
            new_keys@.len() == new_values@.len(),
            checked <= new_keys@.len(),
            forall|j: int| 0 <= j < checked ==> is_head_row(#[trigger] new_keys@[j], head_dim),
            forall|j: int| 0 <= j < checked ==> is_head_row(#[trigger] new_values@[j], head_dim),
        decreases new_keys.len() - checked,
    {
        let key_check = validate_head_row(&new_keys[checked], head_dim);
        if let Err(e) = key_check {
            proof {
                lemma_first_bad_head(new_keys@, new_values@, head_dim, checked as int);
            }
            return Err(e);
        }
        let value_check = validate_head_row(&new_values[checked], head_dim);
        if let Err(e) = value_check {
            proof {
                lemma_first_bad_head(new_keys@, new_values@, head_dim, checked as int);
            }
            return Err(e);
        }
        assert(is_head_row(new_keys@[checked as int], head_dim));
        assert(is_head_row(new_values@[checked as int], head_dim));
        checked = checked + 1;
    }
    proof {
        assert forall|h: int| !is_first_bad_head(new_keys@, new_values@, head_dim, h) by {
            if 0 <= h < new_keys@.len() {
                assert(is_head_row(new_keys@[h], head_dim) && is_head_row(new_values@[h], head_dim));
            }
        }
    }
    Ok(())
}

fn copy_slice_usize(s: &[usize]) -> (v: Vec<usize>)
    ensures
        v@ == s@,
{
    crate::tensor::copy_slice(s)

}

impl<T: Copy> LayerKvCache<T> {
    /// Appends one key row and one value row to every head. Every row is
    /// checked before any head is extended, so a rejected append leaves the
    /// cache as it was.
    #[verifier::spinoff_prover]
    pub fn append(&mut self, new_keys: &[Tensor<T>], new_values: &[Tensor<T>]) -> (r: Result<
        (),
        MiniInferError,
    >)
        requires
            old(self).wf(),
        ensures
            final(self).wf(),
            r is Err ==> *final(self) == *old(self),
            old(self).rows_consistent() ==> final(self).rows_consistent(),
            new_keys@.len() != old(self).spec_num_heads() ==> r == Err::<(), MiniInferError>(
                MiniInferError::LengthMismatch {
                    expected: old(self).spec_num_heads(),
                    actual: new_keys@.len() as usize,
                },
            ),
            new_keys@.len() == old(self).spec_num_heads() && new_values@.len()
                != old(self).spec_num_heads() ==> r == Err::<(), MiniInferError>(
                MiniInferError::LengthMismatch {
                    expected: old(self).spec_num_heads(),
                    actual: new_values@.len() as usize,
                },
            ),
            new_keys@.len() == old(self).spec_num_heads() && new_values@.len()
                == old(self).spec_num_heads() && old(self).spec_seq_len()
                >= old(self).spec_max_seq_len() ==> (r matches Err(
                MiniInferError::InvalidConfig { message },
            ) && message@ == "Exceeding max sequence length"@),
            new_keys@.len() == old(self).spec_num_heads() && new_values@.len()
                == old(self).spec_num_heads() && old(self).spec_seq_len()
                < old(self).spec_max_seq_len() ==> if exists|h: int|
                is_first_bad_head(new_keys@, new_values@, old(self).spec_head_dim(), h) {
                let h = choose|h: int|
                    is_first_bad_head(new_keys@, new_values@, old(self).spec_head_dim(), h);
                r matches Err(MiniInferError::InvalidTensorShape { expected, actual }) && expected@
                    == seq![1usize, old(self).spec_head_dim()] && actual@ == (if !is_head_row(
                    new_keys@[h],
                    old(self).spec_head_dim(),
                ) {
                    new_keys@[h].shape_view()
                } else {
                    new_values@[h].shape_view()
                })
            } else {
                &&& r is Ok
                &&& appended(*old(self), *final(self), new_keys@, new_values@)
            },
    {
        if new_keys.len() != self.num_heads {
            return Err(
                MiniInferError::LengthMismatch { expected: self.num_heads, actual: new_keys.len() },
            );
        }
        if new_values.len() != self.num_heads {
            return Err(
                MiniInferError::LengthMismatch { expected: self.num_heads, actual: new_values.len() },
            );
        }
        if self.seq_len >= self.max_seq_len {
            return Err(
                MiniInferError::InvalidConfig {
                    message: String::from_str("Exceeding max sequence length"),
                },
            );
        }
        let ghost hd = self.head_dim;
        match check_head_rows(new_keys, new_values, self.head_dim) {
            Ok(()) => {},
            Err(e) => {
                return Err(e);
            },
        }
        let ghost old_keys = self.key_rows();
        let ghost old_values = self.value_rows();
        let mut head: usize = 0;
        while head < self.num_heads
            invariant
                self.wf(),
                self.seq_len == old(self).seq_len,
                old(self).seq_len < old(self).max_seq_len,
                self.num_heads == old(self).num_heads,
                self.head_dim == hd == old(self).head_dim,
                self.max_seq_len == old(self).max_seq_len,
                new_keys@.len() == self.num_heads,
                new_values@.len() == self.num_heads,
                old_keys == old(self).key_rows(),
                old_values == old(self).value_rows(),
                head <= self.num_heads,
                forall|j: int|
                    0 <= j < self.num_heads ==> is_head_row(#[trigger] new_keys@[j], hd) && is_head_row(
                        new_values@[j],
                        hd,
                    ),
                forall|j: int|
                    0 <= j < head ==> #[trigger] new_keys@[j].data_view().len() == hd
                        && new_values@[j].data_view().len() == hd,
                forall|j: int|
                    0 <= j < self.num_heads ==> #[trigger] self.key_rows()[j] == if j < head {
                        old_keys[j] + new_keys@[j].data_view()
                    } else {
                        old_keys[j]
                    },
                forall|j: int|
                    0 <= j < self.num_heads ==> #[trigger] self.value_rows()[j] == if j < head {
                        old_values[j] + new_values@[j].data_view()
                    } else {
                        old_values[j]
                    },
            decreases self.num_heads - head,
        {
            assert(is_head_row(new_keys@[head as int], hd));
            let key_data = new_keys[head].data();
            let value_data = new_values[head].data();
            proof {
                lemma_shape_product_2(1, hd);
                assert(new_keys@[head as int].data_view().len() == hd);
                assert(new_values@[head as int].data_view().len() == hd);
            }
            let ghost before = *self;
            proof {
                assert(before.key_rows()[head as int] == old_keys[head as int]);
                assert(before.value_rows()[head as int] == old_values[head as int]);
            }
            extend_from(&mut self.keys[head], key_data);
            extend_from(&mut self.values[head], value_data);
            proof {
                assert forall|j: int| 0 <= j < self.num_heads implies #[trigger] self.key_rows()[j]
                    == if j < head + 1 {
                    old_keys[j] + new_keys@[j].data_view()
                } else {
                    old_keys[j]
                } by {
                    assert(self.key_rows()[j] == self.keys@[j]@);
                    assert(before.key_rows()[j] == before.keys@[j]@);
                    if j != head {
                        assert(self.keys@[j] == before.keys@[j]);
                    }
                }
                assert forall|j: int| 0 <= j < self.num_heads implies #[trigger] self.value_rows()[j]
                    == if j < head + 1 {
                    old_values[j] + new_values@[j].data_view()
                } else {
                    old_values[j]
                } by {
                    assert(self.value_rows()[j] == self.values@[j]@);
                    assert(before.value_rows()[j] == before.values@[j]@);
                    if j != head {
                        assert(self.values@[j] == before.values@[j]);
                    }
                }
            }
            head = head + 1;
        }
        self.seq_len = self.seq_len + 1;
        proof {
            if old(self).rows_consistent() {
                assert forall|h: int| 0 <= h < self.spec_num_heads() implies #[trigger] self.key_rows()[h].len()
                    == self.spec_seq_len() * self.spec_head_dim() by {
                    assert(old(self).key_rows()[h].len() == old(self).spec_seq_len() * hd);
                    lemma_one_more_row(old(self).spec_seq_len() as int, hd as int);
                }
                assert forall|h: int| 0 <= h < self.spec_num_heads() implies #[trigger] self.value_rows()[h].len()
                    == self.spec_seq_len() * self.spec_head_dim() by {
                    assert(old(self).value_rows()[h].len() == old(self).spec_seq_len() * hd);
                    assert(new_keys@[h].data_view().len() == hd);
                    assert(self.value_rows()[h] == old(self).value_rows()[h] + new_values@[h].data_view());
                    lemma_one_more_row(old(self).spec_seq_len() as int, hd as int);
                }
            }
        }
        Ok(())
    }

    /// The cached key rows of one head as a `[seq_len, head_dim]` tensor.
    pub fn key_for_head(&self, head: usize) -> (r: Result<Tensor<T>, MiniInferError>)
        requires
            self.wf(),
        ensures
            head >= self.spec_num_heads() ==> r == Err::<Tensor<T>, MiniInferError>(
                MiniInferError::IndexOutOfBounds { index: head, len: self.spec_num_heads() },
            ),
            head < self.spec_num_heads() && self.spec_seq_len() == 0 ==> r == Err::<
                Tensor<T>,
                MiniInferError,
            >(MiniInferError::EmptyInput),
            head < self.spec_num_heads() && self.spec_seq_len() > 0 ==> rows_readback(
                r,
                self.key_rows()[head as int],
                self.spec_seq_len(),
                self.spec_head_dim(),
            ),
    {
        if head >= self.num_heads {
            return Err(MiniInferError::IndexOutOfBounds { index: head, len: self.num_heads });
        }
        if self.seq_len == 0 {
            return Err(MiniInferError::EmptyInput);
        }
        let data = copy_vec(&self.keys[head]);
        assert(data@ == self.key_rows()[head as int]);
        read_rows(self.seq_len, self.head_dim, data, self.max_seq_len)
    }

    /// The cached value rows of one head as a `[seq_len, head_dim]` tensor.
    pub fn value_for_head(&self, head: usize) -> (r: Result<Tensor<T>, MiniInferError>)
        requires
            self.wf(),
        ensures
            head >= self.spec_num_heads() ==> r == Err::<Tensor<T>, MiniInferError>(
                MiniInferError::IndexOutOfBounds { index: head, len: self.spec_num_heads() },
            ),
            head < self.spec_num_heads() && self.spec_seq_len() == 0 ==> r == Err::<
                Tensor<T>,
                MiniInferError,
            >(MiniInferError::EmptyInput),
            head < self.spec_num_heads() && self.spec_seq_len() > 0 ==> rows_readback(
                r,
                self.value_rows()[head as int],
                self.spec_seq_len(),
                self.spec_head_dim(),
            ),
    {
        if head >= self.num_heads {
            return Err(MiniInferError::IndexOutOfBounds { index: head, len: self.num_heads });
        }
        if self.seq_len == 0 {
            return Err(MiniInferError::EmptyInput);
        }
        let data = copy_vec(&self.values[head]);
        assert(data@ == self.value_rows()[head as int]);
        read_rows(self.seq_len, self.head_dim, data, self.max_seq_len)
    }

}

impl<T> KvCache<T> {
    pub closed spec fn layers_view(&self) -> Seq<LayerKvCache<T>> {
        self.layers@
    }

    /// Every layer is well formed and there is at least one.
    pub open spec fn wf(&self) -> bool {
        &&& self.layers_view().len() > 0
        &&& forall|i: int| 0 <= i < self.layers_view().len() ==> #[trigger] self.layers_view()[i].wf()
    }

    pub fn new(num_layers: usize, num_heads: usize, head_dim: usize, max_seq_len: usize) -> (r:
        Result<Self, MiniInferError>)
        requires
            max_seq_len * head_dim <= usize::MAX,
        ensures
            num_layers == 0 ==> (r matches Err(MiniInferError::InvalidConfig { message })
                && message@ == "Number of layers must be greater than 0"@),
            num_layers > 0 && (num_heads == 0 || head_dim == 0 || max_seq_len == 0) ==> (r matches Err(
                MiniInferError::InvalidConfig { message },
            ) && message@ == "Invalid config"@),
            num_layers > 0 && num_heads > 0 && head_dim > 0 && max_seq_len > 0 ==> (r matches Ok(c)
                && c.wf() && c.layers_view().len() == num_layers && forall|i: int|
                0 <= i < num_layers ==> {
                    let l = #[trigger] c.layers_view()[i];
                    &&& l.rows_consistent()
                    &&& l.spec_num_heads() == num_heads
                    &&& l.spec_head_dim() == head_dim
                    &&& l.spec_max_seq_len() == max_seq_len
                    &&& l.spec_seq_len() == 0
                }),
    {
        if num_layers == 0 {
            return Err(
                MiniInferError::InvalidConfig {
                    message: String::from_str("Number of layers must be greater than 0"),
                },
            );
        }
        let mut layers: Vec<LayerKvCache<T>> = Vec::with_capacity(num_layers);
        let mut i: usize = 0;
        while i < num_layers
            invariant
                max_seq_len * head_dim <= usize::MAX,
                num_heads > 0 && head_dim > 0 && max_seq_len > 0 || i == 0,
                i <= num_layers,
                layers@.len() == i,
                forall|j: int|
                    0 <= j < i ==> {
                        let l = #[trigger] layers@[j];
                        &&& l.wf()
                        &&& l.rows_consistent()
                        &&& l.spec_num_heads() == num_heads
                        &&& l.spec_head_dim() == head_dim
                        &&& l.spec_max_seq_len() == max_seq_len
                        &&& l.spec_seq_len() == 0
                    },
            decreases num_layers - i,
        {
            let layer = match LayerKvCache::new(num_heads, head_dim, max_seq_len) {
                Ok(layer) => layer,
                Err(e) => {
                    return Err(e);
                },
            };
            layers.push(layer);
            i = i + 1;
        }
        Ok(Self { layers })
    }

    pub fn num_layers(&self) -> (n: usize)
        ensures
            n == self.layers_view().len(),
    {
        self.layers.len()
    }

    pub fn layer(&self, layer_index: usize) -> (r: Result<&LayerKvCache<T>, MiniInferError>)
        ensures
            layer_index < self.layers_view().len() ==> r == Ok::<&LayerKvCache<T>, MiniInferError>(
                &self.layers_view()[layer_index as int],
            ),
            layer_index >= self.layers_view().len() ==> r == Err::<&LayerKvCache<T>, MiniInferError>(
                MiniInferError::IndexOutOfBounds {
                    index: layer_index,
                    len: self.layers_view().len() as usize,
                },
            ),
    {
        if layer_index < self.layers.len() {
            Ok(&self.layers[layer_index])
        } else {
            Err(MiniInferError::IndexOutOfBounds { index: layer_index, len: self.layers.len() })
        }
    }

    pub fn layer_mut(&mut self, layer_index: usize) -> (r: Result<&mut LayerKvCache<T>, MiniInferError>)
        ensures
            layer_index < old(self).layers_view().len() ==> (r matches Ok(l) && *l
                == old(self).layers_view()[layer_index as int] && final(self).layers_view()
                == old(self).layers_view().update(layer_index as int, *final(l))),
            layer_index >= old(self).layers_view().len() ==> r == Err::<
                &mut LayerKvCache<T>,
                MiniInferError,
            >(
                MiniInferError::IndexOutOfBounds {
                    index: layer_index,
                    len: old(self).layers_view().len() as usize,
                },
            ) && *final(self) == *old(self),
    {
        let len = self.layers.len();
        if layer_index < len {
            Ok(&mut self.layers[layer_index])
        } else {
            Err(MiniInferError::IndexOutOfBounds { index: layer_index, len })
        }
    }

    /// The number of cached positions, which every layer must agree on.
    pub fn seq_len(&self) -> (r: Result<usize, MiniInferError>)
        requires
            self.wf(),
        ensures
            (forall|i: int|
                0 <= i < self.layers_view().len() ==> #[trigger] self.layers_view()[i].spec_seq_len()
                    == self.layers_view()[0].spec_seq_len()) ==> r == Ok::<usize, MiniInferError>(
                self.layers_view()[0].spec_seq_len(),
            ),
            !(forall|i: int|
                0 <= i < self.layers_view().len() ==> #[trigger] self.layers_view()[i].spec_seq_len()
                    == self.layers_view()[0].spec_seq_len()) ==> (r matches Err(
                MiniInferError::InvalidConfig { message },
            ) && message@ == "KV cache layers must have the same sequence length"@),
    {
        let first_layer = match self.layer(0) {
            Ok(l) => l,
            Err(e) => {
                return Err(e);
            },
        };
        let seq_len = first_layer.seq_len();
        let mut i: usize = 1;
        while i < self.layers.len()
            invariant
                1 <= i <= self.layers_view().len(),
                seq_len == self.layers_view()[0].spec_seq_len(),
                forall|j: int|
                    0 <= j < i ==> #[trigger] self.layers_view()[j].spec_seq_len() == seq_len,
            decreases self.layers.len() - i,
        {
            if self.layers[i].seq_len() != seq_len {
                return Err(
                    MiniInferError::InvalidConfig {
                        message: String::from_str(
                            "KV cache layers must have the same sequence length",
                        ),
                    },
                );
            }
            i = i + 1;
        }
        Ok(seq_len)
    }

    /// The position the next token takes: the number of cached positions.
    pub fn current_position(&self) -> (r: Result<usize, MiniInferError>)
        requires
            self.wf(),
        ensures
            (forall|i: int|
                0 <= i < self.layers_view().len() ==> #[trigger] self.layers_view()[i].spec_seq_len()
                    == self.layers_view()[0].spec_seq_len()) ==> r == Ok::<usize, MiniInferError>(
                self.layers_view()[0].spec_seq_len(),
            ),
            !(forall|i: int|
                0 <= i < self.layers_view().len() ==> #[trigger] self.layers_view()[i].spec_seq_len()
                    == self.layers_view()[0].spec_seq_len()) ==> (r matches Err(
                MiniInferError::InvalidConfig { message },
            ) && message@ == "KV cache layers must have the same sequence length"@),
    {
        self.seq_len()
    }

    /// Empties every layer; the dimensions stay as they were.
    pub fn reset(&mut self)
        requires
            old(self).wf(),
        ensures
            final(self).wf(),
            final(self).layers_view().len() == old(self).layers_view().len(),
            forall|i: int|
                0 <= i < final(self).layers_view().len() ==> is_reset_of(
                    #[trigger] final(self).layers_view()[i],
                    old(self).layers_view()[i],
                ),
    {
        let mut i: usize = 0;
        while i < self.layers.len()
            invariant
                self.wf(),
                self.layers_view().len() == old(self).layers_view().len(),
                i <= self.layers_view().len(),
                forall|j: int|
                    0 <= j < i ==> is_reset_of(
                        #[trigger] self.layers_view()[j],
                        old(self).layers_view()[j],
                    ),
                forall|j: int|
                    i <= j < self.layers_view().len() ==> #[trigger] self.layers_view()[j]
                        == old(self).layers_view()[j],
            decreases self.layers.len() - i,
        {
            let ghost before = self.layers@;
            self.layers[i].reset();
            proof {
                assert forall|j: int| 0 <= j < self.layers_view().len() implies #[trigger] self.layers_view()[j].wf() by {
                    if j != i {
                        assert(self.layers_view()[j] == before[j]);
                    }
                }
            }
            i = i + 1;
        }
    }
}

/// The bytes that the cached keys and values of one layer take: two
/// buffers, keys and values, of `positions` rows of `num_heads * head_dim`
/// elements.
pub open spec fn layer_payload_bytes<T>(l: LayerKvCache<T>, positions: nat, element_bytes: nat) -> nat {
    positions * (l.spec_num_heads() as nat) * (l.spec_head_dim() as nat) * 2 * element_bytes
}

/// The payload of the first `n` layers, for the cached positions or for the
/// full capacity.
pub open spec fn payload_bytes<T>(layers: Seq<LayerKvCache<T>>, n: int, full: bool, element_bytes: nat) -> nat
    decreases n,
{
    if n <= 0 {
        0
    } else {
        let l = layers[n - 1];
        let positions = if full {
            l.spec_max_seq_len() as nat
        } else {
            l.spec_seq_len() as nat
        };
        payload_bytes(layers, n - 1, full, element_bytes) + layer_payload_bytes(l, positions, element_bytes)
    }
}

/// The key/value payload of a cache: what the cached positions take and what
/// the full capacity takes.
#[derive(Debug, Clone, Copy, PartialEq, Eq, Structural)]
pub struct KvCacheMemoryReport {
    pub active_bytes: usize,
    pub allocated_bytes: usize,
    pub capacity_bytes: usize,
}

proof fn lemma_payload_monotone<T>(layers: Seq<LayerKvCache<T>>, n: int, element_bytes: nat)
    requires
        0 <= n <= layers.len(),
        forall|i: int| 0 <= i < layers.len() ==> #[trigger] layers[i].wf(),
    ensures
        payload_bytes(layers, n, false, element_bytes) <= payload_bytes(layers, n, true, element_bytes),
        forall|m: int| 0 <= m <= n ==> #[trigger] payload_bytes(layers, m, true, element_bytes) <= payload_bytes(layers, n, true, element_bytes),
    decreases n,
{
    if n > 0 {
        lemma_payload_monotone(layers, n - 1, element_bytes);
        let l = layers[n - 1];
        assert(l.wf());
        let a = l.spec_seq_len() as nat;
        let b = l.spec_max_seq_len() as nat;
        let h = l.spec_num_heads() as nat;
        let d = l.spec_head_dim() as nat;
        assert(a * h * d * 2 * element_bytes <= b * h * d * 2 * element_bytes) by (nonlinear_arith)
            requires
                a <= b,
        ;
    }
}

/// `x`, or `usize::MAX` when it is larger.
pub open spec fn capped(x: nat) -> nat {
    if x > usize::MAX {
        usize::MAX as nat
    } else {
        x
    }
}

/// The elements the first `k` heads of a layer hold, keys and values.
pub open spec fn heads_buffered<T>(l: LayerKvCache<T>, k: int) -> nat
    decreases k,
{
    if k <= 0 {
        0
    } else {
        heads_buffered(l, k - 1) + l.key_rows()[k - 1].len() + l.value_rows()[k - 1].len()
    }
}

/// The elements the first `n` layers hold.
pub open spec fn layers_buffered<T>(layers: Seq<LayerKvCache<T>>, n: int) -> nat
    decreases n,
{
    if n <= 0 {
        0
    } else {
        layers_buffered(layers, n - 1) + heads_buffered(layers[n - 1], layers[n - 1].spec_num_heads() as int)
    }
}

/// Every layer holds `seq_len` rows in each head.
pub open spec fn all_rows_consistent<T>(layers: Seq<LayerKvCache<T>>) -> bool {
    forall|i: int| 0 <= i < layers.len() ==> #[trigger] layers[i].rows_consistent()
}

/// The number of elements a vector can hold without reallocating
/// (`Vec::capacity`): at least the number it holds. What the allocator gave
/// beyond that is not said.
#[verifier::external_body]
fn vec_capacity<T>(v: &Vec<T>) -> (c: usize)
    ensures
        c >= v@.len(),
{
    v.capacity()
}

proof fn lemma_heads_buffered_consistent<T>(l: LayerKvCache<T>, k: int)
    requires
        l.wf(),
        l.rows_consistent(),
        0 <= k <= l.spec_num_heads(),
    ensures
        heads_buffered(l, k) == k * (2 * (l.spec_seq_len() * l.spec_head_dim())),
    decreases k,
{
    if k > 0 {
        lemma_heads_buffered_consistent(l, k - 1);
        assert(l.key_rows()[k - 1].len() == l.spec_seq_len() * l.spec_head_dim());
        assert(l.value_rows()[k - 1].len() == l.spec_seq_len() * l.spec_head_dim());
        let x = 2 * (l.spec_seq_len() * l.spec_head_dim());
        assert(heads_buffered(l, k) == heads_buffered(l, k - 1) + l.key_rows()[k - 1].len() + l.value_rows()[k - 1].len());
        assert((k - 1) * x + x == k * x) by (nonlinear_arith);
    } else {
        let x = 2 * (l.spec_seq_len() * l.spec_head_dim());
        assert(k * x == 0) by (nonlinear_arith)
            requires
                k == 0,
        ;
    }
}

proof fn lemma_layers_buffered_payload<T>(layers: Seq<LayerKvCache<T>>, n: int, eb: nat)
    requires
        0 <= n <= layers.len(),
        forall|i: int| 0 <= i < layers.len() ==> #[trigger] layers[i].wf(),
        all_rows_consistent(layers),
    ensures
        layers_buffered(layers, n) * eb == payload_bytes(layers, n, false, eb),
    decreases n,
{
    if n > 0 {
        lemma_layers_buffered_payload(layers, n - 1, eb);
        let l = layers[n - 1];
        assert(l.rows_consistent());
        assert(l.wf());
        lemma_heads_buffered_consistent(l, l.spec_num_heads() as int);
        let h = l.spec_num_heads() as int;
        let s = l.spec_seq_len() as int;
        let d = l.spec_head_dim() as int;
        let a = layers_buffered(layers, n - 1) as int;
        assert(layers_buffered(layers, n) == a + h * (2 * (s * d)));
        assert((a + h * (2 * (s * d))) * eb == a * eb + s * h * d * 2 * eb) by (nonlinear_arith);
        assert(payload_bytes(layers, n, false, eb) == payload_bytes(layers, n - 1, false, eb)
            + layer_payload_bytes(l, s as nat, eb));
    } else {
        assert(layers_buffered(layers, n) * eb == 0) by (nonlinear_arith)
            requires
                layers_buffered(layers, n) == 0,
        ;
    }
}

/// The sum of a sequence of counts.
pub open spec fn seq_sum(s: Seq<usize>) -> nat
    decreases s.len(),
{
    if s.len() == 0 {
        0
    } else {
        seq_sum(s.drop_last()) + (s.last() as nat)
    }
}

/// `c` is what a layer's buffers can hold, given capacities `key_caps` and
/// `value_caps` for its heads that are at least what each buffer holds.
pub open spec fn is_layer_allocation<T>(l: LayerKvCache<T>, key_caps: Seq<usize>, value_caps: Seq<usize>, c: usize) -> bool {
    &&& key_caps.len() == l.spec_num_heads()
    &&& value_caps.len() == l.spec_num_heads()
    &&& forall|h: int| 0 <= h < l.spec_num_heads() ==> #[trigger] key_caps[h] >= l.key_rows()[h].len()
    &&& forall|h: int| 0 <= h < l.spec_num_heads() ==> #[trigger] value_caps[h] >= l.value_rows()[h].len()
    &&& c == capped(seq_sum(key_caps) + seq_sum(value_caps))
}

/// `c` is what some capacities of the layer's buffers, each at least what
/// its buffer holds, add up to.
pub open spec fn layer_allocated<T>(l: LayerKvCache<T>, c: usize) -> bool {
    exists|kc: Seq<usize>, vc: Seq<usize>| is_layer_allocation(l, kc, vc, c)
}

proof fn lemma_capped_add(x: nat, a: nat)
    ensures
        capped(capped(x) + a) == capped(x + a),
{
}

proof fn lemma_capped_mul(x: nat, e: nat)
    ensures
        capped(capped(x) * e) == capped(x * e),
{
    if x > usize::MAX {
        if e > 0 {
            assert(capped(x) * e >= capped(x)) by (nonlinear_arith)
                requires
                    e > 0,
            ;
            assert(x * e >= x) by (nonlinear_arith)
                requires
                    e > 0,
            ;
        } else {
            assert(capped(x) * e == 0 && x * e == 0) by (nonlinear_arith)
                requires
                    e == 0,
            ;
        }
    }
}

/// The capacities of the first `k` heads cover what those heads hold.
proof fn lemma_caps_cover<T>(l: LayerKvCache<T>, kc: Seq<usize>, vc: Seq<usize>, k: int)
    requires
        0 <= k <= l.spec_num_heads(),
        kc.len() == l.spec_num_heads(),
        vc.len() == l.spec_num_heads(),
        forall|h: int| 0 <= h < l.spec_num_heads() ==> #[trigger] kc[h] >= l.key_rows()[h].len(),
        forall|h: int| 0 <= h < l.spec_num_heads() ==> #[trigger] vc[h] >= l.value_rows()[h].len(),
    ensures
        heads_buffered(l, k) <= seq_sum(kc.take(k)) + seq_sum(vc.take(k)),
    decreases k,
{
    if k > 0 {
        lemma_caps_cover(l, kc, vc, k - 1);
        assert(kc.take(k).drop_last() =~= kc.take(k - 1));
        assert(vc.take(k).drop_last() =~= vc.take(k - 1));
        assert(kc[k - 1] >= l.key_rows()[k - 1].len());
        assert(vc[k - 1] >= l.value_rows()[k - 1].len());
    }
}

/// The capacities of a layer's key and value buffers added up, capped at
/// `usize::MAX`.
pub fn capacity_total(key_caps: &[usize], value_caps: &[usize]) -> (c: usize)
    requires
        key_caps@.len() == value_caps@.len(),
    ensures
        c == capped(seq_sum(key_caps@) + seq_sum(value_caps@)),
{
    let mut total: usize = 0;
    let mut h: usize = 0;
    while h < key_caps.len()
        invariant
            h <= key_caps@.len() == value_caps@.len(),
            total == capped(seq_sum(key_caps@.take(h as int)) + seq_sum(value_caps@.take(h as int))),
        decreases key_caps.len() - h,
    {
        proof {
            assert(key_caps@.take(h + 1).drop_last() =~= key_caps@.take(h as int));
            assert(value_caps@.take(h + 1).drop_last() =~= value_caps@.take(h as int));
            let x = seq_sum(key_caps@.take(h as int)) + seq_sum(value_caps@.take(h as int));
            lemma_capped_add(x, key_caps@[h as int] as nat);
            lemma_capped_add(x + (key_caps@[h as int] as nat), value_caps@[h as int] as nat);
        }
        total = total.saturating_add(key_caps[h]).saturating_add(value_caps[h]);
        h = h + 1;
    }
    assert(key_caps@.take(h as int) =~= key_caps@);
    assert(value_caps@.take(h as int) =~= value_caps@);
    total
}

/// A sum of counts, capped at `usize::MAX`.
pub fn capped_sum(values: &[usize]) -> (c: usize)
    ensures
        c == capped(seq_sum(values@)),
{
    let mut total: usize = 0;
    let mut i: usize = 0;
    while i < values.len()
        invariant
            i <= values@.len(),
            total == capped(seq_sum(values@.take(i as int))),
        decreases values.len() - i,
    {
        proof {
            assert(values@.take(i + 1).drop_last() =~= values@.take(i as int));
            lemma_capped_add(seq_sum(values@.take(i as int)), values@[i as int] as nat);
        }
        total = total.saturating_add(values[i]);
        i = i + 1;
    }
    assert(values@.take(i as int) =~= values@);
    total
}

impl<T> LayerKvCache<T> {
    /// The elements the key and value buffers of this layer can hold
    /// without reallocating (their capacities added up, capped at
    /// `usize::MAX`); each capacity is at least what its buffer holds.
    pub fn allocated_elements(&self) -> (c: usize)
        requires
            self.wf(),
        ensures
            layer_allocated(*self, c),
            c >= capped(heads_buffered(*self, self.spec_num_heads() as int)),
    {
        let mut key_caps: Vec<usize> = Vec::new();
        let mut value_caps: Vec<usize> = Vec::new();
        let mut h: usize = 0;
        while h < self.num_heads
            invariant
                self.wf(),
                h <= self.num_heads,
                key_caps@.len() == h,
                value_caps@.len() == h,
                forall|j: int| 0 <= j < h ==> #[trigger] key_caps@[j] >= self.key_rows()[j].len(),
                forall|j: int| 0 <= j < h ==> #[trigger] value_caps@[j] >= self.value_rows()[j].len(),
            decreases self.num_heads - h,
        {
            proof {
                assert(self.key_rows()[h as int] == self.keys@[h as int]@);
                assert(self.value_rows()[h as int] == self.values@[h as int]@);
            }
            key_caps.push(vec_capacity(&self.keys[h]));
            value_caps.push(vec_capacity(&self.values[h]));
            h = h + 1;
        }
        let c = capacity_total(key_caps.as_slice(), value_caps.as_slice());
        proof {
            assert(is_layer_allocation(*self, key_caps@, value_caps@, c));
            lemma_caps_cover(*self, key_caps@, value_caps@, self.num_heads as int);
            assert(key_caps@.take(self.num_heads as int) =~= key_caps@);
            assert(value_caps@.take(self.num_heads as int) =~= value_caps@);
        }
        c
    }
}

/// `b` is what the layers' buffers can hold in bytes: per-layer totals that
/// are allocations of the layers, added up and scaled by `element_bytes`,
/// capped at `usize::MAX`.
pub open spec fn is_cache_allocation<T>(layers: Seq<LayerKvCache<T>>, totals: Seq<usize>, element_bytes: nat, b: usize) -> bool {
    &&& totals.len() == layers.len()
    &&& forall|i: int| 0 <= i < layers.len() ==> #[trigger] layer_allocated(layers[i], totals[i])
    &&& b == capped(seq_sum(totals) * element_bytes)
}

/// `b` is what some per-layer allocations of `layers` add up to in bytes.
pub open spec fn cache_allocated<T>(layers: Seq<LayerKvCache<T>>, element_bytes: nat, b: usize) -> bool {
    exists|totals: Seq<usize>| is_cache_allocation(layers, totals, element_bytes, b)
}

proof fn lemma_totals_cover<T>(layers: Seq<LayerKvCache<T>>, totals: Seq<usize>, n: int)
    requires
        0 <= n <= layers.len() == totals.len(),
        forall|i: int| 0 <= i < layers.len() ==> #[trigger] totals[i] >= capped(
            heads_buffered(layers[i], layers[i].spec_num_heads() as int),
        ),
    ensures
        seq_sum(totals.take(n)) >= capped(layers_buffered(layers, n)),
    decreases n,
{
    if n > 0 {
        lemma_totals_cover(layers, totals, n - 1);
        assert(totals.take(n).drop_last() =~= totals.take(n - 1));
        assert(totals[n - 1] >= capped(heads_buffered(layers[n - 1], layers[n - 1].spec_num_heads() as int)));
    }
}

impl<T> KvCache<T> {
    /// The bytes the key and value buffers of all layers can hold without
    /// reallocating, capped at `usize::MAX`.
    fn allocated_bytes(&self, element_bytes: usize) -> (b: usize)
        requires
            self.wf(),
        ensures
            cache_allocated(self.layers_view(), element_bytes as nat, b),
            b >= capped(layers_buffered(self.layers_view(), self.layers_view().len() as int) * (element_bytes as nat)),
    {
        let ghost layers = self.layers_view();
        let mut totals: Vec<usize> = Vec::new();
        let mut i: usize = 0;
        while i < self.layers.len()
            invariant
                layers == self.layers_view(),
                self.wf(),
                i <= layers.len(),
                totals@.len() == i,
                forall|j: int| 0 <= j < i ==> #[trigger] layer_allocated(layers[j], totals@[j]),
                forall|j: int| 0 <= j < i ==> #[trigger] totals@[j] >= capped(
                    heads_buffered(layers[j], layers[j].spec_num_heads() as int),
                ),
            decreases self.layers.len() - i,
        {
            assert(layers[i as int].wf());
            let c = self.layers[i].allocated_elements();
            let ghost before = totals@;
            totals.push(c);
            proof {
                assert forall|j: int| 0 <= j < i + 1 implies #[trigger] layer_allocated(layers[j], totals@[j]) by {
                    if j < i {
                        assert(totals@[j] == before[j]);
                    }
                }
                assert forall|j: int| 0 <= j < i + 1 implies #[trigger] totals@[j] >= capped(
                    heads_buffered(layers[j], layers[j].spec_num_heads() as int),
                ) by {
                    if j < i {
                        assert(totals@[j] == before[j]);
                    }
                }
            }
            i = i + 1;
        }
        let sum = capped_sum(totals.as_slice());
        let b = match sum.checked_mul(element_bytes) {
            Some(b) => b,
            None => usize::MAX,
        };
        proof {
            let e = element_bytes as nat;
            let x = seq_sum(totals@);
            lemma_capped_mul(x, e);
            assert(b == capped(x * e));
            assert(is_cache_allocation(layers, totals@, e, b));
            lemma_totals_cover(layers, totals@, layers.len() as int);
            assert(totals@.take(layers.len() as int) =~= totals@);
            let y = layers_buffered(layers, layers.len() as int);
            assert(x >= capped(y));
            if y <= usize::MAX {
                assert(x * e >= y * e) by (nonlinear_arith)
                    requires
                        x >= y,
                ;
            } else {
                lemma_capped_mul(y, e);
                assert(capped(y) * e <= x * e) by (nonlinear_arith)
                    requires
                        x >= capped(y),
                ;
            }
        }
        b
    }
}

impl<T> KvCache<T> {
    /// The key/value payload in bytes, for elements of `element_bytes` bytes.
    pub fn memory_report(&self, element_bytes: usize) -> (r: KvCacheMemoryReport)
        requires
            self.wf(),
            payload_bytes(self.layers_view(), self.layers_view().len() as int, true, element_bytes as nat)
                <= usize::MAX,
        ensures
            r.active_bytes == payload_bytes(self.layers_view(), self.layers_view().len() as int, false, element_bytes as nat),
            r.capacity_bytes == payload_bytes(self.layers_view(), self.layers_view().len() as int, true, element_bytes as nat),
            r.active_bytes <= r.capacity_bytes,
            cache_allocated(self.layers_view(), element_bytes as nat, r.allocated_bytes),
            r.allocated_bytes >= capped(layers_buffered(self.layers_view(), self.layers_view().len() as int)
                * (element_bytes as nat)),
            all_rows_consistent(self.layers_view()) ==> r.allocated_bytes >= r.active_bytes,
    {
        let ghost layers = self.layers_view();
        let ghost n = layers.len() as int;
        let ghost eb = element_bytes as nat;
        proof {
            lemma_payload_monotone(layers, n, eb);
        }
        let mut active: usize = 0;
        let mut capacity: usize = 0;
        let mut i: usize = 0;
        while i < self.layers.len()
            invariant
                layers == self.layers_view(),
                n == layers.len(),
                eb == element_bytes as nat,
                self.wf(),
                i <= n,
                payload_bytes(layers, n, true, eb) <= usize::MAX,
                payload_bytes(layers, n, false, eb) <= payload_bytes(layers, n, true, eb),
                forall|m: int| 0 <= m <= n ==> #[trigger] payload_bytes(layers, m, true, eb) <= payload_bytes(layers, n, true, eb),
                active == payload_bytes(layers, i as int, false, eb),
                capacity == payload_bytes(layers, i as int, true, eb),
            decreases self.layers.len() - i,
        {
            let l = &self.layers[i];
            proof {
                assert(l.wf());
                lemma_payload_monotone(layers, i + 1, eb);
                assert(payload_bytes(layers, i + 1, true, eb) <= usize::MAX);
                assert(payload_bytes(layers, i + 1, false, eb) <= usize::MAX);
                let h = l.spec_num_heads() as nat;
                let d = l.spec_head_dim() as nat;
                let s = l.spec_seq_len() as nat;
                let m = l.spec_max_seq_len() as nat;
                assert(s * h <= m * h * d * 2 * eb || eb == 0) by (nonlinear_arith)
                    requires
                        s <= m,
                        h >= 1,
                        d >= 1,
                ;
                assert(m * h <= m * h * d * 2 * eb || eb == 0) by (nonlinear_arith)
                    requires
                        h >= 1,
                        d >= 1,
                ;
                assert(s * h * d <= m * h * d * 2 * eb || eb == 0) by (nonlinear_arith)
                    requires
                        s <= m,
                        d >= 1,
                ;
                assert(m * h * d <= m * h * d * 2 * eb || eb == 0) by (nonlinear_arith);
                assert(s * h * d * 2 <= m * h * d * 2 * eb || eb == 0) by (nonlinear_arith)
                    requires
                        s <= m,
                ;
                assert(m * h * d * 2 <= m * h * d * 2 * eb || eb == 0) by (nonlinear_arith);
            }
            if element_bytes == 0 {
                proof {
                    assert(layer_payload_bytes(*l, l.spec_seq_len() as nat, 0) == 0) by (nonlinear_arith);
                    assert(layer_payload_bytes(*l, l.spec_max_seq_len() as nat, 0) == 0) by (nonlinear_arith);
                }
            } else {
                let layer_active = l.seq_len * l.num_heads * l.head_dim * 2 * element_bytes;
                let layer_capacity = l.max_seq_len * l.num_heads * l.head_dim * 2 * element_bytes;
                active = active + layer_active;
                capacity = capacity + layer_capacity;
            }
            i = i + 1;
        }
        let allocated = self.allocated_bytes(element_bytes);
        proof {
            if all_rows_consistent(layers) {
                lemma_layers_buffered_payload(layers, n, eb);
            }
        }
        KvCacheMemoryReport { active_bytes: active, allocated_bytes: allocated, capacity_bytes: capacity }
    }
}

/// `after` is `before` emptied: no cached positions, the same dimensions.
pub open spec fn is_reset_of<T>(after: LayerKvCache<T>, before: LayerKvCache<T>) -> bool {
    &&& after.wf()
    &&& after.rows_consistent()
    &&& after.spec_seq_len() == 0
    &&& after.spec_num_heads() == before.spec_num_heads()
    &&& after.spec_head_dim() == before.spec_head_dim()
    &&& after.spec_max_seq_len() == before.spec_max_seq_len()
}

/// What a readback gives: the rows as a `[seq_len, head_dim]` tensor when
/// the buffer holds exactly that many elements, a length error otherwise.
pub open spec fn rows_readback<T>(
    r: Result<Tensor<T>, MiniInferError>,
    rows: Seq<T>,
    seq_len: usize,
    head_dim: usize,
) -> bool {
    if rows.len() == seq_len * head_dim {
        r matches Ok(t) && t.shape_view() == seq![seq_len, head_dim] && t.data_view() == rows
    } else {
        r == Err::<Tensor<T>, MiniInferError>(
            MiniInferError::ShapeDataLengthMismatch {
                expected: (seq_len * head_dim) as usize,
                actual: rows.len() as usize,
            },
        )
    }
}

/// Reading a head back after a successful append gives what the head held
/// before, followed by the row that was appended, for keys and values alike;
/// a layer whose heads held `seq_len` rows each holds `seq_len + 1` after.
pub proof fn lemma_read_after_append<T>(
    before: LayerKvCache<T>,
    after: LayerKvCache<T>,
    keys: Seq<Tensor<T>>,
    values: Seq<Tensor<T>>,
    h: int,
    key_read: Result<Tensor<T>, MiniInferError>,
    value_read: Result<Tensor<T>, MiniInferError>,
)
    requires
        before.wf(),
        before.rows_consistent(),
        appended(before, after, keys, values),
        0 <= h < before.spec_num_heads(),
        rows_readback(key_read, after.key_rows()[h], after.spec_seq_len(), after.spec_head_dim()),
        rows_readback(value_read, after.value_rows()[h], after.spec_seq_len(), after.spec_head_dim()),
    ensures
        after.rows_consistent(),
        key_read matches Ok(t) && t.shape_view() == seq![after.spec_seq_len(), before.spec_head_dim()]
            && t.data_view() == before.key_rows()[h] + keys[h].data_view() && t.row(
            before.spec_seq_len() as int,
        ) == keys[h].data_view(),
        value_read matches Ok(t) && t.shape_view() == seq![after.spec_seq_len(), before.spec_head_dim()]
            && t.data_view() == before.value_rows()[h] + values[h].data_view() && t.row(
            before.spec_seq_len() as int,
        ) == values[h].data_view(),
{
    let s = before.spec_seq_len() as int;
    let hd = before.spec_head_dim() as int;
    assert((s + 1) * hd == s * hd + hd) by (nonlinear_arith);
    assert forall|j: int| 0 <= j < after.spec_num_heads() implies #[trigger] after.key_rows()[j].len()
        == after.spec_seq_len() * after.spec_head_dim() by {
        assert(keys[j].data_view().len() == hd);
        assert(before.key_rows()[j].len() == s * hd);
    }
    assert forall|j: int| 0 <= j < after.spec_num_heads() implies #[trigger] after.value_rows()[j].len()
        == after.spec_seq_len() * after.spec_head_dim() by {
        assert(keys[j].data_view().len() == hd);
        assert(values[j].data_view().len() == hd);
        assert(before.value_rows()[j].len() == s * hd);
    }
    assert(keys[h].data_view().len() == hd);
    assert(values[h].data_view().len() == hd);
    assert(after.key_rows()[h].len() == after.spec_seq_len() * after.spec_head_dim());
    assert(after.value_rows()[h].len() == after.spec_seq_len() * after.spec_head_dim());
    let kt = key_read->Ok_0;
    let vt = value_read->Ok_0;
    assert(kt.data_view().subrange(s * hd, (s + 1) * hd) =~= keys[h].data_view());
    assert(vt.data_view().subrange(s * hd, (s + 1) * hd) =~= values[h].data_view());
}

fn read_rows<T>(seq_len: usize, head_dim: usize, data: Vec<T>, max_seq_len: usize) -> (r: Result<
    Tensor<T>,
    MiniInferError,
>)
    requires
        0 < seq_len <= max_seq_len,
        head_dim > 0,
        max_seq_len * head_dim <= usize::MAX,
    ensures
        rows_readback(r, data@, seq_len, head_dim),
{
    let mut shape: Vec<usize> = Vec::new();
    shape.push(seq_len);
    shape.push(head_dim);
    proof {
        assert(shape@ =~= seq![seq_len, head_dim]);
        lemma_shape_product_2(seq_len, head_dim);
        assert(seq_len * head_dim <= max_seq_len * head_dim) by (nonlinear_arith)
            requires
                seq_len <= max_seq_len,
                head_dim > 0,
        ;
        assert(!shape@.contains(0usize)) by {
            if shape@.contains(0usize) {
                let j = choose|j: int| 0 <= j < shape@.len() && shape@[j] == 0;
                assert(j == 0 || j == 1);
            }
        }
    }
    Tensor::new(shape, data)
}

fn extend_from<T: Copy>(v: &mut Vec<T>, more: &[T])
    ensures
        final(v)@ == old(v)@ + more@,
{
    let mut i: usize = 0;
    while i < more.len()
        invariant
            i <= more@.len(),
            v@ == old(v)@ + more@.take(i as int),
        decreases more.len() - i,
    {
        v.push(more[i]);
        i = i + 1;
        assert(v@ =~= old(v)@ + more@.take(i as int));
    }
    assert(more@.take(more@.len() as int) =~= more@);
}

proof fn lemma_one_more_row(n: int, d: int)
    ensures
        (n + 1) * d == n * d + d,
{
    assert((n + 1) * d == n * d + d) by (nonlinear_arith);
}

proof fn lemma_first_bad_head<T>(keys: Seq<Tensor<T>>, values: Seq<Tensor<T>>, head_dim: usize, h: int)
    requires
        0 <= h < keys.len(),
        !(is_head_row(keys[h], head_dim) && is_head_row(values[h], head_dim)),
        forall|j: int|
            0 <= j < h ==> is_head_row(#[trigger] keys[j], head_dim) && is_head_row(values[j], head_dim),
    ensures
        exists|c: int| is_first_bad_head(keys, values, head_dim, c),
        forall|c: int| is_first_bad_head(keys, values, head_dim, c) ==> c == h,
{
    assert(is_first_bad_head(keys, values, head_dim, h));
    assert forall|c: int| is_first_bad_head(keys, values, head_dim, c) implies c == h by {
        if c < h {
            assert(is_head_row(keys[c], head_dim) && is_head_row(values[c], head_dim));
        } else if c > h {
            assert(is_head_row(keys[h], head_dim) && is_head_row(values[h], head_dim));
        }
    }
}

} // verus!
