//! Writing slices into a tensor at places that are known beforehand.
//!
//! The operation is ONNX's `ScatterND` without a reduction. Its inputs are a tensor `data`, a list
//! of index vectors of width `k`, and one slice of updates per index vector. An index vector picks
//! a slice of `data`, which the updates replace. Where the index vectors are constant, all slices
//! can be found once, and what is left to do at run time is copying blocks.
use vstd::prelude::*;

use crate::tensor;

verus! {

/// A plan for writing constant slices: blocks to copy, all of the same length.
#[derive(Clone, Debug, PartialEq, Eq)]
pub struct FastScatterConst {
    /// Where each block goes to in the data, and where it comes from in the updates.
    pub blocks: Vec<(usize, usize)>,
    /// The length of each block.
    pub slice_size: usize,
}

/// Why no plan could be made.
#[derive(Clone, Debug, PartialEq, Eq)]
pub enum PlanError {
    /// The indices cannot be read as integers, for the reason given.
    NotIntegers(String),
    /// The indices have no axes, so there is no width that they could have.
    NoRank,
    /// The index vectors have more entries than the data has axes.
    TooWide {
        /// The width of the index vectors.
        width: usize,
        /// The number of axes of the data.
        rank: usize,
    },
    /// The indices are not stored one after the other.
    NotPlain,
    /// An index is negative.
    NegativeIndex,
    /// A place in the data or in the updates does not fit in a machine word.
    TooLarge,
}

// Shapes and places.

/// The number of elements of `shape` from axis `n` on: how far apart two slices lie whose first
/// `n` indices differ by one in the last of them.
pub open spec fn tail_volume(shape: Seq<usize>, n: int) -> int {
    tensor::volume(shape.skip(n))
}

/// The place in a tensor of the given shape where the slice starts that the first `n` entries of
/// the index vector `coord` pick.
pub open spec fn offset(shape: Seq<usize>, coord: Seq<i64>, n: int) -> int
    decreases n,
{
    if n <= 0 {
        0
    } else {
        offset(shape, coord, n - 1) + coord[n - 1] * tail_volume(shape, n)
    }
}

/// Index vector number `m`, of width `k`.
pub open spec fn index_vector(idx: Seq<i64>, k: int, m: int) -> Seq<i64> {
    idx.subrange(m * k, m * k + k)
}

/// The width of the index vectors of a tensor of indices: the length of its last axis.
pub open spec fn index_width(idx_shape: Seq<usize>) -> int {
    idx_shape.last() as int
}

/// The number of index vectors in a tensor of indices: the product of all other axes.
pub open spec fn index_count(idx_shape: Seq<usize>) -> int {
    tensor::volume(idx_shape.drop_last())
}

/// An index is negative.
pub open spec fn has_negative(idx: Seq<i64>) -> bool {
    exists|i: int| 0 <= i < idx.len() && #[trigger] idx[i] < 0
}

/// All sizes and places that a plan speaks of fit in a machine word.
pub open spec fn plan_fits(shape: Seq<usize>, k: int, count: int, idx: Seq<i64>) -> bool {
    &&& forall|n: int| 1 <= n <= shape.len() ==> #[trigger] tail_volume(shape, n) <= usize::MAX
    &&& tail_volume(shape, k) <= usize::MAX
    &&& count <= usize::MAX
    &&& forall|m: int|
        0 <= m < count ==> {
            &&& offset(shape, #[trigger] index_vector(idx, k, m), k) <= usize::MAX
            &&& m * tail_volume(shape, k) <= usize::MAX
        }
}

/// The plan copies, for each index vector, the next slice of updates to the slice that the index
/// vector picks.
pub open spec fn plan_is(
    shape: Seq<usize>,
    k: int,
    count: int,
    idx: Seq<i64>,
    plan: FastScatterConst,
) -> bool {
    &&& plan.slice_size == tail_volume(shape, k)
    &&& plan.blocks@.len() == count
    &&& forall|m: int|
        0 <= m < count ==> {
            &&& (#[trigger] plan.blocks@[m]).0 == offset(shape, index_vector(idx, k, m), k)
            &&& plan.blocks@[m].1 == m * tail_volume(shape, k)
        }
}

/// A volume is not negative.
pub proof fn lemma_volume_nonnegative(shape: Seq<usize>)
    ensures
        tensor::volume(shape) >= 0,
    decreases shape.len(),
{
    if shape.len() > 0 {
        lemma_volume_nonnegative(shape.drop_first());
        assert(shape[0] * tensor::volume(shape.drop_first()) >= 0) by (nonlinear_arith)
            requires
                shape[0] >= 0,
                tensor::volume(shape.drop_first()) >= 0,
        ;
    }
}

/// One axis more in front multiplies the volume.
proof fn lemma_tail_volume_step(shape: Seq<usize>, n: int)
    requires
        0 <= n < shape.len(),
    ensures
        tail_volume(shape, n) == shape[n] * tail_volume(shape, n + 1),
        tail_volume(shape, n + 1) >= 0,
{
    assert(shape.skip(n).drop_first() == shape.skip(n + 1));
    lemma_volume_nonnegative(shape.skip(n + 1));
}

/// The volume of a shape is that of its front axes times its last axis.
proof fn lemma_volume_last(shape: Seq<usize>)
    requires
        shape.len() > 0,
    ensures
        tensor::volume(shape) == tensor::volume(shape.drop_last()) * shape.last(),
    decreases shape.len(),
{
    if shape.len() == 1 {
        assert(shape.drop_first() =~= Seq::<usize>::empty());
        assert(shape.drop_last() =~= Seq::<usize>::empty());
        assert(tensor::volume(shape.drop_first()) == 1);
        assert(tensor::volume(shape.drop_last()) == 1);
    } else {
        let rest = shape.drop_first();
        lemma_volume_last(rest);
        assert(rest.drop_last() == shape.drop_last().drop_first());
        let a = shape[0] as int;
        let b = tensor::volume(rest.drop_last());
        let c = shape.last() as int;
        assert(a * (b * c) == (a * b) * c) by (nonlinear_arith);
    }
}

/// The volume of a shape, unless it does not fit in a machine word.
fn checked_volume(shape: &[usize]) -> (r: Option<usize>)
    ensures
        r is Some <==> tensor::volume(shape@) <= usize::MAX,
        r matches Some(v) ==> v == tensor::volume(shape@),
{
    let n: usize = shape.len();
    let mut v: usize = 1;
    let mut i: usize = n;
    assert(shape@.skip(n as int) =~= Seq::<usize>::empty());
    while i > 0
        invariant
            i <= n,
            n == shape@.len(),
            v == tail_volume(shape@, i as int),
        decreases i,
    {
        proof {
            lemma_tail_volume_step(shape@, i - 1);
            let a = shape@[i - 1] as int;
            let b = v as int;
            assert(a * b == b * a) by (nonlinear_arith);
        }
        match v.checked_mul(shape[i - 1]) {
            Some(product) => {
                v = product;
                i -= 1;
            },
            None => {
                // The product is too large unless an axis further to the front has no length.
                return rest_has_zero(shape, i - 1);
            },
        }
    }
    assert(shape@.skip(0) == shape@);
    Some(v)
}

/// Zero if one of the first `n` axes has no length, else nothing, when the volume from axis `n` on
/// does not fit in a machine word.
fn rest_has_zero(shape: &[usize], n: usize) -> (r: Option<usize>)
    requires
        n <= shape@.len(),
        tail_volume(shape@, n as int) > usize::MAX,
    ensures
        r is Some <==> tensor::volume(shape@) <= usize::MAX,
        r matches Some(v) ==> v == tensor::volume(shape@),
{
    let mut i: usize = n;
    while i > 0
        invariant
            i <= n <= shape@.len(),
            tail_volume(shape@, i as int) > usize::MAX,
        decreases i,
    {
        i -= 1;
        proof {
            lemma_tail_volume_step(shape@, i as int);
        }
        if shape[i] == 0 {
            assert(tail_volume(shape@, i as int) == 0);
            proof {
                lemma_zero_spreads(shape@, i as int);
            }
            return Some(0);
        }
        assert(shape@[i as int] * tail_volume(shape@, i + 1) >= tail_volume(shape@, i + 1))
            by (nonlinear_arith)
            requires
                shape@[i as int] >= 1,
                tail_volume(shape@, i + 1) >= 0,
        ;
    }
    assert(shape@.skip(0) == shape@);
    None
}

/// A shape that is empty from some axis on is empty altogether.
proof fn lemma_zero_spreads(shape: Seq<usize>, n: int)
    requires
        0 <= n <= shape.len(),
        tail_volume(shape, n) == 0,
    ensures
        tensor::volume(shape) == 0,
    decreases n,
{
    if n == 0 {
        assert(shape.skip(0) == shape);
    } else {
        lemma_tail_volume_step(shape, n - 1);
        assert(shape[n - 1] * tail_volume(shape, n) == 0) by (nonlinear_arith)
            requires
                tail_volume(shape, n) == 0,
        ;
        lemma_zero_spreads(shape, n - 1);
    }
}

// Planning.

/// Places never decrease with more indices taken into account, as long as none is negative.
proof fn lemma_offset_grows(shape: Seq<usize>, coord: Seq<i64>, a: int, b: int)
    requires
        0 <= a <= b <= coord.len(),
        coord.len() <= shape.len(),
        forall|j: int| 0 <= j < coord.len() ==> #[trigger] coord[j] >= 0,
    ensures
        0 <= offset(shape, coord, a) <= offset(shape, coord, b),
    decreases b,
{
    if b > 0 {
        lemma_volume_nonnegative(shape.skip(b));
        assert(coord[b - 1] * tail_volume(shape, b) >= 0) by (nonlinear_arith)
            requires
                coord[b - 1] >= 0,
                tail_volume(shape, b) >= 0,
        ;
        if a < b {
            lemma_offset_grows(shape, coord, a, b - 1);
        } else {
            lemma_offset_grows(shape, coord, a - 1, b - 1);
        }
    }
}

/// The steps between slices, one per axis; nothing if one does not fit in a machine word.
fn strides(shape: &[usize]) -> (r: Option<Vec<usize>>)
    ensures
        r is Some <==> forall|n: int|
            1 <= n <= shape@.len() ==> #[trigger] tail_volume(shape@, n) <= usize::MAX,
        r matches Some(v) ==> {
            &&& v@.len() == shape@.len()
            &&& forall|i: int| 0 <= i < v@.len() ==> #[trigger] v@[i] == tail_volume(shape@, i + 1)
        },
{
    let n: usize = shape.len();
    let mut v: Vec<usize> = Vec::new();
    let mut j: usize = 0;
    while j < n
        invariant
            j <= n,
            v@.len() == j,
            forall|i: int| 0 <= i < j ==> #[trigger] v@[i] == 1,
        decreases n - j,
    {
        v.push(1);
        j += 1;
    }
    if n == 0 {
        return Some(v);
    }
    assert(shape@.skip(n as int) =~= Seq::<usize>::empty());
    let mut i: usize = n - 1;
    while i > 0
        invariant
            i < n,
            n == shape@.len(),
            n == v@.len(),
            forall|l: int| i <= l < n ==> #[trigger] v@[l] == tail_volume(shape@, l + 1),
        decreases i,
    {
        proof {
            lemma_tail_volume_step(shape@, i as int);
            let a = shape@[i as int] as int;
            let b = v@[i as int] as int;
            assert(a * b == b * a) by (nonlinear_arith);
        }
        match v[i].checked_mul(shape[i]) {
            Some(product) => {
                v[i - 1] = product;
            },
            None => {
                assert(tail_volume(shape@, i as int) > usize::MAX);
                return None;
            },
        }
        i -= 1;
    }
    assert forall|m: int| 1 <= m <= n implies #[trigger] tail_volume(shape@, m) <= usize::MAX by {
        assert(v@[m - 1] == tail_volume(shape@, m));
    }
    Some(v)
}

/// Whether an index is negative.
fn any_negative(idx: &[i64]) -> (r: bool)
    ensures
        r == has_negative(idx@),
{
    let n: usize = idx.len();
    let mut i: usize = 0;
    while i < n
        invariant
            i <= n,
            n == idx@.len(),
            forall|j: int| 0 <= j < i ==> #[trigger] idx@[j] >= 0,
        decreases n - i,
    {
        if idx[i] < 0 {
            assert(idx@[i as int] < 0);
            return true;
        }
        i += 1;
    }
    false
}

/// The place that the `k` indices from `lo` on pick; nothing if it does not fit in a machine word.
fn place(shape: &[usize], stride: &Vec<usize>, idx: &[i64], lo: usize, k: usize) -> (r: Option<
    usize,
>)
    requires
        k <= shape@.len(),
        stride@.len() == shape@.len(),
        forall|i: int|
            0 <= i < stride@.len() ==> #[trigger] stride@[i] == tail_volume(shape@, i + 1),
        lo + k <= idx@.len(),
        !has_negative(idx@),
    ensures
        r is Some <==> offset(shape@, idx@.subrange(lo as int, lo + k), k as int) <= usize::MAX,
        r matches Some(v) ==> v == offset(shape@, idx@.subrange(lo as int, lo + k), k as int),
{
    let len: usize = idx.len();
    let ghost coord = idx@.subrange(lo as int, lo + k);
    let mut db: usize = 0;
    let mut j: usize = 0;
    proof {
        assert forall|i: int| 0 <= i < coord.len() implies #[trigger] coord[i] >= 0 by {
            assert(coord[i] == idx@[lo + i]);
        }
    }
    while j < k
        invariant
            j <= k <= shape@.len(),
            stride@.len() == shape@.len(),
            forall|i: int|
                0 <= i < stride@.len() ==> #[trigger] stride@[i] == tail_volume(shape@, i + 1),
            len == idx@.len(),
            lo + k <= len,
            coord == idx@.subrange(lo as int, lo + k),
            forall|i: int| 0 <= i < coord.len() ==> #[trigger] coord[i] >= 0,
            db == offset(shape@, coord, j as int),
        decreases k - j,
    {
        let c: i64 = idx[lo + j];
        assert(c == coord[j as int]);
        let ghost step = tail_volume(shape@, j + 1);
        proof {
            lemma_offset_grows(shape@, coord, j + 1, k as int);
            lemma_offset_grows(shape@, coord, 0, j as int);
            assert(stride@[j as int] == step);
        }
        if c as u64 > usize::MAX as u64 && stride[j] > 0 {
            assert(c * step > usize::MAX) by (nonlinear_arith)
                requires
                    c > usize::MAX,
                    step >= 1,
            ;
            return None;
        }
        let term: usize = if stride[j] == 0 {
            assert(c * step == 0) by (nonlinear_arith)
                requires
                    step == 0,
            ;
            0
        } else {
            match (c as usize).checked_mul(stride[j]) {
                Some(term) => term,
                None => {
                    return None;
                },
            }
        };
        match db.checked_add(term) {
            Some(sum) => {
                db = sum;
            },
            None => {
                return None;
            },
        }
        j += 1;
    }
    Some(db)
}

/// Plans the copying for index vectors that are given as a tensor of the shape `idx_shape` with
/// the elements `idx`, into data of the shape `data_shape`.
pub fn plan_blocks(data_shape: &[usize], idx_shape: &[usize], idx: &[i64]) -> (r: Result<
    FastScatterConst,
    PlanError,
>)
    requires
        idx@.len() == tensor::volume(idx_shape@),
    ensures
        plan_result_is(data_shape@, idx_shape@, idx@, r),
{
    if idx_shape.len() == 0 {
        return Err(PlanError::NoRank);
    }
    let last: usize = idx_shape.len() - 1;
    let k: usize = idx_shape[last];
    let rank: usize = data_shape.len();
    if k > rank {
        return Err(PlanError::TooWide { width: k, rank });
    }
    if any_negative(idx) {
        return Err(PlanError::NegativeIndex);
    }
    let ghost count = index_count(idx_shape@);
    assert(idx_shape@.drop_last() == idx_shape@.take(last as int));
    let front: &[usize] = vstd::slice::slice_subrange(idx_shape, 0, last);
    assert(front@ == idx_shape@.drop_last());
    let m: usize = match checked_volume(front) {
        Some(m) => m,
        None => {
            return Err(PlanError::TooLarge);
        },
    };
    let stride: Vec<usize> = match strides(data_shape) {
        Some(stride) => stride,
        None => {
            return Err(PlanError::TooLarge);
        },
    };
    let tail: &[usize] = vstd::slice::slice_subrange(data_shape, k, rank);
    assert(tail@ == data_shape@.skip(k as int));
    let slice_size: usize = match checked_volume(tail) {
        Some(slice_size) => slice_size,
        None => {
            return Err(PlanError::TooLarge);
        },
    };
    let len: usize = idx.len();
    proof {
        lemma_volume_last(idx_shape@);
        assert(len == m * k);
    }
    let mut blocks: Vec<(usize, usize)> = Vec::new();
    let mut mm: usize = 0;
    while mm < m
        invariant
            mm <= m,
            idx_shape@.len() > 0,
            k == index_width(idx_shape@),
            k <= data_shape@.len(),
            len == idx@.len(),
            len == m * k,
            m == index_count(idx_shape@),
            slice_size == tail_volume(data_shape@, k as int),
            !has_negative(idx@),
            stride@.len() == data_shape@.len(),
            forall|i: int|
                0 <= i < stride@.len() ==> #[trigger] stride@[i] == tail_volume(
                    data_shape@,
                    i + 1,
                ),
            blocks@.len() == mm,
            forall|b: int|
                0 <= b < mm ==> {
                    &&& (#[trigger] blocks@[b]).0 == offset(
                        data_shape@,
                        index_vector(idx@, k as int, b),
                        k as int,
                    )
                    &&& blocks@[b].1 == b * tail_volume(data_shape@, k as int)
                },
        decreases m - mm,
    {
        assert(mm * k + k <= m * k) by (nonlinear_arith)
            requires
                mm + 1 <= m,
                k >= 0,
        ;
        assert(mm * k >= 0) by (nonlinear_arith)
            requires
                mm >= 0,
                k >= 0,
        ;
        let lo: usize = mm * k;
        let ghost coord = index_vector(idx@, k as int, mm as int);
        let db: usize = match place(data_shape, &stride, idx, lo, k) {
            Some(db) => db,
            None => {
                assert(offset(data_shape@, coord, k as int) > usize::MAX);
                return Err(PlanError::TooLarge);
            },
        };
        let sb: usize = match mm.checked_mul(slice_size) {
            Some(sb) => sb,
            None => {
                assert(index_vector(idx@, k as int, mm as int) == coord);
                return Err(PlanError::TooLarge);
            },
        };
        blocks.push((db, sb));
        mm += 1;
    }
    proof {
        assert forall|b: int| 0 <= b < m implies {
            &&& offset(data_shape@, #[trigger] index_vector(idx@, k as int, b), k as int)
                <= usize::MAX
            &&& b * tail_volume(data_shape@, k as int) <= usize::MAX
        } by {
            assert(blocks@[b].0 == offset(
                data_shape@,
                index_vector(idx@, k as int, b),
                k as int,
            ));
        }
    }
    Ok(FastScatterConst { blocks, slice_size })
}

/// `r` is the outcome of planning: the plan, or the first of these reasons that there is none: the
/// indices have no axes, the index vectors are wider than the data has axes, an index is negative,
/// a size or a place is too large.
pub open spec fn plan_result_is(
    shape: Seq<usize>,
    idx_shape: Seq<usize>,
    idx: Seq<i64>,
    r: Result<FastScatterConst, PlanError>,
) -> bool {
    let k = index_width(idx_shape);
    let count = index_count(idx_shape);
    if idx_shape.len() == 0 {
        r == Err::<FastScatterConst, PlanError>(PlanError::NoRank)
    } else if k > shape.len() {
        r == Err::<FastScatterConst, PlanError>(
            PlanError::TooWide { width: k as usize, rank: shape.len() as usize },
        )
    } else if has_negative(idx) {
        r == Err::<FastScatterConst, PlanError>(PlanError::NegativeIndex)
    } else if !plan_fits(shape, k, count, idx) {
        r == Err::<FastScatterConst, PlanError>(PlanError::TooLarge)
    } else {
        r is Ok && plan_is(shape, k, count, idx, r->Ok_0)
    }
}

/// Why there is no plan for indices of the given shape whose elements are of no use: what is wrong
/// with the shape itself comes first.
pub open spec fn unusable(
    shape: Seq<usize>,
    idx_shape: Seq<usize>,
    otherwise: PlanError,
) -> PlanError {
    if idx_shape.len() == 0 {
        PlanError::NoRank
    } else if idx_shape.last() > shape.len() {
        PlanError::TooWide { width: idx_shape.last(), rank: shape.len() as usize }
    } else {
        otherwise
    }
}

/// Says why there is no plan.
fn no_plan(data_shape: &[usize], idx_shape: &[usize], otherwise: PlanError) -> (e: PlanError)
    ensures
        e == unusable(data_shape@, idx_shape@, otherwise),
{
    if idx_shape.len() == 0 {
        return PlanError::NoRank;
    }
    let width: usize = idx_shape[idx_shape.len() - 1];
    let rank: usize = data_shape.len();
    if width > rank {
        PlanError::TooWide { width, rank }
    } else {
        otherwise
    }
}

/// Plans the copying for constant index vectors into data of the given shape.
pub fn build_plan(data_shape: &[usize], indices: &tract_onnx::prelude::Tensor) -> (r: Result<
    FastScatterConst,
    PlanError,
>)
    ensures
        build_result_is(data_shape@, *indices, r),
{
    let plain: bool = tensor::is_plain(indices);
    let idx_shape: Vec<usize> = tensor::shape_of(indices);
    if plain {
        match tensor::integers_of(indices) {
            Ok(idx) => match checked_volume(&idx_shape) {
                Some(_) => plan_blocks(data_shape, &idx_shape, &idx),
                None => Err(no_plan(data_shape, &idx_shape, PlanError::TooLarge)),
            },
            Err(message) => Err(PlanError::NotIntegers(message)),
        }
    } else {
        Err(no_plan(data_shape, &idx_shape, PlanError::NotPlain))
    }
}

/// `r` is the outcome of planning with a tensor of indices: that of planning with its shape and
/// its elements, if it can be read.
pub open spec fn build_result_is(
    shape: Seq<usize>,
    indices: tract_onnx::prelude::Tensor,
    r: Result<FastScatterConst, PlanError>,
) -> bool {
    let dims = tensor::tensor_dims(indices);
    if tensor::tensor_is_plain(indices) {
        match tensor::tensor_integers(indices) {
            Some(idx) => if tensor::volume(dims) <= usize::MAX {
                plan_result_is(shape, dims, idx, r)
            } else {
                r == Err::<FastScatterConst, PlanError>(
                    unusable(shape, dims, PlanError::TooLarge),
                )
            },
            None => r matches Err(PlanError::NotIntegers(_)),
        }
    } else {
        r == Err::<FastScatterConst, PlanError>(unusable(shape, dims, PlanError::NotPlain))
    }
}

// Copying.

/// `data` with `s` written over it from place `at` on.
pub open spec fn overwritten<T>(data: Seq<T>, at: int, s: Seq<T>) -> Seq<T> {
    Seq::new(
        data.len(),
        |i: int|
            if at <= i < at + s.len() {
                s[i - at]
            } else {
                data[i]
            },
    )
}

/// `data` after the first `n` blocks have been copied, one after the other.
pub open spec fn scattered<T>(
    data: Seq<T>,
    updates: Seq<T>,
    blocks: Seq<(usize, usize)>,
    size: int,
    n: int,
) -> Seq<T>
    decreases n,
{
    if n <= 0 {
        data
    } else {
        overwritten(
            scattered(data, updates, blocks, size, n - 1),
            blocks[n - 1].0 as int,
            updates.subrange(blocks[n - 1].1 as int, blocks[n - 1].1 + size),
        )
    }
}

impl FastScatterConst {
    /// Every block lies within data and updates of the given lengths.
    pub open spec fn in_bounds(&self, data: int, updates: int) -> bool {
        forall|b: int|
            0 <= b < self.blocks@.len() ==> {
                &&& (#[trigger] self.blocks@[b]).0 + self.slice_size <= data
                &&& self.blocks@[b].1 + self.slice_size <= updates
            }
    }

    /// Copies all blocks from `updates` to `data`, in order.
    pub fn eval<T: Copy>(&self, data: &mut [T], updates: &[T])
        requires
            self.in_bounds(old(data)@.len() as int, updates@.len() as int),
        ensures
            final(data)@ == scattered(
                old(data)@,
                updates@,
                self.blocks@,
                self.slice_size as int,
                self.blocks@.len() as int,
            ),
    {
        let n: usize = self.blocks.len();
        let size: usize = self.slice_size;
        let data_len: usize = data.len();
        let updates_len: usize = updates.len();
        let mut b: usize = 0;
        while b < n
            invariant
                b <= n,
                n == self.blocks@.len(),
                size == self.slice_size,
                data_len == data@.len(),
                data_len == old(data)@.len(),
                updates_len == updates@.len(),
                self.in_bounds(data_len as int, updates_len as int),
                data@ == scattered(
                    old(data)@,
                    updates@,
                    self.blocks@,
                    size as int,
                    b as int,
                ),
            decreases n - b,
        {
            let (db, sb): (usize, usize) = self.blocks[b];
            assert(self.blocks@[b as int] == (db, sb));
            let ghost before = data@;
            let ghost slice = updates@.subrange(sb as int, sb + size);
            let mut i: usize = 0;
            while i < size
                invariant
                    i <= size,
                    data_len == data@.len(),
                    data_len == before.len(),
                    updates_len == updates@.len(),
                    db + size <= data_len,
                    sb + size <= updates_len,
                    slice == updates@.subrange(sb as int, sb + size),
                    data@ == overwritten(before, db as int, slice.take(i as int)),
                decreases size - i,
            {
                data[db + i] = updates[sb + i];
                i += 1;
                assert(data@ =~= overwritten(before, db as int, slice.take(i as int)));
            }
            assert(slice.take(size as int) == slice);
            b += 1;
        }
    }
}

/// The last block that covers a place decides what stands there in the end.
pub proof fn last_block_wins<T>(
    data: Seq<T>,
    updates: Seq<T>,
    blocks: Seq<(usize, usize)>,
    size: int,
    n: int,
    b: int,
    i: int,
)
    requires
        0 <= b < n <= blocks.len(),
        0 <= i < data.len(),
        blocks[b].0 <= i < blocks[b].0 + size,
        blocks[b].1 + size <= updates.len(),
        forall|c: int| b < c < n ==> !((#[trigger] blocks[c]).0 <= i < blocks[c].0 + size),
        forall|c: int| 0 <= c < n ==> (#[trigger] blocks[c]).1 + size <= updates.len(),
    ensures
        scattered(data, updates, blocks, size, n).len() == data.len(),
        scattered(data, updates, blocks, size, n)[i] == updates[blocks[b].1 + (i - blocks[b].0)],
    decreases n,
{
    lemma_scattered_len(data, updates, blocks, size, n - 1);
    if b < n - 1 {
        last_block_wins(data, updates, blocks, size, n - 1, b, i);
        assert(!(blocks[n - 1].0 <= i < blocks[n - 1].0 + size));
    }
}

/// A place that no block covers keeps its value.
pub proof fn uncovered_places_stay<T>(
    data: Seq<T>,
    updates: Seq<T>,
    blocks: Seq<(usize, usize)>,
    size: int,
    n: int,
    i: int,
)
    requires
        0 <= n <= blocks.len(),
        0 <= size,
        0 <= i < data.len(),
        forall|c: int| 0 <= c < n ==> !((#[trigger] blocks[c]).0 <= i < blocks[c].0 + size),
        forall|c: int| 0 <= c < n ==> (#[trigger] blocks[c]).1 + size <= updates.len(),
    ensures
        scattered(data, updates, blocks, size, n).len() == data.len(),
        scattered(data, updates, blocks, size, n)[i] == data[i],
    decreases n,
{
    if n > 0 {
        uncovered_places_stay(data, updates, blocks, size, n - 1, i);
        assert(!(blocks[n - 1].0 <= i < blocks[n - 1].0 + size));
    }
}

/// Copying blocks keeps the length.
proof fn lemma_scattered_len<T>(
    data: Seq<T>,
    updates: Seq<T>,
    blocks: Seq<(usize, usize)>,
    size: int,
    n: int,
)
    ensures
        scattered(data, updates, blocks, size, n).len() == data.len(),
    decreases n,
{
    if n > 0 {
        lemma_scattered_len(data, updates, blocks, size, n - 1);
    }
}

// What the plan means for the tensor.

/// The index vector picks a slice of a tensor of the given shape: each index is below the length
/// of its axis.
pub open spec fn picks_slice(shape: Seq<usize>, coord: Seq<i64>) -> bool {
    &&& coord.len() <= shape.len()
    &&& forall|j: int| 0 <= j < coord.len() ==> 0 <= #[trigger] coord[j] < shape[j]
}

/// A slice that more indices pick lies within the slice that fewer of them pick.
proof fn lemma_slices_nest(shape: Seq<usize>, coord: Seq<i64>, a: int, b: int)
    requires
        picks_slice(shape, coord),
        0 <= a <= b <= coord.len(),
    ensures
        0 <= offset(shape, coord, a) <= offset(shape, coord, b),
        offset(shape, coord, b) + tail_volume(shape, b) <= offset(shape, coord, a) + tail_volume(
            shape,
            a,
        ),
    decreases b,
{
    lemma_offset_grows(shape, coord, a, b);
    if a < b {
        lemma_slices_nest(shape, coord, a, b - 1);
        lemma_tail_volume_step(shape, b - 1);
        let c = coord[b - 1] as int;
        let s = shape[b - 1] as int;
        let v = tail_volume(shape, b);
        assert(c * v + v <= s * v) by (nonlinear_arith)
            requires
                c + 1 <= s,
                v >= 0,
        ;
    }
}

/// A picked slice lies within the tensor.
pub proof fn picked_slice_is_in_bounds(shape: Seq<usize>, coord: Seq<i64>)
    requires
        picks_slice(shape, coord),
    ensures
        0 <= offset(shape, coord, coord.len() as int),
        offset(shape, coord, coord.len() as int) + tail_volume(shape, coord.len() as int)
            <= tensor::volume(shape),
{
    assert(shape.skip(0) == shape);
    lemma_slices_nest(shape, coord, 0, coord.len() as int);
}

/// Two different index vectors of the same width pick slices that do not overlap.
pub proof fn different_slices_are_disjoint(shape: Seq<usize>, c: Seq<i64>, d: Seq<i64>)
    requires
        picks_slice(shape, c),
        picks_slice(shape, d),
        c.len() == d.len(),
        c != d,
    ensures
        ({
            let k = c.len() as int;
            ||| offset(shape, c, k) + tail_volume(shape, k) <= offset(shape, d, k)
            ||| offset(shape, d, k) + tail_volume(shape, k) <= offset(shape, c, k)
        }),
{
    let k = c.len() as int;
    if forall|i: int| 0 <= i < k ==> c[i] == d[i] {
        assert(c =~= d);
    }
    let l = lemma_first_difference(c, d, k);
    lemma_same_prefix(shape, c, d, l);
    if c[l] < d[l] {
        lemma_disjoint_from(shape, c, d, l);
    } else {
        lemma_disjoint_from(shape, d, c, l);
    }
}

/// The first place where two index vectors differ.
proof fn lemma_first_difference(c: Seq<i64>, d: Seq<i64>, n: int) -> (l: int)
    requires
        c.len() == d.len(),
        0 <= n <= c.len(),
        exists|i: int| 0 <= i < n && c[i] != d[i],
    ensures
        0 <= l < n,
        c[l] != d[l],
        forall|i: int| 0 <= i < l ==> c[i] == d[i],
    decreases n,
{
    let j = choose|i: int| 0 <= i < n && c[i] != d[i];
    if forall|i: int| 0 <= i < j ==> c[i] == d[i] {
        j
    } else {
        lemma_first_difference(c, d, j)
    }
}

/// The place that indices pick depends on those indices alone.
proof fn lemma_same_prefix(shape: Seq<usize>, c: Seq<i64>, d: Seq<i64>, n: int)
    requires
        0 <= n <= c.len(),
        n <= d.len(),
        forall|i: int| 0 <= i < n ==> c[i] == d[i],
    ensures
        offset(shape, c, n) == offset(shape, d, n),
    decreases n,
{
    if n > 0 {
        lemma_same_prefix(shape, c, d, n - 1);
    }
}

/// If two index vectors first differ at entry `l`, the slice of the lesser one ends before that of
/// the greater one.
proof fn lemma_disjoint_from(shape: Seq<usize>, c: Seq<i64>, d: Seq<i64>, l: int)
    requires
        picks_slice(shape, c),
        picks_slice(shape, d),
        c.len() == d.len(),
        0 <= l < c.len(),
        offset(shape, c, l) == offset(shape, d, l),
        c[l] < d[l],
    ensures
        offset(shape, c, c.len() as int) + tail_volume(shape, c.len() as int) <= offset(
            shape,
            d,
            d.len() as int,
        ),
{
    let k = c.len() as int;
    lemma_slices_nest(shape, c, l + 1, k);
    lemma_slices_nest(shape, d, l + 1, k);
    let v = tail_volume(shape, l + 1);
    lemma_tail_volume_step(shape, l);
    let a = c[l] as int;
    let b = d[l] as int;
    assert(a * v + v <= b * v) by (nonlinear_arith)
        requires
            a + 1 <= b,
            v >= 0,
    ;
}

/// Each index vector picks a slice of the tensor.
pub open spec fn indices_pick_slices(shape: Seq<usize>, k: int, count: int, idx: Seq<i64>) -> bool {
    &&& 0 <= k <= shape.len()
    &&& idx.len() == count * k
    &&& forall|m: int| 0 <= m < count ==> picks_slice(shape, #[trigger] index_vector(idx, k, m))
}

/// A plan for index vectors that pick slices stays within a tensor of the planned shape and within
/// as many updates as there are index vectors.
pub proof fn plan_is_in_bounds(
    shape: Seq<usize>,
    k: int,
    count: int,
    idx: Seq<i64>,
    plan: FastScatterConst,
)
    requires
        indices_pick_slices(shape, k, count, idx),
        plan_is(shape, k, count, idx, plan),
    ensures
        plan.in_bounds(tensor::volume(shape), count * tail_volume(shape, k)),
{
    lemma_volume_nonnegative(shape.skip(k));
    assert forall|b: int| 0 <= b < plan.blocks@.len() implies {
        &&& (#[trigger] plan.blocks@[b]).0 + plan.slice_size <= tensor::volume(shape)
        &&& plan.blocks@[b].1 + plan.slice_size <= count * tail_volume(shape, k)
    } by {
        lemma_index_vector_len(idx, k, count, b);
        picked_slice_is_in_bounds(shape, index_vector(idx, k, b));
        let v = tail_volume(shape, k);
        assert(b * v + v <= count * v) by (nonlinear_arith)
            requires
                b + 1 <= count,
                v >= 0,
        ;
    }
}

/// An index vector has the width that it is read with.
proof fn lemma_index_vector_len(idx: Seq<i64>, k: int, count: int, m: int)
    requires
        0 <= k,
        0 <= m < count,
        idx.len() == count * k,
    ensures
        index_vector(idx, k, m).len() == k,
{
    assert(0 <= m * k && m * k + k <= count * k) by (nonlinear_arith)
        requires
            0 <= m,
            m + 1 <= count,
            0 <= k,
    ;
}

/// The plan does what scattering means: after copying, the slice that index vector `m` picks holds
/// slice `m` of the updates, unless a later index vector is the same.
pub proof fn picked_slices_are_replaced<T>(
    shape: Seq<usize>,
    k: int,
    count: int,
    idx: Seq<i64>,
    plan: FastScatterConst,
    data: Seq<T>,
    updates: Seq<T>,
    m: int,
    t: int,
)
    requires
        indices_pick_slices(shape, k, count, idx),
        plan_is(shape, k, count, idx, plan),
        data.len() == tensor::volume(shape),
        updates.len() == count * tail_volume(shape, k),
        0 <= m < count,
        forall|n: int|
            m < n < count ==> #[trigger] index_vector(idx, k, n) != index_vector(idx, k, m),
        0 <= t < tail_volume(shape, k),
    ensures
        scattered(data, updates, plan.blocks@, plan.slice_size as int, count)[offset(
            shape,
            index_vector(idx, k, m),
            k,
        ) + t] == updates[m * tail_volume(shape, k) + t],
{
    let size = tail_volume(shape, k);
    let i = offset(shape, index_vector(idx, k, m), k) + t;
    plan_is_in_bounds(shape, k, count, idx, plan);
    assert(plan.blocks@[m].0 + size <= data.len());
    assert forall|c: int| m < c < count implies !((#[trigger] plan.blocks@[c]).0 <= i
        < plan.blocks@[c].0 + size) by {
        lemma_index_vector_len(idx, k, count, m);
        lemma_index_vector_len(idx, k, count, c);
        different_slices_are_disjoint(shape, index_vector(idx, k, m), index_vector(idx, k, c));
    }
    last_block_wins(data, updates, plan.blocks@, size, count, m, i);
}

/// The plan touches nothing else: a place outside every picked slice keeps its value.
pub proof fn other_places_are_kept<T>(
    shape: Seq<usize>,
    k: int,
    count: int,
    idx: Seq<i64>,
    plan: FastScatterConst,
    data: Seq<T>,
    updates: Seq<T>,
    i: int,
)
    requires
        indices_pick_slices(shape, k, count, idx),
        plan_is(shape, k, count, idx, plan),
        data.len() == tensor::volume(shape),
        updates.len() == count * tail_volume(shape, k),
        0 <= i < data.len(),
        forall|m: int|
            0 <= m < count ==> {
                let at = offset(shape, #[trigger] index_vector(idx, k, m), k);
                !(at <= i < at + tail_volume(shape, k))
            },
    ensures
        scattered(data, updates, plan.blocks@, plan.slice_size as int, count)[i] == data[i],
{
    plan_is_in_bounds(shape, k, count, idx, plan);
    assert forall|c: int| 0 <= c < count implies !((#[trigger] plan.blocks@[c]).0 <= i
        < plan.blocks@[c].0 + plan.slice_size) by {
        assert(plan.blocks@[c].0 == offset(shape, index_vector(idx, k, c), k));
    }
    uncovered_places_stay(data, updates, plan.blocks@, plan.slice_size as int, count, i);
}

} // verus!
