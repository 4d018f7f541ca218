//! Which elements of a tensor a plan replaces, and by what.
use vstd::prelude::*;

use crate::scatter;
use crate::scatter::{FastScatterConst, PlanError};
use crate::tensor;

verus! {

/// The product of the lengths of the axes from axis `n` on.
pub open spec fn product(shape: Seq<usize>, n: int) -> int
    decreases shape.len() - n,
{
    if n >= shape.len() {
        1
    } else {
        shape[n] * product(shape, n + 1)
    }
}

/// The number of the element with the first `n` indices of `idx` from place `lo` on, where the
/// elements of the first `n` axes are counted row by row, the last index running fastest.
pub open spec fn number_of(shape: Seq<usize>, idx: Seq<i64>, lo: int, n: int) -> int
    decreases n,
{
    if n <= 0 {
        0
    } else {
        number_of(shape, idx, lo, n - 1) * shape[n - 1] + idx[lo + n - 1]
    }
}

proof fn lemma_product(shape: Seq<usize>, n: int)
    requires
        0 <= n <= shape.len(),
    ensures
        scatter::tail_volume(shape, n) == product(shape, n),
        product(shape, n) >= 0,
    decreases shape.len() - n,
{
    scatter::lemma_volume_nonnegative(shape.skip(n));
    if n < shape.len() {
        lemma_product(shape, n + 1);
        assert(shape.skip(n).drop_first() =~= shape.skip(n + 1));
        assert(shape.skip(n)[0] == shape[n]);
    } else {
        assert(shape.skip(n) =~= Seq::<usize>::empty());
    }
}

proof fn lemma_volume(shape: Seq<usize>)
    ensures
        tensor::volume(shape) == product(shape, 0),
        product(shape, 0) >= 0,
{
    lemma_product(shape, 0);
    assert(shape.skip(0) =~= shape);
}

proof fn lemma_place(shape: Seq<usize>, idx: Seq<i64>, k: int, m: int, n: int)
    requires
        0 <= n <= k <= shape.len(),
        0 <= m * k,
        m * k + k <= idx.len(),
    ensures
        scatter::offset(shape, scatter::index_vector(idx, k, m), n) == number_of(
            shape,
            idx,
            m * k,
            n,
        ) * product(shape, n),
    decreases n,
{
    if n > 0 {
        lemma_place(shape, idx, k, m, n - 1);
        lemma_product(shape, n - 1);
        lemma_product(shape, n);
        let before = number_of(shape, idx, m * k, n - 1);
        let c = idx[m * k + n - 1] as int;
        let s = shape[n - 1] as int;
        let p = product(shape, n);
        assert(scatter::index_vector(idx, k, m)[n - 1] == c);
        assert(product(shape, n - 1) == s * p);
        assert(before * (s * p) + c * p == (before * s + c) * p) by (nonlinear_arith);
    }
}

proof fn lemma_vector_in_range(idx: Seq<i64>, k: int, count: int, m: int)
    requires
        0 <= k,
        0 <= m < count,
        idx.len() == count * k,
    ensures
        0 <= m * k,
        m * k + k <= idx.len(),
{
    assert(0 <= m * k && m * k + k <= count * k) by (nonlinear_arith)
        requires
            0 <= m,
            m + 1 <= count,
            0 <= k,
    ;
}

/// A planned result, in terms of products and places.
#[verifier::rlimit(60)]
proof fn lemma_result(
    shape: Seq<usize>,
    idx_shape: Seq<usize>,
    idx: Seq<i64>,
    r: Result<FastScatterConst, PlanError>,
)
    requires
        shape.len() <= usize::MAX,
        idx.len() == product(idx_shape, 0),
        scatter::plan_result_is(shape, idx_shape, idx, r),
    ensures
        idx_shape.len() == 0 <==> r == Err::<FastScatterConst, PlanError>(PlanError::NoRank),
        idx_shape.len() > 0 && idx_shape.last() > shape.len() <==> (r matches Err(
            PlanError::TooWide { width, rank },
        ) && width == idx_shape.last() && rank == shape.len()),
        idx_shape.len() > 0 && idx_shape.last() <= shape.len() ==> {
            let k = idx_shape.last() as int;
            let count = product(idx_shape.drop_last(), 0);
            &&& (exists|i: int| 0 <= i < idx.len() && #[trigger] idx[i] < 0) <==> r == Err::<
                FastScatterConst,
                PlanError,
            >(PlanError::NegativeIndex)
            &&& idx.len() == count * k
            &&& r matches Err(PlanError::TooLarge) ==> {
                ||| exists|n: int|
                    1 <= n <= shape.len() && #[trigger] product(shape, n) > usize::MAX
                ||| product(shape, k) > usize::MAX
                ||| count > usize::MAX
                ||| exists|m: int|
                    0 <= m < count && (#[trigger] number_of(shape, idx, m * k, k) * product(
                        shape,
                        k,
                    ) > usize::MAX || m * product(shape, k) > usize::MAX)
            }
            &&& r matches Err(e) ==> e == PlanError::NegativeIndex || e == PlanError::TooLarge
            &&& r matches Ok(plan) ==> {
                &&& plan.slice_size == product(shape, k)
                &&& plan.blocks@.len() == count
                &&& forall|m: int|
                    0 <= m < count ==> {
                        &&& (#[trigger] plan.blocks@[m]).0 == number_of(shape, idx, m * k, k)
                            * product(shape, k)
                        &&& plan.blocks@[m].1 == m * product(shape, k)
                    }
            }
        },
{
    if idx_shape.len() > 0 && idx_shape.last() <= shape.len() {
        let k = idx_shape.last() as int;
        let count = scatter::index_count(idx_shape);
        lemma_volume(idx_shape.drop_last());
        lemma_product_last(idx_shape, 0);
        lemma_product(shape, k);
        assert forall|m: int| 0 <= m < count implies scatter::offset(
            shape,
            #[trigger] scatter::index_vector(idx, k, m),
            k,
        ) == number_of(shape, idx, m * k, k) * product(shape, k) by {
            lemma_vector_in_range(idx, k, count, m);
            lemma_place(shape, idx, k, m, k);
        }
        if r matches Err(PlanError::TooLarge) {
            assert(!scatter::plan_fits(shape, k, count, idx));
            if !(forall|n: int|
                1 <= n <= shape.len() ==> #[trigger] scatter::tail_volume(shape, n) <= usize::MAX) {
                let n = choose|n: int|
                    1 <= n <= shape.len() && #[trigger] scatter::tail_volume(shape, n)
                        > usize::MAX;
                lemma_product(shape, n);
                assert(product(shape, n) > usize::MAX);
            } else if product(shape, k) <= usize::MAX && count <= usize::MAX {
                let m = choose|m: int|
                    0 <= m < count && !({
                        &&& scatter::offset(shape, #[trigger] scatter::index_vector(idx, k, m), k)
                            <= usize::MAX
                        &&& m * scatter::tail_volume(shape, k) <= usize::MAX
                    });
                assert(number_of(shape, idx, m * k, k) * product(shape, k) > usize::MAX || m
                    * product(shape, k) > usize::MAX);
            }
        }
        if r is Ok {
            let plan = r->Ok_0;
            assert forall|m: int| 0 <= m < count implies {
                &&& (#[trigger] plan.blocks@[m]).0 == number_of(shape, idx, m * k, k) * product(
                    shape,
                    k,
                )
                &&& plan.blocks@[m].1 == m * product(shape, k)
            } by {
                assert(plan.blocks@[m].0 == scatter::offset(
                    shape,
                    scatter::index_vector(idx, k, m),
                    k,
                ));
            }
        }
    }
}

/// The product of all axes is that of all but the last, times the last.
proof fn lemma_product_last(shape: Seq<usize>, n: int)
    requires
        0 <= n < shape.len(),
    ensures
        product(shape, n) == product(shape.drop_last(), n) * shape.last(),
    decreases shape.len() - n,
{
    if n + 1 < shape.len() {
        lemma_product_last(shape, n + 1);
        let a = shape[n] as int;
        let b = product(shape.drop_last(), n + 1);
        let c = shape.last() as int;
        assert(a * (b * c) == (a * b) * c) by (nonlinear_arith);
    } else {
        assert(product(shape, n + 1) == 1);
        assert(product(shape.drop_last(), n) == 1);
    }
}

/// A plan has a block for every index vector, as many as the axes of the indices but the last have
/// elements. All blocks are as long as the axes that the index vectors leave open have elements.
/// Block `m` comes from place `m` blocks on in the updates, and goes to where the element with
/// its indices stands, row by row. There is no plan exactly if the indices have no axes, are too
/// wide, one of them is negative, or a size or place does not fit in a machine word, in this order.
pub proof fn blocks_go_where_their_indices_say(
    data_shape: &[usize],
    idx_shape: &[usize],
    idx: &[i64],
    r: Result<FastScatterConst, PlanError>,
)
    requires
        idx@.len() == product(idx_shape@, 0),
        call_ensures(scatter::plan_blocks, (data_shape, idx_shape, idx), r),
    ensures
        idx_shape@.len() == 0 <==> r == Err::<FastScatterConst, PlanError>(PlanError::NoRank),
        idx_shape@.len() > 0 && idx_shape@.last() > data_shape@.len() <==> (r matches Err(
            PlanError::TooWide { width, rank },
        ) && width == idx_shape@.last() && rank == data_shape@.len()),
        idx_shape@.len() > 0 && idx_shape@.last() <= data_shape@.len() ==> {
            let k = idx_shape@.last() as int;
            let count = product(idx_shape@.drop_last(), 0);
            &&& (exists|i: int| 0 <= i < idx@.len() && #[trigger] idx@[i] < 0) <==> r == Err::<
                FastScatterConst,
                PlanError,
            >(PlanError::NegativeIndex)
            &&& idx@.len() == count * k
            &&& r matches Err(PlanError::TooLarge) ==> {
                ||| exists|n: int|
                    1 <= n <= data_shape@.len() && #[trigger] product(data_shape@, n) > usize::MAX
                ||| product(data_shape@, k) > usize::MAX
                ||| count > usize::MAX
                ||| exists|m: int|
                    0 <= m < count && (#[trigger] number_of(data_shape@, idx@, m * k, k) * product(
                        data_shape@,
                        k,
                    ) > usize::MAX || m * product(data_shape@, k) > usize::MAX)
            }
            &&& r matches Err(e) ==> e == PlanError::NegativeIndex || e == PlanError::TooLarge
            &&& r matches Ok(plan) ==> {
                &&& plan.slice_size == product(data_shape@, k)
                &&& plan.blocks@.len() == count
                &&& forall|m: int|
                    0 <= m < count ==> {
                        &&& (#[trigger] plan.blocks@[m]).0 == number_of(
                            data_shape@,
                            idx@,
                            m * k,
                            k,
                        ) * product(data_shape@, k)
                        &&& plan.blocks@[m].1 == m * product(data_shape@, k)
                    }
            }
        },
{
    lemma_volume(idx_shape@);
    assert(data_shape.len() == data_shape@.len());
    lemma_result(data_shape@, idx_shape@, idx@, r);
}

/// What comes of planning with a tensor of indices.
#[verifier::rlimit(60)]
pub proof fn lemma_build(
    shape: Seq<usize>,
    indices: &tract_onnx::prelude::Tensor,
    r: Result<FastScatterConst, PlanError>,
)
    requires
        shape.len() <= usize::MAX,
        scatter::build_result_is(shape, *indices, r),
    ensures
        ({
            let dims = tensor::tensor_dims(*indices);
            let ints = tensor::tensor_integers(*indices);
            let rank = shape.len();
            &&& tensor::tensor_is_plain(*indices) && ints is None ==> (r matches Err(
                PlanError::NotIntegers(_),
            ))
            &&& (!tensor::tensor_is_plain(*indices) || ints is Some) && dims.len() == 0 ==> r
                == Err::<FastScatterConst, PlanError>(PlanError::NoRank)
            &&& (!tensor::tensor_is_plain(*indices) || ints is Some) && dims.len() > 0
                && dims.last() > rank ==> r == Err::<FastScatterConst, PlanError>(
                PlanError::TooWide { width: dims.last(), rank: rank as usize },
            )
            &&& !tensor::tensor_is_plain(*indices) && dims.len() > 0 && dims.last() <= rank ==> r
                == Err::<FastScatterConst, PlanError>(PlanError::NotPlain)
            &&& tensor::tensor_is_plain(*indices) && ints is Some && dims.len() > 0 && dims.last()
                <= rank && product(dims, 0) > usize::MAX ==> r == Err::<
                FastScatterConst,
                PlanError,
            >(PlanError::TooLarge)
            &&& tensor::tensor_is_plain(*indices) && ints is Some && dims.len() > 0 && dims.last()
                <= rank && product(dims, 0) <= usize::MAX && ints->0.len() == product(dims, 0)
                && r is Ok ==> {
                let k = dims.last() as int;
                let count = product(dims.drop_last(), 0);
                let plan = r->Ok_0;
                &&& plan.slice_size == product(shape, k)
                &&& plan.blocks@.len() == count
                &&& forall|m: int|
                    0 <= m < count ==> {
                        &&& (#[trigger] plan.blocks@[m]).0 == number_of(
                            shape,
                            ints->0,
                            m * k,
                            k,
                        ) * product(shape, k)
                        &&& plan.blocks@[m].1 == m * product(shape, k)
                    }
            }
            &&& tensor::tensor_is_plain(*indices) && ints is Some && dims.len() > 0 && dims.last()
                <= rank && product(dims, 0) <= usize::MAX && ints->0.len() == product(dims, 0)
                && r is Err ==> {
                let k = dims.last() as int;
                let count = product(dims.drop_last(), 0);
                ||| r->Err_0 == PlanError::NegativeIndex && exists|i: int|
                    0 <= i < ints->0.len() && #[trigger] ints->0[i] < 0
                ||| r->Err_0 == PlanError::TooLarge && {
                    ||| exists|n: int|
                        1 <= n <= rank && #[trigger] product(shape, n) > usize::MAX
                    ||| product(shape, k) > usize::MAX
                    ||| count > usize::MAX
                    ||| exists|m: int|
                        0 <= m < count && (#[trigger] number_of(shape, ints->0, m * k, k)
                            * product(shape, k) > usize::MAX || m * product(shape, k)
                            > usize::MAX)
                }
            }
        }),
{
    let dims = tensor::tensor_dims(*indices);
    let ints = tensor::tensor_integers(*indices);
    lemma_volume(dims);
    if tensor::tensor_is_plain(*indices) && ints is Some && product(dims, 0) <= usize::MAX
        && ints->0.len() == product(dims, 0) {
        lemma_result(shape, dims, ints->0, r);
    } else if tensor::tensor_is_plain(*indices) && ints is Some && product(dims, 0) <= usize::MAX {
        assert(scatter::plan_result_is(shape, dims, ints->0, r));
        assert(dims.len() == 0 ==> r == Err::<FastScatterConst, PlanError>(PlanError::NoRank));
    }
}

/// With a tensor of indices that is stored in order and holds integers, the plan is that of its
/// shape and its elements. Without, there is none; what is wrong with the shape comes before
/// what is wrong with the storage, and after what is wrong with the elements.
pub proof fn tensors_of_indices_are_read_as_they_are(
    data_shape: &[usize],
    indices: &tract_onnx::prelude::Tensor,
    r: Result<FastScatterConst, PlanError>,
)
    requires
        call_ensures(scatter::build_plan, (data_shape, indices), r),
    ensures
        ({
            let dims = tensor::tensor_dims(*indices);
            let ints = tensor::tensor_integers(*indices);
            let rank = data_shape@.len();
            &&& tensor::tensor_is_plain(*indices) && ints is None ==> (r matches Err(
                PlanError::NotIntegers(_),
            ))
            &&& (!tensor::tensor_is_plain(*indices) || ints is Some) && dims.len() == 0 ==> r
                == Err::<FastScatterConst, PlanError>(PlanError::NoRank)
            &&& (!tensor::tensor_is_plain(*indices) || ints is Some) && dims.len() > 0
                && dims.last() > rank ==> r == Err::<FastScatterConst, PlanError>(
                PlanError::TooWide { width: dims.last(), rank: rank as usize },
            )
            &&& !tensor::tensor_is_plain(*indices) && dims.len() > 0 && dims.last() <= rank ==> r
                == Err::<FastScatterConst, PlanError>(PlanError::NotPlain)
            &&& tensor::tensor_is_plain(*indices) && ints is Some && dims.len() > 0 && dims.last()
                <= rank && product(dims, 0) > usize::MAX ==> r == Err::<
                FastScatterConst,
                PlanError,
            >(PlanError::TooLarge)
            &&& tensor::tensor_is_plain(*indices) && ints is Some && dims.len() > 0 && dims.last()
                <= rank && product(dims, 0) <= usize::MAX && ints->0.len() == product(dims, 0)
                && r is Ok ==> {
                let k = dims.last() as int;
                let count = product(dims.drop_last(), 0);
                let plan = r->Ok_0;
                &&& plan.slice_size == product(data_shape@, k)
                &&& plan.blocks@.len() == count
                &&& forall|m: int|
                    0 <= m < count ==> {
                        &&& (#[trigger] plan.blocks@[m]).0 == number_of(
                            data_shape@,
                            ints->0,
                            m * k,
                            k,
                        ) * product(data_shape@, k)
                        &&& plan.blocks@[m].1 == m * product(data_shape@, k)
                    }
            }
            &&& tensor::tensor_is_plain(*indices) && ints is Some && dims.len() > 0 && dims.last()
                <= rank && product(dims, 0) <= usize::MAX && ints->0.len() == product(dims, 0)
                && r is Err ==> {
                let k = dims.last() as int;
                let count = product(dims.drop_last(), 0);
                ||| r->Err_0 == PlanError::NegativeIndex && exists|i: int|
                    0 <= i < ints->0.len() && #[trigger] ints->0[i] < 0
                ||| r->Err_0 == PlanError::TooLarge && {
                    ||| exists|n: int|
                        1 <= n <= rank && #[trigger] product(data_shape@, n) > usize::MAX
                    ||| product(data_shape@, k) > usize::MAX
                    ||| count > usize::MAX
                    ||| exists|m: int|
                        0 <= m < count && (#[trigger] number_of(data_shape@, ints->0, m * k, k)
                            * product(data_shape@, k) > usize::MAX || m * product(data_shape@, k)
                            > usize::MAX)
                }
            }
        }),
{
    assert(data_shape.len() == data_shape@.len());
    lemma_build(data_shape@, indices, r);
}

// Copying.

/// The last block that covers a place decides what stands there in the end, and a place that none
/// covers keeps what it holds.
pub proof fn last_block_over_a_place_stays<T: Copy>(
    plan: &FastScatterConst,
    data: &mut [T],
    updates: &[T],
    b: int,
    i: int,
)
    requires
        plan.in_bounds(old(data)@.len() as int, updates@.len() as int),
        call_ensures(FastScatterConst::eval::<T>, (plan, data, updates), ()),
        0 <= i < old(data)@.len(),
    ensures
        final(data)@.len() == old(data)@.len(),
        0 <= b < plan.blocks@.len() && plan.blocks@[b].0 <= i < plan.blocks@[b].0 + plan.slice_size
            && (forall|c: int|
            b < c < plan.blocks@.len() ==> !((#[trigger] plan.blocks@[c]).0 <= i
                < plan.blocks@[c].0 + plan.slice_size)) ==> final(data)@[i]
            == updates@[plan.blocks@[b].1 + (i - plan.blocks@[b].0)],
        (forall|c: int|
            0 <= c < plan.blocks@.len() ==> !((#[trigger] plan.blocks@[c]).0 <= i
                < plan.blocks@[c].0 + plan.slice_size)) ==> final(data)@[i] == old(data)@[i],
{
    let blocks = plan.blocks@;
    let size = plan.slice_size as int;
    let n = blocks.len() as int;
    lemma_same_length(old(data)@, updates@, blocks, size, n);
    if 0 <= b < n && blocks[b].0 <= i < blocks[b].0 + size && (forall|c: int|
        b < c < n ==> !((#[trigger] blocks[c]).0 <= i < blocks[c].0 + size)) {
        scatter::last_block_wins(old(data)@, updates@, blocks, size, n, b, i);
    }
    if forall|c: int| 0 <= c < n ==> !((#[trigger] blocks[c]).0 <= i < blocks[c].0 + size) {
        scatter::uncovered_places_stay(old(data)@, updates@, blocks, size, n, i);
    }
}

proof fn lemma_same_length<T>(
    data: Seq<T>,
    updates: Seq<T>,
    blocks: Seq<(usize, usize)>,
    size: int,
    n: int,
)
    ensures
        scatter::scattered(data, updates, blocks, size, n).len() == data.len(),
    decreases n,
{
    if n > 0 {
        lemma_same_length(data, updates, blocks, size, n - 1);
    }
}

// From indices to elements.

/// The indices of vector `m` are those of vector `l`.
pub open spec fn same_indices(idx: Seq<i64>, k: int, m: int, l: int) -> bool {
    forall|j: int| 0 <= j < k ==> #[trigger] idx[m * k + j] == idx[l * k + j]
}

proof fn lemma_pick_slices(shape: Seq<usize>, k: int, count: int, idx: Seq<i64>)
    requires
        0 <= k <= shape.len(),
        idx.len() == count * k,
        forall|m: int, j: int|
            0 <= m < count && 0 <= j < k ==> 0 <= #[trigger] idx[m * k + j] < shape[j],
    ensures
        scatter::indices_pick_slices(shape, k, count, idx),
{
    assert forall|m: int| 0 <= m < count implies scatter::picks_slice(
        shape,
        #[trigger] scatter::index_vector(idx, k, m),
    ) by {
        lemma_vector_in_range(idx, k, count, m);
        let v = scatter::index_vector(idx, k, m);
        assert forall|j: int| 0 <= j < v.len() implies 0 <= #[trigger] v[j] < shape[j] by {
            assert(v[j] == idx[m * k + j]);
        }
    }
}

/// Planned and copied, every index vector's slice of the updates stands where the index vector
/// says, row by row, unless a later index vector says the same; and what no index vector picks is
/// as it was.
#[verifier::rlimit(60)]
pub proof fn picked_slices_hold_their_updates<T: Copy>(
    data_shape: &[usize],
    idx_shape: &[usize],
    idx: &[i64],
    r: Result<FastScatterConst, PlanError>,
    data: &mut [T],
    updates: &[T],
    m: int,
    t: int,
)
    requires
        idx_shape@.len() > 0,
        idx_shape@.last() <= data_shape@.len(),
        idx@.len() == product(idx_shape@, 0),
        call_ensures(scatter::plan_blocks, (data_shape, idx_shape, idx), r),
        r is Ok,
        old(data)@.len() == product(data_shape@, 0),
        updates@.len() == product(idx_shape@.drop_last(), 0) * product(
            data_shape@,
            idx_shape@.last() as int,
        ),
        forall|m: int, j: int|
            0 <= m < product(idx_shape@.drop_last(), 0) && 0 <= j < idx_shape@.last() ==> 0
                <= #[trigger] idx@[m * idx_shape@.last() + j] < data_shape@[j],
        call_ensures(FastScatterConst::eval::<T>, (&r->Ok_0, data, updates), ()),
        0 <= m < product(idx_shape@.drop_last(), 0),
        0 <= t < product(data_shape@, idx_shape@.last() as int),
        forall|l: int|
            m < l < product(idx_shape@.drop_last(), 0) ==> !#[trigger] same_indices(
                idx@,
                idx_shape@.last() as int,
                m,
                l,
            ),
    ensures
        r->Ok_0.in_bounds(old(data)@.len() as int, updates@.len() as int),
        final(data)@.len() == old(data)@.len(),
        ({
            let k = idx_shape@.last() as int;
            let size = product(data_shape@, k);
            let at = number_of(data_shape@, idx@, m * k, k) * size + t;
            &&& 0 <= at < final(data)@.len()
            &&& final(data)@[at] == updates@[m * size + t]
        }),
{
    let shape = data_shape@;
    let k = idx_shape@.last() as int;
    let count = product(idx_shape@.drop_last(), 0);
    let plan = r->Ok_0;
    lemma_volume(idx_shape@);
    lemma_volume(shape);
    lemma_volume(idx_shape@.drop_last());
    lemma_product_last(idx_shape@, 0);
    lemma_product(shape, k);
    assert(idx@.len() == count * k);
    lemma_pick_slices(shape, k, count, idx@);
    assert(scatter::plan_is(shape, k, count, idx@, plan));
    scatter::plan_is_in_bounds(shape, k, count, idx@, plan);
    lemma_same_length(
        old(data)@,
        updates@,
        plan.blocks@,
        plan.slice_size as int,
        plan.blocks@.len() as int,
    );
    lemma_vector_in_range(idx@, k, count, m);
    let mine = scatter::index_vector(idx@, k, m);
    assert forall|l: int| m < l < count implies #[trigger] scatter::index_vector(idx@, k, l)
        != mine by {
        let other = scatter::index_vector(idx@, k, l);
        lemma_vector_in_range(idx@, k, count, l);
        assert(!same_indices(idx@, k, m, l));
        let j = choose|j: int| 0 <= j < k && #[trigger] idx@[m * k + j] != idx@[l * k + j];
        assert(mine[j] == idx@[m * k + j]);
        assert(other[j] == idx@[l * k + j]);
    }
    scatter::picked_slices_are_replaced(
        shape,
        k,
        count,
        idx@,
        plan,
        old(data)@,
        updates@,
        m,
        t,
    );
    lemma_place(shape, idx@, k, m, k);
    assert(plan.blocks@[m].0 + plan.slice_size <= old(data)@.len());
}

/// What no index vector picks is as it was.
pub proof fn places_outside_all_slices_are_kept<T: Copy>(
    data_shape: &[usize],
    idx_shape: &[usize],
    idx: &[i64],
    r: Result<FastScatterConst, PlanError>,
    data: &mut [T],
    updates: &[T],
    i: int,
)
    requires
        idx_shape@.len() > 0,
        idx_shape@.last() <= data_shape@.len(),
        idx@.len() == product(idx_shape@, 0),
        call_ensures(scatter::plan_blocks, (data_shape, idx_shape, idx), r),
        r is Ok,
        r->Ok_0.in_bounds(old(data)@.len() as int, updates@.len() as int),
        call_ensures(FastScatterConst::eval::<T>, (&r->Ok_0, data, updates), ()),
        0 <= i < old(data)@.len(),
        ({
            let k = idx_shape@.last() as int;
            let size = product(data_shape@, k);
            forall|m: int|
                0 <= m < product(idx_shape@.drop_last(), 0) ==> !(#[trigger] number_of(
                    data_shape@,
                    idx@,
                    m * k,
                    k,
                ) * size <= i < number_of(data_shape@, idx@, m * k, k) * size + size)
        }),
    ensures
        final(data)@.len() == old(data)@.len(),
        final(data)@[i] == old(data)@[i],
{
    let shape = data_shape@;
    let k = idx_shape@.last() as int;
    let count = product(idx_shape@.drop_last(), 0);
    let plan = r->Ok_0;
    lemma_volume(idx_shape@);
    assert(data_shape.len() == data_shape@.len());
    lemma_result(shape, idx_shape@, idx@, r);
    assert forall|c: int| 0 <= c < plan.blocks@.len() implies !((#[trigger] plan.blocks@[c]).0 <= i
        < plan.blocks@[c].0 + plan.slice_size) by {
        let at = number_of(shape, idx@, c * k, k) * product(shape, k);
        assert(!(at <= i < at + product(shape, k)));
    }
    last_block_over_a_place_stays(&plan, data, updates, 0, i);
}

} // verus!
