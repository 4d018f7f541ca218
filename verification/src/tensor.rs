//! The parts of tract's tensors that the graph rewriting reads.
use vstd::prelude::*;

verus! {

/// The tensors of the inference engine. Opaque here: what the rewriting reads of one is named by
/// [`tensor_dims`], [`tensor_is_plain`] and [`tensor_integers`].
#[verifier::external_type_specification]
#[verifier::external_body]
pub struct ExTensor(tract_onnx::prelude::Tensor);

/// The length of each axis of a tensor.
pub uninterp spec fn tensor_dims(t: tract_onnx::prelude::Tensor) -> Seq<usize>;

/// Whether a tensor stores its elements one after the other.
pub uninterp spec fn tensor_is_plain(t: tract_onnx::prelude::Tensor) -> bool;

/// The elements of a tensor in storage order, cast to 64-bit integers; nothing where the cast
/// fails.
pub uninterp spec fn tensor_integers(t: tract_onnx::prelude::Tensor) -> Option<Seq<i64>>;

/// The product of the lengths of all axes: how many elements a shape has.
pub open spec fn volume(shape: Seq<usize>) -> int
    decreases shape.len(),
{
    if shape.len() == 0 {
        1
    } else {
        shape[0] * volume(shape.drop_first())
    }
}

/// `Tensor::shape`, handed out as a vector. Nothing more is claimed than that it depends on the
/// tensor alone.
#[verifier::external_body]
pub(crate) fn shape_of(t: &tract_onnx::prelude::Tensor) -> (r: Vec<usize>)
    ensures
        r@ == tensor_dims(*t),
{
    t.shape().to_vec()
}

/// `Tensor::is_plain`. Nothing more is claimed than that it depends on the tensor alone.
#[verifier::external_body]
pub(crate) fn is_plain(t: &tract_onnx::prelude::Tensor) -> (r: bool)
    ensures
        r == tensor_is_plain(*t),
{
    t.is_plain()
}

/// `Tensor::cast_to` for 64-bit integers, read out through `PlainView::as_slice`. Claimed is that
/// whether the cast succeeds, and the elements that it gives, depend on the tensor alone, and that
/// there are as many elements as the shape has, if their number fits in a machine word; the length
/// of a tensor is computed in one. Of the text of a failure nothing is said: it may print symbols,
/// and how a symbol prints depends on whether its scope is still alive. Casting a tensor that is
/// not plain may panic, so such tensors are left out.
#[verifier::external_body]
pub(crate) fn integers_of(t: &tract_onnx::prelude::Tensor) -> (r: Result<Vec<i64>, String>)
    requires
        tensor_is_plain(*t),
    ensures
        r matches Ok(v) ==> tensor_integers(*t) == Some(v@),
        r is Err ==> tensor_integers(*t) is None,
        r matches Ok(v) ==> volume(tensor_dims(*t)) <= usize::MAX ==> v@.len() == volume(
            tensor_dims(*t),
        ),
{
    let cast = t.cast_to::<i64>().map_err(|e| e.to_string())?;
    let plain = cast.try_as_plain().map_err(|e| e.to_string())?;
    let slice = plain.as_slice::<i64>().map_err(|e| e.to_string())?;
    Ok(slice.to_vec())
}

} // verus!
