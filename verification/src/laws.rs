//! Library-wide laws, stated and proved once over the spec-level models
//! that the public contracts speak of.

use vstd::prelude::*;

use crate::tensor::add_vals;
use crate::tensor::lemma_flat_decomp;
use crate::tensor::relu_vals;
use crate::tensor::Tensor;

verus! {

/// Elementwise addition is commutative: for equally long flat value
/// sequences, summing in either order gives the same sequence, so
/// `add(a, b)` and `add(b, a)` agree elementwise for equal shapes.
pub proof fn lemma_add_commutes(x: Seq<int>, y: Seq<int>)
    requires
        x.len() == y.len(),
    ensures
        add_vals(x, y) == add_vals(y, x),
{
    assert(add_vals(x, y) =~= add_vals(y, x));
}

/// The rectifier is idempotent — applying it twice gives the same values
/// as applying it once — and every rectified value is non-negative.
pub proof fn lemma_relu_idempotent(v: Seq<int>)
    ensures
        relu_vals(relu_vals(v)) == relu_vals(v),
        forall|t: int| 0 <= t < v.len() ==> #[trigger] relu_vals(v)[t] >= 0,
{
    assert(relu_vals(relu_vals(v)) =~= relu_vals(v));
}

/// Reshaping keeps the element count and the flat row-major element order,
/// so reshaping to another shape and back to the original shape recovers
/// the original buffer exactly. The hypotheses are precisely what
/// `reshape`'s contract gives for each of the two calls.
pub proof fn lemma_reshape_round_trip(original: Tensor, reshaped: Tensor, restored: Tensor)
    requires
        original.wf(),
        restored.wf(),
        !original.column_major,
        !restored.column_major,
        reshaped.vals() == original.vals(),
        restored.vals() == reshaped.vals(),
        restored.rows == original.rows,
        restored.cols == original.cols,
    ensures
        restored.vals() == original.vals(),
        restored.data@ == original.data@,
{
    assert forall|p: int| 0 <= p < original.data@.len() implies restored.data@[p]
        == original.data@[p] by {
        lemma_flat_decomp(p, original.rows as int, original.cols as int);
        assert(restored.vals()[p] == restored.data@[p] as int);
        assert(original.vals()[p] == original.data@[p] as int);
    }
    assert(restored.data@ =~= original.data@);
}

} // verus!
