//! Shapes: the extents of a tensor, its number of elements, and the
//! row-major map from coordinates to storage offsets.

use vstd::prelude::*;

verus! {

/// The geometry of a rank-`N` tensor: one extent per axis, first axis first.
pub type Dim<const N: usize> = [usize; N];

/// Number of elements of a shape: the product of all extents, 1 for rank 0.
pub open spec fn element_count(extents: Seq<usize>) -> nat
    decreases extents.len(),
{
    if extents.len() == 0 {
        1
    } else {
        extents[0] as nat * element_count(extents.drop_first())
    }
}

/// Stride of `axis`: the product of the extents strictly to its right.
pub open spec fn stride(extents: Seq<usize>, axis: int) -> nat {
    element_count(extents.skip(axis + 1))
}

/// Sum of `coord[a] * stride(a)` over the axes `a >= axis`.
pub open spec fn offset_from(extents: Seq<usize>, coord: Seq<usize>, axis: int) -> nat
    decreases extents.len() - axis,
{
    if 0 <= axis < extents.len() {
        coord[axis] as nat * stride(extents, axis) + offset_from(extents, coord, axis + 1)
    } else {
        0
    }
}

/// Row-major linear offset of `coord`: the sum over all axes of
/// `coord[axis] * stride(axis)`.
pub open spec fn offset(extents: Seq<usize>, coord: Seq<usize>) -> nat {
    offset_from(extents, coord, 0)
}

/// `coord` names an element of the shape: one index per axis, each below
/// the extent of its axis.
pub open spec fn in_bounds(extents: Seq<usize>, coord: Seq<usize>) -> bool {
    &&& coord.len() == extents.len()
    &&& forall|axis: int| 0 <= axis < extents.len() ==> coord[axis] < extents[axis]
}

/// No axis of the shape is empty.
pub open spec fn all_positive(extents: Seq<usize>) -> bool {
    forall|axis: int| 0 <= axis < extents.len() ==> extents[axis] > 0
}

/// What a tensor asks of its shape: the number of elements and the place
/// of each element in row-major storage.
pub trait Dimension: Sized {
    /// A coordinate within the shape: one index per axis.
    type D: Sized;

    /// The extents of the shape, first axis first.
    spec fn extents(self) -> Seq<usize>;

    /// The per-axis indices of a coordinate, first axis first.
    spec fn indices(ind: Self::D) -> Seq<usize>;

    /// Row-major offset of the element at `ind`.
    ///
    /// Coordinates are not checked here: that `ind` lies within the shape
    /// is a precondition, which [`contains`] tests at run time.
    fn index(self, ind: Self::D) -> (at: usize)
        requires
            element_count(self.extents()) <= usize::MAX,
            in_bounds(self.extents(), Self::indices(ind)),
        ensures
            at == offset(self.extents(), Self::indices(ind)),
            at < element_count(self.extents()),
    ;

    /// Number of elements of the shape. That a `usize` can hold it is a
    /// precondition; [`checked_size`] finds out at run time.
    fn size(self) -> (n: usize)
        requires
            element_count(self.extents()) <= usize::MAX,
        ensures
            n == element_count(self.extents()),
    ;
}

impl<const N: usize> Dimension for Dim<N> {
    type D = Self;

    open spec fn extents(self) -> Seq<usize> {
        self@
    }

    open spec fn indices(ind: Self) -> Seq<usize> {
        ind@
    }

    fn index(self, ind: Dim<N>) -> (at: usize) {
        let mut at: usize = 0;
        let mut weight: usize = 1;
        let mut axis: usize = N;
        proof {
            assert(self@.skip(N as int) =~= Seq::<usize>::empty());
            assert(all_positive(self@));
        }
        while axis > 0
            invariant
                axis <= N,
                self@.len() == N,
                in_bounds(self@, ind@),
                all_positive(self@),
                element_count(self@) <= usize::MAX,
                weight == element_count(self@.skip(axis as int)),
                at == offset_from(self@, ind@, axis as int),
            decreases axis,
        {
            axis = axis - 1;
            proof {
                lemma_element_count_unfold(self@, axis as int);
                lemma_suffix_count(self@, axis as int);
                lemma_offset_from_bound(self@, ind@, axis as int);
            }
            at = at + ind[axis] * weight;
            weight = self[axis] * weight;
        }
        proof {
            lemma_offset_in_range(self@, ind@);
        }
        at
    }

    fn size(self) -> (n: usize) {
        if has_empty_axis(&self) {
            return 0;
        }
        let mut n: usize = 1;
        let mut axis: usize = N;
        proof {
            assert(self@.skip(N as int) =~= Seq::<usize>::empty());
        }
        while axis > 0
            invariant
                axis <= N,
                self@.len() == N,
                all_positive(self@),
                element_count(self@) <= usize::MAX,
                n == element_count(self@.skip(axis as int)),
            decreases axis,
        {
            axis = axis - 1;
            proof {
                lemma_element_count_unfold(self@, axis as int);
                lemma_suffix_count(self@, axis as int);
            }
            n = self[axis] * n;
        }
        proof {
            assert(self@.skip(0) =~= self@);
        }
        n
    }
}

/// Whether some axis of the shape is empty, so that the shape holds no
/// element whatever its other extents are.
pub fn has_empty_axis<const N: usize>(dim: &Dim<N>) -> (empty: bool)
    ensures
        empty == !all_positive(dim@),
        empty ==> element_count(dim@) == 0,
{
    let mut axis: usize = 0;
    while axis < N
        invariant
            axis <= N,
            dim@.len() == N,
            forall|k: int| 0 <= k < axis ==> dim@[k] > 0,
        decreases N - axis,
    {
        if dim[axis] == 0 {
            proof {
                lemma_empty_axis(dim@, axis as int);
            }
            return true;
        }
        axis = axis + 1;
    }
    false
}

/// Number of elements of the shape, if a `usize` can hold it.
pub fn checked_size<const N: usize>(dim: &Dim<N>) -> (size: Option<usize>)
    ensures
        (match size {
            Some(n) => n == element_count(dim@),
            None => element_count(dim@) > usize::MAX,
        }),
{
    if has_empty_axis(dim) {
        return Some(0);
    }
    let mut n: usize = 1;
    let mut axis: usize = N;
    proof {
        assert(dim@.skip(N as int) =~= Seq::<usize>::empty());
    }
    while axis > 0
        invariant
            axis <= N,
            dim@.len() == N,
            all_positive(dim@),
            n == element_count(dim@.skip(axis as int)),
        decreases axis,
    {
        axis = axis - 1;
        proof {
            lemma_element_count_unfold(dim@, axis as int);
            lemma_suffix_count(dim@, axis as int);
        }
        match dim[axis].checked_mul(n) {
            Some(product) => {
                n = product;
            },
            None => {
                return None;
            },
        }
    }
    proof {
        assert(dim@.skip(0) =~= dim@);
    }
    Some(n)
}

/// Whether `ind` names an element of the shape: each index is below the
/// extent of its axis.
pub fn contains<const N: usize>(dim: &Dim<N>, ind: &Dim<N>) -> (inside: bool)
    ensures
        inside == in_bounds(dim@, ind@),
{
    let mut axis: usize = 0;
    while axis < N
        invariant
            axis <= N,
            dim@.len() == N,
            ind@.len() == N,
            forall|k: int| 0 <= k < axis ==> ind@[k] < dim@[k],
        decreases N - axis,
    {
        if ind[axis] >= dim[axis] {
            return false;
        }
        axis = axis + 1;
    }
    true
}

/// `axis` is the first axis on which the two shapes have different extents.
pub open spec fn differs_first_at(lhs: Seq<usize>, rhs: Seq<usize>, axis: int) -> bool {
    &&& 0 <= axis < lhs.len()
    &&& axis < rhs.len()
    &&& lhs[axis] != rhs[axis]
    &&& forall|k: int| 0 <= k < axis ==> lhs[k] == rhs[k]
}

/// Text of the fault that combining two tensors of different shapes raises.
pub const MISMATCH_MESSAGE: &'static str =
    "All dimensions of two tensors must be of the same size to add them.";

/// The fault that combining two tensors of different shapes raises: the
/// first axis on which their extents differ, and the two extents.
#[derive(Clone, Copy, Debug, PartialEq, Eq, Structural)]
pub struct ShapeMismatch {
    /// The first axis on which the extents differ.
    pub axis: usize,
    /// Extent of the left operand on that axis.
    pub left: usize,
    /// Extent of the right operand on that axis.
    pub right: usize,
}

impl ShapeMismatch {
    /// The fault names the first axis on which `lhs` and `rhs` differ, with
    /// the extent of each on it.
    pub open spec fn describes(self, lhs: Seq<usize>, rhs: Seq<usize>) -> bool {
        &&& differs_first_at(lhs, rhs, self.axis as int)
        &&& self.left == lhs[self.axis as int]
        &&& self.right == rhs[self.axis as int]
    }

    /// What to tell a reader about the fault.
    pub fn message(&self) -> (text: String)
        ensures
            text@ == MISMATCH_MESSAGE@,
    {
        MISMATCH_MESSAGE.to_owned()
    }
}

/// Two shapes of one rank are compatible when their extents are equal on
/// every axis; if they are not, the first axis on which they differ is
/// reported.
pub fn check_compatible<const N: usize>(lhs: &Dim<N>, rhs: &Dim<N>) -> (res: Result<
    (),
    ShapeMismatch,
>)
    ensures
        (match res {
            Ok(()) => lhs@ == rhs@,
            Err(fault) => fault.describes(lhs@, rhs@),
        }),
{
    let mut axis: usize = 0;
    while axis < N
        invariant
            axis <= N,
            lhs@.len() == N,
            rhs@.len() == N,
            forall|k: int| 0 <= k < axis ==> lhs@[k] == rhs@[k],
        decreases N - axis,
    {
        if lhs[axis] != rhs[axis] {
            return Err(ShapeMismatch { axis, left: lhs[axis], right: rhs[axis] });
        }
        axis = axis + 1;
    }
    assert(lhs@ =~= rhs@);
    Ok(())
}

/// Row-major law for rank 2: in a shape of `rows` by `cols`, the element
/// at row `i`, column `j` lies at offset `i * cols + j`.
pub proof fn lemma_offset_rank_two(rows: usize, cols: usize, i: usize, j: usize)
    ensures
        offset(seq![rows, cols], seq![i, j]) == i * cols + j,
{
    let extents = seq![rows, cols];
    let coord = seq![i, j];
    assert(extents.skip(2) =~= Seq::<usize>::empty());
    lemma_element_count_unfold(extents, 1);
    assert(stride(extents, 1) == 1);
    assert(stride(extents, 0) == cols) by {
        assert(cols as nat * 1 == cols) by (nonlinear_arith);
    }
    assert(offset_from(extents, coord, 2) == 0);
    assert(offset_from(extents, coord, 1) == j) by {
        assert(j as nat * 1 == j) by (nonlinear_arith);
    }
    assert(offset_from(extents, coord, 0) == i * cols + j);
}

/// Rank 1: a shape of one axis of `len` elements holds `len` elements, and
/// the element at `[i]` lies at offset `i`.
pub proof fn lemma_offset_rank_one(len: usize, i: usize)
    ensures
        element_count(seq![len]) == len,
        offset(seq![len], seq![i]) == i,
{
    let extents = seq![len];
    let coord = seq![i];
    assert(extents.skip(1) =~= Seq::<usize>::empty());
    lemma_element_count_unfold(extents, 0);
    assert(extents.skip(0) =~= extents);
    assert(len as nat * 1 == len) by (nonlinear_arith);
    assert(i as nat * 1 == i) by (nonlinear_arith);
    assert(offset_from(extents, coord, 1) == 0);
}

/// An in-bounds coordinate maps to an offset below the element count.
pub proof fn lemma_offset_in_range(extents: Seq<usize>, coord: Seq<usize>)
    requires
        in_bounds(extents, coord),
    ensures
        offset(extents, coord) < element_count(extents),
{
    lemma_offset_from_bound(extents, coord, 0);
    assert(extents.skip(0) =~= extents);
}

/// Distinct in-bounds coordinates have distinct offsets.
pub proof fn lemma_offset_injective(extents: Seq<usize>, a: Seq<usize>, b: Seq<usize>)
    requires
        in_bounds(extents, a),
        in_bounds(extents, b),
        offset(extents, a) == offset(extents, b),
    ensures
        a == b,
{
    lemma_offset_from_injective(extents, a, b, 0);
    assert(a =~= b);
}

/// Two in-bounds coordinates to which the axes from `axis` on contribute
/// the same amount agree on all of these axes.
proof fn lemma_offset_from_injective(
    extents: Seq<usize>,
    a: Seq<usize>,
    b: Seq<usize>,
    axis: int,
)
    requires
        in_bounds(extents, a),
        in_bounds(extents, b),
        0 <= axis <= extents.len(),
        offset_from(extents, a, axis) == offset_from(extents, b, axis),
    ensures
        forall|k: int| axis <= k < extents.len() ==> a[k] == b[k],
    decreases extents.len() - axis,
{
    if axis < extents.len() {
        lemma_offset_from_bound(extents, a, axis + 1);
        lemma_offset_from_bound(extents, b, axis + 1);
        lemma_quotient_unique(
            a[axis] as nat,
            offset_from(extents, a, axis + 1),
            b[axis] as nat,
            offset_from(extents, b, axis + 1),
            stride(extents, axis),
        );
        lemma_offset_from_injective(extents, a, b, axis + 1);
    }
}

/// `q * s + r` with `r < s` determines `q`.
proof fn lemma_quotient_unique(q1: nat, r1: nat, q2: nat, r2: nat, s: nat)
    requires
        r1 < s,
        r2 < s,
        q1 * s + r1 == q2 * s + r2,
    ensures
        q1 == q2,
        r1 == r2,
{
    if q1 < q2 {
        assert((q1 + 1) * s <= q2 * s) by (nonlinear_arith)
            requires
                q1 + 1 <= q2,
        ;
        assert((q1 + 1) * s == q1 * s + s) by (nonlinear_arith);
    } else if q2 < q1 {
        assert((q2 + 1) * s <= q1 * s) by (nonlinear_arith)
            requires
                q2 + 1 <= q1,
        ;
        assert((q2 + 1) * s == q2 * s + s) by (nonlinear_arith);
    }
}

/// The element count of a suffix unfolds at its first axis.
proof fn lemma_element_count_unfold(extents: Seq<usize>, axis: int)
    requires
        0 <= axis < extents.len(),
    ensures
        element_count(extents.skip(axis)) == extents[axis] as nat * element_count(
            extents.skip(axis + 1),
        ),
{
    assert(extents.skip(axis).drop_first() =~= extents.skip(axis + 1));
}

/// A shape with an empty axis has no elements.
proof fn lemma_empty_axis(extents: Seq<usize>, axis: int)
    requires
        0 <= axis < extents.len(),
        extents[axis] == 0,
    ensures
        element_count(extents) == 0,
    decreases axis,
{
    if axis > 0 {
        lemma_empty_axis(extents.drop_first(), axis - 1);
        assert(extents[0] as nat * 0 == 0) by (nonlinear_arith);
    }
}

/// In a shape without an empty axis, every suffix of the extents has at
/// least one element and at most as many as the whole shape.
proof fn lemma_suffix_count(extents: Seq<usize>, axis: int)
    requires
        all_positive(extents),
        0 <= axis <= extents.len(),
    ensures
        1 <= element_count(extents.skip(axis)) <= element_count(extents),
    decreases axis,
{
    if axis == 0 {
        assert(extents.skip(0) =~= extents);
        lemma_suffix_count_positive(extents);
    } else {
        lemma_suffix_count(extents, axis - 1);
        lemma_element_count_unfold(extents, axis - 1);
        let head = extents[axis - 1] as nat;
        let tail = element_count(extents.skip(axis));
        assert(head >= 1 && head * tail >= 1 ==> 1 <= tail <= head * tail) by (nonlinear_arith);
    }
}

/// A shape without an empty axis has at least one element.
proof fn lemma_suffix_count_positive(extents: Seq<usize>)
    requires
        all_positive(extents),
    ensures
        element_count(extents) >= 1,
    decreases extents.len(),
{
    if extents.len() > 0 {
        let rest = extents.drop_first();
        assert(all_positive(rest)) by {
            assert forall|axis: int| 0 <= axis < rest.len() implies rest[axis] > 0 by {
                assert(rest[axis] == extents[axis + 1]);
            }
        }
        lemma_suffix_count_positive(rest);
        let head = extents[0] as nat;
        let tail = element_count(rest);
        assert(head >= 1 && tail >= 1 ==> head * tail >= 1) by (nonlinear_arith);
    }
}

/// The part of an in-bounds offset that the axes from `axis` on contribute
/// is smaller than the element count of those axes.
proof fn lemma_offset_from_bound(extents: Seq<usize>, coord: Seq<usize>, axis: int)
    requires
        in_bounds(extents, coord),
        0 <= axis <= extents.len(),
    ensures
        offset_from(extents, coord, axis) < element_count(extents.skip(axis)),
    decreases extents.len() - axis,
{
    if axis < extents.len() {
        lemma_offset_from_bound(extents, coord, axis + 1);
        lemma_element_count_unfold(extents, axis);
        let c = coord[axis] as nat;
        let e = extents[axis] as nat;
        let s = stride(extents, axis);
        let rest = offset_from(extents, coord, axis + 1);
        assert(c < e && rest < s ==> c * s + rest < e * s) by (nonlinear_arith);
    } else {
        assert(extents.skip(axis) =~= Seq::<usize>::empty());
    }
}

} // verus!
