//! The tensor: a shape with its elements in row-major storage, access by
//! coordinate, deep copy and elementwise addition.

use crate::scalar::{can_add, is_default, is_sum, Scalar};
use crate::shape::{
    check_compatible, element_count, in_bounds, lemma_offset_in_range, lemma_offset_injective,
    lemma_offset_rank_one, offset, Dim, Dimension, ShapeMismatch,
};
use vstd::prelude::*;

verus! {

/// A dense array of rank `N`: a shape and, in row-major order, one element
/// for each coordinate within the shape.
#[derive(Debug)]
pub struct Tensor<T, const N: usize> {
    data: Vec<T>,
    dim: Dim<N>,
}

impl<T, const N: usize> View for Tensor<T, N> {
    type V = Seq<T>;

    /// The elements in storage order.
    closed spec fn view(&self) -> Seq<T> {
        self.data@
    }
}

impl<T, const N: usize> Tensor<T, N> {
    /// The shape; contracts write it `dim()`.
    pub closed spec fn spec_dim(&self) -> Dim<N> {
        self.dim
    }

    /// The storage holds exactly one element per coordinate of the shape.
    /// Every tensor that a program holds is well formed.
    #[verifier::type_invariant]
    pub open spec fn well_formed(&self) -> bool {
        self@.len() == element_count(self.dim()@)
    }

    /// The element at `coord`.
    pub open spec fn element(&self, coord: Seq<usize>) -> T {
        self@[offset(self.dim()@, coord) as int]
    }

    /// The shape.
    #[verifier::when_used_as_spec(spec_dim)]
    pub fn dim(&self) -> (dim: Dim<N>)
        ensures
            dim == self.spec_dim(),
    {
        self.dim
    }

    /// Number of elements.
    pub fn size(&self) -> (n: usize)
        ensures
            n == self@.len(),
            n == element_count(self.dim()@),
    {
        proof {
            use_type_invariant(self);
        }
        self.data.len()
    }

    /// The elements in storage order.
    pub fn data(&self) -> (data: &[T])
        ensures
            data@ == self@,
    {
        self.data.as_slice()
    }
}

impl<T: Scalar, const N: usize> Tensor<T, N> {
    /// A tensor of shape `dim` in which every element is the default value
    /// of `T`. The number of elements has to fit in a `usize`.
    pub fn new(dim: Dim<N>) -> (t: Tensor<T, N>)
        requires
            element_count(dim@) <= usize::MAX,
        ensures
            t.dim() == dim,
            t@.len() == element_count(dim@),
            forall|i: int| 0 <= i < t@.len() ==> is_default(#[trigger] t@[i]),
            forall|i: int, j: int| 0 <= i < t@.len() && 0 <= j < t@.len() ==> t@[i] == t@[j],
    {
        let size: usize = dim.size();
        let zero: T = T::default();
        let mut data: Vec<T> = Vec::with_capacity(size);
        while data.len() < size
            invariant
                data@.len() <= size,
                forall|i: int| 0 <= i < data@.len() ==> data@[i] == zero,
            decreases size - data@.len(),
        {
            data.push(zero);
        }
        Tensor { data, dim }
    }
}

impl<T, const N: usize> Tensor<T, N> {
    /// The element at `ind`.
    ///
    /// Coordinates are not checked here: that `ind` lies within the shape
    /// is a precondition, as on every other access path. A caller that
    /// cannot know it tests it with [`contains`](crate::shape::contains).
    pub fn index(&self, ind: Dim<N>) -> (elem: &T)
        requires
            in_bounds(self.dim()@, ind@),
        ensures
            offset(self.dim()@, ind@) < self@.len(),
            *elem == self.element(ind@),
    {
        proof {
            use_type_invariant(self);
            assert(self.data@.len() == self.data.len());
        }
        let at: usize = self.dim.index(ind);
        &self.data[at]
    }

    /// The element at `ind`, for writing: what is stored through the
    /// reference becomes the element at `ind`, and no other element changes.
    pub fn index_mut(&mut self, ind: Dim<N>) -> (elem: &mut T)
        requires
            in_bounds(old(self).dim()@, ind@),
        ensures
            offset(old(self).dim()@, ind@) < old(self)@.len(),
            *elem == old(self).element(ind@),
            final(self).dim() == old(self).dim(),
            final(self)@ == old(self)@.update(
                offset(old(self).dim()@, ind@) as int,
                *final(elem),
            ),
    {
        proof {
            use_type_invariant(&*self);
            assert(self.data@.len() == self.data.len());
        }
        let at: usize = self.dim.index(ind);
        &mut self.data[at]
    }
}

impl<T> Tensor<T, 1> {
    /// The element at `ind` of a rank-1 tensor: `ind` stands for the
    /// coordinate `[ind]`.
    pub fn at(&self, ind: usize) -> (elem: &T)
        requires
            ind < self.dim()[0],
        ensures
            ind < self@.len(),
            *elem == self@[ind as int],
            *elem == self.element(seq![ind]),
    {
        proof {
            use_type_invariant(self);
            assert(self.dim@ =~= seq![self.dim[0]]);
            lemma_offset_rank_one(self.dim[0], ind);
        }
        &self.data[ind]
    }

    /// The element at `ind` of a rank-1 tensor, for writing.
    pub fn at_mut(&mut self, ind: usize) -> (elem: &mut T)
        requires
            ind < old(self).dim()[0],
        ensures
            ind < old(self)@.len(),
            *elem == old(self)@[ind as int],
            *elem == old(self).element(seq![ind]),
            final(self).dim() == old(self).dim(),
            final(self)@ == old(self)@.update(ind as int, *final(elem)),
    {
        proof {
            use_type_invariant(&*self);
            assert(self.dim@ =~= seq![self.dim[0]]);
            lemma_offset_rank_one(self.dim[0], ind);
        }
        &mut self.data[ind]
    }
}

impl<T: Copy, const N: usize> Clone for Tensor<T, N> {
    /// An independent tensor of the same shape with the same elements.
    fn clone(&self) -> (copy: Self)
        ensures
            copy.dim() == self.dim(),
            copy@ == self@,
    {
        proof {
            use_type_invariant(self);
        }
        let size: usize = self.data.len();
        let mut data: Vec<T> = Vec::with_capacity(size);
        while data.len() < size
            invariant
                size == self.data@.len(),
                data@.len() <= size,
                data@ == self.data@.take(data@.len() as int),
            decreases size - data@.len(),
        {
            data.push(self.data[data.len()]);
        }
        Tensor { data, dim: self.dim }
    }
}

/// Each element of `lhs` can be added to the element of `rhs` at the same
/// offset.
pub open spec fn can_add_all<T: Scalar>(lhs: Seq<T>, rhs: Seq<T>) -> bool {
    forall|i: int| 0 <= i < lhs.len() && i < rhs.len() ==> #[trigger] can_add(lhs[i], rhs[i])
}

/// `out` holds, at each offset, a sum of the elements of `lhs` and `rhs` at
/// that offset.
pub open spec fn is_elementwise_sum<T: Scalar>(lhs: Seq<T>, rhs: Seq<T>, out: Seq<T>) -> bool {
    &&& out.len() == lhs.len()
    &&& forall|i: int| 0 <= i < lhs.len() ==> is_sum(lhs[i], rhs[i], #[trigger] out[i])
}

/// `rhs` can be added to each element of `lhs`.
pub open spec fn can_add_scalar<T: Scalar>(lhs: Seq<T>, rhs: T) -> bool {
    forall|i: int| 0 <= i < lhs.len() ==> #[trigger] can_add(lhs[i], rhs)
}

/// `out` holds, at each offset, a sum of the element of `lhs` at that
/// offset and `rhs`.
pub open spec fn is_scalar_sum<T: Scalar>(lhs: Seq<T>, rhs: T, out: Seq<T>) -> bool {
    &&& out.len() == lhs.len()
    &&& forall|i: int| 0 <= i < lhs.len() ==> is_sum(lhs[i], rhs, #[trigger] out[i])
}

impl<T: Scalar, const N: usize> Tensor<T, N> {
    /// `self += rhs`: replaces each element of `self` by its sum with the
    /// element of `rhs` at the same coordinate.
    ///
    /// The shapes are compared before anything is written: if they differ,
    /// the fault is returned and `self` is as it was.
    pub fn add_assign(&mut self, rhs: &Tensor<T, N>) -> (res: Result<(), ShapeMismatch>)
        requires
            old(self).dim()@ == rhs.dim()@ ==> can_add_all(old(self)@, rhs@),
        ensures
            final(self).dim() == old(self).dim(),
            (match res {
                Ok(()) => {
                    &&& old(self).dim()@ == rhs.dim()@
                    &&& is_elementwise_sum(old(self)@, rhs@, final(self)@)
                    &&& forall|c: Seq<usize>|
                        in_bounds(rhs.dim()@, c) ==> is_sum(
                            old(self).element(c),
                            rhs.element(c),
                            #[trigger] final(self).element(c),
                        )
                },
                Err(fault) => {
                    &&& fault.describes(old(self).dim()@, rhs.dim()@)
                    &&& final(self)@ == old(self)@
                },
            }),
    {
        proof {
            use_type_invariant(&*self);
            use_type_invariant(rhs);
        }
        match check_compatible(&self.dim, &rhs.dim) {
            Ok(()) => {},
            Err(fault) => {
                return Err(fault);
            },
        }
        let size: usize = self.data.len();
        let mut i: usize = 0;
        while i < size
            invariant
                i <= size,
                size == self.data@.len(),
                size == rhs.data@.len(),
                size == old(self).data@.len(),
                self.dim == old(self).dim,
                size == element_count(self.dim@),
                can_add_all(old(self).data@, rhs.data@),
                forall|k: int|
                    0 <= k < i ==> is_sum(
                        old(self).data@[k],
                        rhs.data@[k],
                        #[trigger] self.data@[k],
                    ),
                forall|k: int| i <= k < size ==> self.data@[k] == old(self).data@[k],
            decreases size - i,
        {
            assert(can_add(old(self).data@[i as int], rhs.data@[i as int]));
            let sum: T = self.data[i] + rhs.data[i];
            self.data[i] = sum;
            i = i + 1;
        }
        proof {
            assert forall|c: Seq<usize>| in_bounds(rhs.dim()@, c) implies is_sum(
                old(self).element(c),
                rhs.element(c),
                #[trigger] self.element(c),
            ) by {
                lemma_offset_in_range(rhs.dim()@, c);
            }
        }
        Ok(())
    }

    /// `self += rhs` for a scalar `rhs`: replaces each element of `self` by
    /// its sum with `rhs`.
    pub fn add_assign_scalar(&mut self, rhs: T)
        requires
            can_add_scalar(old(self)@, rhs),
        ensures
            final(self).dim() == old(self).dim(),
            is_scalar_sum(old(self)@, rhs, final(self)@),
            forall|c: Seq<usize>|
                in_bounds(old(self).dim()@, c) ==> is_sum(
                    old(self).element(c),
                    rhs,
                    #[trigger] final(self).element(c),
                ),
    {
        proof {
            use_type_invariant(&*self);
        }
        let size: usize = self.data.len();
        let mut i: usize = 0;
        while i < size
            invariant
                i <= size,
                size == self.data@.len(),
                size == old(self).data@.len(),
                self.dim == old(self).dim,
                size == element_count(self.dim@),
                can_add_scalar(old(self).data@, rhs),
                forall|k: int|
                    0 <= k < i ==> is_sum(old(self).data@[k], rhs, #[trigger] self.data@[k]),
                forall|k: int| i <= k < size ==> self.data@[k] == old(self).data@[k],
            decreases size - i,
        {
            assert(can_add(old(self).data@[i as int], rhs));
            let sum: T = self.data[i] + rhs;
            self.data[i] = sum;
            i = i + 1;
        }
        proof {
            assert forall|c: Seq<usize>| in_bounds(self.dim()@, c) implies is_sum(
                old(self).element(c),
                rhs,
                #[trigger] self.element(c),
            ) by {
                lemma_offset_in_range(self.dim()@, c);
            }
        }
    }
}

impl<T: Scalar, const N: usize> Tensor<T, N> {
    /// `self + rhs`: the elementwise sum, built in the storage of `self`.
    pub fn add(self, rhs: &Tensor<T, N>) -> (res: Result<Tensor<T, N>, ShapeMismatch>)
        requires
            self.dim()@ == rhs.dim()@ ==> can_add_all(self@, rhs@),
        ensures
            (match res {
                Ok(sum) => {
                    &&& self.dim()@ == rhs.dim()@
                    &&& sum.dim() == self.dim()
                    &&& is_elementwise_sum(self@, rhs@, sum@)
                    &&& forall|c: Seq<usize>|
                        in_bounds(rhs.dim()@, c) ==> is_sum(
                            self.element(c),
                            rhs.element(c),
                            #[trigger] sum.element(c),
                        )
                },
                Err(fault) => fault.describes(self.dim()@, rhs.dim()@),
            }),
    {
        let mut sum = self;
        match sum.add_assign(rhs) {
            Ok(()) => Ok(sum),
            Err(fault) => Err(fault),
        }
    }

    /// `&self + rhs`: the elementwise sum as a new tensor, built in a copy
    /// of `self`. Both operands stay as they are.
    pub fn add_ref(&self, rhs: &Tensor<T, N>) -> (res: Result<Tensor<T, N>, ShapeMismatch>)
        requires
            self.dim()@ == rhs.dim()@ ==> can_add_all(self@, rhs@),
        ensures
            (match res {
                Ok(sum) => {
                    &&& self.dim()@ == rhs.dim()@
                    &&& sum.dim() == self.dim()
                    &&& is_elementwise_sum(self@, rhs@, sum@)
                    &&& forall|c: Seq<usize>|
                        in_bounds(rhs.dim()@, c) ==> is_sum(
                            self.element(c),
                            rhs.element(c),
                            #[trigger] sum.element(c),
                        )
                },
                Err(fault) => fault.describes(self.dim()@, rhs.dim()@),
            }),
    {
        let mut sum = self.clone();
        match sum.add_assign(rhs) {
            Ok(()) => Ok(sum),
            Err(fault) => Err(fault),
        }
    }

    /// `self + rhs` for a scalar `rhs`: each element increased by `rhs`,
    /// built in the storage of `self`.
    pub fn add_scalar(self, rhs: T) -> (sum: Tensor<T, N>)
        requires
            can_add_scalar(self@, rhs),
        ensures
            sum.dim() == self.dim(),
            is_scalar_sum(self@, rhs, sum@),
            forall|c: Seq<usize>|
                in_bounds(self.dim()@, c) ==> is_sum(
                    self.element(c),
                    rhs,
                    #[trigger] sum.element(c),
                ),
    {
        let mut sum = self;
        sum.add_assign_scalar(rhs);
        sum
    }
}

/// Write, then read: once `value` has been stored at `coord` through
/// [`Tensor::index_mut`], reading at `coord` gives `value`, and reading at
/// any other coordinate gives what was there before the write.
pub proof fn lemma_write_then_read<T, const N: usize>(
    before: Tensor<T, N>,
    after: Tensor<T, N>,
    coord: Seq<usize>,
    value: T,
    other: Seq<usize>,
)
    requires
        before.well_formed(),
        in_bounds(before.dim()@, coord),
        in_bounds(before.dim()@, other),
        after.dim() == before.dim(),
        after@ == before@.update(offset(before.dim()@, coord) as int, value),
    ensures
        after.element(coord) == value,
        other != coord ==> after.element(other) == before.element(other),
{
    lemma_offset_in_range(before.dim()@, coord);
    lemma_offset_in_range(before.dim()@, other);
    if other != coord {
        if offset(before.dim()@, other) == offset(before.dim()@, coord) {
            lemma_offset_injective(before.dim()@, other, coord);
        }
    }
}

/// A clone does not follow its source. Let `copy` be a clone of `source`,
/// and let `written` be what one of the two becomes when `value` is stored
/// in it at `coord`: the other one still holds, at every coordinate, what
/// both held before the write.
pub proof fn lemma_clone_then_write<T, const N: usize>(
    source: Tensor<T, N>,
    copy: Tensor<T, N>,
    written: Tensor<T, N>,
    coord: Seq<usize>,
    value: T,
    other: Seq<usize>,
)
    requires
        source.well_formed(),
        copy.dim() == source.dim(),
        copy@ == source@,
        in_bounds(source.dim()@, coord),
        in_bounds(source.dim()@, other),
        written.dim() == source.dim(),
        written@ == source@.update(offset(source.dim()@, coord) as int, value),
    ensures
        copy.element(other) == source.element(other),
        written.element(coord) == value,
        other != coord ==> written.element(other) == copy.element(other),
{
    lemma_write_then_read(source, written, coord, value, other);
}

/// The two groupings of `a + b + b` agree: whatever `(a + b) + b` may
/// evaluate to is what `a + (b + b)` evaluates to.
///
/// This need not hold of every element type: rounding, or an overflow in
/// `b + b`, can tell the groupings apart.
pub open spec fn groupings_agree<T: Scalar>(a: T, b: T) -> bool {
    forall|ab: T, ab_b: T, bb: T, a_bb: T|
        #![trigger is_sum(ab, b, ab_b), is_sum(a, bb, a_bb)]
        is_sum(a, b, ab) && is_sum(ab, b, ab_b) && is_sum(b, b, bb) && is_sum(a, bb, a_bb)
            ==> ab_b == a_bb
}

/// Adding `b` in place twice gives what adding `b + b` once gives, on
/// elements for which the two groupings of `a + b + b` agree: `twice` is
/// what `a += b; a += b` leaves in `a`, and `at_once` is what
/// `a += b + b` leaves there.
pub proof fn lemma_add_twice<T: Scalar>(
    a: Seq<T>,
    b: Seq<T>,
    once: Seq<T>,
    twice: Seq<T>,
    doubled: Seq<T>,
    at_once: Seq<T>,
)
    requires
        a.len() == b.len(),
        is_elementwise_sum(a, b, once),
        is_elementwise_sum(once, b, twice),
        is_elementwise_sum(b, b, doubled),
        is_elementwise_sum(a, doubled, at_once),
        forall|i: int| 0 <= i < a.len() ==> groupings_agree(#[trigger] a[i], b[i]),
    ensures
        twice == at_once,
{
    assert forall|i: int| 0 <= i < a.len() implies twice[i] == at_once[i] by {
        assert(groupings_agree(a[i], b[i]));
        assert(is_sum(a[i], b[i], once[i]));
        assert(is_sum(once[i], b[i], twice[i]));
        assert(is_sum(b[i], b[i], doubled[i]));
        assert(is_sum(a[i], doubled[i], at_once[i]));
    }
    assert(twice =~= at_once);
}

} // verus!
