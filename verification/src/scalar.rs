//! Scalars: what the elements of a tensor can do, and how contracts speak
//! of their default value and of their sums.

use vstd::prelude::*;

verus! {

/// What a tensor asks of its elements: they are copied freely, they have a
/// default ("zero") value, and two of them can be added.
///
/// Every type with these three capabilities is a scalar.
pub trait Scalar: Copy + Default + core::ops::Add<Output = Self> {

}

impl<T: Copy + Default + core::ops::Add<Output = T>> Scalar for T {

}

/// `value` is a value that `T::default()` may return.
pub open spec fn is_default<T: Scalar>(value: T) -> bool {
    call_ensures(T::default, (), value)
}

/// `lhs + rhs` may be evaluated: the operands meet what `T`'s addition
/// requires (for the integer types, that the sum does not overflow).
pub open spec fn can_add<T: Scalar>(lhs: T, rhs: T) -> bool {
    call_requires(<T as core::ops::Add>::add, (lhs, rhs))
}

/// `sum` is a value that `lhs + rhs` may evaluate to.
///
/// Addition is a relation here, not a function: the element type decides
/// whether two evaluations of the same sum give the same value. For a type
/// whose `+` is specified as a function (the integer types), `sum` is that
/// function's value.
pub open spec fn is_sum<T: Scalar>(lhs: T, rhs: T, sum: T) -> bool {
    call_ensures(<T as core::ops::Add>::add, (lhs, rhs), sum)
}

} // verus!
