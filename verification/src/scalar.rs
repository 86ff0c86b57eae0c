use vstd::prelude::*;
use vstd::std_specs::ops::{AddSpec, MulSpec};

verus! {

/// What a matrix entry must offer for arithmetic: it is copied freely, has a
/// default value that serves as zero, and can be added, subtracted and
/// multiplied. Every primitive numeric type is a scalar.
pub trait Scalar: Copy + Default + core::ops::Add<Output = Self> + core::ops::Sub<
    Output = Self,
> + core::ops::Mul<Output = Self> {

}

impl<
    T: Copy + Default + core::ops::Add<Output = T> + core::ops::Sub<Output = T> + core::ops::Mul<
        Output = T,
    >,
> Scalar for T {

}

/// `z` is a value that the scalar type gives as its zero.
pub open spec fn is_zero<T: Scalar>(z: T) -> bool {
    call_ensures(T::default, (), z)
}

/// The scalar type accepts the addition `a + b`.
pub open spec fn can_add<T: Scalar>(a: T, b: T) -> bool {
    call_requires(<T as core::ops::Add>::add, (a, b))
}

/// `r` is a value that the addition `a + b` may give.
pub open spec fn sum_of<T: Scalar>(a: T, b: T, r: T) -> bool {
    call_ensures(<T as core::ops::Add>::add, (a, b), r)
}

/// The scalar type accepts the subtraction `a - b`.
pub open spec fn can_subtract<T: Scalar>(a: T, b: T) -> bool {
    call_requires(<T as core::ops::Sub>::sub, (a, b))
}

/// `r` is a value that the subtraction `a - b` may give.
pub open spec fn difference_of<T: Scalar>(a: T, b: T, r: T) -> bool {
    call_ensures(<T as core::ops::Sub>::sub, (a, b), r)
}

/// The scalar type accepts the multiplication `a * b`.
pub open spec fn can_multiply<T: Scalar>(a: T, b: T) -> bool {
    call_requires(<T as core::ops::Mul>::mul, (a, b))
}

/// `r` is a value that the multiplication `a * b` may give.
pub open spec fn product_of<T: Scalar>(a: T, b: T, r: T) -> bool {
    call_ensures(<T as core::ops::Mul>::mul, (a, b), r)
}

/// The three elementwise operations.
#[derive(Clone, Copy, Debug, PartialEq, Eq, Structural)]
pub enum Operation {
    Add,
    Subtract,
    Multiply,
}

impl Operation {
    /// The scalar type accepts this operation on `a` and `b`.
    pub open spec fn admits<T: Scalar>(self, a: T, b: T) -> bool {
        match self {
            Operation::Add => can_add(a, b),
            Operation::Subtract => can_subtract(a, b),
            Operation::Multiply => can_multiply(a, b),
        }
    }

    /// `r` is a value that this operation may give on `a` and `b`.
    pub open spec fn yields<T: Scalar>(self, a: T, b: T, r: T) -> bool {
        match self {
            Operation::Add => sum_of(a, b, r),
            Operation::Subtract => difference_of(a, b, r),
            Operation::Multiply => product_of(a, b, r),
        }
    }

    /// Applies the operation to one pair of scalars.
    pub fn apply<T: Scalar>(self, a: T, b: T) -> (r: T)
        requires
            self.admits(a, b),
        ensures
            self.yields(a, b, r),
    {
        match self {
            Operation::Add => a + b,
            Operation::Subtract => a - b,
            Operation::Multiply => a * b,
        }
    }
}

/// The scalar type accepts every addition, subtraction and multiplication,
/// as the floating-point types do.
pub open spec fn total<T: Scalar>() -> bool {
    &&& forall|a: T, b: T| #[trigger] can_add(a, b)
    &&& forall|a: T, b: T| #[trigger] can_subtract(a, b)
    &&& forall|a: T, b: T| #[trigger] can_multiply(a, b)
}

/// The zero of the scalar type, where the type fixes one.
pub open spec fn zero<T: Scalar>() -> T {
    choose|z: T| is_zero(z)
}

/// The scalar type computes exactly: its zero is a single value, and its
/// sums and products are functions of their operands.
pub open spec fn exact<T: Scalar>() -> bool {
    &&& T::obeys_add_spec()
    &&& T::obeys_mul_spec()
    &&& forall|z: T| #[trigger] is_zero(z) ==> z == zero::<T>()
}

/// Addition of scalars is commutative.
pub open spec fn addition_commutes<T: Scalar>() -> bool {
    forall|a: T, b: T| #[trigger] a.add_spec(b) == b.add_spec(a)
}

/// Addition of scalars is associative.
pub open spec fn addition_associates<T: Scalar>() -> bool {
    forall|a: T, b: T, c: T| #[trigger] a.add_spec(b).add_spec(c) == a.add_spec(b.add_spec(c))
}

/// Adding zero, on either side, changes nothing.
pub open spec fn zero_is_neutral<T: Scalar>() -> bool {
    forall|a: T|
        #![trigger a.add_spec(zero::<T>())]
        #![trigger zero::<T>().add_spec(a)]
        a.add_spec(zero::<T>()) == a && zero::<T>().add_spec(a) == a
}

/// The scalars form a commutative monoid under addition, so that a sum does
/// not depend on the order in which its terms are added.
pub open spec fn sums_reorder<T: Scalar>() -> bool {
    addition_commutes::<T>() && addition_associates::<T>() && zero_is_neutral::<T>()
}

/// Multiplication of scalars is associative.
pub open spec fn multiplication_associates<T: Scalar>() -> bool {
    forall|a: T, b: T, c: T| #[trigger] a.mul_spec(b).mul_spec(c) == a.mul_spec(b.mul_spec(c))
}

/// Multiplication distributes over addition on both sides, and a product
/// with zero is zero.
pub open spec fn multiplication_distributes<T: Scalar>() -> bool {
    &&& forall|a: T, b: T, c: T| #[trigger]
        a.mul_spec(b.add_spec(c)) == a.mul_spec(b).add_spec(a.mul_spec(c))
    &&& forall|a: T, b: T, c: T| #[trigger]
        a.add_spec(b).mul_spec(c) == a.mul_spec(c).add_spec(b.mul_spec(c))
    &&& forall|a: T| #[trigger] a.mul_spec(zero::<T>()) == zero::<T>()
    &&& forall|a: T| #[trigger] zero::<T>().mul_spec(a) == zero::<T>()
}

/// The scalars form a semiring: sums reorder, and multiplication is
/// associative and distributes over addition.
pub open spec fn semiring<T: Scalar>() -> bool {
    sums_reorder::<T>() && multiplication_associates::<T>() && multiplication_distributes::<T>()
}

} // verus!
