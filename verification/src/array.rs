//! The arrays and the few numeric helpers that come from outside this
//! crate.
//!
//! Costs are kept in a one-dimensional `ndarray` array of `i64`, roots and
//! labels in one of `usize`. Verus sees nothing inside either: what they hold
//! is named by `array_items` and `index_items`, and every access goes through
//! one of the wrappers below, whose contracts are taken on trust from the
//! source of `ndarray`, `ndarray-stats` and `num-traits`.

use vstd::prelude::*;
use ndarray_stats::QuantileExt;
use num_traits::{Bounded, ToPrimitive, Zero};

verus! {

/// A one-dimensional array of `i64`, kept in an `ndarray::Array1<i64>`.
#[verifier::external_body]
pub struct IntArray {
    data: ndarray::Array1<i64>,
}

/// The elements of the array, in index order.
pub uninterp spec fn array_items(a: IntArray) -> Seq<i64>;

impl View for IntArray {
    type V = Seq<i64>;

    open spec fn view(&self) -> Seq<i64> {
        array_items(*self)
    }
}

/// `ndarray::Array1::from_vec`: the array takes over the vector, so it holds
/// the vector's elements in their order. It panics only on a vector of more
/// than `isize::MAX` elements, which a vector of `i64` cannot be.
#[verifier::external_body]
fn array_from_vec(v: Vec<i64>) -> (a: IntArray)
    ensures
        array_items(a) == v@,
{
    IntArray { data: ndarray::Array1::from_vec(v) }
}

/// `ndarray::ArrayBase::to_vec`: a vector of the array's elements in their
/// order.
#[verifier::external_body]
fn array_to_vec(a: &IntArray) -> (v: Vec<i64>)
    ensures
        v@ == array_items(*a),
{
    a.data.to_vec()
}

/// `ndarray::ArrayBase::len`: the number of elements. An `ndarray` array
/// holds `isize::MAX` elements at most.
#[verifier::external_body]
fn array_len(a: &IntArray) -> (n: usize)
    ensures
        n == array_items(*a).len(),
        n <= isize::MAX,
{
    a.data.len()
}

/// Indexing an `ndarray` array by `usize`: the element at `i`. It panics
/// out of bounds, which the precondition leaves out.
#[verifier::external_body]
fn array_get(a: &IntArray, i: usize) -> (value: i64)
    requires
        i < array_items(*a).len(),
    ensures
        value == array_items(*a)[i as int],
{
    a.data[i]
}

/// Assigning through the index of an `ndarray` array: the element at `i`
/// becomes `value` and no other changes. It panics out of bounds, which the
/// precondition leaves out.
#[verifier::external_body]
fn array_set(a: &mut IntArray, i: usize, value: i64)
    requires
        i < array_items(*old(a)).len(),
    ensures
        array_items(*final(a)) == array_items(*old(a)).update(i as int, value),
{
    a.data[i] = value;
}

/// `ndarray::ArrayBase::mapv` with the addition of `h`: an array of the same
/// length whose element at `i` is that of `a` plus `h`. The precondition
/// keeps every sum inside `i64`.
#[verifier::external_body]
fn array_plus(a: &IntArray, h: i64) -> (sums: IntArray)
    requires
        forall|i: int|
            0 <= i < array_items(*a).len() ==> i64::MIN <= (#[trigger] array_items(*a)[i]) + h
                <= i64::MAX,
    ensures
        array_items(sums).len() == array_items(*a).len(),
        forall|i: int|
            0 <= i < array_items(*a).len() ==> #[trigger] array_items(sums)[i] == array_items(
                *a,
            )[i] + h,
{
    IntArray { data: a.data.mapv(|x| plus(x, h)) }
}

/// `ndarray_stats::QuantileExt::max` on integers: nothing for an empty array,
/// else an element that no other exceeds.
#[verifier::external_body]
fn array_max(a: &IntArray) -> (largest: Option<i64>)
    ensures
        largest is None <==> array_items(*a).len() == 0,
        largest matches Some(m) ==> array_items(*a).contains(m) && forall|i: int|
            0 <= i < array_items(*a).len() ==> array_items(*a)[i] <= m,
{
    a.data.max().ok().copied()
}

/// A one-dimensional array of indices, kept in an `ndarray::Array1<usize>`.
#[verifier::external_body]
pub struct IndexArray {
    data: ndarray::Array1<usize>,
}

/// The elements of the array, in index order.
pub uninterp spec fn index_items(a: IndexArray) -> Seq<usize>;

impl View for IndexArray {
    type V = Seq<usize>;

    open spec fn view(&self) -> Seq<usize> {
        index_items(*self)
    }
}

/// `ndarray::Array1::from_shape_vec` with a shape of one axis of length
/// `size`: the array of the vector's elements in their order where `size` is
/// the vector's length, and an error, here nothing, where it is not.
#[verifier::external_body]
fn indices_from_shape_vec(size: usize, v: Vec<usize>) -> (a: Option<IndexArray>)
    ensures
        match a {
            Some(array) => size == v@.len() && index_items(array) == v@,
            None => size != v@.len(),
        },
{
    match ndarray::Array1::from_shape_vec(ndarray::Ix1(size), v) {
        Ok(data) => Some(IndexArray { data }),
        Err(_) => None,
    }
}

/// `ndarray::ArrayBase::to_vec` on an array of indices: a vector of the
/// array's elements in their order.
#[verifier::external_body]
fn indices_to_vec(a: &IndexArray) -> (v: Vec<usize>)
    ensures
        v@ == index_items(*a),
{
    a.data.to_vec()
}

/// Indexing an `ndarray` array of indices by `usize`: the element at `i`. It
/// panics out of bounds, which the precondition leaves out.
#[verifier::external_body]
fn indices_get(a: &IndexArray, i: usize) -> (value: usize)
    requires
        i < index_items(*a).len(),
    ensures
        value == index_items(*a)[i as int],
{
    a.data[i]
}

/// Assigning through the index of an `ndarray` array of indices: the
/// element at `i` becomes `value` and no other changes. It panics out of
/// bounds, which the precondition leaves out.
#[verifier::external_body]
fn indices_set(a: &mut IndexArray, i: usize, value: usize)
    requires
        i < index_items(*old(a)).len(),
    ensures
        index_items(*final(a)) == index_items(*old(a)).update(i as int, value),
{
    a.data[i] = value;
}

/// `num_traits::ToPrimitive::to_usize` on `i64`: the same number where it is
/// not negative and fits in `usize`, else nothing.
#[verifier::external_body]
pub(crate) fn to_usize(value: i64) -> (converted: Option<usize>)
    ensures
        0 <= value <= usize::MAX ==> converted == Some(value as usize),
        !(0 <= value <= usize::MAX) ==> converted is None,
{
    value.to_usize()
}

/// `num_traits::Bounded::min_value` for `i64`: the least `i64`.
#[verifier::external_body]
pub(crate) fn min_value() -> (least: i64)
    ensures
        least == i64::MIN,
{
    <i64 as Bounded>::min_value()
}

/// `num_traits::Zero::zero` for `i64`.
#[verifier::external_body]
pub(crate) fn zero() -> (z: i64)
    ensures
        z == 0,
{
    <i64 as Zero>::zero()
}

/// The sum of a cost and a margin.
pub fn plus(x: i64, h: i64) -> (sum: i64)
    requires
        i64::MIN <= x + h <= i64::MAX,
    ensures
        sum == x + h,
{
    x + h
}

impl IntArray {
    /// The array that holds the elements of `v`, in their order.
    pub fn from_vec(v: Vec<i64>) -> (a: Self)
        ensures
            a@ == v@,
    {
        array_from_vec(v)
    }

    /// The elements, in their order.
    pub fn to_vec(&self) -> (v: Vec<i64>)
        ensures
            v@ == self@,
    {
        array_to_vec(self)
    }

    /// The number of elements, `isize::MAX` at most.
    pub fn len(&self) -> (n: usize)
        ensures
            n == self@.len(),
            n <= isize::MAX,
    {
        array_len(self)
    }

    /// The element at `i`.
    pub fn get(&self, i: usize) -> (value: i64)
        requires
            i < self@.len(),
        ensures
            value == self@[i as int],
    {
        array_get(self, i)
    }

    /// Puts `value` at `i`.
    pub fn set(&mut self, i: usize, value: i64)
        requires
            i < old(self)@.len(),
        ensures
            final(self)@ == old(self)@.update(i as int, value),
    {
        array_set(self, i, value)
    }

    /// The array of the elements of `self`, each with `h` added.
    pub fn plus(&self, h: i64) -> (sums: Self)
        requires
            forall|i: int|
                0 <= i < self@.len() ==> i64::MIN <= (#[trigger] self@[i]) + h <= i64::MAX,
        ensures
            sums@.len() == self@.len(),
            forall|i: int| 0 <= i < self@.len() ==> #[trigger] sums@[i] == self@[i] + h,
    {
        assert forall|i: int| 0 <= i < array_items(*self).len() implies i64::MIN <= (
        #[trigger] array_items(*self)[i]) + h <= i64::MAX by {
            assert(self@[i] == array_items(*self)[i]);
        }
        array_plus(self, h)
    }

    /// The largest element, or nothing where there is none.
    pub fn max(&self) -> (largest: Option<i64>)
        ensures
            largest is None <==> self@.len() == 0,
            largest matches Some(m) ==> self@.contains(m) && forall|i: int|
                0 <= i < self@.len() ==> self@[i] <= m,
    {
        array_max(self)
    }
}

impl IndexArray {
    /// The array of one axis of length `size` that holds the elements of `v`
    /// in their order, or nothing where `v` has another length.
    pub fn from_shape_vec(size: usize, v: Vec<usize>) -> (a: Option<Self>)
        ensures
            match a {
                Some(array) => size == v@.len() && array@ == v@,
                None => size != v@.len(),
            },
    {
        indices_from_shape_vec(size, v)
    }

    /// The elements, in their order.
    pub fn to_vec(&self) -> (v: Vec<usize>)
        ensures
            v@ == self@,
    {
        indices_to_vec(self)
    }

    /// The element at `i`.
    pub fn get(&self, i: usize) -> (value: usize)
        requires
            i < self@.len(),
        ensures
            value == self@[i as int],
    {
        indices_get(self, i)
    }

    /// Puts `value` at `i`.
    pub fn set(&mut self, i: usize, value: usize)
        requires
            i < old(self)@.len(),
        ensures
            final(self)@ == old(self)@.update(i as int, value),
    {
        indices_set(self, i, value)
    }
}

} // verus!
