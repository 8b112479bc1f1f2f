//! Per-stack byte totals, held in a persistent vector so that a snapshot of
//! all of them shares structure with the vector it was taken from instead
//! of copying it.
//!
//! The vector comes from the `im` crate. Nothing here is proved of it: each
//! function below states what the named `im` function does to the contents.

use vstd::prelude::*;

verus! {

#[verifier::external_type_specification]
#[verifier::external_body]
#[verifier::reject_recursive_types(A)]
pub struct ExVector<A>(im::Vector<A>);

/// The elements of a vector of totals, front to back.
pub uninterp spec fn vector_items(v: im::Vector<usize>) -> Seq<usize>;

/// `im::Vector::new`: a vector without elements.
#[verifier::external_body]
pub(crate) fn vector_new() -> (v: im::Vector<usize>)
    ensures
        vector_items(v) == Seq::<usize>::empty(),
{
    im::Vector::new()
}

/// `im::Vector::len`: the number of elements.
#[verifier::external_body]
pub(crate) fn vector_len(v: &im::Vector<usize>) -> (n: usize)
    ensures
        n == vector_items(*v).len(),
{
    v.len()
}

/// `im::Vector::push_back`: the same elements, then `value` as the last one.
#[verifier::external_body]
pub(crate) fn vector_push_back(v: &mut im::Vector<usize>, value: usize)
    ensures
        vector_items(*final(v)) == vector_items(*old(v)).push(value),
{
    v.push_back(value)
}

/// `Index::index` of `im::Vector`: the element at `index`. It panics on an
/// index past the end, which the precondition leaves out.
#[verifier::external_body]
pub(crate) fn vector_get(v: &im::Vector<usize>, index: usize) -> (value: usize)
    requires
        index < vector_items(*v).len(),
    ensures
        value == vector_items(*v)[index as int],
{
    v[index]
}

/// `IndexMut::index_mut` of `im::Vector`, assigned through: the element at
/// `index` becomes `value` and the others stay. It panics on an index past
/// the end, which the precondition leaves out.
#[verifier::external_body]
pub(crate) fn vector_set(v: &mut im::Vector<usize>, index: usize, value: usize)
    requires
        index < vector_items(*old(v)).len(),
    ensures
        vector_items(*final(v)) == vector_items(*old(v)).update(index as int, value),
{
    v[index] = value;
}

/// `Clone::clone_from` of `im::Vector`: the target takes the elements of the
/// source.
#[verifier::external_body]
pub(crate) fn vector_clone_from(target: &mut im::Vector<usize>, source: &im::Vector<usize>)
    ensures
        vector_items(*final(target)) == vector_items(*source),
{
    target.clone_from(source)
}

} // verus!
