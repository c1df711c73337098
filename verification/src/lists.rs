//! Lists of types that are held inline while they are short.
use smallvec::SmallVec;

use vstd::prelude::*;

use crate::types::Type;

verus! {

/// A list of types in a [`SmallVec`], which holds up to four of them inline.
#[verifier::external_body]
pub struct TypeList {
    types: SmallVec<[Type; 4]>,
}

/// The types that a list holds, in order.
pub uninterp spec fn listed(list: TypeList) -> Seq<Type>;

/// An empty list.
///
/// This is [`SmallVec::new`], of which it is claimed that the list holds nothing.
#[verifier::external_body]
pub(crate) fn empty_list() -> (list: TypeList)
    ensures
        listed(list) == Seq::<Type>::empty(),
{
    TypeList { types: SmallVec::new() }
}

/// Adds a type at the end of a list.
///
/// This is [`SmallVec::push`], of which it is claimed that what the list held stays where it is,
/// with the new type behind it.
#[verifier::external_body]
pub(crate) fn append(list: &mut TypeList, ty: Type)
    ensures
        listed(*final(list)) == listed(*old(list)).push(ty),
{
    list.types.push(ty)
}

/// The types of a list, as a vector.
///
/// This is [`SmallVec::into_vec`], of which it is claimed that the vector holds what the list held,
/// in the same order.
#[verifier::external_body]
pub(crate) fn into_vec(list: TypeList) -> (types: Vec<Type>)
    ensures
        types@ == listed(list),
{
    list.types.into_vec()
}

} // verus!
