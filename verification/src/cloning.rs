//! Clones whose result is known to equal the value cloned.

use vstd::prelude::*;

verus! {

/// `T::clone` gives back a value equal to its argument.
pub open spec fn clone_is_exact<T: Clone>() -> bool {
    forall|a: T, b: T| #[trigger] vstd::pervasive::strictly_cloned(a, b) ==> a == b
}

/// A key type the caches can hold: it follows the hash-table key model of
/// `std::collections::HashMap` and its `clone` is exact.
pub open spec fn key_type_ok<K: Clone>() -> bool {
    vstd::std_specs::hash::obeys_key_model::<K>() && clone_is_exact::<K>()
}

/// Under `clone_is_exact`, a clone equals the value cloned.
pub(crate) fn exact_clone<T: Clone>(t: &T) -> (r: T)
    requires
        clone_is_exact::<T>(),
    ensures
        r == *t,
{
    let r = t.clone();
    assert(vstd::pervasive::strictly_cloned(*t, r));
    r
}

/// `b` is a clone of `a` where both are present, and both are absent
/// together.
pub open spec fn option_cloned<T: Clone>(a: Option<T>, b: Option<T>) -> bool {
    match (a, b) {
        (None, None) => true,
        (Some(x), Some(y)) => vstd::pervasive::cloned(x, y),
        _ => false,
    }
}

/// Under `clone_is_exact`, options that are clones of each other are equal.
pub proof fn lemma_option_cloned_exact<T: Clone>(a: Option<T>, b: Option<T>)
    requires
        clone_is_exact::<T>(),
        option_cloned(a, b),
    ensures
        a == b,
{
    if let (Some(x), Some(y)) = (a, b) {
        if vstd::pervasive::strictly_cloned(x, y) {
        }
    }
}

} // verus!
