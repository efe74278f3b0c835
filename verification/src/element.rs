//! What the containers ask of the values they hold.

use vstd::prelude::*;

verus! {

/// `value` is a value that `T::default()` may return.
pub open spec fn is_default<T: Default>(value: T) -> bool {
    call_ensures(T::default, (), value)
}

} // verus!
