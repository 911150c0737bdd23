//! Non-negative matrix factorisation.
use vstd::prelude::*;

verus! {

/// Takes no matrix and factors nothing.
pub fn nmf() {
}

} // verus!
