//! A bundle of cards (an ordered set once it is filled in).

use vstd::prelude::*;

verus! {

/// A bundle of cards. Its contents are still to come.
#[derive(Debug, Default)]
pub struct Group;

} // verus!
