//! What a system that borrows nothing is handed.

use vstd::prelude::*;

verus! {

/// Stands for "no borrow" where `()` would clash with the absence of data.
#[derive(Clone, Copy, Debug, PartialEq, Eq, Structural)]
pub struct Nothing;

} // verus!
