//! How a rendered segment should be shown.

use vstd::prelude::*;

verus! {

/// The state that a segment's color conveys.
#[derive(Debug, Clone, Copy, PartialEq, Eq, Structural)]
pub enum Color {
    Good,
    Mediocre,
    Bad,
}

} // verus!
