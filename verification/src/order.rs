//! The three ways in which one value can stand to another.
use vstd::prelude::*;

verus! {

/// How one value stands to another.
#[derive(PartialEq, Eq, Structural, Debug, Clone, Copy)]
pub enum Order {
    Less,
    Equal,
    Greater,
}

} // verus!
