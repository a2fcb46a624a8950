use vstd::prelude::*;

pub mod candidates;
pub mod numbers;
pub mod output;
pub mod registry;
pub mod sorted_map;
pub mod text;
pub mod version_order;
pub mod versioning;

verus! {
} // verus!
