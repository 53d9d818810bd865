use vstd::prelude::*;

pub mod actor;
pub mod client;
pub mod error;
pub mod message;
pub mod peer;
pub mod types;
pub mod utils;

verus! {
} // verus!
