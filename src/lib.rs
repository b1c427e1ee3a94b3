use vstd::prelude::*;

pub mod api;
pub mod config;
pub mod events;
pub mod keygen;
pub mod links;
pub mod time;

verus! {

} // verus!
