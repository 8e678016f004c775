use vstd::prelude::*;

pub mod text;
pub mod listing;
pub mod error;
pub mod paste;
pub mod web;
pub mod highlight;
pub mod markdown;
pub mod preview;
pub mod cache;

verus! {

} // verus!
