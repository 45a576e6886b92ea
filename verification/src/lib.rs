use vstd::prelude::*;

pub mod text;
pub mod order;
pub mod table;
pub mod collector;
pub mod process;
pub mod sensors;
pub mod health;
pub mod insights;
pub mod history;

verus! {

} // verus!
