//! A comic reader's page ordering, bookkeeping and layout decisions.

use vstd::prelude::*;

pub mod book;
pub mod keys;
pub mod names;
pub mod natural;
pub mod pdf;
pub mod progress;
pub mod reading;
pub mod settings;
pub mod spread;
pub mod text;
pub mod tools;
pub mod worker;

verus! {

} // verus!
