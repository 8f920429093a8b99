use vstd::prelude::*;

pub mod date;
pub mod decimal;
pub mod number_text;
pub mod observation;
pub mod pipeline;

verus! {

} // verus!
