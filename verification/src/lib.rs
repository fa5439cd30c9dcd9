//! Verified core of the WRASM toolchain.
use vstd::prelude::*;

pub mod lines;
pub mod numeral;
pub mod selkie;
pub mod studio;
pub mod text;
pub mod text_laws;
pub mod was;
pub mod winkb;

verus! {

} // verus!
