//! Forcing the use of shell aliases: a command line is expanded with the
//! aliases it already uses, then shortened with every alias that applies; a
//! command that could have been typed shorter is refused with advice.
use vstd::prelude::*;

pub mod text;
pub mod util;
pub mod alias;
pub mod request_types;
pub mod properties;
pub mod judge;
pub mod registry;

verus! {

} // verus!
