use vstd::prelude::*;

pub mod wire;
pub mod text;
pub mod attach;
pub mod kernel;
pub mod host;
pub mod chip0;
pub mod viewport;
pub mod content;
pub mod look;
pub mod client;

verus! {

} // verus!
