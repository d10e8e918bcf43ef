use vstd::prelude::*;

mod bytes;
pub mod config;
pub mod constants;
pub mod directory;
pub mod effect;
pub mod endpoint;
pub mod error;
pub mod json;
pub mod laws;
pub mod model;
pub mod peer;
pub mod promises;
pub mod ratelimit;
pub mod readback;
pub mod room;
pub mod state;
pub mod text;
pub mod watch;
pub mod wire;

verus! {

} // verus!
