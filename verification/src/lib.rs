//! Verified core of a live mod bridge for a Flash player: request planning,
//! path grammar, base64 codec, JSON text helpers, freeze list and the
//! desktop HTTP bridge's state machine.
use vstd::prelude::*;

pub mod text;
pub mod base64;
pub mod json_text;
pub mod server;
pub mod http;
pub mod request;
pub mod paths;
pub mod lookup;
pub mod ops;
pub mod walk;

verus! {

} // verus!
