//! The wire protocol of a key-value store client: values, their encoding and
//! decoding, and a connection that sends commands and reads replies.
use vstd::prelude::*;

pub mod types;
pub mod model;
pub mod resp;
pub mod laws;
pub mod connection;
pub mod client;

pub use client::Client;
pub use connection::GenericConnection;
pub use resp::{RespReader, RespWriter};
pub use types::{Fault, RespError, RespReadError, RespValue, Value};

verus! {

} // verus!
