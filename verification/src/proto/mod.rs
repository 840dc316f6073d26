//! The line protocol of the file-synchronisation server: requests are single
//! lines of text, and each answer is a single line.

use vstd::prelude::*;

pub mod codec;
pub mod line;
pub mod service;

verus! {

/// The server's protocol: lines framed by [`codec::LineCodec`] on a byte
/// stream, requests parsed by [`line::Request::parse`].
pub struct LineProto;

} // verus!
