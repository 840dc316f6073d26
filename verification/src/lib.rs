//! A small file-synchronisation service: the request language of the line
//! protocol, the framing of lines on a byte stream, the manifest of files and
//! their digests that the server keeps, and the decisions of the plain-TCP
//! client and server.

pub mod number;
pub mod client;
pub mod text;
pub mod proto;
pub mod sync;
