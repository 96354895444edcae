//! The decoding engine of a small file-serving HTTP endpoint.
//!
//! Everything here works on plain byte values and is verified:
//! - [`request`]: the header block, found in bytes read in pieces of any
//!   size, and decoded into method, path, version and fields;
//! - [`reader`]: the retry policy of the connection reader;
//! - [`multipart`]: a resumable `multipart/form-data` upload decoder whose
//!   output is a function of the body alone;
//! - [`response`]: what a request asks for, and the response framing;
//! - [`listing`]: the entries of a directory listing page.
//!
//! Sockets, files, sleeps and threads are left to the caller.
pub mod bytes;
pub mod error;
pub mod fields;
pub mod listing;
pub mod multipart;
pub mod reader;
pub mod request;
pub mod response;
