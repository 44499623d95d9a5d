//! A minimal single-shot static-file responder.
//!
//! The library holds the verified logic of the server: locating the
//! `GET ` / ` HTTP/1.1` markers in a request, extracting the file path
//! between them, and planning what a connection handler should do with
//! the bytes it read. The unverified binary around it does the socket
//! and file work and consults this crate for every decision.

pub mod extract;
pub mod handler;
