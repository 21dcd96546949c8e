//! Connection dispatch and request handling for a family of small HTTP
//! benchmark servers: how many cores to use, which worker thread gets the
//! next accepted connection, what each request answers, and the bodies and
//! stream wrappers the servers hand to the HTTP stack.

pub mod cpus;
pub mod round_robin;
pub mod least_loaded;
pub mod requests;
pub mod body;
pub mod service;
