//! What the servers decide: registration over HTTP, submission streams over TCP and the
//! feed over UDP.
pub mod http;
pub mod stream_laws;
pub mod tcp;
pub mod udp;
