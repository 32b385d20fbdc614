//! The core of a reverse load balancer: peekable framing, HTTP/1.1
//! normalisation, chunked transfer coding, routing and flow-controlled body
//! proxying, with a small DNS packet codec beside it.
//!
//! What a function promises is stated in its contract and proved by Verus.
//! Where a function of another crate is called, a small wrapper makes the
//! call; its contract is taken on trust and says so.

pub mod body;
pub mod bridge;
pub mod chunked;
pub mod conn;
pub mod dispatch;
pub mod dns;
pub mod error;
pub mod http11;
pub mod limit;
pub mod peek;
pub mod persist;
pub mod respond;
pub mod serv_auth;
pub mod serv_conn;
pub mod service;
pub mod text;
pub mod util;
